use vstd::prelude::*;

verus! {

/// The character of the decimal digit `d` (`0 <= d < 10`).
pub open spec fn digit_char(d: int) -> char {
    (48 + d) as char
}

/// The decimal digits of `n`, most significant first, without leading zeros.
pub open spec fn decimal_digits(n: nat) -> Seq<char>
    decreases n,
{
    if n < 10 {
        seq![digit_char(n as int)]
    } else {
        decimal_digits(n / 10).push(digit_char((n % 10) as int))
    }
}

/// How Rust's `Display` writes the integer `n`.
pub open spec fn decimal(n: int) -> Seq<char> {
    if n < 0 {
        seq!['-'] + decimal_digits((-n) as nat)
    } else {
        decimal_digits(n as nat)
    }
}

fn digit_str(d: u64) -> (s: &'static str)
    requires
        d < 10,
    ensures
        s@ == seq![digit_char(d as int)],
{
    proof {
        reveal_strlit("0");
        reveal_strlit("1");
        reveal_strlit("2");
        reveal_strlit("3");
        reveal_strlit("4");
        reveal_strlit("5");
        reveal_strlit("6");
        reveal_strlit("7");
        reveal_strlit("8");
        reveal_strlit("9");
    }
    if d == 0 {
        "0"
    } else if d == 1 {
        "1"
    } else if d == 2 {
        "2"
    } else if d == 3 {
        "3"
    } else if d == 4 {
        "4"
    } else if d == 5 {
        "5"
    } else if d == 6 {
        "6"
    } else if d == 7 {
        "7"
    } else if d == 8 {
        "8"
    } else {
        "9"
    }
}

pub(crate) fn push_digits(s: &mut String, n: u64)
    ensures
        final(s)@ == old(s)@ + decimal_digits(n as nat),
    decreases n,
{
    if n >= 10 {
        push_digits(s, n / 10);
    }
    s.append(digit_str(n % 10));
}

/// Writes `n` in decimal, as `Display` does for integers.
pub fn decimal_string_u64(n: u64) -> (s: String)
    ensures
        s@ == decimal(n as int),
{
    let mut s = String::new();
    push_digits(&mut s, n);
    s
}

/// Writes `n` in decimal, as `Display` does for integers.
pub fn decimal_string(n: i64) -> (s: String)
    ensures
        s@ == decimal(n as int),
{
    let mut s = String::new();
    if n < 0 {
        proof {
            reveal_strlit("-");
        }
        s.append("-");
        let magnitude: u64 = ((-(n + 1)) as u64) + 1;
        push_digits(&mut s, magnitude);
    } else {
        push_digits(&mut s, n as u64);
    }
    s
}


/// Unicode `White_Space`, which is what `char::is_whitespace` tests.
pub open spec fn is_whitespace(c: char) -> bool {
    let u = c as u32;
    ||| 9 <= u <= 13
    ||| u == 32
    ||| u == 0x85
    ||| u == 0xA0
    ||| u == 0x1680
    ||| 0x2000 <= u <= 0x200A
    ||| u == 0x2028
    ||| u == 0x2029
    ||| u == 0x202F
    ||| u == 0x205F
    ||| u == 0x3000
}

/// The maximal runs of non-whitespace characters of `s`, in order: what
/// `str::split_whitespace` yields.
pub open spec fn fields(s: Seq<char>) -> Seq<Seq<char>>
    decreases s.len(),
{
    if s.len() == 0 {
        Seq::empty()
    } else {
        let rest = fields(s.drop_first());
        if is_whitespace(s[0]) {
            rest
        } else if s.len() > 1 && !is_whitespace(s[1]) {
            rest.update(0, seq![s[0]] + rest[0])
        } else {
            seq![seq![s[0]]] + rest
        }
    }
}

/// Where the last `") "` of `s` starts, as `str::rfind(") ")` finds it.
pub open spec fn last_marker(s: Seq<char>) -> Option<int>
    decreases s.len(),
{
    if s.len() < 2 {
        None
    } else if s[s.len() - 2] == ')' && s[s.len() - 1] == ' ' {
        Some(s.len() - 2)
    } else {
        last_marker(s.drop_last())
    }
}

pub open spec fn is_digit(c: char) -> bool {
    48 <= c as u32 <= 57
}

pub open spec fn all_digits(s: Seq<char>) -> bool {
    forall|i: int| 0 <= i < s.len() ==> #[trigger] is_digit(s[i])
}

/// The value of a run of decimal digits.
pub open spec fn digits_value(s: Seq<char>) -> int
    decreases s.len(),
{
    if s.len() == 0 {
        0
    } else {
        digits_value(s.drop_last()) * 10 + (s.last() as u32 - 48)
    }
}

/// What `str::parse::<i32>` gives: an optional sign, then at least one
/// decimal digit and nothing else, with a value that fits.
pub open spec fn parse_i32(s: Seq<char>) -> Option<i32> {
    if s.len() == 0 {
        None
    } else {
        let signed = s[0] == '-' || s[0] == '+';
        let ds = if signed { s.drop_first() } else { s };
        let v = if s[0] == '-' { -digits_value(ds) } else { digits_value(ds) };
        if ds.len() == 0 || !all_digits(ds) || v < i32::MIN || v > i32::MAX {
            None
        } else {
            Some(v as i32)
        }
    }
}

/// The niceness in the contents of `/proc/<pid>/stat`: the seventeenth
/// field after the last `") "`, which ends the command name.
pub open spec fn stat_nice(stat: Seq<char>) -> Option<i32> {
    match last_marker(stat) {
        None => None,
        Some(i) => {
            let f = fields(stat.skip(i + 2));
            if f.len() > 16 {
                parse_i32(f[16])
            } else {
                None
            }
        },
    }
}

proof fn lemma_digits_value_nonneg(s: Seq<char>)
    requires
        all_digits(s),
    ensures
        digits_value(s) >= 0,
    decreases s.len(),
{
    if s.len() > 0 {
        assert(is_digit(s[s.len() - 1]));
        lemma_digits_value_nonneg(s.drop_last());
    }
}

proof fn lemma_digits_value_grows(s: Seq<char>, k: int)
    requires
        all_digits(s),
        0 <= k <= s.len(),
    ensures
        digits_value(s) >= digits_value(s.take(k)),
    decreases s.len(),
{
    if k < s.len() {
        assert(is_digit(s[s.len() - 1]));
        lemma_digits_value_nonneg(s.drop_last());
        assert(s.drop_last().take(k) =~= s.take(k));
        lemma_digits_value_grows(s.drop_last(), k);
    } else {
        assert(s.take(k) =~= s);
    }
}

fn is_whitespace_char(c: char) -> (b: bool)
    ensures
        b == is_whitespace(c),
{
    let u = c as u32;
    (9 <= u && u <= 13) || u == 32 || u == 0x85 || u == 0xA0 || u == 0x1680 || (0x2000 <= u
        && u <= 0x200A) || u == 0x2028 || u == 0x2029 || u == 0x202F || u == 0x205F || u
        == 0x3000
}

/// The characters of `s`, in order.
pub fn chars_of(s: &str) -> (v: Vec<char>)
    ensures
        v@ == s@,
{
    let mut v: Vec<char> = Vec::new();
    for c in it: s.chars()
        invariant
            v@ == it.seq().take(it.index() as int),
    {
        v.push(c);
    }
    v
}

fn last_marker_in(cs: &Vec<char>) -> (r: Option<usize>)
    ensures
        match r {
            None => last_marker(cs@) is None,
            Some(i) => last_marker(cs@) == Some(i as int) && i + 2 <= cs.len(),
        },
{
    let mut n: usize = cs.len();
    assert(cs@.take(n as int) =~= cs@);
    while n >= 2
        invariant
            n <= cs.len(),
            last_marker(cs@) == last_marker(cs@.take(n as int)),
        decreases n,
    {
        let ghost t = cs@.take(n as int);
        if cs[n - 2] == ')' && cs[n - 1] == ' ' {
            return Some(n - 2);
        }
        assert(t.drop_last() =~= cs@.take(n - 1));
        n = n - 1;
    }
    None
}

/// Parses `cs[lo..hi]` as `str::parse::<i32>` does.
fn parse_i32_in(cs: &Vec<char>, lo: usize, hi: usize) -> (r: Option<i32>)
    requires
        lo <= hi <= cs.len(),
    ensures
        r == parse_i32(cs@.subrange(lo as int, hi as int)),
{
    let ghost s = cs@.subrange(lo as int, hi as int);
    if lo == hi {
        return None;
    }
    let negative = cs[lo] == '-';
    let start: usize = if cs[lo] == '-' || cs[lo] == '+' {
        lo + 1
    } else {
        lo
    };
    let ghost ds = cs@.subrange(start as int, hi as int);
    assert(ds =~= (if s[0] == '-' || s[0] == '+' { s.drop_first() } else { s }));
    if start == hi {
        return None;
    }
    let mut v: i64 = 0;
    let mut i: usize = start;
    while i < hi
        invariant
            start <= i <= hi <= cs.len(),
            ds == cs@.subrange(start as int, hi as int),
            s == cs@.subrange(lo as int, hi as int),
            s.len() > 0,
            ds == (if s[0] == '-' || s[0] == '+' { s.drop_first() } else { s }),
            negative == (s[0] == '-'),
            all_digits(ds.take(i - start)),
            v == digits_value(ds.take(i - start)),
            0 <= v <= 2147483648,
        decreases hi - i,
    {
        let c = cs[i];
        let u = c as u32;
        assert(ds[i - start] == c);
        if !(48 <= u && u <= 57) {
            assert(!is_digit(ds[i - start]));
            return None;
        }
        let ghost prefix = ds.take(i - start + 1);
        assert(prefix.drop_last() =~= ds.take(i - start));
        v = v * 10 + (u as i64 - 48);
        assert forall|k: int| 0 <= k < prefix.len() implies #[trigger] is_digit(prefix[k]) by {
            if k < prefix.len() - 1 {
                assert(prefix[k] == ds.take(i - start)[k]);
            }
        }
        if v > 2147483648 {
            proof {
                if all_digits(ds) {
                    lemma_digits_value_grows(ds, i - start + 1);
                }
            }
            return None;
        }
        i = i + 1;
    }
    assert(ds.take(hi - start) =~= ds);
    if negative {
        Some((-v) as i32)
    } else if v > 2147483647 {
        None
    } else {
        Some(v as i32)
    }
}

/// Where each field of `cs[lo..]` starts and ends, as `fields` gives them.
fn field_bounds(cs: &Vec<char>, lo: usize) -> (b: Vec<(usize, usize)>)
    requires
        lo <= cs.len(),
    ensures
        b.len() == fields(cs@.skip(lo as int)).len(),
        forall|k: int|
            0 <= k < b.len() ==> {
                &&& lo <= (#[trigger] b[k]).0 < b[k].1 <= cs.len()
                &&& cs@.subrange(b[k].0 as int, b[k].1 as int) == fields(cs@.skip(lo as int))[k]
            },
{
    let mut b: Vec<(usize, usize)> = Vec::new();
    let mut i: usize = cs.len();
    assert(cs@.skip(i as int) =~= Seq::<char>::empty());
    while i > lo
        invariant
            lo <= i <= cs.len(),
            b.len() == fields(cs@.skip(i as int)).len(),
            forall|k: int|
                0 <= k < b.len() ==> {
                    &&& i <= (#[trigger] b[k]).0 < b[k].1 <= cs.len()
                    &&& cs@.subrange(b[k].0 as int, b[k].1 as int) == fields(
                        cs@.skip(i as int),
                    )[k]
                },
            i < cs.len() && !is_whitespace(cs[i as int]) ==> b.len() > 0 && b[0].0 == i,
        decreases i,
    {
        let ghost old_b = b@;
        let ghost rest = fields(cs@.skip(i as int));
        i = i - 1;
        let ghost s = cs@.skip(i as int);
        assert(s.drop_first() =~= cs@.skip(i + 1));
        assert(s[0] == cs[i as int]);
        if is_whitespace_char(cs[i]) {
        } else if i + 1 < cs.len() && !is_whitespace_char(cs[i + 1]) {
            assert(s[1] == cs[i + 1]);
            let end = b[0].1;
            b.set(0, (i, end));
            assert(cs@.subrange(i as int, end as int) =~= seq![s[0]] + cs@.subrange(
                (i + 1) as int,
                end as int,
            ));
            assert(fields(s) == rest.update(0, seq![s[0]] + rest[0]));
        } else {
            b.insert(0, (i, i + 1));
            assert(cs@.subrange(i as int, (i + 1) as int) =~= seq![s[0]]);
            assert(fields(s) == seq![seq![s[0]]] + rest);
            assert forall|k: int| 0 < k < b.len() implies #[trigger] b[k] == old_b[k - 1] by {}
        }
    }
    b
}

/// The niceness recorded in the contents of a `/proc/<pid>/stat` file,
/// if it is there and readable as an `i32`.
pub fn process_nice(stat: &str) -> (r: Option<i32>)
    ensures
        r == stat_nice(stat@),
{
    let cs = chars_of(stat);
    match last_marker_in(&cs) {
        None => None,
        Some(i) => {
            let b = field_bounds(&cs, i + 2);
            if b.len() > 16 {
                parse_i32_in(&cs, b[16].0, b[16].1)
            } else {
                None
            }
        },
    }
}

} // verus!
