use vstd::prelude::*;

use crate::models::ProcessSnapshot;

verus! {

/// `p` placed into `s` after every entry whose CPU share is at least its own.
pub open spec fn insert_by_cpu(s: Seq<ProcessSnapshot>, p: ProcessSnapshot) -> Seq<ProcessSnapshot>
    decreases s.len(),
{
    if s.len() == 0 {
        seq![p]
    } else if s[0].cpu_percent_x100 >= p.cpu_percent_x100 {
        seq![s[0]] + insert_by_cpu(s.drop_first(), p)
    } else {
        seq![p] + s
    }
}

/// `s` ordered by CPU share, highest first; processes with equal shares keep
/// their order in `s` (a stable sort).
pub open spec fn by_cpu_desc(s: Seq<ProcessSnapshot>) -> Seq<ProcessSnapshot>
    decreases s.len(),
{
    if s.len() == 0 {
        s
    } else {
        insert_by_cpu(by_cpu_desc(s.drop_last()), s.last())
    }
}

/// The first `n` entries of `s`, or all of `s` when it is shorter.
pub open spec fn first_n<A>(s: Seq<A>, n: int) -> Seq<A> {
    if n < s.len() {
        s.take(n)
    } else {
        s
    }
}

pub open spec fn sorted_by_cpu_desc(s: Seq<ProcessSnapshot>) -> bool {
    forall|i: int, j: int|
        #![trigger s[i], s[j]]
        0 <= i < j < s.len() ==> s[i].cpu_percent_x100 >= s[j].cpu_percent_x100
}

proof fn lemma_insert_at(s: Seq<ProcessSnapshot>, p: ProcessSnapshot, k: int)
    requires
        0 <= k <= s.len(),
        forall|j: int| 0 <= j < k ==> s[j].cpu_percent_x100 >= p.cpu_percent_x100,
        k < s.len() ==> s[k].cpu_percent_x100 < p.cpu_percent_x100,
    ensures
        insert_by_cpu(s, p) == s.insert(k, p),
    decreases k,
{
    if k == 0 {
        assert(s.insert(0, p) =~= seq![p] + s);
    } else {
        let t = s.drop_first();
        assert forall|j: int| 0 <= j < k - 1 implies t[j].cpu_percent_x100
            >= p.cpu_percent_x100 by {
            assert(t[j] == s[j + 1]);
        }
        if k - 1 < t.len() {
            assert(t[k - 1] == s[k]);
        }
        lemma_insert_at(t, p, k - 1);
        assert(s.insert(k, p) =~= seq![s[0]] + t.insert(k - 1, p));
    }
}

proof fn lemma_insert_keeps_sorted(s: Seq<ProcessSnapshot>, p: ProcessSnapshot)
    requires
        sorted_by_cpu_desc(s),
    ensures
        sorted_by_cpu_desc(insert_by_cpu(s, p)),
        insert_by_cpu(s, p).to_multiset() == s.to_multiset().insert(p),
        insert_by_cpu(s, p).len() == s.len() + 1,
    decreases s.len(),
{
    broadcast use vstd::seq_lib::group_to_multiset_ensures;

    let r = insert_by_cpu(s, p);
    if s.len() == 0 {
        assert(r =~= seq![p]);
        assert(seq![p] =~= Seq::<ProcessSnapshot>::empty().push(p));
    } else if s[0].cpu_percent_x100 >= p.cpu_percent_x100 {
        let t = s.drop_first();
        assert forall|i: int, j: int| 0 <= i < j < t.len() implies t[i].cpu_percent_x100
            >= t[j].cpu_percent_x100 by {
            assert(t[i] == s[i + 1] && t[j] == s[j + 1]);
        }
        lemma_insert_keeps_sorted(t, p);
        let rt = insert_by_cpu(t, p);
        assert(r == seq![s[0]] + rt);
        assert forall|j: int| 0 <= j < rt.len() implies s[0].cpu_percent_x100
            >= #[trigger] rt[j].cpu_percent_x100 by {
            assert(rt.to_multiset().contains(rt[j]));
            assert(rt.contains(rt[j]));
            if rt[j] != p {
                assert(t.to_multiset().contains(rt[j]));
                assert(t.contains(rt[j]));
                let m = choose|m: int| 0 <= m < t.len() && t[m] == rt[j];
                assert(t[m] == s[m + 1]);
            }
        }
        assert forall|i: int, j: int| 0 <= i < j < r.len() implies r[i].cpu_percent_x100
            >= r[j].cpu_percent_x100 by {
            if i == 0 {
                assert(r[j] == rt[j - 1]);
            } else {
                assert(r[i] == rt[i - 1] && r[j] == rt[j - 1]);
            }
        }
        assert(s =~= seq![s[0]] + t);
        vstd::seq_lib::lemma_multiset_commutative(seq![s[0]], t);
        vstd::seq_lib::lemma_multiset_commutative(seq![s[0]], rt);
        assert(seq![s[0]] =~= Seq::<ProcessSnapshot>::empty().push(s[0]));
    } else {
        assert(r == seq![p] + s);
        assert forall|i: int, j: int| 0 <= i < j < r.len() implies r[i].cpu_percent_x100
            >= r[j].cpu_percent_x100 by {
            if i == 0 {
                assert(r[j] == s[j - 1]);
                assert(s[0].cpu_percent_x100 >= s[j - 1].cpu_percent_x100 || j - 1 == 0);
            } else {
                assert(r[i] == s[i - 1] && r[j] == s[j - 1]);
            }
        }
        vstd::seq_lib::lemma_multiset_commutative(seq![p], s);
        assert(seq![p] =~= Seq::<ProcessSnapshot>::empty().push(p));
    }
}

/// The order that `by_cpu_desc` gives is highest first, holds exactly the
/// processes it was given (with their repetitions), and has their number.
pub proof fn lemma_by_cpu_desc_sorted_permutation(s: Seq<ProcessSnapshot>)
    ensures
        sorted_by_cpu_desc(by_cpu_desc(s)),
        by_cpu_desc(s).to_multiset() == s.to_multiset(),
        by_cpu_desc(s).len() == s.len(),
    decreases s.len(),
{
    broadcast use vstd::seq_lib::group_to_multiset_ensures;

    if s.len() > 0 {
        lemma_by_cpu_desc_sorted_permutation(s.drop_last());
        lemma_insert_keeps_sorted(by_cpu_desc(s.drop_last()), s.last());
        assert(s =~= s.drop_last().push(s.last()));
    }
}

/// Whether `key` gives the entries of `s` pairwise different values.
pub open spec fn keys_distinct(s: Seq<ProcessSnapshot>, key: spec_fn(ProcessSnapshot) -> int) -> bool {
    forall|i: int, j: int| #![trigger s[i], s[j]] 0 <= i < j < s.len() ==> key(s[i]) != key(s[j])
}

pub open spec fn pid_key() -> spec_fn(ProcessSnapshot) -> int {
    |p: ProcessSnapshot| p.pid as int
}

pub open spec fn cpu_key() -> spec_fn(ProcessSnapshot) -> int {
    |p: ProcessSnapshot| p.cpu_percent_x100 as int
}

/// The entries of `s` whose CPU share is exactly `v`.
pub open spec fn with_cpu(v: i64) -> spec_fn(ProcessSnapshot) -> bool {
    |p: ProcessSnapshot| p.cpu_percent_x100 == v
}

proof fn lemma_insert_members(t: Seq<ProcessSnapshot>, p: ProcessSnapshot)
    ensures
        insert_by_cpu(t, p).len() == t.len() + 1,
        forall|i: int|
            0 <= i < insert_by_cpu(t, p).len() ==> #[trigger] insert_by_cpu(t, p)[i] == p || t.contains(
                insert_by_cpu(t, p)[i],
            ),
    decreases t.len(),
{
    if t.len() > 0 && t[0].cpu_percent_x100 >= p.cpu_percent_x100 {
        let rest = t.drop_first();
        lemma_insert_members(rest, p);
        let r = insert_by_cpu(t, p);
        assert forall|i: int| 0 <= i < r.len() implies #[trigger] r[i] == p || t.contains(r[i]) by {
            if i == 0 {
                assert(t[0] == r[0]);
            } else {
                let x = insert_by_cpu(rest, p)[i - 1];
                assert(r[i] == x);
                if x != p {
                    let m = choose|m: int| 0 <= m < rest.len() && rest[m] == x;
                    assert(t[m + 1] == x);
                }
            }
        }
    } else if t.len() > 0 {
        let r = insert_by_cpu(t, p);
        assert forall|i: int| 0 <= i < r.len() implies #[trigger] r[i] == p || t.contains(r[i]) by {
            if i > 0 {
                assert(r[i] == t[i - 1]);
            }
        }
    }
}

proof fn lemma_insert_keeps_distinct(
    t: Seq<ProcessSnapshot>,
    p: ProcessSnapshot,
    key: spec_fn(ProcessSnapshot) -> int,
)
    requires
        keys_distinct(t, key),
        forall|i: int| 0 <= i < t.len() ==> key(#[trigger] t[i]) != key(p),
    ensures
        keys_distinct(insert_by_cpu(t, p), key),
    decreases t.len(),
{
    let r = insert_by_cpu(t, p);
    lemma_insert_members(t, p);
    if t.len() > 0 && t[0].cpu_percent_x100 >= p.cpu_percent_x100 {
        let rest = t.drop_first();
        assert forall|i: int, j: int| #![trigger rest[i], rest[j]] 0 <= i < j < rest.len() implies key(rest[i]) != key(rest[j]) by {
            assert(rest[i] == t[i + 1] && rest[j] == t[j + 1]);
        }
        assert forall|i: int| 0 <= i < rest.len() implies key(#[trigger] rest[i]) != key(p) by {
            assert(rest[i] == t[i + 1]);
        }
        lemma_insert_keeps_distinct(rest, p, key);
        lemma_insert_members(rest, p);
        let rr = insert_by_cpu(rest, p);
        assert forall|i: int, j: int| #![trigger r[i], r[j]] 0 <= i < j < r.len() implies key(r[i]) != key(r[j]) by {
            assert(r[j] == rr[j - 1]);
            if i == 0 {
                assert(r[0] == t[0]);
                let x = rr[j - 1];
                if x != p {
                    let m = choose|m: int| 0 <= m < rest.len() && rest[m] == x;
                    assert(t[m + 1] == x);
                    assert(key(t[0]) != key(t[m + 1]));
                } else {
                    assert(key(t[0]) != key(p));
                }
            } else {
                assert(r[i] == rr[i - 1]);
            }
        }
    } else if t.len() > 0 {
        assert forall|i: int, j: int| #![trigger r[i], r[j]] 0 <= i < j < r.len() implies key(r[i]) != key(r[j]) by {
            assert(r[j] == t[j - 1]);
            if i > 0 {
                assert(r[i] == t[i - 1]);
            }
        }
    }
}

/// Every entry of `by_cpu_desc(s)` is an entry of `s`.
pub proof fn lemma_by_cpu_desc_members(s: Seq<ProcessSnapshot>)
    ensures
        forall|i: int| 0 <= i < by_cpu_desc(s).len() ==> s.contains(#[trigger] by_cpu_desc(s)[i]),
{
    broadcast use vstd::seq_lib::group_to_multiset_ensures;

    lemma_by_cpu_desc_sorted_permutation(s);
    assert forall|i: int| 0 <= i < by_cpu_desc(s).len() implies s.contains(#[trigger] by_cpu_desc(s)[i]) by {
        assert(by_cpu_desc(s).to_multiset().count(by_cpu_desc(s)[i]) > 0);
    }
}

/// Ordering by CPU share keeps any key that told the entries apart doing so.
pub proof fn lemma_by_cpu_desc_keeps_distinct(s: Seq<ProcessSnapshot>, key: spec_fn(ProcessSnapshot) -> int)
    requires
        keys_distinct(s, key),
    ensures
        keys_distinct(by_cpu_desc(s), key),
    decreases s.len(),
{
    if s.len() > 0 {
        let d = s.drop_last();
        assert forall|i: int, j: int| #![trigger d[i], d[j]] 0 <= i < j < d.len() implies key(d[i]) != key(d[j]) by {
            assert(d[i] == s[i] && d[j] == s[j]);
        }
        lemma_by_cpu_desc_keeps_distinct(d, key);
        lemma_by_cpu_desc_members(d);
        let b = by_cpu_desc(d);
        assert forall|i: int| 0 <= i < b.len() implies key(#[trigger] b[i]) != key(s.last()) by {
            let m = choose|m: int| 0 <= m < d.len() && d[m] == b[i];
            assert(d[m] == s[m]);
            assert(s.last() == s[s.len() - 1]);
        }
        lemma_insert_keeps_distinct(b, s.last(), key);
    }
}

/// Filtering keeps any key that told the entries apart doing so.
pub proof fn lemma_filter_keeps_distinct(
    s: Seq<ProcessSnapshot>,
    pred: spec_fn(ProcessSnapshot) -> bool,
    key: spec_fn(ProcessSnapshot) -> int,
)
    requires
        keys_distinct(s, key),
    ensures
        keys_distinct(s.filter(pred), key),
    decreases s.len(),
{
    reveal_with_fuel(Seq::filter, 1);
    if s.len() > 0 {
        let d = s.drop_last();
        assert forall|i: int, j: int| #![trigger d[i], d[j]] 0 <= i < j < d.len() implies key(d[i]) != key(d[j]) by {
            assert(d[i] == s[i] && d[j] == s[j]);
        }
        lemma_filter_keeps_distinct(d, pred, key);
        let f = d.filter(pred);
        if pred(s.last()) {
            let r = f.push(s.last());
            assert forall|i: int, j: int| #![trigger r[i], r[j]] 0 <= i < j < r.len() implies key(r[i]) != key(r[j]) by {
                assert(r[i] == f[i]);
                if j == f.len() {
                    assert(f.contains(f[i]));
                    d.lemma_filter_contains_rev(pred, f[i]);
                    let m = choose|m: int| 0 <= m < d.len() && d[m] == f[i];
                    assert(d[m] == s[m]);
                    assert(r[j] == s[s.len() - 1]);
                } else {
                    assert(r[j] == f[j]);
                }
            }
        }
    }
}

/// How many copies of `x` filtering leaves.
proof fn lemma_filter_count<A>(s: Seq<A>, pred: spec_fn(A) -> bool, x: A)
    ensures
        s.filter(pred).to_multiset().count(x) == if pred(x) { s.to_multiset().count(x) } else { 0 },
    decreases s.len(),
{
    broadcast use vstd::seq_lib::group_to_multiset_ensures;

    reveal_with_fuel(Seq::filter, 1);
    if s.len() == 0 {
        assert(s.filter(pred) =~= s);
    } else {
        let d = s.drop_last();
        lemma_filter_count(d, pred, x);
        assert(s =~= d.push(s.last()));
        if pred(s.last()) {
            assert(s.filter(pred) == d.filter(pred).push(s.last()));
        }
    }
}

/// Filtering two arrangements of the same entries leaves two arrangements
/// of the same entries.
pub proof fn lemma_filter_same_multiset<A>(a: Seq<A>, b: Seq<A>, pred: spec_fn(A) -> bool)
    requires
        a.to_multiset() == b.to_multiset(),
    ensures
        a.filter(pred).to_multiset() == b.filter(pred).to_multiset(),
{
    assert forall|x: A| a.filter(pred).to_multiset().count(x) == b.filter(pred).to_multiset().count(x) by {
        lemma_filter_count(a, pred, x);
        lemma_filter_count(b, pred, x);
    }
    assert(a.filter(pred).to_multiset() =~= b.filter(pred).to_multiset());
}

/// Two highest-first orderings of the same entries are the same when the
/// first has no two entries with equal CPU shares.
pub proof fn lemma_sorted_arrangement_unique(a: Seq<ProcessSnapshot>, b: Seq<ProcessSnapshot>)
    requires
        sorted_by_cpu_desc(a),
        sorted_by_cpu_desc(b),
        keys_distinct(a, cpu_key()),
        a.to_multiset() == b.to_multiset(),
    ensures
        a == b,
    decreases a.len(),
{
    broadcast use vstd::seq_lib::group_to_multiset_ensures;

    assert(a.len() == a.to_multiset().len());
    assert(b.len() == b.to_multiset().len());
    if a.len() == 0 {
        assert(a =~= b);
    } else {
        assert(a.to_multiset().count(b[0]) > 0);
        assert(b.to_multiset().count(a[0]) > 0);
        let ia = choose|ia: int| 0 <= ia < a.len() && a[ia] == b[0];
        let ib = choose|ib: int| 0 <= ib < b.len() && b[ib] == a[0];
        if ia != 0 {
            assert(a[0].cpu_percent_x100 >= a[ia].cpu_percent_x100);
            if ib != 0 {
                assert(b[0].cpu_percent_x100 >= b[ib].cpu_percent_x100);
            }
            assert(cpu_key()(a[0]) != cpu_key()(a[ia]));
        }
        assert(b[0] == a[0]);
        let a2 = a.drop_first();
        let b2 = b.drop_first();
        assert(a2 =~= a.remove(0));
        assert(b2 =~= b.remove(0));
        assert forall|i: int, j: int| #![trigger a2[i], a2[j]] 0 <= i < j < a2.len() implies a2[i].cpu_percent_x100 >= a2[j].cpu_percent_x100 by {
            assert(a2[i] == a[i + 1] && a2[j] == a[j + 1]);
        }
        assert forall|i: int, j: int| #![trigger b2[i], b2[j]] 0 <= i < j < b2.len() implies b2[i].cpu_percent_x100 >= b2[j].cpu_percent_x100 by {
            assert(b2[i] == b[i + 1] && b2[j] == b[j + 1]);
        }
        assert forall|i: int, j: int| #![trigger a2[i], a2[j]] 0 <= i < j < a2.len() implies cpu_key()(a2[i]) != cpu_key()(a2[j]) by {
            assert(a2[i] == a[i + 1] && a2[j] == a[j + 1]);
        }
        lemma_sorted_arrangement_unique(a2, b2);
        assert(a =~= b) by {
            assert forall|i: int| 0 <= i < a.len() implies a[i] == b[i] by {
                if i > 0 {
                    assert(a[i] == a2[i - 1] && b[i] == b2[i - 1]);
                }
            }
        }
    }
}

proof fn lemma_insert_filter_cpu(t: Seq<ProcessSnapshot>, p: ProcessSnapshot, v: i64)
    requires
        sorted_by_cpu_desc(t),
    ensures
        insert_by_cpu(t, p).filter(with_cpu(v)) == (if p.cpu_percent_x100 == v {
            t.filter(with_cpu(v)).push(p)
        } else {
            t.filter(with_cpu(v))
        }),
    decreases t.len(),
{
    let f = with_cpu(v);
    if t.len() == 0 {
        reveal_with_fuel(Seq::filter, 2);
        assert(insert_by_cpu(t, p) =~= seq![p]);
        assert(seq![p].drop_last() =~= t);
        assert(t.filter(f) =~= t);
        if p.cpu_percent_x100 == v {
            assert(seq![p].filter(f) =~= t.filter(f).push(p));
        }
    } else if t[0].cpu_percent_x100 >= p.cpu_percent_x100 {
        let rest = t.drop_first();
        assert forall|i: int, j: int| #![trigger rest[i], rest[j]] 0 <= i < j < rest.len() implies rest[i].cpu_percent_x100 >= rest[j].cpu_percent_x100 by {
            assert(rest[i] == t[i + 1] && rest[j] == t[j + 1]);
        }
        lemma_insert_filter_cpu(rest, p, v);
        assert(t =~= seq![t[0]] + rest);
        rest.lemma_filter_prepend(t[0], f);
        insert_by_cpu(rest, p).lemma_filter_prepend(t[0], f);
        if p.cpu_percent_x100 == v {
            let pre: Seq<ProcessSnapshot> = if f(t[0]) { seq![t[0]] } else { Seq::empty() };
            assert(pre + rest.filter(f).push(p) =~= (pre + rest.filter(f)).push(p));
        }
    } else {
        assert(insert_by_cpu(t, p) == seq![p] + t);
        t.lemma_filter_prepend(p, f);
        if p.cpu_percent_x100 == v {
            t.lemma_all_neg_filter_empty(f);
            assert(t.all(|x: ProcessSnapshot| !f(x))) by {
                assert forall|i: int| 0 <= i < t.len() implies !f(#[trigger] t[i]) by {
                    if i > 0 {
                        assert(t[0].cpu_percent_x100 >= t[i].cpu_percent_x100);
                    }
                }
            }
            t.lemma_all_neg_filter_empty(f);
            assert(t.filter(f) =~= Seq::<ProcessSnapshot>::empty());
            assert(seq![p] + t.filter(f) =~= t.filter(f).push(p));
        } else {
            assert(Seq::<ProcessSnapshot>::empty() + t.filter(f) =~= t.filter(f));
        }
    }
}

/// Stability: the entries with any one CPU share appear in `by_cpu_desc(s)`
/// in the same order as in `s`.
pub proof fn law_by_cpu_desc_stable(s: Seq<ProcessSnapshot>, v: i64)
    ensures
        by_cpu_desc(s).filter(with_cpu(v)) == s.filter(with_cpu(v)),
    decreases s.len(),
{
    reveal_with_fuel(Seq::filter, 1);
    if s.len() > 0 {
        let d = s.drop_last();
        law_by_cpu_desc_stable(d, v);
        lemma_by_cpu_desc_sorted_permutation(d);
        lemma_insert_filter_cpu(by_cpu_desc(d), s.last(), v);
    } else {
        assert(by_cpu_desc(s) == s);
    }
}

/// `v` ordered by CPU share, highest first, ties in their original order.
pub fn sort_by_cpu_desc(v: &Vec<ProcessSnapshot>) -> (r: Vec<ProcessSnapshot>)
    ensures
        r@ == by_cpu_desc(v@),
{
    let mut r: Vec<ProcessSnapshot> = Vec::new();
    let mut i: usize = 0;
    assert(v@.take(0) =~= Seq::<ProcessSnapshot>::empty());
    while i < v.len()
        invariant
            i <= v.len(),
            r@ == by_cpu_desc(v@.take(i as int)),
        decreases v.len() - i,
    {
        let p = v[i].duplicate();
        let mut k: usize = 0;
        while k < r.len() && r[k].cpu_percent_x100 >= p.cpu_percent_x100
            invariant
                k <= r.len(),
                forall|j: int| 0 <= j < k ==> r[j].cpu_percent_x100 >= p.cpu_percent_x100,
            decreases r.len() - k,
        {
            k = k + 1;
        }
        proof {
            lemma_insert_at(r@, p, k as int);
            assert(v@.take(i + 1).drop_last() =~= v@.take(i as int));
            assert(v@.take(i + 1).last() == v@[i as int]);
        }
        r.insert(k, p);
        i = i + 1;
    }
    assert(v@.take(v.len() as int) =~= v@);
    r
}

/// The `top` processes with the highest CPU share, highest first.
pub fn top_processes(processes: &Vec<ProcessSnapshot>, top: usize) -> (r: Vec<ProcessSnapshot>)
    ensures
        r@ == first_n(by_cpu_desc(processes@), top as int),
{
    let mut r = sort_by_cpu_desc(processes);
    r.truncate(top);
    r
}

} // verus!
