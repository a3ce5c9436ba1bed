use vstd::prelude::*;

use crate::models::ActionResult;
use crate::text::{decimal, decimal_string_u64};

verus! {

/// `name[pid]: detail`.
pub open spec fn action_line(a: ActionResult) -> Seq<char> {
    a.name@ + "["@ + decimal(a.pid as int) + "]: "@ + a.detail@
}

/// The parts, in order, with `sep` between each two.
pub open spec fn join_with(parts: Seq<Seq<char>>, sep: Seq<char>) -> Seq<char>
    decreases parts.len(),
{
    if parts.len() == 0 {
        Seq::empty()
    } else if parts.len() == 1 {
        parts[0]
    } else {
        join_with(parts.drop_last(), sep) + sep + parts.last()
    }
}

/// How a watch event's actions are summed up on one line: `no changes`, or
/// each action as `action_line`, separated by `, `.
pub open spec fn actions_summary(actions: Seq<ActionResult>) -> Seq<char> {
    if actions.len() == 0 {
        "no changes"@
    } else {
        join_with(actions.map_values(|a: ActionResult| action_line(a)), ", "@)
    }
}

/// The one-line summary of `actions`.
pub fn describe_actions(actions: &Vec<ActionResult>) -> (s: String)
    ensures
        s@ == actions_summary(actions@),
{
    if actions.len() == 0 {
        return "no changes".to_string();
    }
    let ghost lines = actions@.map_values(|a: ActionResult| action_line(a));
    let mut s = String::new();
    let mut i: usize = 0;
    while i < actions.len()
        invariant
            i <= actions.len(),
            actions.len() > 0,
            lines == actions@.map_values(|a: ActionResult| action_line(a)),
            i == 0 ==> s@ == Seq::<char>::empty(),
            i > 0 ==> s@ == join_with(lines.take(i as int), ", "@),
        decreases actions.len() - i,
    {
        let a = &actions[i];
        let ghost before = s@;
        if i > 0 {
            s.append(", ");
        }
        s.append(a.name.as_str());
        s.append("[");
        let pid_text = decimal_string_u64(a.pid as u64);
        s.append(pid_text.as_str());
        s.append("]: ");
        s.append(a.detail.as_str());
        proof {
            let t = lines.take(i + 1);
            assert(t.drop_last() =~= lines.take(i as int));
            assert(t.last() == action_line(actions@[i as int]));
            if i == 0 {
                assert(t =~= seq![lines[0]]);
            }
        }
        i = i + 1;
    }
    assert(lines.take(actions.len() as int) =~= lines);
    s
}

} // verus!
