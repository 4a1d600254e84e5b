//! What the views decide and show: moving a mod up or down the load order,
//! which positions are saved, and the texts of the mod browser, the load
//! order view and the settings view.

use vstd::prelude::*;
use vstd::string::*;

use crate::api::Mod;
use crate::logging::{redact_key, redacted};
use crate::text::{format_int, int_text};

verus! {

/// `s` with the rows `i` and `i + 1` traded.
pub open spec fn swapped(s: Seq<String>, i: int) -> Seq<String> {
    s.update(i, s[i + 1]).update(i + 1, s[i])
}

/// Moving a row and moving it back restores the list: trading two neighbouring
/// rows twice gives the list it started from.
pub proof fn law_swap_undoes_itself(s: Seq<String>, i: int)
    requires
        0 <= i,
        i + 1 < s.len(),
    ensures
        swapped(swapped(s, i), i) == s,
{
    assert(swapped(swapped(s, i), i) =~= s);
}

/// The load order list after moving the selected row `pos` one place up: the
/// rows `pos - 1` and `pos` trade places. Gives the row selected afterwards;
/// nothing changes for the first row or a position past the end.
pub fn move_up(order: &mut Vec<String>, pos: usize) -> (selected: usize)
    ensures
        0 < pos < old(order).len() ==> final(order)@ == swapped(old(order)@, pos - 1) && selected == pos - 1,
        !(0 < pos < old(order).len()) ==> final(order)@ == old(order)@ && selected == pos,
{
    if pos > 0 && pos < order.len() {
        let item = order.remove(pos);
        order.insert(pos - 1, item);
        proof {
            assert(order@ =~= swapped(old(order)@, pos - 1));
        }
        pos - 1
    } else {
        pos
    }
}

/// The load order list after moving the selected row `pos` one place down:
/// the rows `pos` and `pos + 1` trade places. Gives the row selected
/// afterwards; nothing changes for the last row or a position past the end.
pub fn move_down(order: &mut Vec<String>, pos: usize) -> (selected: usize)
    ensures
        pos + 1 < old(order).len() ==> final(order)@ == swapped(old(order)@, pos as int) && selected == pos + 1,
        !(pos + 1 < old(order).len()) ==> final(order)@ == old(order)@ && selected == pos,
{
    if pos < order.len() && pos + 1 < order.len() {
        let item = order.remove(pos);
        order.insert(pos + 1, item);
        proof {
            assert(order@ =~= swapped(old(order)@, pos as int));
        }
        pos + 1
    } else {
        pos
    }
}

/// How many of `s` are `true`.
pub open spec fn count_true(s: Seq<bool>) -> nat
    decreases s.len(),
{
    if s.len() == 0 {
        0
    } else {
        count_true(s.drop_last()) + if s.last() {
            1nat
        } else {
            0nat
        }
    }
}

/// The load order values saved from the list: each row the database knows
/// (`known[i]`), paired with its position in the whole list.
pub fn load_order_to_save(order: &Vec<String>, known: &Vec<bool>) -> (r: Vec<(String, i32)>)
    requires
        known.len() == order.len(),
        order.len() <= i32::MAX,
    ensures
        r@.len() == count_true(known@),
        forall|k: int|
            0 <= k < r@.len() ==> {
                let i = (#[trigger] r@[k]).1 as int;
                &&& 0 <= i < order.len()
                &&& known[i]
                &&& r@[k].0@ == order@[i]@
            },
        forall|i: int|
            0 <= i < order.len() && #[trigger] known[i] ==> exists|k: int|
                0 <= k < r@.len() && r@[k].0@ == order@[i]@ && r@[k].1 == i,
        forall|a: int, b: int| 0 <= a < b < r@.len() ==> r@[a].1 < r@[b].1,
{
    let mut out: Vec<(String, i32)> = Vec::new();
    let n = order.len();
    for i in 0..n
        invariant
            n == order.len() == known.len(),
            n <= i32::MAX,
            out@.len() == count_true(known@.take(i as int)),
            forall|k: int|
                0 <= k < out@.len() ==> {
                    let j = (#[trigger] out@[k]).1 as int;
                    &&& 0 <= j < i
                    &&& known[j]
                    &&& out@[k].0@ == order@[j]@
                },
            forall|j: int|
                0 <= j < i && #[trigger] known[j] ==> exists|k: int|
                    0 <= k < out@.len() && out@[k].0@ == order@[j]@ && out@[k].1 == j,
            forall|a: int, b: int| 0 <= a < b < out@.len() ==> out@[a].1 < out@[b].1,
    {
        proof {
            assert(known@.take(i + 1).drop_last() =~= known@.take(i as int));
        }
        if known[i] {
            let ghost before = out@;
            out.push((order[i].clone(), i as i32));
            proof {
                assert(out@[out@.len() - 1].0@ == order@[i as int]@);
                assert forall|j: int| 0 <= j < i + 1 && #[trigger] known[j] implies exists|k: int|
                    0 <= k < out@.len() && out@[k].0@ == order@[j]@ && out@[k].1 == j by {
                    if j < i {
                        let k = choose|k: int| 0 <= k < before.len() && before[k].0@ == order@[j]@ && before[k].1 == j;
                        assert(out@[k] == before[k]);
                    } else {
                        let k = out@.len() - 1;
                        assert(out@[k].0@ == order@[j]@ && out@[k].1 == j);
                    }
                }
            }
        }
    }
    proof {
        assert(known@.take(n as int) =~= known@);
    }
    out
}

/// A row of the mod browser: `<name> (v<version>)`.
pub fn search_row_label(m: &Mod) -> (r: String)
    ensures
        r@ == m.name@ + " (v"@ + m.version@ + ")"@,
{
    let mut r = m.name.clone();
    r.append(" (v");
    r.append(m.version.as_str());
    r.append(")");
    r
}

/// The mod browser's status while a search for `query` runs.
pub fn searching_status(query: &str) -> (r: String)
    ensures
        r@ == "Searching for \""@ + query@ + "\"..."@,
{
    let mut r = String::from_str("Searching for \"");
    r.append(query);
    r.append("\"...");
    r
}

/// The mod browser's status after a search found `n` mods.
pub fn found_status(n: usize) -> (r: String)
    requires
        n <= i64::MAX,
    ensures
        r@ == "Found "@ + int_text(n as int) + " mods"@,
{
    let mut r = String::from_str("Found ");
    let digits = format_int(n as i64);
    r.append(digits.as_str());
    r.append(" mods");
    r
}

/// The load order view's status once `n` mods are listed.
pub fn installed_status(n: usize) -> (r: String)
    requires
        n <= i64::MAX,
    ensures
        r@ == int_text(n as int) + " mods installed"@,
{
    let mut r = format_int(n as i64);
    r.append(" mods installed");
    r
}

/// The settings view's line about the API key: `not set`, or the key redacted.
pub fn api_key_label(key: &str) -> (r: String)
    requires
        key.spec_bytes().len() <= usize::MAX,
    ensures
        key@.len() == 0 ==> r@ == "<b>API key:</b> not set"@,
        key@.len() > 0 ==> r@ == "<b>API key:</b> "@ + redacted(key.spec_bytes())
            + " (set in NEXUS_API_KEY env var)"@,
{
    if key.is_empty() {
        String::from_str("<b>API key:</b> not set")
    } else {
        let shown = redact_key(key);
        let mut r = String::from_str("<b>API key:</b> ");
        r.append(shown.as_str());
        r.append(" (set in NEXUS_API_KEY env var)");
        r
    }
}

} // verus!
