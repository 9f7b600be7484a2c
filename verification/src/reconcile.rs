//! The reconciler: merges a set of remote-origin records, keyed by the `id`
//! data tag, into the locally stored list.  A local record without a
//! parsable identifier is foreign and never touched; one whose identifier
//! is known is replaced or kept; one whose identifier is gone is removed;
//! what remains of the incoming set is appended, completed items only under
//! the `add` policy.

use vstd::prelude::*;
use crate::text::{all_digits, chars_of, digit_val_of, digits_val, lemma_digits_val_prefix};
use crate::todo::{first_data_value, Todo};
use crate::tags::find_tags;

verus! {

/// The data-tag key that carries the external identifier.
pub open spec fn id_key() -> Seq<char> {
    seq!['i', 'd']
}

/// A digit string within the machine's range, as an identifier.
pub open spec fn spec_parse_id(s: Seq<char>) -> Option<int> {
    if s.len() > 0 && all_digits(s) && digits_val(s) <= usize::MAX as int {
        Some(digits_val(s) as int)
    } else {
        None
    }
}

/// The external identifier a record carries: the value of its first `id`
/// data tag, read as a number.
pub open spec fn spec_todo_id(t: Todo) -> Option<int> {
    match first_data_value(find_tags(t.description@), id_key()) {
        Some(val) => spec_parse_id(val),
        None => None,
    }
}

/// The first incoming entry with this identifier.
pub open spec fn lookup_id(inc: Seq<(usize, Todo)>, id: int) -> Option<Todo>
    decreases inc.len(),
{
    if inc.len() == 0 {
        None
    } else if inc[0].0 as int == id {
        Some(inc[0].1)
    } else {
        lookup_id(inc.skip(1), id)
    }
}

/// The incoming entries with the first match of this identifier taken out.
pub open spec fn remove_id(inc: Seq<(usize, Todo)>, id: int) -> Seq<(usize, Todo)>
    decreases inc.len(),
{
    if inc.len() == 0 {
        inc
    } else if inc[0].0 as int == id {
        inc.skip(1)
    } else {
        seq![inc[0]] + remove_id(inc.skip(1), id)
    }
}

/// The reconciled local list, before the append phase: foreign records stay,
/// matched ones take the incoming contents, orphaned ones leave.
pub open spec fn recon_list(local: Seq<Todo>, inc: Seq<(usize, Todo)>) -> Seq<Todo>
    decreases local.len(),
{
    if local.len() == 0 {
        Seq::empty()
    } else {
        let l = local[0];
        match spec_todo_id(l) {
            None => seq![l] + recon_list(local.skip(1), inc),
            Some(id) => match lookup_id(inc, id) {
                Some(t) => seq![
                    if l@ == t@ {
                        l
                    } else {
                        t
                    },
                ] + recon_list(local.skip(1), remove_id(inc, id)),
                None => recon_list(local.skip(1), inc),
            },
        }
    }
}

/// The incoming entries no local record claimed.
pub open spec fn recon_rem(local: Seq<Todo>, inc: Seq<(usize, Todo)>) -> Seq<(usize, Todo)>
    decreases local.len(),
{
    if local.len() == 0 {
        inc
    } else {
        let l = local[0];
        match spec_todo_id(l) {
            None => recon_rem(local.skip(1), inc),
            Some(id) => match lookup_id(inc, id) {
                Some(t) => recon_rem(local.skip(1), remove_id(inc, id)),
                None => recon_rem(local.skip(1), inc),
            },
        }
    }
}

/// How many local records were replaced by a differing incoming version.
pub open spec fn recon_upd(local: Seq<Todo>, inc: Seq<(usize, Todo)>) -> nat
    decreases local.len(),
{
    if local.len() == 0 {
        0
    } else {
        let l = local[0];
        match spec_todo_id(l) {
            None => recon_upd(local.skip(1), inc),
            Some(id) => match lookup_id(inc, id) {
                Some(t) => (if l@ == t@ {
                    0nat
                } else {
                    1nat
                }) + recon_upd(local.skip(1), remove_id(inc, id)),
                None => recon_upd(local.skip(1), inc),
            },
        }
    }
}

/// How many local records were removed as gone upstream.
pub open spec fn recon_del(local: Seq<Todo>, inc: Seq<(usize, Todo)>) -> nat
    decreases local.len(),
{
    if local.len() == 0 {
        0
    } else {
        let l = local[0];
        match spec_todo_id(l) {
            None => recon_del(local.skip(1), inc),
            Some(id) => match lookup_id(inc, id) {
                Some(t) => recon_del(local.skip(1), remove_id(inc, id)),
                None => 1 + recon_del(local.skip(1), inc),
            },
        }
    }
}

/// The records the append phase adds: every remaining incoming record, or
/// only the pending ones when completed items are not to be added.
pub open spec fn appended_values(inc: Seq<(usize, Todo)>, add_done: bool) -> Seq<Todo>
    decreases inc.len(),
{
    if inc.len() == 0 {
        Seq::empty()
    } else {
        (if add_done || !inc[0].1.done {
            seq![inc[0].1]
        } else {
            Seq::<Todo>::empty()
        }) + appended_values(inc.skip(1), add_done)
    }
}

/// Reads an identifier: a nonempty digit string within the machine's range.
fn parse_id(s: &str) -> (r: Option<usize>)
    ensures
        match spec_parse_id(s@) {
            Some(id) => r matches Some(rid) && rid as int == id,
            None => r is None,
        },
{
    let v = chars_of(s);
    let n = v.len();
    if n == 0 {
        return None;
    }
    let mut acc: usize = 0;
    let mut i: usize = 0;
    while i < n
        invariant
            0 <= i <= n,
            n == v@.len(),
            v@ == s@,
            all_digits(s@.take(i as int)),
            acc == digits_val(s@.take(i as int)),
        decreases n - i,
    {
        let d = digit_val_of(v[i]);
        proof {
            assert(s@.take(i + 1).drop_last() =~= s@.take(i as int));
            assert(s@.take(i + 1).last() == s@[i as int]);
        }
        if d >= 10 {
            assert(!all_digits(s@));
            return None;
        }
        if acc > (usize::MAX - d as usize) / 10 {
            // The value already exceeds the range; more digits only grow it.
            proof {
                assert(acc * 10 + d > usize::MAX) by (nonlinear_arith)
                    requires
                        d < 10,
                        acc > (usize::MAX - d) / 10,
                ;
                assert(digits_val(s@.take(i + 1)) > usize::MAX);
                lemma_digits_val_prefix(s@, i + 1);
            }
            return None;
        }
        proof {
            assert(acc * 10 + d <= usize::MAX) by (nonlinear_arith)
                requires
                    d < 10,
                    acc <= (usize::MAX - d) / 10,
            ;
        }
        acc = acc * 10 + d as usize;
        i = i + 1;
    }
    proof {
        assert(s@.take(n as int) =~= s@);
    }
    Some(acc)
}

/// The identifier of a record, when it carries one that can be read.
pub fn get_id(t: &Todo) -> (r: Option<usize>)
    ensures
        match spec_todo_id(*t) {
            Some(id) => r matches Some(rid) && rid as int == id,
            None => r is None,
        },
{
    proof {
        reveal_strlit("id");
        assert("id"@ =~= id_key());
    }
    match t.get_data("id") {
        None => None,
        Some(val) => parse_id(val.as_str()),
    }
}

/// Finds the entry under `id`, takes it out, and hands its record back.
fn take_id(inc: &mut Vec<(usize, Todo)>, id: usize) -> (r: Option<Todo>)
    ensures
        r == lookup_id(old(inc)@, id as int),
        final(inc)@ == remove_id(old(inc)@, id as int),
{
    let ghost inc0 = inc@;
    let mut k: usize = 0;
    while k < inc.len()
        invariant
            0 <= k <= inc@.len(),
            inc@ == inc0,
            inc0 == old(inc)@,
            forall|m: int| 0 <= m < k ==> (#[trigger] inc0[m]).0 as int != id as int,
        decreases inc@.len() - k,
    {
        if inc[k].0 == id {
            let entry = inc.remove(k);
            proof {
                lemma_take_at(inc0, id as int, k as int);
                assert(inc0.remove(k as int) =~= inc0.subrange(0, k as int) + inc0.skip(k + 1));
            }
            return Some(entry.1);
        }
        k = k + 1;
    }
    proof {
        lemma_no_id(inc0, id as int);
    }
    None
}

/// With no match before `k` and one at `k`, lookup and removal act at `k`.
proof fn lemma_take_at(inc: Seq<(usize, Todo)>, id: int, k: int)
    requires
        0 <= k < inc.len(),
        forall|m: int| 0 <= m < k ==> (#[trigger] inc[m]).0 as int != id,
        inc[k].0 as int == id,
    ensures
        lookup_id(inc, id) == Some(inc[k].1),
        remove_id(inc, id) == inc.subrange(0, k) + inc.skip(k + 1),
    decreases k,
{
    if k == 0 {
        assert(inc.subrange(0, 0) + inc.skip(1) =~= inc.skip(1));
    } else {
        assert forall|m: int| 0 <= m < k - 1 implies (#[trigger] inc.skip(1)[m]).0 as int
            != id by {
            assert(inc.skip(1)[m] == inc[m + 1]);
        }
        assert(inc.skip(1)[k - 1] == inc[k]);
        lemma_take_at(inc.skip(1), id, k - 1);
        assert(inc.skip(1).subrange(0, k - 1) =~= inc.subrange(1, k));
        assert(inc.skip(1).skip(k) =~= inc.skip(k + 1));
        assert(seq![inc[0]] + (inc.subrange(1, k) + inc.skip(k + 1)) =~= inc.subrange(0, k)
            + inc.skip(k + 1));
    }
}

/// When lookup finds nothing, removal changes nothing.
proof fn lemma_lookup_none_remove(inc: Seq<(usize, Todo)>, id: int)
    requires
        lookup_id(inc, id) is None,
    ensures
        remove_id(inc, id) == inc,
    decreases inc.len(),
{
    if inc.len() > 0 {
        lemma_lookup_none_remove(inc.skip(1), id);
        assert(seq![inc[0]] + inc.skip(1) =~= inc);
    }
}

/// With no match at all, lookup fails and removal changes nothing.
proof fn lemma_no_id(inc: Seq<(usize, Todo)>, id: int)
    requires
        forall|m: int| 0 <= m < inc.len() ==> (#[trigger] inc[m]).0 as int != id,
    ensures
        lookup_id(inc, id) is None,
        remove_id(inc, id) == inc,
    decreases inc.len(),
{
    if inc.len() > 0 {
        assert forall|m: int| 0 <= m < inc.skip(1).len() implies (#[trigger] inc.skip(
            1,
        )[m]).0 as int != id by {
            assert(inc.skip(1)[m] == inc[m + 1]);
        }
        lemma_no_id(inc.skip(1), id);
        assert(seq![inc[0]] + inc.skip(1) =~= inc);
    }
}

/// A local record with no readable identifier is foreign: it stands,
/// unchanged, in the reconciler's output, whatever the incoming set holds
/// and under either policy.  The output named here is the one
/// `update_todos` promises for its list.
pub proof fn lemma_foreign_record_preserved(
    local: Seq<Todo>,
    inc: Seq<(usize, Todo)>,
    add_done: bool,
    i: int,
)
    requires
        0 <= i < local.len(),
        spec_todo_id(local[i]) is None,
    ensures
        (recon_list(local, inc) + appended_values(recon_rem(local, inc), add_done)).contains(
            local[i],
        ),
    decreases local.len(),
{
    let l = local[0];
    let total = recon_list(local, inc) + appended_values(recon_rem(local, inc), add_done);
    if i == 0 {
        assert(recon_list(local, inc)[0] == l);
        assert(total[0] == local[i]);
    } else {
        assert(local.skip(1)[i - 1] == local[i]);
        match spec_todo_id(l) {
            None => {
                lemma_foreign_record_preserved(local.skip(1), inc, add_done, i - 1);
                let sub = recon_list(local.skip(1), inc) + appended_values(
                    recon_rem(local.skip(1), inc),
                    add_done,
                );
                let w = choose|w: int| 0 <= w < sub.len() && sub[w] == local[i];
                assert(total =~= seq![l] + sub);
                assert(total[w + 1] == local[i]);
            },
            Some(id) => match lookup_id(inc, id) {
                Some(t) => {
                    let inc2 = remove_id(inc, id);
                    lemma_foreign_record_preserved(local.skip(1), inc2, add_done, i - 1);
                    let sub = recon_list(local.skip(1), inc2) + appended_values(
                        recon_rem(local.skip(1), inc2),
                        add_done,
                    );
                    let w = choose|w: int| 0 <= w < sub.len() && sub[w] == local[i];
                    assert(total =~= seq![
                        if l@ == t@ {
                            l
                        } else {
                            t
                        },
                    ] + sub);
                    assert(total[w + 1] == local[i]);
                },
                None => {
                    lemma_foreign_record_preserved(local.skip(1), inc, add_done, i - 1);
                    let sub = recon_list(local.skip(1), inc) + appended_values(
                        recon_rem(local.skip(1), inc),
                        add_done,
                    );
                    let w = choose|w: int| 0 <= w < sub.len() && sub[w] == local[i];
                    assert(total =~= sub);
                    assert(total[w] == local[i]);
                },
            },
        }
    }
}

/// Merges the incoming records into the local list in place.  Returns how
/// many records are new, how many were updated, and how many removed; the
/// new records stand appended, completed ones only when `add_done` holds.
/// The incoming set is a mapping, so its identifiers must be distinct.
pub fn update_todos(existing: &mut Vec<Todo>, todos: Vec<(usize, Todo)>, add_done: bool) -> (r: (
    usize,
    usize,
    usize,
))
    requires
        forall|a: int, b: int|
            #![trigger todos@[a], todos@[b]]
            0 <= a < b < todos@.len() ==> todos@[a].0 != todos@[b].0,
    ensures
        final(existing)@ == recon_list(old(existing)@, todos@) + appended_values(
            recon_rem(old(existing)@, todos@),
            add_done,
        ),
        r.0 == recon_rem(old(existing)@, todos@).len(),
        r.1 == recon_upd(old(existing)@, todos@),
        r.2 == recon_del(old(existing)@, todos@),
{
    let ghost local0 = existing@;
    let ghost inc0 = todos@;
    let mut inc = todos;
    let mut result: Vec<Todo> = Vec::new();
    let mut upd: usize = 0;
    let mut del: usize = 0;
    let n0 = existing.len();
    proof {
        assert(local0.len() == n0);
        assert(result@ + recon_list(local0, inc0) =~= recon_list(local0, inc0));
    }
    while existing.len() > 0
        invariant
            recon_list(local0, inc0) == result@ + recon_list(existing@, inc@),
            recon_rem(local0, inc0) == recon_rem(existing@, inc@),
            recon_upd(local0, inc0) == upd + recon_upd(existing@, inc@),
            recon_del(local0, inc0) == del + recon_del(existing@, inc@),
            upd + del + existing@.len() <= local0.len(),
            local0.len() <= usize::MAX,
        decreases existing@.len(),
    {
        let ghost rem0 = existing@;
        let ghost inc_before = inc@;
        let l = existing.remove(0);
        proof {
            assert(rem0.remove(0) =~= rem0.skip(1));
            assert(l == rem0[0]);
        }
        match get_id(&l) {
            None => {
                proof {
                    assert(result@.push(l) + recon_list(existing@, inc@) =~= result@ + (seq![l]
                        + recon_list(rem0.skip(1), inc_before)));
                }
                result.push(l);
            },
            Some(id) => {
                match take_id(&mut inc, id) {
                    Some(t) => {
                        proof {
                            assert(spec_todo_id(rem0[0]) matches Some(sid) && sid == id as int);
                        }
                        if l == t {
                            proof {
                                assert(result@.push(l) + recon_list(existing@, inc@)
                                    =~= result@ + (seq![l] + recon_list(
                                    rem0.skip(1),
                                    remove_id(inc_before, id as int),
                                )));
                            }
                            result.push(l);
                        } else {
                            proof {
                                assert(result@.push(t) + recon_list(existing@, inc@)
                                    =~= result@ + (seq![t] + recon_list(
                                    rem0.skip(1),
                                    remove_id(inc_before, id as int),
                                )));
                            }
                            upd = upd + 1;
                            result.push(t);
                        }
                    },
                    None => {
                        proof {
                            assert(spec_todo_id(rem0[0]) matches Some(sid) && sid == id as int);
                            lemma_lookup_none_remove(inc_before, id as int);
                        }
                        del = del + 1;
                    },
                }
            },
        }
    }
    proof {
        assert(existing@ =~= Seq::<Todo>::empty());
        assert(recon_list(local0, inc0) =~= result@);
        assert(recon_rem(local0, inc0) == inc@);
    }
    let new_count = inc.len();
    proof {
        assert(result@ + appended_values(inc@, add_done) =~= recon_list(local0, inc0)
            + appended_values(recon_rem(local0, inc0), add_done));
    }
    while inc.len() > 0
        invariant
            result@ + appended_values(inc@, add_done) == recon_list(local0, inc0)
                + appended_values(recon_rem(local0, inc0), add_done),
        decreases inc@.len(),
    {
        let ghost inc_before = inc@;
        let entry = inc.remove(0);
        proof {
            assert(inc_before.remove(0) =~= inc_before.skip(1));
            assert(entry == inc_before[0]);
        }
        if add_done || !entry.1.done {
            proof {
                assert(result@.push(entry.1) + appended_values(inc@, add_done) =~= result@ + (seq![
                    entry.1,
                ] + appended_values(inc_before.skip(1), add_done)));
            }
            result.push(entry.1);
        } else {
            proof {
                assert(result@ + appended_values(inc@, add_done) =~= result@ + (
                Seq::<Todo>::empty() + appended_values(inc_before.skip(1), add_done)));
            }
        }
    }
    proof {
        assert(inc@ =~= Seq::<(usize, Todo)>::empty());
        assert(appended_values(inc@, add_done) =~= Seq::<Todo>::empty());
        assert(result@ + appended_values(inc@, add_done) =~= result@);
    }
    *existing = result;
    (new_count, upd, del)
}

} // verus!
