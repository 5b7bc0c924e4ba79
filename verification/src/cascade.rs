//! Cascading delete for the right to erasure: every record about a subject
//! that the caller lists for a table is deleted, and the receipt says
//! which.

use vstd::prelude::*;

use crate::error::BruceError;
use crate::memory;
use crate::memory::{KvMemory, MemoryView};
use crate::pgoutput;
use crate::text::{owned, same_text};

verus! {

/// A single delete plan: which `fact_ids` to remove on behalf of which
/// `subject_id`, scoped to which memory.
#[derive(Debug, Clone)]
pub struct CascadePlan<'a> {
    /// Logical subject (e.g. a customer-id) being erased.
    pub subject_id: String,
    /// Per-table list of fact-ids tied to this subject.
    pub references: Vec<(&'a str, Vec<String>)>,
    /// Owner authorising the cascade (e.g. "gdpr-controller").
    pub owner: String,
}

/// Outcome of one cascade.
#[derive(Debug, Clone)]
pub struct CascadeReceipt {
    /// Subject erased.
    pub subject_id: String,
    /// Owner who issued the cascade.
    pub owner: String,
    /// Per-table deletions: table, ids removed, and how many those are.
    /// Listed ids that were already absent are not an error.
    pub per_table: Vec<(String, Vec<String>, usize)>,
    /// Total records removed.
    pub n_total: usize,
}

/// A plan's references as mathematical values.
pub open spec fn references_view(v: Seq<(&str, Vec<String>)>) -> Seq<(Seq<char>, Seq<Seq<char>>)> {
    Seq::new(v.len(), |i: int| (v[i].0@, pgoutput::texts(v[i].1@)))
}

/// A receipt's entries as mathematical values.
pub open spec fn entries_view(v: Seq<(String, Vec<String>, usize)>) -> Seq<
    (Seq<char>, Seq<Seq<char>>, nat),
> {
    Seq::new(v.len(), |i: int| (v[i].0@, pgoutput::texts(v[i].1@), v[i].2 as nat))
}

/// Deletes the ids from `i` on, one after the other: the memory after
/// them, and the ids that were deleted behind those in `done`.
pub open spec fn ids_effect(
    m: MemoryView,
    ids: Seq<Seq<char>>,
    i: int,
    owner: Seq<char>,
    done: Seq<Seq<char>>,
) -> (MemoryView, Seq<Seq<char>>)
    decreases ids.len() - i,
{
    if i >= ids.len() {
        (m, done)
    } else {
        ids_effect(
            memory::deleted(m, ids[i], owner),
            ids,
            i + 1,
            owner,
            if memory::delete_outcome(m, ids[i], owner) is Ok {
                done.push(ids[i])
            } else {
                done
            },
        )
    }
}

/// Runs the references to `table` from `i` on: the memory after them, the
/// receipt entries behind those in `done`, and the number of deletions on
/// top of `total`.
pub open spec fn cascade_effect(
    m: MemoryView,
    refs: Seq<(Seq<char>, Seq<Seq<char>>)>,
    i: int,
    table: Seq<char>,
    owner: Seq<char>,
    done: Seq<(Seq<char>, Seq<Seq<char>>, nat)>,
    total: nat,
) -> (MemoryView, Seq<(Seq<char>, Seq<Seq<char>>, nat)>, nat)
    decreases refs.len() - i,
{
    if i >= refs.len() {
        (m, done, total)
    } else if refs[i].0 != table {
        cascade_effect(m, refs, i + 1, table, owner, done, total)
    } else {
        let (m2, ids) = ids_effect(m, refs[i].1, 0, owner, Seq::empty());
        cascade_effect(
            m2,
            refs,
            i + 1,
            table,
            owner,
            done.push((table, ids, ids.len())),
            total + ids.len(),
        )
    }
}

/// Deletes the listed ids one after the other; those that were deleted.
fn delete_ids(mem: &mut KvMemory, ids: &Vec<String>, owner: &str) -> (ok: Vec<String>)
    requires
        old(mem).wf(),
    ensures
        final(mem).wf(),
        (final(mem)@, pgoutput::texts(ok@)) == ids_effect(old(mem)@, pgoutput::texts(ids@), 0, owner@, Seq::empty()),
        ok@.len() <= ids@.len(),
{
    let ghost start = mem@;
    let mut ok: Vec<String> = Vec::new();
    let mut i: usize = 0;
    assert(pgoutput::texts(ok@) =~= Seq::<Seq<char>>::empty());
    while i < ids.len()
        invariant
            mem.wf(),
            i <= ids@.len(),
            ok@.len() <= i,
            ids_effect(start, pgoutput::texts(ids@), 0, owner@, Seq::empty()) == ids_effect(
                mem@,
                pgoutput::texts(ids@),
                i as int,
                owner@,
                pgoutput::texts(ok@),
            ),
        decreases ids.len() - i,
    {
        let ghost before = pgoutput::texts(ok@);
        match mem.delete(ids[i].as_str(), owner) {
            Ok(()) => {
                ok.push(ids[i].clone());
                assert(pgoutput::texts(ok@) =~= before.push(ids@[i as int]@));
            },
            Err(_) => {},
        }
        i += 1;
    }
    ok
}

/// How many ids a plan lists in all, from `i` on.
pub open spec fn listed(refs: Seq<(Seq<char>, Seq<Seq<char>>)>, i: int) -> nat
    decreases refs.len() - i,
{
    if i >= refs.len() {
        0
    } else {
        refs[i].1.len() + listed(refs, i + 1)
    }
}

impl<'a> CascadePlan<'a> {
    /// Execute the cascade against a single-table memory: of the plan's
    /// references, those to `table_name` are processed. An id that is
    /// absent, or owned by someone else, is passed over.
    pub fn execute(self, table_name: &str, mem: &mut KvMemory) -> (r: Result<
        CascadeReceipt,
        BruceError,
    >)
        requires
            old(mem).wf(),
            listed(references_view(self.references@), 0) <= usize::MAX,
        ensures
            final(mem).wf(),
            r matches Ok(x) && x.subject_id@ == self.subject_id@ && x.owner@ == self.owner@ && (
                final(mem)@,
                entries_view(x.per_table@),
                x.n_total as nat,
            ) == cascade_effect(
                old(mem)@,
                references_view(self.references@),
                0,
                table_name@,
                self.owner@,
                Seq::empty(),
                0,
            ),
    {
        let ghost start = mem@;
        let ghost refs = references_view(self.references@);
        let mut per_table: Vec<(String, Vec<String>, usize)> = Vec::new();
        let mut total: usize = 0;
        let mut i: usize = 0;
        assert(entries_view(per_table@) =~= Seq::empty());
        while i < self.references.len()
            invariant
                mem.wf(),
                refs == references_view(self.references@),
                i <= self.references@.len(),
                total + listed(refs, i as int) <= usize::MAX,
                cascade_effect(start, refs, 0, table_name@, self.owner@, Seq::empty(), 0)
                    == cascade_effect(
                    mem@,
                    refs,
                    i as int,
                    table_name@,
                    self.owner@,
                    entries_view(per_table@),
                    total as nat,
                ),
            decreases self.references.len() - i,
        {
            if same_text(self.references[i].0, table_name) {
                let ghost before = entries_view(per_table@);
                let ok = delete_ids(mem, &self.references[i].1, self.owner.as_str());
                let n: usize = ok.len();
                total = total + n;
                let ghost ids = pgoutput::texts(ok@);
                per_table.push((owned(table_name), ok, n));
                assert(entries_view(per_table@) =~= before.push((table_name@, ids, ids.len())));
            }
            i += 1;
        }
        Ok(
            CascadeReceipt {
                subject_id: self.subject_id,
                owner: self.owner,
                per_table,
                n_total: total,
            },
        )
    }
}

// --------------------------------------------------------------------- laws

proof fn lemma_listed_gone(
    m: MemoryView,
    ids: Seq<Seq<char>>,
    i: int,
    owner: Seq<char>,
    done: Seq<Seq<char>>,
)
    requires
        0 <= i <= ids.len(),
    ensures
        ({
            let m2 = ids_effect(m, ids, i, owner, done).0;
            forall|id: Seq<char>| #[trigger]
                m2.live.contains_key(id) <==> m.live.contains_key(id) && !(ids.skip(i).contains(id)
                    && m.live[id].owner == owner)
        }),
        ({
            let m2 = ids_effect(m, ids, i, owner, done).0;
            forall|id: Seq<char>| #[trigger]
                m2.live.contains_key(id) ==> m2.live[id] == m.live[id]
        }),
    decreases ids.len() - i,
{
    if i < ids.len() {
        let mid = memory::deleted(m, ids[i], owner);
        let next = if memory::delete_outcome(m, ids[i], owner) is Ok {
            done.push(ids[i])
        } else {
            done
        };
        lemma_listed_gone(mid, ids, i + 1, owner, next);
        assert(ids_effect(m, ids, i, owner, done) == ids_effect(mid, ids, i + 1, owner, next));
        let m2 = ids_effect(m, ids, i, owner, done).0;
        assert forall|id: Seq<char>| #[trigger] m2.live.contains_key(id) <==> m.live.contains_key(id)
            && !(ids.skip(i).contains(id) && m.live[id].owner == owner) by {
            assert(m2.live.contains_key(id) <==> mid.live.contains_key(id) && !(ids.skip(
                i + 1,
            ).contains(id) && mid.live[id].owner == owner));
            if ids.skip(i).contains(id) {
                let k = choose|k: int| 0 <= k < ids.skip(i).len() && ids.skip(i)[k] == id;
                if k > 0 {
                    assert(ids.skip(i + 1)[k - 1] == id);
                }
            }
            if ids.skip(i + 1).contains(id) {
                let rest = ids.skip(i + 1);
                let k = choose|k: int| 0 <= k < rest.len() && rest[k] == id;
                assert(ids.skip(i)[k + 1] == id);
            }
            if id == ids[i] {
                assert(ids.skip(i)[0] == id);
            }
        }
    }
}

/// After a run of deletes no listed record of the owner is left, and every
/// other record is untouched.
pub proof fn listed_records_are_gone(m: MemoryView, ids: Seq<Seq<char>>, owner: Seq<char>)
    ensures
        ({
            let m2 = ids_effect(m, ids, 0, owner, Seq::empty()).0;
            &&& forall|id: Seq<char>| #[trigger]
                m2.live.contains_key(id) <==> m.live.contains_key(id) && !(ids.contains(id)
                    && m.live[id].owner == owner)
            &&& forall|id: Seq<char>| #[trigger]
                m2.live.contains_key(id) ==> m2.live[id] == m.live[id]
        }),
{
    lemma_listed_gone(m, ids, 0, owner, Seq::empty());
    assert(ids.skip(0) =~= ids);
}

/// A cascade is idempotent: running the same deletes again removes nothing
/// and changes nothing.
pub proof fn second_run_removes_nothing(m: MemoryView, ids: Seq<Seq<char>>, owner: Seq<char>)
    ensures
        ({
            let m2 = ids_effect(m, ids, 0, owner, Seq::empty()).0;
            ids_effect(m2, ids, 0, owner, Seq::empty()) == (m2, Seq::<Seq<char>>::empty())
        }),
{
    let m2 = ids_effect(m, ids, 0, owner, Seq::empty()).0;
    listed_records_are_gone(m, ids, owner);
    lemma_nothing_to_delete(m2, ids, 0, owner);
}

proof fn lemma_nothing_to_delete(m: MemoryView, ids: Seq<Seq<char>>, i: int, owner: Seq<char>)
    requires
        0 <= i <= ids.len(),
        forall|id: Seq<char>| #[trigger]
            m.live.contains_key(id) ==> !(ids.contains(id) && m.live[id].owner == owner),
    ensures
        ids_effect(m, ids, i, owner, Seq::empty()) == (m, Seq::<Seq<char>>::empty()),
    decreases ids.len() - i,
{
    if i < ids.len() {
        assert(ids.contains(ids[i]));
        lemma_nothing_to_delete(m, ids, i + 1, owner);
    }
}

/// The plan lists `id` for `table`, from reference `i` on.
pub open spec fn lists_id(
    refs: Seq<(Seq<char>, Seq<Seq<char>>)>,
    i: int,
    table: Seq<char>,
    id: Seq<char>,
) -> bool {
    exists|j: int| i <= j < refs.len() && (#[trigger] refs[j]).0 == table && refs[j].1.contains(id)
}

/// Some entry of a receipt names `id`.
pub open spec fn receipted(entries: Seq<(Seq<char>, Seq<Seq<char>>, nat)>, id: Seq<char>) -> bool {
    exists|j: int| 0 <= j < entries.len() && (#[trigger] entries[j]).1.contains(id)
}

proof fn lemma_removed(
    m: MemoryView,
    ids: Seq<Seq<char>>,
    i: int,
    owner: Seq<char>,
    done: Seq<Seq<char>>,
)
    requires
        0 <= i <= ids.len(),
        m.live.dom().finite(),
    ensures
        ({
            let (m2, out) = ids_effect(m, ids, i, owner, done);
            &&& m2.live.dom().finite()
            &&& m2.d_k == m.d_k && m2.d_v == m.d_v
            &&& m.live.dom().len() - m2.live.dom().len() == out.len() - done.len()
            &&& forall|id: Seq<char>| #[trigger]
                out.contains(id) <==> done.contains(id) || (m.live.contains_key(id)
                    && !m2.live.contains_key(id))
        }),
    decreases ids.len() - i,
{
    if i < ids.len() {
        let mid = memory::deleted(m, ids[i], owner);
        let hit = memory::delete_outcome(m, ids[i], owner) is Ok;
        let next = if hit {
            done.push(ids[i])
        } else {
            done
        };
        assert(ids_effect(m, ids, i, owner, done) == ids_effect(mid, ids, i + 1, owner, next));
        if hit {
            assert(mid.live.dom() =~= m.live.dom().remove(ids[i]));
        }
        lemma_removed(mid, ids, i + 1, owner, next);
        lemma_listed_gone(mid, ids, i + 1, owner, next);
        let (m2, out) = ids_effect(m, ids, i, owner, done);
        assert forall|id: Seq<char>| #[trigger] out.contains(id) <==> done.contains(id) || (
        m.live.contains_key(id) && !m2.live.contains_key(id)) by {
            assert(out.contains(id) <==> next.contains(id) || (mid.live.contains_key(id)
                && !m2.live.contains_key(id)));
            if hit {
                if done.contains(id) {
                    let t = choose|t: int| 0 <= t < done.len() && done[t] == id;
                    assert(next[t] == id);
                }
                if id == ids[i] {
                    assert(next[done.len() as int] == id);
                    assert(!mid.live.contains_key(id));
                    assert(!m2.live.contains_key(id));
                }
                if next.contains(id) {
                    let t = choose|t: int| 0 <= t < next.len() && next[t] == id;
                    if t < done.len() {
                        assert(done[t] == id);
                    }
                }
            }
        }
    }
}

/// How many ids the entries of a receipt count.
pub open spec fn counted(entries: Seq<(Seq<char>, Seq<Seq<char>>, nat)>) -> nat
    decreases entries.len(),
{
    if entries.len() == 0 {
        0
    } else {
        counted(entries.drop_last()) + entries.last().2
    }
}

proof fn lemma_cascade(
    m: MemoryView,
    refs: Seq<(Seq<char>, Seq<Seq<char>>)>,
    i: int,
    table: Seq<char>,
    owner: Seq<char>,
    done: Seq<(Seq<char>, Seq<Seq<char>>, nat)>,
    total: nat,
)
    requires
        0 <= i <= refs.len(),
        m.live.dom().finite(),
        total == counted(done),
        forall|j: int|
            0 <= j < done.len() ==> (#[trigger] done[j]).0 == table && done[j].2 == done[j].1.len(),
    ensures
        ({
            let (m2, out, n) = cascade_effect(m, refs, i, table, owner, done, total);
            &&& m2.live.dom().finite()
            &&& n == counted(out)
            &&& m.live.dom().len() - m2.live.dom().len() == n - total
            &&& forall|j: int|
                0 <= j < out.len() ==> (#[trigger] out[j]).0 == table && out[j].2 == out[j].1.len()
            &&& forall|id: Seq<char>| #[trigger]
                m2.live.contains_key(id) <==> m.live.contains_key(id) && !(lists_id(
                    refs,
                    i,
                    table,
                    id,
                ) && m.live[id].owner == owner)
            &&& forall|id: Seq<char>| #[trigger]
                m2.live.contains_key(id) ==> m2.live[id] == m.live[id]
            &&& forall|id: Seq<char>| #[trigger]
                receipted(out, id) <==> receipted(done, id) || (m.live.contains_key(id)
                    && !m2.live.contains_key(id))
        }),
    decreases refs.len() - i,
{
    let (m2, out, n) = cascade_effect(m, refs, i, table, owner, done, total);
    if i >= refs.len() {
        assert forall|id: Seq<char>| !#[trigger] lists_id(refs, i, table, id) by {}
    } else if refs[i].0 != table {
        lemma_cascade(m, refs, i + 1, table, owner, done, total);
        assert forall|id: Seq<char>| #[trigger] lists_id(refs, i, table, id) == lists_id(
            refs,
            i + 1,
            table,
            id,
        ) by {
            if lists_id(refs, i, table, id) {
                let j = choose|j: int|
                    i <= j < refs.len() && (#[trigger] refs[j]).0 == table && refs[j].1.contains(id);
                assert(j > i);
            }
        }
    } else {
        let ids = refs[i].1;
        let (mid, gone) = ids_effect(m, ids, 0, owner, Seq::empty());
        lemma_removed(m, ids, 0, owner, Seq::empty());
        listed_records_are_gone(m, ids, owner);
        let next = done.push((table, gone, gone.len()));
        assert(next.drop_last() =~= done);
        lemma_cascade(mid, refs, i + 1, table, owner, next, total + gone.len());
        assert forall|id: Seq<char>| #[trigger] m2.live.contains_key(id) <==> m.live.contains_key(id)
            && !(lists_id(refs, i, table, id) && m.live[id].owner == owner) by {
            assert(m2.live.contains_key(id) <==> mid.live.contains_key(id) && !(lists_id(
                refs,
                i + 1,
                table,
                id,
            ) && mid.live[id].owner == owner));
            if lists_id(refs, i, table, id) {
                let j = choose|j: int|
                    i <= j < refs.len() && (#[trigger] refs[j]).0 == table && refs[j].1.contains(id);
                if j > i {
                    assert(refs[j].0 == table);
                    assert(lists_id(refs, i + 1, table, id));
                } else {
                    assert(ids.contains(id));
                }
            }
            assert(mid.live.contains_key(id) <==> m.live.contains_key(id) && !(ids.contains(id)
                && m.live[id].owner == owner));
            assert(mid.live.contains_key(id) ==> mid.live[id] == m.live[id]);
            if ids.contains(id) {
                assert(refs[i].0 == table);
                assert(lists_id(refs, i, table, id));
            }
            if lists_id(refs, i + 1, table, id) {
                let j = choose|j: int|
                    i + 1 <= j < refs.len() && (#[trigger] refs[j]).0 == table
                        && refs[j].1.contains(id);
                assert(refs[j].0 == table);
                assert(lists_id(refs, i, table, id));
            }
        }
        assert forall|id: Seq<char>| #[trigger] receipted(out, id) <==> receipted(done, id) || (
        m.live.contains_key(id) && !m2.live.contains_key(id)) by {
            assert(receipted(out, id) <==> receipted(next, id) || (mid.live.contains_key(id)
                && !m2.live.contains_key(id)));
            if receipted(done, id) {
                let j = choose|j: int| 0 <= j < done.len() && (#[trigger] done[j]).1.contains(id);
                assert(next[j] == done[j]);
            }
            if gone.contains(id) {
                assert(next[done.len() as int].1.contains(id));
            }
            if receipted(next, id) {
                let j = choose|j: int| 0 <= j < next.len() && (#[trigger] next[j]).1.contains(id);
                if j < done.len() {
                    assert(done[j] == next[j]);
                }
            }
            assert(gone.contains(id) <==> m.live.contains_key(id) && !mid.live.contains_key(id)) by {
                assert(!Seq::<Seq<char>>::empty().contains(id));
            }
            assert(m2.live.contains_key(id) ==> mid.live.contains_key(id));
        }
    }
}

/// A cascade erases exactly the records that the plan lists for the table
/// and that the owner owns, and no other; the receipt names exactly those
/// that were there, and counts how many fewer records are left.
pub proof fn cascade_erases_what_the_plan_lists(
    m: MemoryView,
    refs: Seq<(Seq<char>, Seq<Seq<char>>)>,
    table: Seq<char>,
    owner: Seq<char>,
)
    requires
        m.live.dom().finite(),
    ensures
        ({
            let (m2, out, n) = cascade_effect(m, refs, 0, table, owner, Seq::empty(), 0);
            &&& n == m.live.dom().len() - m2.live.dom().len()
            &&& n == counted(out)
            &&& forall|j: int|
                0 <= j < out.len() ==> (#[trigger] out[j]).0 == table && out[j].2 == out[j].1.len()
            &&& forall|id: Seq<char>| #[trigger]
                m2.live.contains_key(id) <==> m.live.contains_key(id) && !(lists_id(
                    refs,
                    0,
                    table,
                    id,
                ) && m.live[id].owner == owner)
            &&& forall|id: Seq<char>| #[trigger]
                m2.live.contains_key(id) ==> m2.live[id] == m.live[id]
            &&& forall|id: Seq<char>| #[trigger]
                receipted(out, id) <==> m.live.contains_key(id) && !m2.live.contains_key(id)
        }),
{
    lemma_cascade(m, refs, 0, table, owner, Seq::empty(), 0);
    assert forall|id: Seq<char>| !#[trigger] receipted(
        Seq::<(Seq<char>, Seq<Seq<char>>, nat)>::empty(),
        id,
    ) by {}
}

} // verus!
