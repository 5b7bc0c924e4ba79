//! The key/value memory that deletes are cascaded into: records by id,
//! each with its owner. Keys and values are double-precision vectors, held
//! as bit patterns.

use vstd::prelude::*;

use crate::error;
use crate::error::{BruceError, BruceErrorView};
use crate::named;
use crate::named::place_of;
use crate::text::owned;

verus! {

/// One live record.
#[derive(Debug)]
pub struct Record {
    /// Who wrote it, and alone may delete it.
    pub owner: String,
    /// Key vector.
    pub key: Vec<u64>,
    /// Value vector.
    pub value: Vec<u64>,
}

/// A live record as a mathematical value.
pub struct RecordView {
    pub owner: Seq<char>,
    pub key: Seq<u64>,
    pub value: Seq<u64>,
}

impl View for Record {
    type V = RecordView;

    open spec fn view(&self) -> RecordView {
        RecordView { owner: self.owner@, key: self.key@, value: self.value@ }
    }
}

/// Key/value memory with owner-enforced deletes.
#[derive(Debug)]
pub struct KvMemory {
    d_k: usize,
    d_v: usize,
    live: Vec<(String, Record)>,
}

/// A memory as a mathematical value: its dimensions and its live records.
pub struct MemoryView {
    pub d_k: nat,
    pub d_v: nat,
    pub live: Map<Seq<char>, RecordView>,
}

impl View for KvMemory {
    type V = MemoryView;

    closed spec fn view(&self) -> MemoryView {
        MemoryView {
            d_k: self.d_k as nat,
            d_v: self.d_v as nat,
            live: named::assoc(self.live@).map_values(|r: Record| r@),
        }
    }
}

/// What writing a record under `id` comes to.
pub open spec fn write_outcome(m: MemoryView, id: Seq<char>, record: RecordView) -> Result<
    (),
    BruceErrorView,
> {
    if record.key.len() != m.d_k {
        Err(BruceErrorView::DimensionMismatch(m.d_k, record.key.len()))
    } else if record.value.len() != m.d_v {
        Err(BruceErrorView::DimensionMismatch(m.d_v, record.value.len()))
    } else if m.live.contains_key(id) {
        Err(BruceErrorView::DuplicateKey(id))
    } else {
        Ok(())
    }
}

/// The memory after writing a record under `id`.
pub open spec fn written(m: MemoryView, id: Seq<char>, record: RecordView) -> MemoryView {
    if write_outcome(m, id, record) is Ok {
        MemoryView { live: m.live.insert(id, record), ..m }
    } else {
        m
    }
}

/// What deleting `id` on behalf of `owner` comes to.
pub open spec fn delete_outcome(m: MemoryView, id: Seq<char>, owner: Seq<char>) -> Result<
    (),
    BruceErrorView,
> {
    if !m.live.contains_key(id) {
        Err(BruceErrorView::KeyNotFound(id))
    } else if m.live[id].owner != owner {
        Err(BruceErrorView::PermissionDenied(id, m.live[id].owner, owner))
    } else {
        Ok(())
    }
}

/// The memory after deleting `id` on behalf of `owner`.
pub open spec fn deleted(m: MemoryView, id: Seq<char>, owner: Seq<char>) -> MemoryView {
    if delete_outcome(m, id, owner) is Ok {
        MemoryView { live: m.live.remove(id), ..m }
    } else {
        m
    }
}

impl KvMemory {
    /// No id occurs twice.
    pub closed spec fn wf(self) -> bool {
        named::distinct_names(self.live@)
    }

    /// An empty memory for keys of `d_k` and values of `d_v` numbers.
    pub fn new(d_k: usize, d_v: usize) -> (r: Self)
        ensures
            r.wf(),
            r@ == (MemoryView { d_k: d_k as nat, d_v: d_v as nat, live: Map::empty() }),
    {
        let r = KvMemory { d_k, d_v, live: Vec::new() };
        assert(r@.live =~= Map::empty());
        r
    }

    /// Writes a record under a new id.
    pub fn write(&mut self, id: &str, key: Vec<u64>, value: Vec<u64>, owner: &str) -> (r: Result<
        (),
        BruceError,
    >)
        requires
            old(self).wf(),
        ensures
            final(self).wf(),
            final(self)@ == written(
                old(self)@,
                id@,
                RecordView { owner: owner@, key: key@, value: value@ },
            ),
            match write_outcome(
                old(self)@,
                id@,
                RecordView { owner: owner@, key: key@, value: value@ },
            ) {
                Ok(()) => r is Ok,
                Err(v) => error::fails(r, v),
            },
    {
        if key.len() != self.d_k {
            return Err(BruceError::DimensionMismatch { expected: self.d_k, got: key.len() });
        }
        if value.len() != self.d_v {
            return Err(BruceError::DimensionMismatch { expected: self.d_v, got: value.len() });
        }
        if place_of(&self.live, id).is_some() {
            return Err(BruceError::DuplicateKey(owned(id)));
        }
        let ghost before = self.live@;
        let record = Record { owner: owned(owner), key, value };
        let ghost rv = record@;
        self.live.push((owned(id), record));
        proof {
            assert(self.live@.drop_last() =~= before);
            assert forall|i: int| 0 <= i < before.len() implies (#[trigger] before[i]).0@ != id@ by {
                crate::named::lemma_assoc_has(before, i);
            }
            assert(self@.live =~= old(self)@.live.insert(id@, rv));
        }
        Ok(())
    }

    /// Deletes a record on behalf of its owner.
    pub fn delete(&mut self, id: &str, owner: &str) -> (r: Result<(), BruceError>)
        requires
            old(self).wf(),
        ensures
            final(self).wf(),
            final(self)@ == deleted(old(self)@, id@, owner@),
            match delete_outcome(old(self)@, id@, owner@) {
                Ok(()) => r is Ok,
                Err(v) => error::fails(r, v),
            },
    {
        match place_of(&self.live, id) {
            None => Err(BruceError::KeyNotFound(owned(id))),
            Some(i) => {
                if !crate::text::same_text(self.live[i].1.owner.as_str(), owner) {
                    return Err(
                        BruceError::PermissionDenied(
                            owned(id),
                            self.live[i].1.owner.clone(),
                            owned(owner),
                        ),
                    );
                }
                proof {
                    crate::named::lemma_assoc_remove(self.live@, i as int);
                }
                let _gone = self.live.remove(i);
                assert(self@.live =~= old(self)@.live.remove(id@));
                Ok(())
            },
        }
    }

    /// Number of live records.
    pub fn len_alive(&self) -> (n: usize)
        requires
            self.wf(),
        ensures
            n == self@.live.len(),
    {
        proof {
            crate::named::lemma_assoc_len(self.live@);
            assert(self@.live.dom() =~= named::assoc(self.live@).dom());
        }
        self.live.len()
    }
}

/// A write takes effect exactly where the dimensions fit and the id is new;
/// then the record is live under its id with its owner, key and value, and
/// no other record changed. Its owner, and no one else, can delete it, which
/// leaves the memory as it was.
pub proof fn written_record_is_its_owners(
    m: MemoryView,
    id: Seq<char>,
    record: RecordView,
    who: Seq<char>,
)
    ensures
        write_outcome(m, id, record) is Ok <==> record.key.len() == m.d_k && record.value.len()
            == m.d_v && !m.live.contains_key(id),
        write_outcome(m, id, record) is Err ==> written(m, id, record) == m,
        write_outcome(m, id, record) is Ok ==> {
            let w = written(m, id, record);
            &&& w.live.contains_key(id) && w.live[id] == record
            &&& w.d_k == m.d_k && w.d_v == m.d_v
            &&& forall|other: Seq<char>| other != id ==> (#[trigger] w.live.contains_key(other)
                <==> m.live.contains_key(other)) && w.live[other] == m.live[other]
            &&& delete_outcome(w, id, who) is Ok <==> who == record.owner
            &&& who != record.owner ==> deleted(w, id, who) == w
            &&& deleted(w, id, record.owner).live =~= m.live
        },
{
    assert(m.live.insert(id, record).remove(id) =~= m.live.remove(id));
    if !m.live.contains_key(id) {
        assert(m.live.remove(id) =~= m.live);
    }
}

} // verus!
