//! The document-store facade: read, write, delete and merge-patch against an
//! abstract key-to-record map.
//!
//! The store is modelled as a `Map` from key bytes to records; a record is a
//! document plus the timestamp of its last write. Writes stamp the record
//! with the caller-supplied (or current) time. Patch is a read-modify-write:
//! it reads the record, merges the patch onto its document — onto the empty
//! object when no record exists, so a patch on a missing key creates the
//! record — and writes the result back, refreshing the timestamp. The
//! read-modify-write is not atomic across the two store calls: a concurrent
//! write between them is lost, last writer wins.

use vstd::prelude::*;

use crate::clock::now_rfc3339;
use crate::json::{bytes_eq, dup_bytes, json_view, pair_views_of, Json, JsonModel};
use crate::merge::{merge, merge_docs};

verus! {

broadcast use vstd::std_specs::vec::group_vec_axioms, vstd::seq::group_seq_axioms;

/// A persisted record: the document and the time of its last write.
pub struct Record {
    pub value: Json,
    pub written_at: Vec<u8>,
}

/// Model of a [`Record`].
pub struct RecordModel {
    pub value: JsonModel,
    pub written_at: Seq<u8>,
}

impl View for Record {
    type V = RecordModel;

    open spec fn view(&self) -> RecordModel {
        RecordModel { value: json_view(self.value), written_at: self.written_at@ }
    }
}

/// The abstract map that a sequence of keyed records stands for; later
/// entries win.
pub open spec fn store_map(s: Seq<(Vec<u8>, Record)>) -> Map<Seq<u8>, RecordModel>
    decreases s.len(),
{
    if s.len() == 0 {
        Map::empty()
    } else {
        store_map(s.drop_last()).insert(s.last().0@, s.last().1@)
    }
}

/// An in-memory document store keyed by byte strings.
pub struct Store {
    entries: Vec<(Vec<u8>, Record)>,
}

proof fn lemma_store_map_keys(s: Seq<(Vec<u8>, Record)>)
    ensures
        forall|k: Seq<u8>| #[trigger] store_map(s).contains_key(k) <==> exists|i: int|
            0 <= i < s.len() && s[i].0@ == k,
    decreases s.len(),
{
    if s.len() > 0 {
        lemma_store_map_keys(s.drop_last());
        assert forall|k: Seq<u8>| #[trigger] store_map(s).contains_key(k) implies exists|i: int|
            0 <= i < s.len() && s[i].0@ == k by {
            if k == s.last().0@ {
                assert(s[s.len() - 1].0@ == k);
            } else {
                assert(store_map(s.drop_last()).contains_key(k));
                let i = choose|i: int| 0 <= i < s.drop_last().len() && s.drop_last()[i].0@ == k;
                assert(s.drop_last()[i] == s[i]);
                assert(s[i].0@ == k);
            }
        }
        assert forall|k: Seq<u8>|
            exists|i: int| 0 <= i < s.len() && s[i].0@ == k implies #[trigger] store_map(
            s,
        ).contains_key(k) by {
            let i = choose|i: int| 0 <= i < s.len() && s[i].0@ == k;
            if i < s.len() - 1 {
                assert(s.drop_last()[i] == s[i]);
                assert(exists|j: int| 0 <= j < s.drop_last().len() && s.drop_last()[j].0@ == k);
                assert(store_map(s.drop_last()).contains_key(k));
            }
        }
    }
}

proof fn lemma_store_map_value(s: Seq<(Vec<u8>, Record)>, i: int)
    requires
        0 <= i < s.len(),
        forall|j: int| i < j < s.len() ==> s[j].0@ != s[i].0@,
    ensures
        store_map(s).contains_key(s[i].0@),
        store_map(s)[s[i].0@] == s[i].1@,
    decreases s.len(),
{
    if i < s.len() - 1 {
        assert(forall|j: int| i < j < s.drop_last().len() ==> s.drop_last()[j].0@ != s[i].0@);
        lemma_store_map_value(s.drop_last(), i);
    }
}

proof fn lemma_store_map_remove_at(s: Seq<(Vec<u8>, Record)>, i: int)
    requires
        0 <= i < s.len(),
        forall|j: int| 0 <= j < s.len() && j != i ==> s[j].0@ != s[i].0@,
    ensures
        store_map(s.remove(i)) == store_map(s).remove(s[i].0@),
    decreases s.len(),
{
    let k = s[i].0@;
    if i == s.len() - 1 {
        assert(s.remove(i) =~= s.drop_last());
        lemma_store_map_keys(s.drop_last());
        assert(!store_map(s.drop_last()).contains_key(k));
        assert(store_map(s.drop_last()).insert(k, s.last().1@).remove(k) =~= store_map(
            s.drop_last(),
        ));
    } else {
        assert(s.remove(i).drop_last() =~= s.drop_last().remove(i));
        assert(s.remove(i).last() == s.last());
        lemma_store_map_remove_at(s.drop_last(), i);
        assert(s.drop_last()[i] == s[i]);
        assert(s.last().0@ != k);
        assert(store_map(s.drop_last()).remove(k).insert(s.last().0@, s.last().1@) =~= store_map(
            s.drop_last(),
        ).insert(s.last().0@, s.last().1@).remove(k));
    }
}

impl View for Store {
    type V = Map<Seq<u8>, RecordModel>;

    closed spec fn view(&self) -> Map<Seq<u8>, RecordModel> {
        store_map(self.entries@)
    }
}

impl Store {
    /// Keys are unique among the entries.
    pub closed spec fn wf(&self) -> bool {
        forall|i: int, j: int|
            0 <= i < j < self.entries@.len() ==> (#[trigger] self.entries@[i]).0@ != (
            #[trigger] self.entries@[j]).0@
    }

    /// An empty store.
    pub fn new() -> (r: Store)
        ensures
            r.wf(),
            r@ == Map::<Seq<u8>, RecordModel>::empty(),
    {
        Store { entries: Vec::new() }
    }

    /// Reads the document stored at `key`; `None` when no record exists.
    /// Never mutates.
    pub fn get_item(&self, key: &Vec<u8>) -> (r: Option<&Json>)
        requires
            self.wf(),
        ensures
            match r {
                Some(doc) => self@.contains_key(key@) && doc@ == self@[key@].value,
                None => !self@.contains_key(key@),
            },
    {
        let mut i: usize = 0;
        while i < self.entries.len()
            invariant
                self.wf(),
                i <= self.entries@.len(),
                forall|j: int| 0 <= j < i ==> (#[trigger] self.entries@[j]).0@ != key@,
            decreases self.entries@.len() - i,
        {
            if bytes_eq(&self.entries[i].0, key) {
                proof {
                    lemma_store_map_value(self.entries@, i as int);
                }
                return Some(&self.entries[i].1.value);
            }
            i += 1;
        }
        proof {
            lemma_store_map_keys(self.entries@);
        }
        None
    }

    /// Unconditionally removes any record for `key`; removing a missing key
    /// is a no-op.
    pub fn delete_item(&mut self, key: &Vec<u8>)
        requires
            old(self).wf(),
        ensures
            final(self).wf(),
            final(self)@ == old(self)@.remove(key@),
            !final(self)@.contains_key(key@),
    {
        let mut i: usize = 0;
        while i < self.entries.len()
            invariant
                self.wf(),
                self == old(self),
                i <= self.entries@.len(),
                forall|j: int| 0 <= j < i ==> (#[trigger] self.entries@[j]).0@ != key@,
            decreases self.entries@.len() - i,
        {
            if bytes_eq(&self.entries[i].0, key) {
                proof {
                    lemma_store_map_remove_at(self.entries@, i as int);
                }
                let _ = self.entries.remove(i);
                proof {
                    lemma_store_map_keys(self.entries@);
                }
                return ;
            }
            i += 1;
        }
        proof {
            lemma_store_map_keys(self.entries@);
            assert(!self@.contains_key(key@));
            assert(self@.remove(key@) =~= self@);
        }
    }

    /// Creates or overwrites the record for `key` with `doc`, stamped with
    /// the supplied write time.
    pub fn put_item_at(&mut self, key: &Vec<u8>, doc: Json, written_at: Vec<u8>)
        requires
            old(self).wf(),
        ensures
            final(self).wf(),
            final(self)@ == old(self)@.insert(
                key@,
                RecordModel { value: doc@, written_at: written_at@ },
            ),
    {
        let ghost dview = doc@;
        let ghost tsv = written_at@;
        self.delete_item(key);
        let ghost afterdel = self.entries@;
        proof {
            lemma_store_map_keys(afterdel);
            assert forall|i: int| 0 <= i < afterdel.len() implies (#[trigger] afterdel[i]).0@
                != key@ by {
                if afterdel[i].0@ == key@ {
                    assert(exists|j: int| 0 <= j < afterdel.len() && afterdel[j].0@ == key@);
                    assert(store_map(afterdel).contains_key(key@));
                }
            }
        }
        let k = dup_bytes(key);
        self.entries.push((k, Record { value: doc, written_at }));
        proof {
            assert(self.entries@.drop_last() =~= afterdel);
            assert(self.entries@.last().0@ == key@);
            assert(self.entries@.last().1@ == RecordModel { value: dview, written_at: tsv });
            assert(self@ =~= old(self)@.insert(
                key@,
                RecordModel { value: dview, written_at: tsv },
            ));
        }
    }

    /// Creates or overwrites the record for `key` with `doc`, stamped with
    /// the current time.
    pub fn put_item(&mut self, key: &Vec<u8>, doc: Json)
        requires
            old(self).wf(),
        ensures
            final(self).wf(),
            exists|ts: Seq<u8>|
                final(self)@ == old(self)@.insert(
                    key@,
                    RecordModel { value: doc@, written_at: ts },
                ),
    {
        let ghost dview = doc@;
        let ts = now_rfc3339();
        let ghost tsview = ts@;
        self.put_item_at(key, doc, ts);
        proof {
            assert(self@ == old(self)@.insert(
                key@,
                RecordModel { value: dview, written_at: tsview },
            ));
        }
    }

    /// The document that a patch of `key` merges onto: the stored document,
    /// or the empty object when no record exists (create-on-patch).
    pub open spec fn patch_base(m: Map<Seq<u8>, RecordModel>, k: Seq<u8>) -> JsonModel {
        if m.contains_key(k) {
            m[k].value
        } else {
            JsonModel::Obj(Seq::empty())
        }
    }

    /// Merge-patches the record at `key` with `patch`, stamped with the
    /// supplied write time. A patch of a missing key merges onto the empty
    /// object and creates the record.
    pub fn patch_item_at(&mut self, key: &Vec<u8>, patch: &Json, written_at: Vec<u8>)
        requires
            old(self).wf(),
        ensures
            final(self).wf(),
            final(self)@ == old(self)@.insert(
                key@,
                RecordModel {
                    value: merge(Self::patch_base(old(self)@, key@), patch@),
                    written_at: written_at@,
                },
            ),
    {
        let base: Json = match self.get_item(key) {
            Some(doc) => doc.dup(),
            None => Json::Obj(Vec::new()),
        };
        proof {
            if !old(self)@.contains_key(key@) {
                crate::json::lemma_pair_views_of(Seq::<(Vec<u8>, Json)>::empty());
                assert(pair_views_of(Seq::<(Vec<u8>, Json)>::empty()) =~= Seq::<
                    (Seq<u8>, JsonModel),
                >::empty());
            }
            assert(base@ == Self::patch_base(old(self)@, key@));
        }
        let merged = merge_docs(base, patch);
        self.put_item_at(key, merged, written_at);
    }

    /// Merge-patches the record at `key` with `patch`, stamped with the
    /// current time.
    pub fn patch_item(&mut self, key: &Vec<u8>, patch: &Json)
        requires
            old(self).wf(),
        ensures
            final(self).wf(),
            exists|ts: Seq<u8>|
                final(self)@ == old(self)@.insert(
                    key@,
                    RecordModel {
                        value: merge(Self::patch_base(old(self)@, key@), patch@),
                        written_at: ts,
                    },
                ),
    {
        let ts = now_rfc3339();
        let ghost tsview = ts@;
        self.patch_item_at(key, patch, ts);
        proof {
            assert(self@ == old(self)@.insert(
                key@,
                RecordModel {
                    value: merge(Self::patch_base(old(self)@, key@), patch@),
                    written_at: tsview,
                },
            ));
        }
    }
}

/// Law: deleting a key that is absent leaves the store unchanged, so a
/// delete of a never-written key succeeds as a no-op.
pub proof fn lemma_delete_missing_is_noop(m: Map<Seq<u8>, RecordModel>, k: Seq<u8>)
    requires
        !m.contains_key(k),
    ensures
        m.remove(k) == m,
{
    assert(m.remove(k) =~= m);
}

/// Law: writing a document and then reading the same key yields exactly the
/// document written.
pub proof fn lemma_put_then_get(m: Map<Seq<u8>, RecordModel>, k: Seq<u8>, rec: RecordModel)
    ensures
        m.insert(k, rec).contains_key(k),
        m.insert(k, rec)[k] == rec,
{
}

/// Law: deleting a key twice yields the same store as deleting it once, so
/// both deletes observe the same outcome.
pub proof fn lemma_delete_idempotent(m: Map<Seq<u8>, RecordModel>, k: Seq<u8>)
    ensures
        m.remove(k).remove(k) == m.remove(k),
{
    assert(m.remove(k).remove(k) =~= m.remove(k));
}

/// Law: patching an existing object-valued record with the empty patch
/// object leaves the document unchanged and only refreshes the write time.
pub proof fn lemma_patch_empty_refreshes_only(
    m: Map<Seq<u8>, RecordModel>,
    k: Seq<u8>,
    ts: Seq<u8>,
)
    requires
        m.contains_key(k),
        m[k].value is Obj,
    ensures
        m.insert(
            k,
            RecordModel { value: merge(Store::patch_base(m, k), JsonModel::Obj(Seq::empty())), written_at: ts },
        ) == m.insert(k, RecordModel { value: m[k].value, written_at: ts }),
{
    crate::merge::lemma_merge_empty_patch(m[k].value);
}

} // verus!
