//! A verified in-memory collection store with the shape the document
//! mapper needs from its backing store client: replace-with-upsert,
//! find (with sort, skip and limit), find-one, count, aggregate and
//! distinct.  The store holds one collection: a sequence of documents,
//! each with a unique `_id` identifier.

use vstd::prelude::*;
use crate::value::{Value, ValueModel};
use crate::value::{value_le, num_of, lemma_value_le_total, lemma_value_le_trans};
use crate::document::{Document, DocModel};
use crate::document::{doc_get, doc_wf};
use crate::document::{lemma_fields_model_len, lemma_fields_model_index};
use crate::document::{clone_document, str_eq};

verus! {

/// Query options the store honours: an ordered sort specification
/// (field to direction, a negative direction meaning descending), an
/// offset, and a bound on the number of results (absent = unbounded).
pub struct FindOptions {
    pub sort: Option<Document>,
    pub limit: Option<i64>,
    pub skip: Option<i64>,
}

impl Default for FindOptions {
    fn default() -> (r: FindOptions)
        ensures
            r.sort is None,
            r.limit is None,
            r.skip is None,
    {
        FindOptions { sort: None, limit: None, skip: None }
    }
}

/// Write options: upsert on a replace, and the acknowledgement level
/// asked of the store.
#[derive(Clone, Copy, Debug, PartialEq, Eq, Structural)]
pub struct WriteConcern {
    pub journal: bool,
}

/// The store's account of a rejected or rolled-back write.
pub struct WriteException {
    pub message: String,
}

/// What a write reported back: how many documents matched, whether one
/// was inserted, and whether the store rejected the write.
pub struct UpdateResult {
    pub matched_count: u64,
    pub modified_count: u64,
    pub upserted: bool,
    pub write_exception: Option<WriteException>,
}

/// A document matches a filter when every filter field is present in the
/// document with exactly the filter's value (shallow, field-by-field).
pub open spec fn doc_matches(d: DocModel, f: DocModel) -> bool {
    forall|i: int| 0 <= i < f.len() ==> doc_get(d, (#[trigger] f[i]).0) == Some(f[i].1)
}

pub open spec fn matches_opt(d: DocModel, f: Option<DocModel>) -> bool {
    match f {
        Some(fm) => doc_matches(d, fm),
        None => true,
    }
}

/// The documents of `s` that match `f`, in store order.
pub open spec fn matching(s: Seq<DocModel>, f: Option<DocModel>) -> Seq<DocModel>
    decreases s.len(),
{
    if s.len() == 0 {
        Seq::empty()
    } else {
        matching(s.drop_last(), f) + (if matches_opt(s.last(), f) {
            seq![s.last()]
        } else {
            Seq::empty()
        })
    }
}

/// Replace the first document matching `f` by `d`; when none matches
/// and `upsert` is set, append `d`.
pub open spec fn spec_replace_one(
    s: Seq<DocModel>,
    f: DocModel,
    d: DocModel,
    upsert: bool,
) -> Seq<DocModel>
    decreases s.len(),
{
    if s.len() == 0 {
        if upsert {
            seq![d]
        } else {
            Seq::empty()
        }
    } else if doc_matches(s[0], f) {
        seq![d] + s.subrange(1, s.len() as int)
    } else {
        seq![s[0]] + spec_replace_one(s.subrange(1, s.len() as int), f, d, upsert)
    }
}

/// The filter a save issues: exactly one `_id` constraint.
pub open spec fn id_filter(idb: Seq<u8>) -> DocModel {
    seq![("_id"@, ValueModel::Id(idb))]
}

/// The identifier of a stored document, when its `_id` field holds one.
pub open spec fn id_of(d: DocModel) -> Option<Seq<u8>> {
    match doc_get(d, "_id"@) {
        Some(ValueModel::Id(b)) => Some(b),
        _ => None,
    }
}

/// Store well-formedness: every document carries an identifier, and no
/// two documents share one.
pub open spec fn store_wf(s: Seq<DocModel>) -> bool {
    &&& forall|i: int| 0 <= i < s.len() ==> (#[trigger] id_of(s[i])) is Some
    &&& forall|i: int, j: int| 0 <= i < j < s.len() ==> id_of(s[i]) != id_of(s[j])
}

/// Matching the one-field `_id` filter is the same as carrying that
/// identifier.
pub proof fn lemma_matches_id_filter(d: DocModel, idb: Seq<u8>)
    ensures
        doc_matches(d, id_filter(idb)) == (id_of(d) == Some(idb)),
{
    let f = id_filter(idb);
    if doc_matches(d, f) {
        assert(doc_get(d, f[0].0) == Some(f[0].1));
    }
    if id_of(d) == Some(idb) {
        assert forall|i: int| 0 <= i < f.len() implies doc_get(d, (#[trigger] f[i]).0) == Some(
            f[i].1,
        ) by {
            assert(f[i] == ("_id"@, ValueModel::Id(idb)));
        }
    }
}

/// Upserting a document under its own identifier keeps the store
/// well-formed.
pub proof fn lemma_replace_id_wf(s: Seq<DocModel>, idb: Seq<u8>, d: DocModel)
    requires
        store_wf(s),
        id_of(d) == Some(idb),
    ensures
        store_wf(spec_replace_one(s, id_filter(idb), d, true)),
    decreases s.len(),
{
    let f = id_filter(idb);
    if s.len() == 0 {
    } else if doc_matches(s[0], f) {
        let r = seq![d] + s.subrange(1, s.len() as int);
        lemma_matches_id_filter(s[0], idb);
        assert forall|i: int, j: int| 0 <= i < j < r.len() implies id_of(r[i]) != id_of(
            r[j],
        ) by {
            if i == 0 {
                assert(r[j] == s[j]);
                assert(id_of(s[0]) != id_of(s[j]));
            } else {
                assert(r[i] == s[i] && r[j] == s[j]);
            }
        }
    } else {
        let s1 = s.subrange(1, s.len() as int);
        assert(store_wf(s1)) by {
            assert forall|i: int| 0 <= i < s1.len() implies (#[trigger] id_of(s1[i])) is Some by {
                assert(s1[i] == s[i + 1]);
            }
            assert forall|i: int, j: int| 0 <= i < j < s1.len() implies id_of(s1[i]) != id_of(
                s1[j],
            ) by {
                assert(s1[i] == s[i + 1] && s1[j] == s[j + 1]);
            }
        }
        lemma_replace_id_wf(s1, idb, d);
        let r1 = spec_replace_one(s1, f, d, true);
        let r = seq![s[0]] + r1;
        lemma_matches_id_filter(s[0], idb);
        lemma_replace_elems(s1, f, d, true);
        assert forall|i: int, j: int| 0 <= i < j < r.len() implies id_of(r[i]) != id_of(
            r[j],
        ) by {
            if i == 0 {
                assert(r[j] == r1[j - 1]);
                assert(r1[j - 1] == d || s1.contains(r1[j - 1]));
                if r1[j - 1] == d {
                    assert(id_of(s[0]) != Some(idb));
                } else {
                    let m = choose|m: int| 0 <= m < s1.len() && s1[m] == r1[j - 1];
                    assert(id_of(s[0]) != id_of(s[m + 1]));
                }
            } else {
                assert(r[i] == r1[i - 1] && r[j] == r1[j - 1]);
            }
        }
        assert forall|i: int| 0 <= i < r.len() implies (#[trigger] id_of(r[i])) is Some by {
            if i > 0 {
                assert(r[i] == r1[i - 1]);
            }
        }
    }
}

/// Every document of a replaced store is the new document or one of the
/// old ones.
pub proof fn lemma_replace_elems(s: Seq<DocModel>, f: DocModel, d: DocModel, upsert: bool)
    ensures
        forall|i: int|
            0 <= i < spec_replace_one(s, f, d, upsert).len() ==> (#[trigger] spec_replace_one(
                s,
                f,
                d,
                upsert,
            )[i]) == d || s.contains(spec_replace_one(s, f, d, upsert)[i]),
    decreases s.len(),
{
    let r = spec_replace_one(s, f, d, upsert);
    if s.len() == 0 {
    } else if doc_matches(s[0], f) {
        assert forall|i: int| 0 <= i < r.len() implies (#[trigger] r[i]) == d || s.contains(
            r[i],
        ) by {
            if i > 0 {
                assert(r[i] == s[i]);
            }
        }
    } else {
        let s1 = s.subrange(1, s.len() as int);
        lemma_replace_elems(s1, f, d, upsert);
        let r1 = spec_replace_one(s1, f, d, upsert);
        assert forall|i: int| 0 <= i < r.len() implies (#[trigger] r[i]) == d || s.contains(
            r[i],
        ) by {
            if i == 0 {
                assert(r[0] == s[0]);
            } else {
                assert(r[i] == r1[i - 1]);
                if r1[i - 1] != d {
                    let m = choose|m: int| 0 <= m < s1.len() && s1[m] == r1[i - 1];
                    assert(s[m + 1] == s1[m]);
                }
            }
        }
    }
}

/// Saving the same document twice is the same as saving it once.
pub proof fn lemma_replace_idempotent(s: Seq<DocModel>, f: DocModel, d: DocModel)
    requires
        doc_matches(d, f),
    ensures
        spec_replace_one(spec_replace_one(s, f, d, true), f, d, true) == spec_replace_one(
            s,
            f,
            d,
            true,
        ),
    decreases s.len(),
{
    let r = spec_replace_one(s, f, d, true);
    if s.len() == 0 {
        assert(r == seq![d]);
        assert(spec_replace_one(r, f, d, true) =~= r);
    } else if doc_matches(s[0], f) {
        assert(r[0] == d);
        assert(spec_replace_one(r, f, d, true) =~= r) by {
            assert(spec_replace_one(r, f, d, true) == seq![d] + r.subrange(1, r.len() as int));
        }
    } else {
        let s1 = s.subrange(1, s.len() as int);
        lemma_replace_idempotent(s1, f, d);
        let r1 = spec_replace_one(s1, f, d, true);
        assert(r == seq![s[0]] + r1);
        assert(r[0] == s[0]);
        assert(r.subrange(1, r.len() as int) =~= r1);
        assert(spec_replace_one(r, f, d, true) == seq![s[0]] + spec_replace_one(r1, f, d, true));
    }
}

/// The collection store: documents in insertion order, each with a
/// unique identifier, injected into the mapper as an explicit handle.
pub struct Collection {
    pub docs: Vec<Document>,
}

impl Collection {
    pub open spec fn model(self) -> Seq<DocModel>
        decreases self,
    {
        Collection::docs_model(self.docs@)
    }

    pub open spec fn docs_model(s: Seq<Document>) -> Seq<DocModel>
        decreases s,
    {
        if s.len() == 0 {
            Seq::empty()
        } else {
            seq![s[0].model()] + Collection::docs_model(s.subrange(1, s.len() as int))
        }
    }

    /// The store invariant: every document has an identifier and no two
    /// share one.
    pub open spec fn inv(self) -> bool {
        store_wf(self.model())
    }

    pub fn new() -> (r: Collection)
        ensures
            r.model() == Seq::<DocModel>::empty(),
            r.inv(),
    {
        Collection { docs: Vec::new() }
    }
}

pub proof fn lemma_docs_model_len(s: Seq<Document>)
    ensures
        Collection::docs_model(s).len() == s.len(),
    decreases s.len(),
{
    if s.len() > 0 {
        lemma_docs_model_len(s.subrange(1, s.len() as int));
    }
}

pub proof fn lemma_docs_model_index(s: Seq<Document>, i: int)
    requires
        0 <= i < s.len(),
    ensures
        Collection::docs_model(s)[i] == s[i].model(),
    decreases i,
{
    lemma_docs_model_len(s.subrange(1, s.len() as int));
    if i > 0 {
        lemma_docs_model_index(s.subrange(1, s.len() as int), i - 1);
    }
}

/// Appending a document appends its model.
pub proof fn lemma_docs_model_push(s: Seq<Document>)
    requires
        s.len() > 0,
    ensures
        Collection::docs_model(s) == Collection::docs_model(s.drop_last()).push(s.last().model()),
{
    lemma_docs_model_len(s);
    lemma_docs_model_len(s.drop_last());
    assert forall|j: int|
        0 <= j < s.len() implies Collection::docs_model(s)[j] == Collection::docs_model(
        s.drop_last(),
    ).push(s.last().model())[j] by {
        lemma_docs_model_index(s, j);
        if j < s.len() - 1 {
            lemma_docs_model_index(s.drop_last(), j);
        }
    }
    assert(Collection::docs_model(s) =~= Collection::docs_model(s.drop_last()).push(
        s.last().model(),
    ));
}

/// Whether a document matches a filter.
#[verifier::loop_isolation(false)]
pub fn matches_filter(d: &Document, f: &Document) -> (r: bool)
    ensures
        r == doc_matches(d.model(), f.model()),
{
    proof {
        lemma_fields_model_len(f.fields@);
    }
    let mut i: usize = 0;
    while i < f.fields.len()
        invariant
            0 <= i <= f.fields@.len(),
            forall|j: int| 0 <= j < i ==> doc_get(d.model(), (#[trigger] f.model()[j]).0) == Some(
                f.model()[j].1,
            ),
        decreases f.fields@.len() - i,
    {
        proof {
            lemma_fields_model_index(f.fields@, i as int);
        }
        match d.get(f.fields[i].0.as_str()) {
            Some(w) => {
                let same = w.deep_eq(&f.fields[i].1);
                if !same {
                    return false;
                }
            },
            None => {
                return false;
            },
        }
        i += 1;
    }
    true
}

impl Collection {
    /// Replace the first document matching `filter` by `doc`; insert
    /// `doc` when none matches and `upsert` is set.  The in-memory
    /// store never reports a write exception.
    #[verifier::loop_isolation(false)]
    pub fn replace_one(&mut self, filter: &Document, doc: Document, upsert: bool) -> (r:
        UpdateResult)
        ensures
            final(self).model() == spec_replace_one(
                old(self).model(),
                filter.model(),
                doc.model(),
                upsert,
            ),
            r.write_exception is None,
            r.matched_count as int == if exists|i: int|
                0 <= i < old(self).model().len() && doc_matches(
                    #[trigger] old(self).model()[i],
                    filter.model(),
                ) {
                1int
            } else {
                0int
            },
            r.upserted == (r.matched_count == 0 && upsert),
    {
        proof {
            lemma_docs_model_len(self.docs@);
        }
        let ghost s0 = self.model();
        let mut i: usize = 0;
        while i < self.docs.len()
            invariant
                0 <= i <= self.docs@.len(),
                self.docs@ == old(self).docs@,
                forall|j: int| 0 <= j < i ==> !doc_matches(
                    (#[trigger] s0[j]),
                    filter.model(),
                ),
            decreases self.docs@.len() - i,
        {
            proof {
                lemma_docs_model_index(self.docs@, i as int);
            }
            if matches_filter(&self.docs[i], filter) {
                self.docs[i] = doc;
                proof {
                    lemma_replace_update(s0, filter.model(), self.docs@[i as int].model(),
                        i as int, upsert);
                    lemma_docs_model_len(self.docs@);
                    assert forall|j: int|
                        0 <= j < self.docs@.len() implies Collection::docs_model(self.docs@)[j]
                        == s0.update(i as int, self.docs@[i as int].model())[j] by {
                        lemma_docs_model_index(self.docs@, j);
                        if j != i {
                            lemma_docs_model_index(old(self).docs@, j);
                        }
                    }
                    assert(self.model() =~= spec_replace_one(
                        s0,
                        filter.model(),
                        self.docs@[i as int].model(),
                        upsert,
                    ));
                }
                return UpdateResult {
                    matched_count: 1,
                    modified_count: 1,
                    upserted: false,
                    write_exception: None,
                };
            }
            i += 1;
        }
        if upsert {
            let ghost pre = self.docs@;
            self.docs.push(doc);
            proof {
                lemma_replace_append(s0, filter.model(), self.docs@.last().model());
                assert(self.docs@.drop_last() =~= pre);
                lemma_docs_model_push(self.docs@);
            }
            UpdateResult { matched_count: 0, modified_count: 0, upserted: true, write_exception
                : None }
        } else {
            proof {
                lemma_replace_none(s0, filter.model(), doc.model());
            }
            UpdateResult { matched_count: 0, modified_count: 0, upserted: false, write_exception
                : None }
        }
    }
}

/// When the first match stands at `i`, replacing updates in place.
pub proof fn lemma_replace_update(s: Seq<DocModel>, f: DocModel, d: DocModel, i: int, upsert: bool)
    requires
        0 <= i < s.len(),
        doc_matches(s[i], f),
        forall|j: int| 0 <= j < i ==> !doc_matches((#[trigger] s[j]), f),
    ensures
        spec_replace_one(s, f, d, upsert) == s.update(i, d),
    decreases i,
{
    if i == 0 {
        assert(spec_replace_one(s, f, d, upsert) =~= s.update(0, d));
    } else {
        let s1 = s.subrange(1, s.len() as int);
        assert(doc_matches(s1[i - 1], f));
        assert forall|j: int| 0 <= j < i - 1 implies !doc_matches((#[trigger] s1[j]), f) by {
            assert(s1[j] == s[j + 1]);
        }
        lemma_replace_update(s1, f, d, i - 1, upsert);
        assert(s1.update(i - 1, d) =~= s.update(i, d).subrange(1, s.len() as int));
        assert(spec_replace_one(s, f, d, upsert) =~= s.update(i, d));
    }
}

/// When nothing matches, an upserting replace appends.
pub proof fn lemma_replace_append(s: Seq<DocModel>, f: DocModel, d: DocModel)
    requires
        forall|j: int| 0 <= j < s.len() ==> !doc_matches((#[trigger] s[j]), f),
    ensures
        spec_replace_one(s, f, d, true) == s.push(d),
    decreases s.len(),
{
    if s.len() == 0 {
        assert(spec_replace_one(s, f, d, true) =~= s.push(d));
    } else {
        let s1 = s.subrange(1, s.len() as int);
        assert forall|j: int| 0 <= j < s1.len() implies !doc_matches((#[trigger] s1[j]), f) by {
            assert(s1[j] == s[j + 1]);
        }
        lemma_replace_append(s1, f, d);
        assert(s1.push(d) =~= s.push(d).subrange(1, s.len() as int + 1));
        assert(spec_replace_one(s, f, d, true) =~= s.push(d));
    }
}

/// When nothing matches and upsert is off, the store is unchanged.
pub proof fn lemma_replace_none(s: Seq<DocModel>, f: DocModel, d: DocModel)
    requires
        forall|j: int| 0 <= j < s.len() ==> !doc_matches((#[trigger] s[j]), f),
    ensures
        spec_replace_one(s, f, d, false) == s,
    decreases s.len(),
{
    if s.len() > 0 {
        let s1 = s.subrange(1, s.len() as int);
        assert forall|j: int| 0 <= j < s1.len() implies !doc_matches((#[trigger] s1[j]), f) by {
            assert(s1[j] == s[j + 1]);
        }
        lemma_replace_none(s1, f, d);
        assert(spec_replace_one(s, f, d, false) =~= s);
    }
}

/// The sort-field value of a document: a missing field sorts as null.
pub open spec fn get_or_null(d: DocModel, k: Seq<char>) -> ValueModel {
    match doc_get(d, k) {
        Some(v) => v,
        None => ValueModel::Null,
    }
}

/// One sort key compared in its direction.
pub open spec fn sort_key_le(k: Seq<char>, desc: bool, a: DocModel, b: DocModel) -> bool {
    if desc {
        value_le(get_or_null(b, k), get_or_null(a, k))
    } else {
        value_le(get_or_null(a, k), get_or_null(b, k))
    }
}

pub open spec fn sort_tie(k: Seq<char>, desc: bool, a: DocModel, b: DocModel) -> bool {
    sort_key_le(k, desc, a, b) && sort_key_le(k, desc, b, a)
}

/// The document order of a sort specification: keys in order, a tie on
/// one key decided by the next.
pub open spec fn doc_le_by(sort: DocModel, a: DocModel, b: DocModel) -> bool
    decreases sort.len(),
{
    if sort.len() == 0 {
        true
    } else {
        let k = sort[0].0;
        let desc = num_of(sort[0].1) < 0;
        if sort_tie(k, desc, a, b) {
            doc_le_by(sort.subrange(1, sort.len() as int), a, b)
        } else {
            sort_key_le(k, desc, a, b)
        }
    }
}

pub proof fn lemma_doc_le_by_total(sort: DocModel, a: DocModel, b: DocModel)
    ensures
        doc_le_by(sort, a, b) || doc_le_by(sort, b, a),
    decreases sort.len(),
{
    if sort.len() > 0 {
        let k = sort[0].0;
        lemma_value_le_total(get_or_null(a, k), get_or_null(b, k));
        let desc = num_of(sort[0].1) < 0;
        if sort_tie(k, desc, a, b) {
            lemma_doc_le_by_total(sort.subrange(1, sort.len() as int), a, b);
        }
    }
}

pub proof fn lemma_doc_le_by_trans(sort: DocModel, a: DocModel, b: DocModel, c: DocModel)
    requires
        doc_le_by(sort, a, b),
        doc_le_by(sort, b, c),
    ensures
        doc_le_by(sort, a, c),
    decreases sort.len(),
{
    if sort.len() > 0 {
        let k = sort[0].0;
        let desc = num_of(sort[0].1) < 0;
        let va = get_or_null(a, k);
        let vb = get_or_null(b, k);
        let vc = get_or_null(c, k);
        if value_le(va, vb) && value_le(vb, vc) {
            lemma_value_le_trans(va, vb, vc);
        }
        if value_le(vb, vc) && value_le(vc, va) {
            lemma_value_le_trans(vb, vc, va);
        }
        if value_le(vc, va) && value_le(va, vb) {
            lemma_value_le_trans(vc, va, vb);
        }
        if value_le(vc, vb) && value_le(vb, va) {
            lemma_value_le_trans(vc, vb, va);
        }
        if value_le(vb, va) && value_le(va, vc) {
            lemma_value_le_trans(vb, va, vc);
        }
        if value_le(va, vc) && value_le(vc, vb) {
            lemma_value_le_trans(va, vc, vb);
        }
        if sort_tie(k, desc, a, b) && sort_tie(k, desc, b, c) {
            lemma_doc_le_by_trans(sort.subrange(1, sort.len() as int), a, b, c);
        }
    }
}

/// Sortedness under a sort specification.
pub open spec fn doc_sorted(sort: DocModel, s: Seq<DocModel>) -> bool {
    forall|i: int, j: int| 0 <= i < j < s.len() ==> doc_le_by(sort, s[i], s[j])
}

/// Stable insertion: the new document goes after every document that
/// sorts no later than it.
pub open spec fn spec_insert(sort: DocModel, d: DocModel, s: Seq<DocModel>) -> Seq<DocModel>
    decreases s.len(),
{
    if s.len() == 0 {
        seq![d]
    } else if doc_le_by(sort, s[0], d) {
        seq![s[0]] + spec_insert(sort, d, s.subrange(1, s.len() as int))
    } else {
        seq![d] + s
    }
}

/// Stable sort of the documents, in store order.
pub open spec fn spec_sort_docs(sort: DocModel, s: Seq<DocModel>) -> Seq<DocModel>
    decreases s.len(),
{
    if s.len() == 0 {
        Seq::empty()
    } else {
        spec_insert(sort, s.last(), spec_sort_docs(sort, s.drop_last()))
    }
}

pub proof fn lemma_spec_insert_len(sort: DocModel, d: DocModel, s: Seq<DocModel>)
    ensures
        spec_insert(sort, d, s).len() == s.len() + 1,
        forall|i: int|
            0 <= i < spec_insert(sort, d, s).len() ==> (#[trigger] spec_insert(sort, d, s)[i])
                == d || s.contains(spec_insert(sort, d, s)[i]),
    decreases s.len(),
{
    let r = spec_insert(sort, d, s);
    if s.len() == 0 {
    } else if doc_le_by(sort, s[0], d) {
        let s1 = s.subrange(1, s.len() as int);
        lemma_spec_insert_len(sort, d, s1);
        let r1 = spec_insert(sort, d, s1);
        assert forall|i: int| 0 <= i < r.len() implies (#[trigger] r[i]) == d || s.contains(
            r[i],
        ) by {
            if i > 0 {
                assert(r[i] == r1[i - 1]);
                if r1[i - 1] != d {
                    let m = choose|m: int| 0 <= m < s1.len() && s1[m] == r1[i - 1];
                    assert(s[m + 1] == s1[m]);
                }
            }
        }
    } else {
        assert forall|i: int| 0 <= i < r.len() implies (#[trigger] r[i]) == d || s.contains(
            r[i],
        ) by {
            if i > 0 {
                assert(r[i] == s[i - 1]);
            }
        }
    }
}

pub proof fn lemma_spec_insert_multiset(sort: DocModel, d: DocModel, s: Seq<DocModel>)
    ensures
        spec_insert(sort, d, s).to_multiset() == s.to_multiset().insert(d),
    decreases s.len(),
{
    broadcast use vstd::seq_lib::group_to_multiset_ensures;

    let r = spec_insert(sort, d, s);
    if s.len() == 0 {
        assert(seq![d] =~= Seq::<DocModel>::empty().push(d));
        assert(r.to_multiset() =~= s.to_multiset().insert(d));
    } else if doc_le_by(sort, s[0], d) {
        let s1 = s.subrange(1, s.len() as int);
        lemma_spec_insert_multiset(sort, d, s1);
        let r1 = spec_insert(sort, d, s1);
        vstd::seq_lib::lemma_multiset_commutative(seq![s[0]], r1);
        vstd::seq_lib::lemma_multiset_commutative(seq![s[0]], s1);
        assert(seq![s[0]] + s1 =~= s);
        assert(seq![s[0]] =~= Seq::<DocModel>::empty().push(s[0]));
        assert(r.to_multiset() =~= s.to_multiset().insert(d));
    } else {
        vstd::seq_lib::lemma_multiset_commutative(seq![d], s);
        assert(seq![d] =~= Seq::<DocModel>::empty().push(d));
        assert(r.to_multiset() =~= s.to_multiset().insert(d));
    }
}

pub proof fn lemma_spec_insert_sorted(sort: DocModel, d: DocModel, s: Seq<DocModel>)
    requires
        doc_sorted(sort, s),
    ensures
        doc_sorted(sort, spec_insert(sort, d, s)),
    decreases s.len(),
{
    let r = spec_insert(sort, d, s);
    if s.len() == 0 {
    } else if doc_le_by(sort, s[0], d) {
        let s1 = s.subrange(1, s.len() as int);
        assert forall|i: int, j: int| 0 <= i < j < s1.len() implies doc_le_by(
            sort,
            s1[i],
            s1[j],
        ) by {
            assert(s1[i] == s[i + 1] && s1[j] == s[j + 1]);
        }
        lemma_spec_insert_sorted(sort, d, s1);
        lemma_spec_insert_len(sort, d, s1);
        let r1 = spec_insert(sort, d, s1);
        assert forall|i: int, j: int| 0 <= i < j < r.len() implies doc_le_by(
            sort,
            r[i],
            r[j],
        ) by {
            if i == 0 {
                assert(r[0] == s[0]);
                assert(r[j] == r1[j - 1]);
                if r1[j - 1] == d {
                } else {
                    let m = choose|m: int| 0 <= m < s1.len() && s1[m] == r1[j - 1];
                    assert(doc_le_by(sort, s[0], s[m + 1]));
                }
            } else {
                assert(r[i] == r1[i - 1] && r[j] == r1[j - 1]);
            }
        }
    } else {
        lemma_doc_le_by_total(sort, s[0], d);
        assert forall|i: int, j: int| 0 <= i < j < r.len() implies doc_le_by(
            sort,
            r[i],
            r[j],
        ) by {
            if i == 0 {
                assert(r[0] == d && r[j] == s[j - 1]);
                if j > 1 {
                    lemma_doc_le_by_trans(sort, d, s[0], s[j - 1]);
                }
            } else {
                assert(r[i] == s[i - 1] && r[j] == s[j - 1]);
            }
        }
    }
}

pub proof fn lemma_spec_sort_docs(sort: DocModel, s: Seq<DocModel>)
    ensures
        doc_sorted(sort, spec_sort_docs(sort, s)),
        spec_sort_docs(sort, s).len() == s.len(),
        spec_sort_docs(sort, s).to_multiset() == s.to_multiset(),
    decreases s.len(),
{
    broadcast use vstd::seq_lib::group_to_multiset_ensures;

    if s.len() > 0 {
        lemma_spec_sort_docs(sort, s.drop_last());
        lemma_spec_insert_sorted(sort, s.last(), spec_sort_docs(sort, s.drop_last()));
        lemma_spec_insert_len(sort, s.last(), spec_sort_docs(sort, s.drop_last()));
        lemma_spec_insert_multiset(sort, s.last(), spec_sort_docs(sort, s.drop_last()));
        assert(s.drop_last().push(s.last()) =~= s);
        assert(spec_sort_docs(sort, s).to_multiset() =~= s.to_multiset());
    }
}

/// Whether a sort direction value means descending.
fn dir_desc(v: &Value) -> (r: bool)
    ensures
        r == (num_of(v.model()) < 0),
{
    match v {
        Value::Int32(i) => *i < 0,
        Value::Int64(i) => *i < 0,
        Value::DateTime(t) => *t < 0,
        _ => false,
    }
}

/// Compare two documents on one sort key.
fn le_at(a: &Document, b: &Document, key: &str, desc: bool) -> (r: bool)
    ensures
        r == sort_key_le(key@, desc, a.model(), b.model()),
{
    let nullv = Value::Null;
    let va = match a.get(key) {
        Some(v) => v,
        None => &nullv,
    };
    let vb = match b.get(key) {
        Some(v) => v,
        None => &nullv,
    };
    if desc {
        vb.le(va)
    } else {
        va.le(vb)
    }
}

/// With ties on the first `i` sort keys, the order is decided by the
/// remaining keys.
pub proof fn lemma_doc_le_by_skip(sort: DocModel, a: DocModel, b: DocModel, i: int)
    requires
        0 <= i <= sort.len(),
        forall|j: int| 0 <= j < i ==> sort_tie(
            (#[trigger] sort[j]).0,
            num_of(sort[j].1) < 0,
            a,
            b,
        ),
    ensures
        doc_le_by(sort, a, b) == doc_le_by(sort.subrange(i, sort.len() as int), a, b),
    decreases i,
{
    if i == 0 {
        assert(sort.subrange(0, sort.len() as int) =~= sort);
    } else {
        let s1 = sort.subrange(1, sort.len() as int);
        assert forall|j: int| 0 <= j < i - 1 implies sort_tie(
            (#[trigger] s1[j]).0,
            num_of(s1[j].1) < 0,
            a,
            b,
        ) by {
            assert(s1[j] == sort[j + 1]);
        }
        lemma_doc_le_by_skip(s1, a, b, i - 1);
        assert(s1.subrange(i - 1, s1.len() as int) =~= sort.subrange(i, sort.len() as int));
    }
}

/// The document order, executable.
#[verifier::loop_isolation(false)]
pub fn doc_le(sort: &Document, a: &Document, b: &Document) -> (r: bool)
    ensures
        r == doc_le_by(sort.model(), a.model(), b.model()),
{
    proof {
        lemma_fields_model_len(sort.fields@);
    }
    let mut i: usize = 0;
    while i < sort.fields.len()
        invariant
            0 <= i <= sort.fields@.len(),
            forall|j: int| 0 <= j < i ==> sort_tie(
                (#[trigger] sort.model()[j]).0,
                num_of(sort.model()[j].1) < 0,
                a.model(),
                b.model(),
            ),
        decreases sort.fields@.len() - i,
    {
        proof {
            lemma_fields_model_index(sort.fields@, i as int);
        }
        let desc = dir_desc(&sort.fields[i].1);
        let le = le_at(a, b, sort.fields[i].0.as_str(), desc);
        let ge = le_at(b, a, sort.fields[i].0.as_str(), desc);
        if le && ge {
            i += 1;
        } else {
            proof {
                lemma_doc_le_by_skip(sort.model(), a.model(), b.model(), i as int);
                assert(sort.model().subrange(i as int, sort.model().len() as int)[0]
                    == sort.model()[i as int]);
            }
            return le;
        }
    }
    proof {
        lemma_doc_le_by_skip(sort.model(), a.model(), b.model(), i as int);
        assert(sort.model().subrange(i as int, sort.model().len() as int)
            =~= Seq::<(Seq<char>, ValueModel)>::empty());
    }
    true
}

/// Where a stable insertion lands.
pub proof fn lemma_spec_insert_at(sort: DocModel, d: DocModel, s: Seq<DocModel>, i: int)
    requires
        0 <= i <= s.len(),
        forall|j: int| 0 <= j < i ==> doc_le_by(sort, (#[trigger] s[j]), d),
        i == s.len() || !doc_le_by(sort, s[i], d),
    ensures
        spec_insert(sort, d, s) == s.subrange(0, i) + seq![d] + s.subrange(i, s.len() as int),
    decreases s.len(),
{
    if s.len() == 0 {
        assert(spec_insert(sort, d, s) =~= s.subrange(0, 0) + seq![d] + s.subrange(0, 0));
    } else if i == 0 {
        assert(spec_insert(sort, d, s) =~= s.subrange(0, 0) + seq![d] + s.subrange(
            0,
            s.len() as int,
        ));
    } else {
        let s1 = s.subrange(1, s.len() as int);
        assert(doc_le_by(sort, s[0], d));
        assert forall|j: int| 0 <= j < i - 1 implies doc_le_by(sort, (#[trigger] s1[j]), d) by {
            assert(s1[j] == s[j + 1]);
        }
        lemma_spec_insert_at(sort, d, s1, i - 1);
        assert(s1.subrange(0, i - 1) =~= s.subrange(1, i));
        assert(s1.subrange(i - 1, s1.len() as int) =~= s.subrange(i, s.len() as int));
        assert(spec_insert(sort, d, s) =~= s.subrange(0, i) + seq![d] + s.subrange(
            i,
            s.len() as int,
        ));
    }
}

/// Insert a document into a sorted vector, keeping it sorted.
#[verifier::loop_isolation(false)]
fn insert_sorted(sort: &Document, out: &mut Vec<Document>, d: Document)
    ensures
        Collection::docs_model(final(out)@) == spec_insert(
            sort.model(),
            d.model(),
            Collection::docs_model(old(out)@),
        ),
{
    proof {
        lemma_docs_model_len(out@);
    }
    let ghost s0 = Collection::docs_model(out@);
    let mut idx: usize = 0;
    while idx < out.len()
        invariant
            0 <= idx <= out@.len(),
            out@ == old(out)@,
            forall|j: int| 0 <= j < idx ==> doc_le_by(sort.model(), (#[trigger] s0[j]), d.model()),
        decreases out@.len() - idx,
    {
        proof {
            lemma_docs_model_index(out@, idx as int);
        }
        let le = doc_le(sort, &out[idx], &d);
        if !le {
            proof {
                lemma_spec_insert_at(sort.model(), d.model(), s0, idx as int);
            }
            let ghost pre = out@;
            out.insert(idx, d);
            proof {
                lemma_docs_model_len(out@);
                assert forall|j: int|
                    0 <= j < out@.len() implies Collection::docs_model(out@)[j] == (s0.subrange(
                    0,
                    idx as int,
                ) + seq![Collection::docs_model(out@)[idx as int]] + s0.subrange(
                    idx as int,
                    s0.len() as int,
                ))[j] by {
                    lemma_docs_model_index(out@, j);
                    if j < idx {
                        lemma_docs_model_index(pre, j);
                    } else if j > idx {
                        lemma_docs_model_index(pre, j - 1);
                    }
                }
                lemma_docs_model_index(out@, idx as int);
                assert(Collection::docs_model(out@) =~= spec_insert(
                    sort.model(),
                    d.model(),
                    s0,
                ));
            }
            return ;
        }
        idx += 1;
    }
    proof {
        lemma_spec_insert_at(sort.model(), d.model(), s0, s0.len() as int);
    }
    let ghost pre = out@;
    out.push(d);
    proof {
        assert(out@.drop_last() =~= pre);
        lemma_docs_model_push(out@);
        assert(s0.subrange(0, s0.len() as int) =~= s0);
        assert(s0.subrange(s0.len() as int, s0.len() as int) =~= Seq::<DocModel>::empty());
        assert(Collection::docs_model(out@) =~= spec_insert(sort.model(), d.model(), s0));
    }
}

/// The options a query carries, as mathematics: the sort model, the
/// offset (default 0) and the bound (absent = unbounded).
pub struct OptsModel {
    pub sort: Option<DocModel>,
    pub skip: int,
    pub limit: Option<int>,
}

impl FindOptions {
    pub open spec fn model(self) -> OptsModel {
        OptsModel {
            sort: match self.sort {
                Some(d) => Some(d.model()),
                None => None,
            },
            skip: match self.skip {
                Some(k) => k as int,
                None => 0,
            },
            limit: match self.limit {
                Some(l) => Some(l as int),
                None => None,
            },
        }
    }

    /// Offsets and bounds are not negative.
    pub open spec fn wf(self) -> bool {
        &&& (self.skip matches Some(k) ==> k >= 0)
        &&& (self.limit matches Some(l) ==> l >= 0)
    }
}

/// Skip, then limit: the window a query returns of its sorted result.
pub open spec fn window(s: Seq<DocModel>, skip: int, limit: Option<int>) -> Seq<DocModel> {
    let lo = if skip < 0 {
        0
    } else if skip <= s.len() {
        skip
    } else {
        s.len() as int
    };
    let hi = match limit {
        Some(l) => if l < 0 {
            lo
        } else if lo + l <= s.len() {
            lo + l
        } else {
            s.len() as int
        },
        None => s.len() as int,
    };
    s.subrange(lo, hi)
}

pub open spec fn opt_model(f: Option<&Document>) -> Option<DocModel> {
    match f {
        Some(d) => Some(d.model()),
        None => None,
    }
}

/// What a find returns: the matching documents, arranged by the sort
/// specification (kept in store order without one), then windowed by
/// skip and limit.
pub open spec fn spec_find(s: Seq<DocModel>, f: Option<DocModel>, o: OptsModel) -> Seq<
    DocModel,
> {
    let m = matching(s, f);
    let srt = match o.sort {
        Some(so) => spec_sort_docs(so, m),
        None => m,
    };
    window(srt, o.skip, o.limit)
}

impl Collection {
    /// All documents matching `filter`, under `options`.
    #[verifier::loop_isolation(false)]
    #[verifier::rlimit(60)]
    pub fn find_docs(&self, filter: Option<&Document>, options: &FindOptions) -> (r: Vec<
        Document,
    >)
        requires
            options.wf(),
        ensures
            Collection::docs_model(r@) == spec_find(
                self.model(),
                opt_model(filter),
                options.model(),
            ),
    {
        proof {
            lemma_docs_model_len(self.docs@);
        }
        let ghost fm = opt_model(filter);
        let mut sel: Vec<Document> = Vec::new();
        let mut i: usize = 0;
        while i < self.docs.len()
            invariant
                0 <= i <= self.docs@.len(),
                Collection::docs_model(sel@) == matching(
                    self.model().subrange(0, i as int),
                    fm,
                ),
            decreases self.docs@.len() - i,
        {
            proof {
                lemma_docs_model_index(self.docs@, i as int);
                assert(self.model().subrange(0, i as int) =~= self.model().subrange(
                    0,
                    i as int + 1,
                ).drop_last());
                assert(self.model().subrange(0, i as int + 1).last() == self.model()[i as int]);
            }
            let m = match filter {
                Some(f) => matches_filter(&self.docs[i], f),
                None => true,
            };
            if m {
                let ghost pre = sel@;
                sel.push(clone_document(&self.docs[i]));
                proof {
                    assert(sel@.drop_last() =~= pre);
                    lemma_docs_model_push(sel@);
                    assert(Collection::docs_model(sel@) =~= matching(
                        self.model().subrange(0, i as int + 1),
                        fm,
                    ));
                }
            } else {
                proof {
                    assert(Collection::docs_model(sel@) =~= matching(
                        self.model().subrange(0, i as int + 1),
                        fm,
                    ));
                }
            }
            i += 1;
        }
        proof {
            assert(self.model().subrange(0, self.model().len() as int) =~= self.model());
        }
        let ghost mm = matching(self.model(), fm);
        let sorted: Vec<Document> = match &options.sort {
            Some(sd) => {
                let mut out: Vec<Document> = Vec::new();
                let mut k: usize = 0;
                proof {
                    lemma_docs_model_len(sel@);
                }
                while k < sel.len()
                    invariant
                        0 <= k <= sel@.len(),
                        Collection::docs_model(out@) == spec_sort_docs(
                            sd.model(),
                            mm.subrange(0, k as int),
                        ),
                    decreases sel@.len() - k,
                {
                    proof {
                        lemma_docs_model_index(sel@, k as int);
                        assert(mm.subrange(0, k as int) =~= mm.subrange(
                            0,
                            k as int + 1,
                        ).drop_last());
                        assert(mm.subrange(0, k as int + 1).last() == mm[k as int]);
                    }
                    insert_sorted(sd, &mut out, clone_document(&sel[k]));
                    k += 1;
                }
                proof {
                    assert(mm.subrange(0, mm.len() as int) =~= mm);
                }
                out
            },
            None => sel,
        };
        let ghost srtm = Collection::docs_model(sorted@);
        proof {
            lemma_docs_model_len(sorted@);
        }
        let total = sorted.len();
        let lo: usize = match options.skip {
            None => 0,
            Some(k) => if (k as u64) >= (total as u64) {
                total
            } else {
                k as usize
            },
        };
        let hi: usize = match options.limit {
            None => total,
            Some(l) => if (l as u64) >= ((total - lo) as u64) {
                total
            } else {
                lo + (l as usize)
            },
        };
        let mut res: Vec<Document> = Vec::new();
        let mut t: usize = lo;
        while t < hi
            invariant
                lo <= t <= hi <= total,
                total == srtm.len(),
                srtm == Collection::docs_model(sorted@),
                Collection::docs_model(res@) == srtm.subrange(lo as int, t as int),
            decreases hi - t,
        {
            proof {
                lemma_docs_model_index(sorted@, t as int);
            }
            let ghost pre = res@;
            res.push(clone_document(&sorted[t]));
            proof {
                assert(res@.drop_last() =~= pre);
                lemma_docs_model_push(res@);
                assert(Collection::docs_model(res@) =~= srtm.subrange(lo as int, t as int + 1));
            }
            t += 1;
        }
        proof {
            assert(Collection::docs_model(res@) == srtm.subrange(lo as int, hi as int));
            assert(srtm.subrange(lo as int, hi as int) == window(
                srtm,
                options.model().skip,
                options.model().limit,
            ));
        }
        res
    }

    /// The first document matching `filter` under `options`, if any.
    pub fn find_one_doc(&self, filter: Option<&Document>, options: &FindOptions) -> (r: Option<
        Document,
    >)
        requires
            options.wf(),
        ensures
            match r {
                Some(d) => spec_find(self.model(), opt_model(filter), options.model()).len() > 0
                    && d.model() == spec_find(
                    self.model(),
                    opt_model(filter),
                    options.model(),
                )[0],
                None => spec_find(self.model(), opt_model(filter), options.model()).len() == 0,
            },
    {
        let mut v = self.find_docs(filter, options);
        proof {
            lemma_docs_model_len(v@);
        }
        if v.len() == 0 {
            None
        } else {
            proof {
                lemma_docs_model_index(v@, 0);
            }
            let d = v.remove(0);
            Some(d)
        }
    }

    /// How many documents match `filter`, under `options`' skip and
    /// limit; no decoding is involved.
    pub fn count(&self, filter: Option<&Document>, options: &FindOptions) -> (r: u64)
        requires
            options.wf(),
        ensures
            r as int == spec_find(self.model(), opt_model(filter), options.model()).len(),
    {
        let v = self.find_docs(filter, options);
        proof {
            lemma_docs_model_len(v@);
        }
        v.len() as u64
    }
}

/// One aggregation stage applied to a working set: `$match`, `$sort`,
/// `$skip` and `$limit` are supported; any other stage is refused and
/// surfaces as a store failure.
pub open spec fn apply_stage(docs: Seq<DocModel>, stage: DocModel) -> Option<Seq<DocModel>> {
    if stage.len() != 1 {
        None
    } else {
        let k = stage[0].0;
        let v = stage[0].1;
        if k == "$match"@ {
            match v {
                ValueModel::Doc(f) => Some(matching(docs, Some(f))),
                _ => None,
            }
        } else if k == "$sort"@ {
            match v {
                ValueModel::Doc(so) => Some(spec_sort_docs(so, docs)),
                _ => None,
            }
        } else if k == "$skip"@ {
            match v {
                ValueModel::Int32(n) => if n >= 0 {
                    Some(window(docs, n as int, None))
                } else {
                    None
                },
                ValueModel::Int64(n) => if n >= 0 {
                    Some(window(docs, n as int, None))
                } else {
                    None
                },
                _ => None,
            }
        } else if k == "$limit"@ {
            match v {
                ValueModel::Int32(n) => if n >= 0 {
                    Some(window(docs, 0, Some(n as int)))
                } else {
                    None
                },
                ValueModel::Int64(n) => if n >= 0 {
                    Some(window(docs, 0, Some(n as int)))
                } else {
                    None
                },
                _ => None,
            }
        } else {
            None
        }
    }
}

/// A pipeline applied stage by stage; `None` as soon as one stage is
/// unsupported.
pub open spec fn spec_aggregate(docs: Seq<DocModel>, pipeline: Seq<DocModel>) -> Option<Seq<
    DocModel,
>>
    decreases pipeline.len(),
{
    if pipeline.len() == 0 {
        Some(docs)
    } else {
        match apply_stage(docs, pipeline[0]) {
            Some(d2) => spec_aggregate(d2, pipeline.subrange(1, pipeline.len() as int)),
            None => None,
        }
    }
}

/// Adding a stage at the end applies it to the pipeline's result.
pub proof fn lemma_aggregate_snoc(docs: Seq<DocModel>, p: Seq<DocModel>, st: DocModel)
    ensures
        spec_aggregate(docs, p.push(st)) == match spec_aggregate(docs, p) {
            Some(x) => apply_stage(x, st),
            None => None,
        },
    decreases p.len(),
{
    if p.len() == 0 {
        assert(p.push(st)[0] == st);
        assert(p.push(st).subrange(1, 1) =~= Seq::<DocModel>::empty());
        if apply_stage(docs, st) is Some {
            assert(spec_aggregate(apply_stage(docs, st)->Some_0, Seq::empty())
                == apply_stage(docs, st));
        }
    } else {
        assert(p.push(st)[0] == p[0]);
        assert(p.push(st).subrange(1, p.len() as int + 1) =~= p.subrange(
            1,
            p.len() as int,
        ).push(st));
        if apply_stage(docs, p[0]) is Some {
            lemma_aggregate_snoc(apply_stage(docs, p[0])->Some_0, p.subrange(1, p.len() as int),
                st);
        }
    }
}

/// The collection kept in store order, matching everything.
pub proof fn lemma_matching_all(s: Seq<DocModel>)
    ensures
        matching(s, None) == s,
    decreases s.len(),
{
    if s.len() > 0 {
        lemma_matching_all(s.drop_last());
        assert(matching(s, None) =~= s);
    }
}


/// A pipeline split at `k`: run the prefix, then the rest.
pub proof fn lemma_aggregate_split(d: Seq<DocModel>, p: Seq<DocModel>, k: int)
    requires
        0 <= k <= p.len(),
    ensures
        spec_aggregate(d, p) == match spec_aggregate(d, p.subrange(0, k)) {
            Some(x) => spec_aggregate(x, p.subrange(k, p.len() as int)),
            None => None,
        },
    decreases k,
{
    if k == 0 {
        assert(p.subrange(0, 0) =~= Seq::<DocModel>::empty());
        assert(p.subrange(0, p.len() as int) =~= p);
    } else {
        let pk = p.subrange(0, k);
        assert(pk[0] == p[0]);
        if apply_stage(d, p[0]) is Some {
            let d1 = apply_stage(d, p[0])->Some_0;
            let p1 = p.subrange(1, p.len() as int);
            lemma_aggregate_split(d1, p1, k - 1);
            assert(pk.subrange(1, k) =~= p.subrange(1, k));
            assert(p1.subrange(0, k - 1) =~= p.subrange(1, k));
            assert(p1.subrange(k - 1, p1.len() as int) =~= p.subrange(k, p.len() as int));
        }
    }
}

/// One unsupported stage fails the whole pipeline.
pub proof fn lemma_aggregate_at_bad_stage(
    d: Seq<DocModel>,
    p: Seq<DocModel>,
    k: int,
    x: Seq<DocModel>,
)
    requires
        0 <= k < p.len(),
        spec_aggregate(d, p.subrange(0, k)) == Some(x),
        apply_stage(x, p[k]) is None,
    ensures
        spec_aggregate(d, p) is None,
{
    lemma_aggregate_split(d, p, k);
    assert(p.subrange(k, p.len() as int)[0] == p[k]);
}

impl Collection {
    /// Run an aggregation pipeline over the collection, returning raw
    /// documents: stages can reshape the schema, so no record decoding
    /// is attempted.  `None` when a stage is unsupported.
    #[verifier::loop_isolation(false)]
    pub fn aggregate_docs(&self, pipeline: &Vec<Document>) -> (r: Option<Vec<Document>>)
        ensures
            match r {
                Some(v) => spec_aggregate(self.model(), Collection::docs_model(pipeline@))
                    == Some(Collection::docs_model(v@)),
                None => spec_aggregate(self.model(), Collection::docs_model(pipeline@))
                    is None,
            },
    {
        proof {
            lemma_docs_model_len(pipeline@);
        }
        let ghost pm = Collection::docs_model(pipeline@);
        let mut cur = Collection { docs: self.find_docs(None, &FindOptions::default()) };
        proof {
            lemma_matching_all(self.model());
            assert(window(self.model(), 0, None) =~= self.model());
        }
        let mut k: usize = 0;
        while k < pipeline.len()
            invariant
                0 <= k <= pipeline@.len(),
                spec_aggregate(self.model(), pm.subrange(0, k as int)) == Some(cur.model()),
            decreases pipeline@.len() - k,
        {
            proof {
                lemma_docs_model_index(pipeline@, k as int);
                assert(pm.subrange(0, k as int + 1) =~= pm.subrange(0, k as int).push(
                    pm[k as int],
                ));
                lemma_aggregate_snoc(self.model(), pm.subrange(0, k as int), pm[k as int]);
            }
            let stage = &pipeline[k];
            proof {
                crate::document::lemma_fields_model_len(stage.fields@);
            }
            if stage.fields.len() != 1 {
                proof {
                    lemma_aggregate_at_bad_stage(self.model(), pm, k as int, cur.model());
                }
                return None;
            }
            proof {
                crate::document::lemma_fields_model_index(stage.fields@, 0);
                reveal_strlit("$match");
                reveal_strlit("$sort");
                reveal_strlit("$skip");
                reveal_strlit("$limit");
                assert("$sort"@[2] == 'o');
                assert("$skip"@[2] == 'k');
                assert("$limit"@[1] == 'l');
                assert("$match"@[1] == 'm');
                assert("$match"@ != "$sort"@);
                assert("$match"@ != "$skip"@);
                assert("$match"@ != "$limit"@);
                assert("$sort"@ != "$skip"@);
                assert("$sort"@ != "$limit"@);
                assert("$skip"@ != "$limit"@);
            }
            let key = &stage.fields[0].0;
            let next: Vec<Document> = if str_eq(key.as_str(), "$match") {
                match &stage.fields[0].1 {
                    Value::Doc(f) => {
                        let out = cur.find_docs(Some(f), &FindOptions::default());
                        proof {
                            lemma_matching_all(cur.model());
                            assert(window(matching(cur.model(), Some(f.model())), 0, None)
                                =~= matching(cur.model(), Some(f.model())));
                        }
                        out
                    },
                    _ => {
                        proof {
                            lemma_aggregate_at_bad_stage(self.model(), pm, k as int, cur.model());
                        }
                        return None;
                    },
                }
            } else if str_eq(key.as_str(), "$sort") {
                match &stage.fields[0].1 {
                    Value::Doc(so) => {
                        let opts = FindOptions {
                            sort: Some(clone_document(so)),
                            limit: None,
                            skip: None,
                        };
                        let out = cur.find_docs(None, &opts);
                        proof {
                            lemma_matching_all(cur.model());
                            lemma_spec_sort_docs(so.model(), cur.model());
                            assert(window(spec_sort_docs(so.model(), cur.model()), 0, None)
                                =~= spec_sort_docs(so.model(), cur.model()));
                        }
                        out
                    },
                    _ => {
                        proof {
                            lemma_aggregate_at_bad_stage(self.model(), pm, k as int, cur.model());
                        }
                        return None;
                    },
                }
            } else if str_eq(key.as_str(), "$skip") {
                let n: i64 = match &stage.fields[0].1 {
                    Value::Int32(n) => *n as i64,
                    Value::Int64(n) => *n,
                    _ => {
                        proof {
                            lemma_aggregate_at_bad_stage(self.model(), pm, k as int, cur.model());
                        }
                        return None;
                    },
                };
                if n < 0 {
                    proof {
                        lemma_aggregate_at_bad_stage(self.model(), pm, k as int, cur.model());
                    }
                    return None;
                }
                let opts = FindOptions { sort: None, limit: None, skip: Some(n) };
                let out = cur.find_docs(None, &opts);
                proof {
                    lemma_matching_all(cur.model());
                }
                out
            } else if str_eq(key.as_str(), "$limit") {
                let n: i64 = match &stage.fields[0].1 {
                    Value::Int32(n) => *n as i64,
                    Value::Int64(n) => *n,
                    _ => {
                        proof {
                            lemma_aggregate_at_bad_stage(self.model(), pm, k as int, cur.model());
                        }
                        return None;
                    },
                };
                if n < 0 {
                    proof {
                        lemma_aggregate_at_bad_stage(self.model(), pm, k as int, cur.model());
                    }
                    return None;
                }
                let opts = FindOptions { sort: None, limit: Some(n), skip: None };
                let out = cur.find_docs(None, &opts);
                proof {
                    lemma_matching_all(cur.model());
                }
                out
            } else {
                proof {
                    lemma_aggregate_at_bad_stage(self.model(), pm, k as int, cur.model());
                }
                return None;
            };
            cur = Collection { docs: next };
            k += 1;
        }
        proof {
            assert(pm.subrange(0, pm.len() as int) =~= pm);
        }
        Some(cur.docs)
    }
}

/// The values under `k` in the documents, in order, absent fields
/// skipped.
pub open spec fn field_vals(s: Seq<DocModel>, k: Seq<char>) -> Seq<ValueModel>
    decreases s.len(),
{
    if s.len() == 0 {
        Seq::empty()
    } else {
        field_vals(s.drop_last(), k) + (match doc_get(s.last(), k) {
            Some(v) => seq![v],
            None => Seq::empty(),
        })
    }
}

/// First occurrences kept, later repeats dropped.
pub open spec fn dedup_vals(s: Seq<ValueModel>) -> Seq<ValueModel>
    decreases s.len(),
{
    if s.len() == 0 {
        Seq::empty()
    } else {
        let front = dedup_vals(s.drop_last());
        if front.contains(s.last()) {
            front
        } else {
            front.push(s.last())
        }
    }
}

/// Whether a value already occurs in a list.
#[verifier::loop_isolation(false)]
fn contains_value(out: &Vec<Value>, v: &Value) -> (r: bool)
    ensures
        r == Value::models_of(out@).contains(v.model()),
{
    proof {
        crate::value::lemma_models_of_len(out@);
    }
    let mut i: usize = 0;
    while i < out.len()
        invariant
            0 <= i <= out@.len(),
            forall|j: int| 0 <= j < i ==> (#[trigger] out@[j]).model() != v.model(),
        decreases out@.len() - i,
    {
        let same = out[i].deep_eq(v);
        if same {
            proof {
                crate::value::lemma_models_of_index(out@, i as int);
            }
            return true;
        }
        i += 1;
    }
    proof {
        assert forall|j: int|
            0 <= j < out@.len() implies (#[trigger] Value::models_of(out@)[j]) != v.model() by {
            crate::value::lemma_models_of_index(out@, j);
        }
    }
    false
}

impl Collection {
    /// The distinct values of one field over the matching documents,
    /// first occurrences first; raw values, no decoding.
    #[verifier::loop_isolation(false)]
    pub fn distinct_vals(&self, field: &str, filter: Option<&Document>) -> (r: Vec<Value>)
        ensures
            Value::models_of(r@) == dedup_vals(
                field_vals(matching(self.model(), opt_model(filter)), field@),
            ),
    {
        let sel = self.find_docs(filter, &FindOptions::default());
        let ghost mm = matching(self.model(), opt_model(filter));
        proof {
            assert(window(mm, 0, None) =~= mm);
            lemma_docs_model_len(sel@);
        }
        let mut out: Vec<Value> = Vec::new();
        let mut i: usize = 0;
        while i < sel.len()
            invariant
                0 <= i <= sel@.len(),
                Value::models_of(out@) == dedup_vals(field_vals(mm.subrange(0, i as int), field@)),
            decreases sel@.len() - i,
        {
            proof {
                lemma_docs_model_index(sel@, i as int);
                assert(mm.subrange(0, i as int) =~= mm.subrange(0, i as int + 1).drop_last());
                assert(mm.subrange(0, i as int + 1).last() == mm[i as int]);
            }
            let ghost fv = field_vals(mm.subrange(0, i as int), field@);
            match sel[i].get(field) {
                Some(v) => {
                    proof {
                        assert(field_vals(mm.subrange(0, i as int + 1), field@) =~= fv.push(
                            v.model(),
                        ));
                        assert(fv.push(v.model()).drop_last() =~= fv);
                    }
                    let had = contains_value(&out, v);
                    if !had {
                        let ghost pre = out@;
                        out.push(crate::document::clone_value(v));
                        proof {
                            assert(out@.drop_last() =~= pre);
                            crate::value::lemma_models_of_push(out@);
                            assert(Value::models_of(out@) =~= dedup_vals(
                                field_vals(mm.subrange(0, i as int + 1), field@),
                            ));
                        }
                    } else {
                        proof {
                            assert(Value::models_of(out@) =~= dedup_vals(
                                field_vals(mm.subrange(0, i as int + 1), field@),
                            ));
                        }
                    }
                },
                None => {
                    proof {
                        assert(field_vals(mm.subrange(0, i as int + 1), field@) =~= field_vals(
                            mm.subrange(0, i as int),
                            field@,
                        ));
                    }
                },
            }
            i += 1;
        }
        proof {
            assert(mm.subrange(0, mm.len() as int) =~= mm);
        }
        out
    }
}

/// Every matching document is one of the store's.
pub proof fn lemma_matching_elems(s: Seq<DocModel>, f: Option<DocModel>)
    ensures
        forall|i: int|
            0 <= i < matching(s, f).len() ==> s.contains(#[trigger] matching(s, f)[i]),
    decreases s.len(),
{
    if s.len() > 0 {
        lemma_matching_elems(s.drop_last(), f);
        let m = matching(s, f);
        assert forall|i: int| 0 <= i < m.len() implies s.contains(#[trigger] m[i]) by {
            if i < matching(s.drop_last(), f).len() {
                assert(s.drop_last().contains(m[i]));
                let p = choose|p: int|
                    0 <= p < s.drop_last().len() && s.drop_last()[p] == m[i];
                assert(s[p] == m[i]);
            } else {
                assert(m[i] == s.last());
            }
        }
    }
}

/// Filtering a well-formed store leaves a well-formed sequence.
pub proof fn lemma_matching_wf(s: Seq<DocModel>, f: Option<DocModel>)
    requires
        store_wf(s),
    ensures
        store_wf(matching(s, f)),
    decreases s.len(),
{
    if s.len() > 0 {
        assert(store_wf(s.drop_last())) by {
            assert forall|i: int|
                0 <= i < s.drop_last().len() implies (#[trigger] id_of(
                s.drop_last()[i],
            )) is Some by {
                assert(s.drop_last()[i] == s[i]);
            }
            assert forall|i: int, j: int|
                0 <= i < j < s.drop_last().len() implies id_of(s.drop_last()[i]) != id_of(
                s.drop_last()[j],
            ) by {
                assert(s.drop_last()[i] == s[i] && s.drop_last()[j] == s[j]);
            }
        }
        lemma_matching_wf(s.drop_last(), f);
        lemma_matching_elems(s.drop_last(), f);
        let m0 = matching(s.drop_last(), f);
        let m = matching(s, f);
        if matches_opt(s.last(), f) {
            assert forall|i: int| 0 <= i < m.len() implies (#[trigger] id_of(
                m[i],
            )) is Some by {
                if i < m0.len() {
                    assert(m[i] == m0[i]);
                } else {
                    assert(m[i] == s.last());
                    assert(id_of(s[s.len() - 1]) is Some);
                }
            }
            assert forall|i: int, j: int| 0 <= i < j < m.len() implies id_of(m[i]) != id_of(
                m[j],
            ) by {
                if j < m0.len() {
                    assert(m[i] == m0[i] && m[j] == m0[j]);
                } else {
                    assert(m[j] == s.last());
                    assert(m[i] == m0[i]);
                    assert(s.drop_last().contains(m0[i]));
                    let p = choose|p: int|
                        0 <= p < s.drop_last().len() && s.drop_last()[p] == m0[i];
                    assert(s[p] == m0[i]);
                    assert(id_of(s[p]) != id_of(s[s.len() - 1]));
                }
            }
        } else {
            assert(m =~= m0);
        }
    }
}

/// A value standing at two distinct places occurs at least twice.
proof fn lemma_dup_count(r: Seq<DocModel>, i: int, j: int)
    requires
        0 <= i < j < r.len(),
        r[i] == r[j],
    ensures
        r.to_multiset().count(r[i]) >= 2,
{
    broadcast use vstd::seq_lib::group_to_multiset_ensures;

    assert(r.remove(i).to_multiset() =~= r.to_multiset().remove(r[i]));
    assert(r.remove(i)[j - 1] == r[j]);
    assert(r.remove(i).contains(r[j]));
    assert(r.remove(i).to_multiset().count(r[j]) > 0);
}

/// A permutation of a well-formed sequence is well-formed.
pub proof fn lemma_perm_wf(m: Seq<DocModel>, r: Seq<DocModel>)
    requires
        store_wf(m),
        r.to_multiset() == m.to_multiset(),
    ensures
        store_wf(r),
{
    broadcast use vstd::seq_lib::group_to_multiset_ensures;

    assert forall|i: int| 0 <= i < r.len() implies m.contains(#[trigger] r[i]) by {
        assert(r.contains(r[i]));
        assert(r.to_multiset().count(r[i]) > 0);
    }
    assert forall|i: int| 0 <= i < r.len() implies (#[trigger] id_of(r[i])) is Some by {
        assert(m.contains(r[i]));
        let p = choose|p: int| 0 <= p < m.len() && m[p] == r[i];
        assert(id_of(m[p]) is Some);
    }
    assert forall|i: int, j: int| 0 <= i < j < r.len() implies id_of(r[i]) != id_of(
        r[j],
    ) by {
        assert(m.contains(r[i]));
        assert(m.contains(r[j]));
        let p = choose|p: int| 0 <= p < m.len() && m[p] == r[i];
        let q = choose|q: int| 0 <= q < m.len() && m[q] == r[j];
        if r[i] == r[j] {
            lemma_dup_count(r, i, j);
            assert(m.to_multiset().count(r[i]) >= 2);
            assert(m.remove(p).to_multiset() =~= m.to_multiset().remove(m[p]));
            assert(m.remove(p).to_multiset().count(r[i]) > 0);
            assert(m.remove(p).contains(r[i]));
            let q2 = choose|q2: int| 0 <= q2 < m.remove(p).len() && m.remove(p)[q2] == r[i];
            if q2 < p {
                assert(m[q2] == r[i]);
                assert(id_of(m[q2]) != id_of(m[p]));
            } else {
                assert(m[q2 + 1] == r[i]);
                assert(id_of(m[p]) != id_of(m[q2 + 1]));
            }
        } else {
            assert(p != q);
            if p < q {
                assert(id_of(m[p]) != id_of(m[q]));
            } else {
                assert(id_of(m[q]) != id_of(m[p]));
            }
        }
    }
}

/// The sort specification of a newest-first identifier sort.
pub open spec fn id_desc_sort() -> DocModel {
    seq![("_id"@, ValueModel::Int32(-1i32))]
}

/// Sort correctness: on a well-formed store, a find sorted by the
/// identifier descending returns documents in strictly descending
/// identifier order.
pub proof fn lemma_find_id_desc_strict(s: Seq<DocModel>, f: Option<DocModel>, o: OptsModel)
    requires
        store_wf(s),
        o.sort == Some(id_desc_sort()),
    ensures
        ({
            let r = spec_find(s, f, o);
            forall|i: int, j: int|
                0 <= i < j < r.len() ==> ((#[trigger] id_of(r[i])) matches Some(bi)
                    && (#[trigger] id_of(r[j])) matches Some(bj) && crate::value::lex_le(bj, bi)
                    && bi != bj)
        }),
{
    let m = matching(s, f);
    lemma_matching_wf(s, f);
    let so = id_desc_sort();
    lemma_spec_sort_docs(so, m);
    let srt = spec_sort_docs(so, m);
    lemma_perm_wf(m, srt);
    let r = spec_find(s, f, o);
    assert forall|i: int, j: int|
        0 <= i < j < r.len() implies ((#[trigger] id_of(r[i])) matches Some(bi)
            && (#[trigger] id_of(r[j])) matches Some(bj) && crate::value::lex_le(bj, bi)
            && bi != bj) by {
        let lo = if o.skip < 0 {
            0
        } else if o.skip <= srt.len() {
            o.skip
        } else {
            srt.len() as int
        };
        assert(r[i] == srt[lo + i]);
        assert(r[j] == srt[lo + j]);
        assert(doc_le_by(so, srt[lo + i], srt[lo + j]));
        let bi = id_of(srt[lo + i])->Some_0;
        let bj = id_of(srt[lo + j])->Some_0;
        reveal_strlit("_id");
        assert(get_or_null(srt[lo + i], "_id"@) == ValueModel::Id(bi));
        assert(get_or_null(srt[lo + j], "_id"@) == ValueModel::Id(bj));
        assert(so[0].0 == "_id"@ && num_of(so[0].1) == -1);
        if sort_tie("_id"@, true, srt[lo + i], srt[lo + j]) {
            crate::value::lemma_lex_le_antisym(bi, bj);
            assert(false);
        }
        assert(sort_key_le("_id"@, true, srt[lo + i], srt[lo + j]));
    }
}

/// Pagination: with a limit of `l` and a skip of `k`, a find returns at
/// most `l` documents — exactly the window of the filtered-and-sorted
/// results that starts after the first `k`.
pub proof fn lemma_find_pagination(s: Seq<DocModel>, f: Option<DocModel>, o: OptsModel)
    requires
        o.skip >= 0,
        o.limit matches Some(l) && l >= 0,
    ensures
        ({
            let m = matching(s, f);
            let srt = match o.sort {
                Some(so) => spec_sort_docs(so, m),
                None => m,
            };
            let r = spec_find(s, f, o);
            &&& r.len() <= o.limit->Some_0
            &&& (o.skip <= srt.len() ==> o.skip + r.len() <= srt.len())
            &&& forall|i: int| 0 <= i < r.len() ==> #[trigger] r[i] == srt[o.skip + i]
        }),
{
    let m = matching(s, f);
    if o.sort is Some {
        lemma_spec_sort_docs(o.sort->Some_0, m);
    }
}

} // verus!
