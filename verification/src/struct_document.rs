//! The document mapper: a capability that maps typed records to
//! documents of a collection store and gives every record type uniform
//! CRUD primitives — save (upsert by identifier), find, find-one,
//! find-by-identifier and count — over an explicitly injected store
//! handle.

use vstd::prelude::*;
use crate::Error;
use crate::value::{ObjectId, Value, ValueModel};
use crate::document::{Document, DocModel};
use crate::document::{doc_get, doc_merge, doc_wf};
use crate::document::lemma_doc_merge_get;
use crate::store::{Collection, FindOptions, UpdateResult, WriteConcern};
use crate::store::{spec_replace_one, spec_find, id_filter, id_of, opt_model};
use crate::store::{doc_matches, lemma_matches_id_filter, lemma_replace_id_wf,
    lemma_replace_idempotent};
use crate::store::{lemma_docs_model_len, lemma_docs_model_index};

verus! {

/// A record type bound to one collection.  An implementor supplies the
/// collection-name binding and a lossless encoding bridge between its
/// values and documents; the mapper builds every CRUD primitive from
/// those.
///
/// `V` is the record's mathematical view; all contracts are stated over
/// it.
pub trait StructDocument: Sized {
    type V;

    /// The mathematical value of a record.
    spec fn view(&self) -> Self::V;

    /// Which record values the document model can represent.
    spec fn spec_wf(v: Self::V) -> bool;

    /// The record's identifier.
    spec fn spec_id(v: Self::V) -> Seq<u8>;

    /// What encoding a supported record yields.
    spec fn spec_encode(v: Self::V) -> DocModel;

    /// What record a document decodes to, if any.
    spec fn spec_decode(d: DocModel) -> Option<Self::V>;

    /// The collection name the record type is bound to.
    spec fn spec_name() -> Seq<char>;

    fn name() -> (r: String)
        ensures
            r@ == Self::spec_name(),
    ;

    /// Encode a record as a document; purely structural, fails exactly
    /// on unsupported values.
    fn to_document(&self) -> (r: Result<Document, Error>)
        ensures
            r is Ok <==> Self::spec_wf(self.view()),
            r matches Ok(d) ==> d.model() == Self::spec_encode(self.view()),
            r matches Err(e) ==> e == Error::Encoding,
    ;

    /// Decode a document back into a record; purely structural, fails
    /// exactly when a required field is missing or has an incompatible
    /// type.
    fn from_document(doc: &Document) -> (r: Result<Self, Error>)
        ensures
            r is Ok <==> Self::spec_decode(doc.model()) is Some,
            r matches Ok(x) ==> Self::spec_decode(doc.model()) == Some(x.view())
                && Self::spec_wf(x.view()),
            r matches Err(e) ==> e == Error::Decoding,
    ;

    /// The round-trip law: decoding an encoded record gives the record
    /// back; the encoding is well-formed and carries the identifier
    /// under `_id`.
    proof fn lemma_round_trip(v: Self::V)
        requires
            Self::spec_wf(v),
        ensures
            Self::spec_decode(Self::spec_encode(v)) == Some(v),
            doc_get(Self::spec_encode(v), "_id"@) == Some(ValueModel::Id(Self::spec_id(v))),
            doc_wf(Self::spec_encode(v)),
    ;
}

/// Upsert the record under its identifier: replace the stored document
/// with the same `_id`, or insert one.  The store handle is passed in
/// explicitly; the in-memory store acknowledges every write, so the
/// write options do not change the outcome.
pub fn save<T: StructDocument>(
    record: &T,
    store: &mut Collection,
    write_concern: Option<WriteConcern>,
) -> (r: Result<UpdateResult, Error>)
    requires
        old(store).inv(),
    ensures
        final(store).inv(),
        r is Ok <==> T::spec_wf(record.view()),
        r matches Ok(u) ==> final(store).model() == spec_replace_one(
            old(store).model(),
            id_filter(T::spec_id(record.view())),
            T::spec_encode(record.view()),
            true,
        ) && u.write_exception is None,
        r matches Err(e) ==> e == Error::Encoding && *final(store) == *old(store),
{
    let _ = write_concern;
    let doc = match record.to_document() {
        Ok(d) => d,
        Err(e) => {
            return Err(e);
        },
    };
    proof {
        T::lemma_round_trip(record.view());
    }
    let id = match doc.get_id("_id") {
        Some(i) => i,
        None => {
            // unreachable: the round-trip law puts an identifier under `_id`
            proof {
                assert(false);
            }
            return Err(Error::Encoding);
        },
    };
    let mut filter = Document::new();
    filter.set("_id".to_owned(), Value::Id(id));
    proof {
        assert(filter.model() =~= id_filter(id.model()));
        assert(id.model() == T::spec_id(record.view()));
    }
    let result = store.replace_one(&filter, doc, true);
    proof {
        lemma_replace_id_wf(
            old(store).model(),
            T::spec_id(record.view()),
            T::spec_encode(record.view()),
        );
    }
    if let Some(_exception) = result.write_exception {
        return Err(Error::WriteConflict);
    }
    Ok(result)
}

/// The caller's extra filter, or an empty one.
pub open spec fn extra_or_empty(f: Option<DocModel>) -> DocModel {
    match f {
        Some(m) => m,
        None => Seq::empty(),
    }
}

/// The filter an identifier lookup queries with: `{_id: id}` merged
/// with the caller's extra filter, the identifier authoritative.
pub open spec fn id_lookup_filter(idb: Seq<u8>, extra: Option<DocModel>) -> DocModel {
    doc_merge(id_filter(idb), extra_or_empty(extra))
}

/// Identifier protection: whatever extra filter the caller supplies,
/// the merged filter still selects on the caller's identifier — the
/// `_id` constraint cannot be overridden.
pub proof fn lemma_id_lookup_protected(idb: Seq<u8>, extra: Option<DocModel>)
    ensures
        doc_get(id_lookup_filter(idb, extra), "_id"@) == Some(ValueModel::Id(idb)),
{
    lemma_doc_merge_get(id_filter(idb), extra_or_empty(extra), "_id"@);
    assert(doc_get(id_filter(idb), "_id"@) == Some(ValueModel::Id(idb)));
}

/// A document matching an identifier lookup's filter carries that very
/// identifier: a lookup for `A` can never return the record of `B`.
pub proof fn lemma_id_lookup_matches_id(idb: Seq<u8>, extra: Option<DocModel>, d: DocModel)
    requires
        doc_matches(d, id_lookup_filter(idb, extra)),
    ensures
        id_of(d) == Some(idb),
{
    let f = id_lookup_filter(idb, extra);
    lemma_doc_merge_prefix(id_filter(idb), extra_or_empty(extra));
    assert(f[0] == ("_id"@, ValueModel::Id(idb)));
    assert(doc_get(d, f[0].0) == Some(f[0].1));
}

/// A merge keeps the whole base in front, unchanged.
pub proof fn lemma_doc_merge_prefix(base: DocModel, extra: DocModel)
    ensures
        doc_merge(base, extra).len() >= base.len(),
        forall|i: int| 0 <= i < base.len() ==> #[trigger] doc_merge(base, extra)[i] == base[i],
    decreases extra.len(),
{
    if extra.len() > 0 {
        lemma_doc_merge_prefix(base, extra.drop_last());
    }
}

/// Find one record by identifier, with an optional extra filter the
/// identifier always wins against.  `None` means no match, never an
/// error; a stored document that does not decode is surfaced as a
/// `Decoding` failure.
pub fn find_by_id<T: StructDocument>(
    store: &Collection,
    id: &ObjectId,
    filter: Option<&Document>,
    options: &FindOptions,
) -> (r: Result<Option<T>, Error>)
    requires
        options.wf(),
    ensures
        ({
            let sel = spec_find(
                store.model(),
                Some(id_lookup_filter(id.model(), opt_model(filter))),
                options.model(),
            );
            &&& match r {
                Ok(opt) => match opt {
                    None => sel.len() == 0,
                    Some(rec) => sel.len() > 0 && T::spec_decode(sel[0]) == Some(rec.view()),
                },
                Err(e) => e == Error::Decoding && sel.len() > 0 && T::spec_decode(
                    sel[0],
                ) is None,
            }
            &&& (sel.len() == 0 ==> r is Ok)
            &&& (sel.len() > 0 && T::spec_decode(sel[0]) is Some ==> r is Ok)
        }),
{
    let mut base = Document::new();
    let id_val = Value::Id(ObjectId { bytes: id.bytes });
    base.set("_id".to_owned(), id_val);
    proof {
        assert(base.model() =~= id_filter(id.model()));
    }
    let merged = match filter {
        Some(extra) => base.merge(extra),
        None => base,
    };
    proof {
        assert(merged.model() == id_lookup_filter(id.model(), opt_model(filter)));
    }
    find_one::<T>(store, Some(&merged), options)
}

/// Find the first matching record under the given options; no
/// identifier precedence is applied.  `None` means no match, never an
/// error.
pub fn find_one<T: StructDocument>(
    store: &Collection,
    filter: Option<&Document>,
    options: &FindOptions,
) -> (r: Result<Option<T>, Error>)
    requires
        options.wf(),
    ensures
        ({
            let sel = spec_find(store.model(), opt_model(filter), options.model());
            &&& match r {
                Ok(opt) => match opt {
                    None => sel.len() == 0,
                    Some(rec) => sel.len() > 0 && T::spec_decode(sel[0]) == Some(rec.view()),
                },
                Err(e) => e == Error::Decoding && sel.len() > 0 && T::spec_decode(
                    sel[0],
                ) is None,
            }
            &&& (sel.len() == 0 ==> r is Ok)
            &&& (sel.len() > 0 && T::spec_decode(sel[0]) is Some ==> r is Ok)
        }),
{
    match store.find_one_doc(filter, options) {
        None => Ok(None),
        Some(d) => match T::from_document(&d) {
            Ok(x) => Ok(Some(x)),
            Err(e) => Err(e),
        },
    }
}

/// Find every matching record, in the order the store arranges them
/// (sorted, skipped, limited).  The first decode failure fails the
/// whole call: no partial success is exposed.
#[verifier::loop_isolation(false)]
pub fn find<T: StructDocument>(
    store: &Collection,
    filter: Option<&Document>,
    options: &FindOptions,
) -> (r: Result<Vec<T>, Error>)
    requires
        options.wf(),
    ensures
        ({
            let sel = spec_find(store.model(), opt_model(filter), options.model());
            &&& (r matches Ok(v) ==> v@.len() == sel.len() && forall|i: int|
                0 <= i < sel.len() ==> T::spec_decode(#[trigger] sel[i]) == Some(v@[i].view()))
            &&& (r is Ok <==> forall|i: int|
                0 <= i < sel.len() ==> (#[trigger] T::spec_decode(sel[i])) is Some)
            &&& (r matches Err(e) ==> e == Error::Decoding)
        }),
{
    let docs = store.find_docs(filter, options);
    let ghost sel = spec_find(store.model(), opt_model(filter), options.model());
    proof {
        lemma_docs_model_len(docs@);
    }
    let mut out: Vec<T> = Vec::new();
    let mut i: usize = 0;
    while i < docs.len()
        invariant
            0 <= i <= docs@.len(),
            out@.len() == i,
            forall|j: int| 0 <= j < i ==> T::spec_decode(#[trigger] sel[j]) == Some(
                out@[j].view(),
            ),
        decreases docs@.len() - i,
    {
        proof {
            lemma_docs_model_index(docs@, i as int);
        }
        match T::from_document(&docs[i]) {
            Ok(x) => {
                out.push(x);
            },
            Err(e) => {
                return Err(e);
            },
        }
        i += 1;
    }
    Ok(out)
}

/// How many documents match, under the options' skip and limit; a pure
/// passthrough with no decoding.
pub fn count(store: &Collection, filter: Option<&Document>, options: &FindOptions) -> (r:
    Result<u64, Error>)
    requires
        options.wf(),
    ensures
        r is Ok,
        r matches Ok(n) ==> n as int == spec_find(
            store.model(),
            opt_model(filter),
            options.model(),
        ).len(),
{
    Ok(store.count(filter, options))
}

/// Idempotence of save: upserting the same record twice leaves the
/// store exactly as upserting it once.
pub proof fn lemma_save_idempotent<T: StructDocument>(s: Seq<DocModel>, v: T::V)
    requires
        T::spec_wf(v),
    ensures
        spec_replace_one(
            spec_replace_one(s, id_filter(T::spec_id(v)), T::spec_encode(v), true),
            id_filter(T::spec_id(v)),
            T::spec_encode(v),
            true,
        ) == spec_replace_one(s, id_filter(T::spec_id(v)), T::spec_encode(v), true),
{
    T::lemma_round_trip(v);
    lemma_matches_id_filter(T::spec_encode(v), T::spec_id(v));
    lemma_replace_idempotent(s, id_filter(T::spec_id(v)), T::spec_encode(v));
}

/// Run an aggregation pipeline over the collection: raw documents come
/// back (stages can reshape the schema, so no record decoding is
/// attempted); an unsupported request is a store failure.
pub fn aggregate(store: &Collection, pipeline: &Vec<Document>, options: Option<FindOptions>) -> (
    r: Result<Vec<Document>, Error>)
    ensures
        match crate::store::spec_aggregate(
            store.model(),
            Collection::docs_model(pipeline@),
        ) {
            Some(out) => r matches Ok(v) && Collection::docs_model(v@) == out,
            None => r == Err::<Vec<Document>, Error>(Error::Store),
        },
{
    let _ = options;
    match store.aggregate_docs(pipeline) {
        Some(v) => Ok(v),
        None => Err(Error::Store),
    }
}

/// The distinct values of one field over the matching documents; raw
/// values, no decoding.
pub fn distinct(store: &Collection, field: &str, filter: Option<&Document>, options: Option<
    FindOptions,
>) -> (r: Result<Vec<Value>, Error>)
    ensures
        r is Ok,
        r matches Ok(v) ==> crate::value::Value::models_of(v@) == crate::store::dedup_vals(
            crate::store::field_vals(
                crate::store::matching(store.model(), opt_model(filter)),
                field@,
            ),
        ),
{
    let _ = options;
    Ok(store.distinct_vals(field, filter))
}

/// The lazy sequence a find produces: a finite, non-restartable walk
/// over the query's result documents, each record decoded on demand.
/// Dropping the cursor releases it; there is no rewinding.
pub struct Cursor {
    pub docs: Vec<Document>,
    pub pos: usize,
}

impl Cursor {
    /// The documents not yet consumed, in order.
    pub open spec fn remaining(self) -> Seq<DocModel> {
        Collection::docs_model(self.docs@).skip(self.pos as int)
    }

    pub open spec fn wf(self) -> bool {
        self.pos <= self.docs@.len()
    }

    /// Open a cursor over everything a find with these arguments
    /// returns.
    pub fn open(store: &Collection, filter: Option<&Document>, options: &FindOptions) -> (r:
        Cursor)
        requires
            options.wf(),
        ensures
            r.wf(),
            r.remaining() == spec_find(store.model(), opt_model(filter), options.model()),
    {
        let docs = store.find_docs(filter, options);
        proof {
            lemma_docs_model_len(docs@);
            assert(Collection::docs_model(docs@).skip(0) =~= Collection::docs_model(docs@));
        }
        Cursor { docs, pos: 0 }
    }

    /// The next record: `None` at the end; decoding happens here, on
    /// demand, and a document that does not decode is surfaced without
    /// being consumed silently.
    pub fn next<T: StructDocument>(&mut self) -> (r: Option<Result<T, Error>>)
        requires
            old(self).wf(),
        ensures
            final(self).wf(),
            match r {
                None => old(self).remaining().len() == 0 && *final(self) == *old(self),
                Some(step) => old(self).remaining().len() > 0 && final(self).remaining()
                    == old(self).remaining().skip(1) && match step {
                    Ok(x) => T::spec_decode(old(self).remaining()[0]) == Some(x.view()),
                    Err(e) => e == Error::Decoding && T::spec_decode(
                        old(self).remaining()[0],
                    ) is None,
                },
            },
    {
        proof {
            lemma_docs_model_len(self.docs@);
        }
        if self.pos >= self.docs.len() {
            return None;
        }
        proof {
            lemma_docs_model_index(self.docs@, self.pos as int);
            assert(old(self).remaining()[0] == Collection::docs_model(self.docs@)[
                self.pos as int
            ]);
        }
        let out = T::from_document(&self.docs[self.pos]);
        self.pos = self.pos + 1;
        proof {
            assert(final(self).remaining() =~= old(self).remaining().skip(1));
        }
        match out {
            Ok(x) => Some(Ok(x)),
            Err(e) => Some(Err(e)),
        }
    }
}

} // verus!
