//! Schemaless documents: ordered field lists with unique keys, the
//! storage unit of the collection store.  A filter is a document used as
//! a match predicate.  The shallow, base-wins filter merge lives here.

use vstd::prelude::*;
use crate::value::{Value, ValueModel};
use crate::value::ObjectId;
use crate::value::lemma_models_of_len;
use crate::value::lemma_models_of_index;

verus! {

/// Mathematical model of a document: its fields in order.
pub type DocModel = Seq<(Seq<char>, ValueModel)>;

/// An ordered list of named fields.  Well-formed documents never repeat
/// a key.
pub struct Document {
    pub fields: Vec<(String, Value)>,
}

/// Relies on `str`'s `==`: character-for-character equality of slices
/// (vstd specifies it for `String` only).
#[verifier::external_body]
pub(crate) fn str_eq(a: &str, b: &str) -> (r: bool)
    ensures
        r <==> a@ == b@,
{
    a == b
}

/// No key occurs twice.
pub open spec fn doc_wf(d: DocModel) -> bool {
    forall|i: int, j: int| 0 <= i < j < d.len() ==> d[i].0 != d[j].0
}

/// The value under a key: the first field with that key, if any.
pub open spec fn doc_get(d: DocModel, k: Seq<char>) -> Option<ValueModel>
    decreases d.len(),
{
    if d.len() == 0 {
        None
    } else if d[0].0 == k {
        Some(d[0].1)
    } else {
        doc_get(d.subrange(1, d.len() as int), k)
    }
}

pub open spec fn doc_contains(d: DocModel, k: Seq<char>) -> bool {
    doc_get(d, k) is Some
}

/// Replace the first field with key `k`, or append one if absent.
pub open spec fn doc_set(d: DocModel, k: Seq<char>, v: ValueModel) -> DocModel
    decreases d.len(),
{
    if d.len() == 0 {
        seq![(k, v)]
    } else if d[0].0 == k {
        seq![(k, v)] + d.subrange(1, d.len() as int)
    } else {
        seq![d[0]] + doc_set(d.subrange(1, d.len() as int), k, v)
    }
}

/// Shallow, field-by-field merge: every field of `base` is kept, and a
/// field of `extra` is appended only when `base` lacks its key — the
/// base always wins on key collision.
pub open spec fn doc_merge(base: DocModel, extra: DocModel) -> DocModel
    decreases extra.len(),
{
    if extra.len() == 0 {
        base
    } else {
        let front = doc_merge(base, extra.drop_last());
        if doc_contains(base, extra.last().0) {
            front
        } else {
            front.push(extra.last())
        }
    }
}

/// Looking a key up after appending one field.
pub proof fn lemma_doc_get_push(d: DocModel, p: (Seq<char>, ValueModel), k: Seq<char>)
    ensures
        doc_get(d.push(p), k) == if doc_contains(d, k) {
            doc_get(d, k)
        } else if p.0 == k {
            Some(p.1)
        } else {
            None::<ValueModel>
        },
    decreases d.len(),
{
    if d.len() == 0 {
        assert(d.push(p)[0] == p);
        assert(d.push(p).subrange(1, 1) =~= Seq::<(Seq<char>, ValueModel)>::empty());
    } else {
        assert(d.push(p)[0] == d[0]);
        if d[0].0 != k {
            assert(d.push(p).subrange(1, d.len() as int + 1) =~= d.subrange(
                1,
                d.len() as int,
            ).push(p));
            lemma_doc_get_push(d.subrange(1, d.len() as int), p, k);
        }
    }
}

/// The merge law: a key present in the base resolves to the base's
/// value, a key only in the extra filter to the extra's, and no other
/// key appears.
pub proof fn lemma_doc_merge_get(base: DocModel, extra: DocModel, k: Seq<char>)
    ensures
        doc_get(doc_merge(base, extra), k) == if doc_contains(base, k) {
            doc_get(base, k)
        } else {
            doc_get(extra, k)
        },
    decreases extra.len(),
{
    if extra.len() > 0 {
        let front = doc_merge(base, extra.drop_last());
        lemma_doc_merge_get(base, extra.drop_last(), k);
        assert(extra.drop_last().push(extra.last()) =~= extra);
        lemma_doc_get_push(extra.drop_last(), extra.last(), k);
        if !doc_contains(base, extra.last().0) {
            lemma_doc_get_push(front, extra.last(), k);
        }
    }
}

impl Document {
    pub open spec fn model(self) -> DocModel
        decreases self,
    {
        Document::fields_model(self.fields@)
    }

    pub open spec fn fields_model(s: Seq<(String, Value)>) -> DocModel
        decreases s,
    {
        if s.len() == 0 {
            Seq::empty()
        } else {
            seq![(s[0].0@, s[0].1.model())] + Document::fields_model(
                s.subrange(1, s.len() as int),
            )
        }
    }

    pub open spec fn wf(self) -> bool {
        doc_wf(self.model())
    }
}

pub proof fn lemma_fields_model_len(s: Seq<(String, Value)>)
    ensures
        Document::fields_model(s).len() == s.len(),
    decreases s.len(),
{
    if s.len() > 0 {
        lemma_fields_model_len(s.subrange(1, s.len() as int));
    }
}

pub proof fn lemma_fields_model_index(s: Seq<(String, Value)>, i: int)
    requires
        0 <= i < s.len(),
    ensures
        Document::fields_model(s)[i] == (s[i].0@, s[i].1.model()),
    decreases i,
{
    lemma_fields_model_len(s.subrange(1, s.len() as int));
    if i > 0 {
        lemma_fields_model_index(s.subrange(1, s.len() as int), i - 1);
    }
}

/// With the first `i` keys all different from `k`, the lookup is decided
/// by the remaining fields.
pub proof fn lemma_doc_get_skip(d: DocModel, k: Seq<char>, i: int)
    requires
        0 <= i <= d.len(),
        forall|j: int| 0 <= j < i ==> d[j].0 != k,
    ensures
        doc_get(d, k) == doc_get(d.subrange(i, d.len() as int), k),
    decreases i,
{
    if i == 0 {
        assert(d.subrange(0, d.len() as int) =~= d);
    } else {
        let d1 = d.subrange(1, d.len() as int);
        lemma_doc_get_skip(d1, k, i - 1);
        assert(d1.subrange(i - 1, d1.len() as int) =~= d.subrange(i, d.len() as int));
    }
}

/// When the first key equal to `k` stands at `i`, setting `k` updates in
/// place.
pub proof fn lemma_doc_set_update(d: DocModel, k: Seq<char>, v: ValueModel, i: int)
    requires
        0 <= i < d.len(),
        d[i].0 == k,
        forall|j: int| 0 <= j < i ==> d[j].0 != k,
    ensures
        doc_set(d, k, v) == d.update(i, (k, v)),
    decreases i,
{
    if i == 0 {
        assert(doc_set(d, k, v) =~= d.update(0, (k, v)));
    } else {
        let d1 = d.subrange(1, d.len() as int);
        lemma_doc_set_update(d1, k, v, i - 1);
        assert(d1.update(i - 1, (k, v)) =~= d.update(i, (k, v)).subrange(1, d.len() as int));
        assert(doc_set(d, k, v) =~= d.update(i, (k, v)));
    }
}

/// When no key equals `k`, setting `k` appends.
pub proof fn lemma_doc_set_append(d: DocModel, k: Seq<char>, v: ValueModel)
    requires
        forall|j: int| 0 <= j < d.len() ==> d[j].0 != k,
    ensures
        doc_set(d, k, v) == d.push((k, v)),
    decreases d.len(),
{
    if d.len() == 0 {
        assert(doc_set(d, k, v) =~= d.push((k, v)));
    } else {
        let d1 = d.subrange(1, d.len() as int);
        lemma_doc_set_append(d1, k, v);
        assert(d1.push((k, v)) =~= d.push((k, v)).subrange(1, d.len() as int + 1));
        assert(doc_set(d, k, v) =~= d.push((k, v)));
    }
}

impl Document {
    pub fn new() -> (r: Document)
        ensures
            r.model() == Seq::<(Seq<char>, ValueModel)>::empty(),
            r.wf(),
    {
        Document { fields: Vec::new() }
    }

    pub fn len(&self) -> (r: usize)
        ensures
            r == self.model().len(),
    {
        proof {
            lemma_fields_model_len(self.fields@);
        }
        self.fields.len()
    }

    /// The value stored under `key`, if any.
    #[verifier::loop_isolation(false)]
    pub fn get<'a>(&'a self, key: &str) -> (r: Option<&'a Value>)
        ensures
            match r {
                Some(v) => doc_get(self.model(), key@) == Some(v.model()),
                None => doc_get(self.model(), key@) is None,
            },
    {
        proof {
            lemma_fields_model_len(self.fields@);
        }
        let mut i: usize = 0;
        while i < self.fields.len()
            invariant
                0 <= i <= self.fields@.len(),
                forall|j: int| 0 <= j < i ==> (#[trigger] self.fields@[j]).0@ != key@,
            decreases self.fields@.len() - i,
        {
            if str_eq(self.fields[i].0.as_str(), key) {
                proof {
                    lemma_fields_model_len(self.fields@);
                    assert forall|j: int| 0 <= j < i implies self.model()[j].0 != key@ by {
                        lemma_fields_model_index(self.fields@, j);
                    }
                    lemma_doc_get_skip(self.model(), key@, i as int);
                    lemma_fields_model_index(self.fields@, i as int);
                    assert(self.model().subrange(i as int, self.model().len() as int)[0]
                        == self.model()[i as int]);
                }
                return Some(&self.fields[i].1);
            }
            i += 1;
        }
        proof {
            lemma_fields_model_len(self.fields@);
            assert forall|j: int| 0 <= j < i implies self.model()[j].0 != key@ by {
                lemma_fields_model_index(self.fields@, j);
            }
            lemma_doc_get_skip(self.model(), key@, i as int);
            assert(self.model().subrange(i as int, self.model().len() as int)
                =~= Seq::<(Seq<char>, ValueModel)>::empty());
        }
        None
    }

    pub fn contains_key(&self, key: &str) -> (r: bool)
        ensures
            r == doc_contains(self.model(), key@),
    {
        match self.get(key) {
            Some(_) => true,
            None => false,
        }
    }

    /// The identifier stored under `key`, if that field holds one.
    pub fn get_id(&self, key: &str) -> (r: Option<ObjectId>)
        ensures
            match r {
                Some(oid) => doc_get(self.model(), key@) == Some(ValueModel::Id(oid.model())),
                None => !(doc_get(self.model(), key@) matches Some(v) && v is Id),
            },
    {
        match self.get(key) {
            Some(Value::Id(oid)) => Some(*oid),
            _ => None,
        }
    }

    /// Set `key` to `value`: replace the first field with that key, or
    /// append one.
    #[verifier::loop_isolation(false)]
    pub fn set(&mut self, key: String, value: Value)
        ensures
            final(self).model() == doc_set(old(self).model(), key@, value.model()),
    {
        proof {
            lemma_fields_model_len(self.fields@);
        }
        let ghost f0 = self.fields@;
        let ghost d0 = self.model();
        let mut i: usize = 0;
        while i < self.fields.len()
            invariant
                0 <= i <= self.fields@.len(),
                self.fields@ == f0,
                forall|j: int| 0 <= j < i ==> (#[trigger] f0[j]).0@ != key@,
            decreases self.fields@.len() - i,
        {
            if str_eq(self.fields[i].0.as_str(), key.as_str()) {
                proof {
                    lemma_fields_model_len(f0);
                    assert forall|j: int| 0 <= j < i implies d0[j].0 != key@ by {
                        lemma_fields_model_index(f0, j);
                    }
                    lemma_fields_model_index(f0, i as int);
                }
                self.fields[i] = (key, value);
                proof {
                    lemma_doc_set_update(d0, key@, value.model(), i as int);
                    lemma_fields_model_len(self.fields@);
                    assert forall|j: int|
                        0 <= j < self.fields@.len() implies Document::fields_model(self.fields@)[j]
                        == d0.update(i as int, (key@, value.model()))[j] by {
                        lemma_fields_model_index(self.fields@, j);
                        if j != i {
                            lemma_fields_model_index(f0, j);
                        }
                    }
                    assert(self.model() =~= d0.update(i as int, (key@, value.model())));
                }
                return ;
            }
            i += 1;
        }
        proof {
            lemma_fields_model_len(f0);
            assert forall|j: int| 0 <= j < d0.len() implies d0[j].0 != key@ by {
                lemma_fields_model_index(f0, j);
            }
        }
        self.fields.push((key, value));
        proof {
            lemma_doc_set_append(d0, key@, value.model());
            lemma_fields_model_len(self.fields@);
            assert forall|j: int|
                0 <= j < self.fields@.len() implies Document::fields_model(self.fields@)[j]
                == d0.push((key@, value.model()))[j] by {
                lemma_fields_model_index(self.fields@, j);
                if j < f0.len() {
                    lemma_fields_model_index(f0, j);
                }
            }
            assert(self.model() =~= d0.push((key@, value.model())));
        }
    }

    /// Merge `extra` under this document: fields of `extra` whose keys
    /// this document lacks are appended; on any key collision this
    /// document's field wins.
    #[verifier::loop_isolation(false)]
    pub fn merge(&self, extra: &Document) -> (r: Document)
        ensures
            r.model() == doc_merge(self.model(), extra.model()),
    {
        proof {
            lemma_fields_model_len(self.fields@);
            lemma_fields_model_len(extra.fields@);
        }
        let mut out = Document { fields: Vec::new() };
        let mut i: usize = 0;
        while i < self.fields.len()
            invariant
                0 <= i <= self.fields@.len(),
                out.model() =~= self.model().subrange(0, i as int),
            decreases self.fields@.len() - i,
        {
            let pair = (clone_string(&self.fields[i].0), clone_value(&self.fields[i].1));
            let ghost pre = out.fields@;
            out.fields.push(pair);
            proof {
                assert(out.fields@.drop_last() =~= pre);
                lemma_fields_model_len(self.fields@);
                lemma_fields_model_push(out.fields@);
                lemma_fields_model_index(self.fields@, i as int);
                assert(out.model() =~= self.model().subrange(0, i as int + 1));
            }
            i += 1;
        }
        proof {
            lemma_fields_model_len(self.fields@);
            assert(out.model() =~= self.model());
        }
        let mut j: usize = 0;
        while j < extra.fields.len()
            invariant
                0 <= j <= extra.fields@.len(),
                out.model() == doc_merge(self.model(), extra.model().subrange(0, j as int)),
            decreases extra.fields@.len() - j,
        {
            proof {
                lemma_fields_model_len(extra.fields@);
                lemma_fields_model_index(extra.fields@, j as int);
                assert(extra.model().subrange(0, j as int) =~= extra.model().subrange(
                    0,
                    j as int + 1,
                ).drop_last());
                assert(extra.model().subrange(0, j as int + 1).last() == extra.model()[j as int]);
            }
            if !self.contains_key(extra.fields[j].0.as_str()) {
                let pair = (clone_string(&extra.fields[j].0), clone_value(&extra.fields[j].1));
                let ghost pre = out.fields@;
                out.fields.push(pair);
                proof {
                    assert(out.fields@.drop_last() =~= pre);
                    lemma_fields_model_push(out.fields@);
                }
            }
            j += 1;
        }
        proof {
            lemma_fields_model_len(extra.fields@);
            assert(extra.model().subrange(0, extra.model().len() as int) =~= extra.model());
        }
        out
    }

    /// Order-sensitive deep equality of two documents.
    #[verifier::loop_isolation(false)]
    pub fn doc_eq(&self, other: &Document) -> (r: bool)
        ensures
            r <==> self.model() == other.model(),
        decreases self,
    {
        proof {
            lemma_fields_model_len(self.fields@);
            lemma_fields_model_len(other.fields@);
        }
        if self.fields.len() != other.fields.len() {
            return false;
        }
        let mut i: usize = 0;
        while i < self.fields.len()
            invariant
                self.fields@.len() == other.fields@.len(),
                0 <= i <= self.fields@.len(),
                forall|j: int| 0 <= j < i ==> (#[trigger] self.fields@[j]).0@
                    == other.fields@[j].0@ && self.fields@[j].1.model()
                    == other.fields@[j].1.model(),
            decreases self.fields@.len() - i,
        {
            if !str_eq(self.fields[i].0.as_str(), other.fields[i].0.as_str()) {
                proof {
                    lemma_fields_model_len(self.fields@);
                    lemma_fields_model_len(other.fields@);
                    lemma_fields_model_index(self.fields@, i as int);
                    lemma_fields_model_index(other.fields@, i as int);
                    assert(self.model()[i as int] != other.model()[i as int]);
                }
                return false;
            }
            proof {
                assert(decreases_to!(*self => self.fields));
                assert(decreases_to!(self.fields => self.fields@));
                assert(decreases_to!(self.fields@ => self.fields@[i as int]));
                assert(decreases_to!(self.fields@[i as int] => self.fields@[i as int].1));
            }
            let same = self.fields[i].1.deep_eq(&other.fields[i].1);
            if !same {
                proof {
                    lemma_fields_model_len(self.fields@);
                    lemma_fields_model_len(other.fields@);
                    lemma_fields_model_index(self.fields@, i as int);
                    lemma_fields_model_index(other.fields@, i as int);
                    assert(self.model()[i as int] != other.model()[i as int]);
                }
                return false;
            }
            i += 1;
        }
        proof {
            lemma_fields_model_len(self.fields@);
            lemma_fields_model_len(other.fields@);
            assert forall|j: int|
                0 <= j < self.fields@.len() implies self.model()[j] == other.model()[j] by {
                lemma_fields_model_index(self.fields@, j);
                lemma_fields_model_index(other.fields@, j);
            }
            assert(self.model() =~= other.model());
        }
        true
    }
}

/// Appending a field appends its model.
pub proof fn lemma_fields_model_push(s: Seq<(String, Value)>)
    requires
        s.len() > 0,
    ensures
        Document::fields_model(s) == Document::fields_model(s.drop_last()).push(
            (s.last().0@, s.last().1.model()),
        ),
{
    lemma_fields_model_len(s);
    lemma_fields_model_len(s.drop_last());
    assert forall|j: int|
        0 <= j < s.len() implies Document::fields_model(s)[j] == Document::fields_model(
        s.drop_last(),
    ).push((s.last().0@, s.last().1.model()))[j] by {
        lemma_fields_model_index(s, j);
        if j < s.len() - 1 {
            lemma_fields_model_index(s.drop_last(), j);
        }
    }
    assert(Document::fields_model(s) =~= Document::fields_model(s.drop_last()).push(
        (s.last().0@, s.last().1.model()),
    ));
}

/// Relies on `String::clone` (specified by vstd to preserve the value).
pub(crate) fn clone_string(s: &String) -> (r: String)
    ensures
        r == *s,
        r@ == s@,
{
    s.clone()
}

/// A copy of a byte vector.
#[verifier::loop_isolation(false)]
pub(crate) fn clone_bytes(b: &Vec<u8>) -> (r: Vec<u8>)
    ensures
        r@ == b@,
{
    let mut out: Vec<u8> = Vec::new();
    let mut i: usize = 0;
    while i < b.len()
        invariant
            0 <= i <= b@.len(),
            out@ =~= b@.subrange(0, i as int),
        decreases b@.len() - i,
    {
        out.push(b[i]);
        i += 1;
    }
    proof {
        assert(b@.subrange(0, b@.len() as int) =~= b@);
    }
    out
}

/// A deep copy of a value tree, preserving its model.
#[verifier::loop_isolation(false)]
pub(crate) fn clone_value(v: &Value) -> (r: Value)
    ensures
        r.model() == v.model(),
    decreases v,
{
    match v {
        Value::Null => Value::Null,
        Value::Boolean(b) => Value::Boolean(*b),
        Value::Int32(i) => Value::Int32(*i),
        Value::Int64(i) => Value::Int64(*i),
        Value::Text(s) => Value::Text(clone_string(s)),
        Value::Binary(t, bytes) => Value::Binary(*t, clone_bytes(bytes)),
        Value::Array(items) => {
            let mut out: Vec<Value> = Vec::new();
            let mut i: usize = 0;
            while i < items.len()
                invariant
                    0 <= i <= items@.len(),
                    out@.len() == i,
                    *v == Value::Array(*items),
                    forall|j: int| 0 <= j < i ==> (#[trigger] out@[j]).model()
                        == items@[j].model(),
                decreases items@.len() - i,
            {
                proof {
                    assert(decreases_to!(*v => *items));
                    assert(decreases_to!(*items => items@));
                    assert(decreases_to!(items@ => items@[i as int]));
                }
                let c = clone_value(&items[i]);
                out.push(c);
                i += 1;
            }
            proof {
                lemma_models_of_len(out@);
                lemma_models_of_len(items@);
                assert forall|j: int|
                    0 <= j < items@.len() implies Value::models_of(out@)[j] == Value::models_of(
                    items@,
                )[j] by {
                    lemma_models_of_index(out@, j);
                    lemma_models_of_index(items@, j);
                }
                assert(Value::models_of(out@) =~= Value::models_of(items@));
            }
            Value::Array(out)
        },
        Value::Doc(d) => Value::Doc(clone_document(d)),
        Value::Id(oid) => Value::Id(*oid),
        Value::DateTime(t) => Value::DateTime(*t),
    }
}

/// A deep copy of a document, preserving its model.
#[verifier::loop_isolation(false)]
pub(crate) fn clone_document(d: &Document) -> (r: Document)
    ensures
        r.model() == d.model(),
    decreases d,
{
    let mut out: Vec<(String, Value)> = Vec::new();
    let mut i: usize = 0;
    while i < d.fields.len()
        invariant
            0 <= i <= d.fields@.len(),
            out@.len() == i,
            forall|j: int| 0 <= j < i ==> (#[trigger] out@[j]).0@ == d.fields@[j].0@ && out@[j]
                .1.model() == d.fields@[j].1.model(),
        decreases d.fields@.len() - i,
    {
        proof {
            assert(decreases_to!(*d => d.fields));
            assert(decreases_to!(d.fields => d.fields@));
            assert(decreases_to!(d.fields@ => d.fields@[i as int]));
            assert(decreases_to!(d.fields@[i as int] => d.fields@[i as int].1));
        }
        let pair = (clone_string(&d.fields[i].0), clone_value(&d.fields[i].1));
        out.push(pair);
        i += 1;
    }
    proof {
        lemma_fields_model_len(out@);
        lemma_fields_model_len(d.fields@);
        assert forall|j: int|
            0 <= j < out@.len() implies Document::fields_model(out@)[j] == Document::fields_model(
            d.fields@,
        )[j] by {
            lemma_fields_model_index(out@, j);
            lemma_fields_model_index(d.fields@, j);
        }
        assert(Document::fields_model(out@) =~= Document::fields_model(d.fields@));
    }
    Document { fields: out }
}

} // verus!
