//! The value model of the schemaless store: a document is a tree of
//! values (null, boolean, 32/64-bit integer, string, binary, array,
//! nested document, identifier, datetime).  Each executable value has a
//! mathematical model (`ValueModel`) that contracts are stated over.

use vstd::prelude::*;
use crate::document::Document;
use crate::document::str_eq;

verus! {

/// A unique, client-generated, immutable-after-creation record key:
/// twelve bytes, ordered lexicographically (most significant byte first,
/// so ids generated from an increasing counter sort in creation order).
#[derive(Clone, Copy, Debug)]
pub struct ObjectId {
    pub bytes: [u8; 12],
}

/// Mathematical model of a `Value`: the same tree with sequences in
/// place of vectors, strings and byte arrays.
#[verifier::ext_equal]
pub enum ValueModel {
    Null,
    Boolean(bool),
    Int32(i32),
    Int64(i64),
    Text(Seq<char>),
    Binary(u8, Seq<u8>),
    Array(Seq<ValueModel>),
    Doc(Seq<(Seq<char>, ValueModel)>),
    Id(Seq<u8>),
    DateTime(i64),
}

/// One node of a document tree.  `Binary` carries a subtype tag as the
/// store's binary values do; `DateTime` is milliseconds since the epoch.
pub enum Value {
    Null,
    Boolean(bool),
    Int32(i32),
    Int64(i64),
    Text(String),
    Binary(u8, Vec<u8>),
    Array(Vec<Value>),
    Doc(Document),
    Id(ObjectId),
    DateTime(i64),
}

impl ObjectId {
    pub open spec fn model(self) -> Seq<u8> {
        self.bytes@
    }

    pub fn new(bytes: [u8; 12]) -> (r: ObjectId)
        ensures
            r.model() == bytes@,
    {
        ObjectId { bytes }
    }

    /// Byte-for-byte equality of identifiers.
    #[verifier::loop_isolation(false)]
    pub fn eq_id(&self, other: &ObjectId) -> (r: bool)
        ensures
            r <==> self.model() == other.model(),
    {
        let mut i: usize = 0;
        while i < 12
            invariant
                0 <= i <= 12,
                forall|j: int| 0 <= j < i ==> self.bytes@[j] == other.bytes@[j],
            decreases 12 - i,
        {
            if self.bytes[i] != other.bytes[i] {
                assert(self.model() != other.model());
                return false;
            }
            i += 1;
        }
        proof {
            assert(self.model() =~= other.model());
        }
        true
    }
}

/// Lexicographic order on byte strings; the order of identifiers.
pub open spec fn lex_le(a: Seq<u8>, b: Seq<u8>) -> bool
    decreases a.len(),
{
    if a.len() == 0 {
        true
    } else if b.len() == 0 {
        false
    } else if a[0] < b[0] {
        true
    } else if a[0] > b[0] {
        false
    } else {
        lex_le(a.subrange(1, a.len() as int), b.subrange(1, b.len() as int))
    }
}

pub proof fn lemma_lex_le_total(a: Seq<u8>, b: Seq<u8>)
    ensures
        lex_le(a, b) || lex_le(b, a),
    decreases a.len(),
{
    if a.len() > 0 && b.len() > 0 && a[0] == b[0] {
        lemma_lex_le_total(a.subrange(1, a.len() as int), b.subrange(1, b.len() as int));
    }
}

pub proof fn lemma_lex_le_trans(a: Seq<u8>, b: Seq<u8>, c: Seq<u8>)
    requires
        lex_le(a, b),
        lex_le(b, c),
    ensures
        lex_le(a, c),
    decreases a.len(),
{
    if a.len() > 0 && b.len() > 0 && c.len() > 0 && a[0] == b[0] && b[0] == c[0] {
        lemma_lex_le_trans(
            a.subrange(1, a.len() as int),
            b.subrange(1, b.len() as int),
            c.subrange(1, c.len() as int),
        );
    }
}

pub proof fn lemma_lex_le_antisym(a: Seq<u8>, b: Seq<u8>)
    requires
        lex_le(a, b),
        lex_le(b, a),
    ensures
        a == b,
    decreases a.len(),
{
    if a.len() == 0 {
        assert(b.len() == 0);
        assert(a =~= b);
    } else {
        assert(b.len() > 0);
        assert(a[0] == b[0]);
        let ta = a.subrange(1, a.len() as int);
        let tb = b.subrange(1, b.len() as int);
        lemma_lex_le_antisym(ta, tb);
        assert(ta == tb);
        assert(ta.len() == tb.len());
        assert(a.len() == b.len());
        assert(a =~= b) by {
            assert(forall|i: int|
                1 <= i < a.len() ==> a[i] == a.subrange(1, a.len() as int)[i - 1]);
            assert(forall|i: int|
                1 <= i < b.len() ==> b[i] == b.subrange(1, b.len() as int)[i - 1]);
        }
    }
}

/// With equal prefixes of length `i`, the order is decided by the tails.
pub proof fn lemma_lex_le_skip(a: Seq<u8>, b: Seq<u8>, i: int)
    requires
        0 <= i <= a.len(),
        i <= b.len(),
        forall|j: int| 0 <= j < i ==> a[j] == b[j],
    ensures
        lex_le(a, b) == lex_le(a.subrange(i, a.len() as int), b.subrange(i, b.len() as int)),
    decreases i,
{
    if i == 0 {
        assert(a.subrange(0, a.len() as int) =~= a);
        assert(b.subrange(0, b.len() as int) =~= b);
    } else {
        let a1 = a.subrange(1, a.len() as int);
        let b1 = b.subrange(1, b.len() as int);
        lemma_lex_le_skip(a1, b1, i - 1);
        assert(a1.subrange(i - 1, a1.len() as int) =~= a.subrange(i, a.len() as int));
        assert(b1.subrange(i - 1, b1.len() as int) =~= b.subrange(i, b.len() as int));
    }
}

/// Lexicographic comparison of identifiers.
#[verifier::loop_isolation(false)]
pub fn id_le(a: &ObjectId, b: &ObjectId) -> (r: bool)
    ensures
        r == lex_le(a.model(), b.model()),
{
    let mut i: usize = 0;
    while i < 12
        invariant
            0 <= i <= 12,
            forall|j: int| 0 <= j < i ==> a.bytes@[j] == b.bytes@[j],
        decreases 12 - i,
    {
        if a.bytes[i] < b.bytes[i] {
            proof {
                lemma_lex_le_skip(a.model(), b.model(), i as int);
            }
            return true;
        }
        if a.bytes[i] > b.bytes[i] {
            proof {
                lemma_lex_le_skip(a.model(), b.model(), i as int);
            }
            return false;
        }
        i += 1;
    }
    proof {
        lemma_lex_le_skip(a.model(), b.model(), 12);
        assert(a.model().subrange(12, 12) =~= Seq::<u8>::empty());
    }
    true
}

impl Value {
    /// The mathematical value of this node.
    pub open spec fn model(self) -> ValueModel
        decreases self,
    {
        match self {
            Value::Null => ValueModel::Null,
            Value::Boolean(b) => ValueModel::Boolean(b),
            Value::Int32(i) => ValueModel::Int32(i),
            Value::Int64(i) => ValueModel::Int64(i),
            Value::Text(s) => ValueModel::Text(s@),
            Value::Binary(t, bytes) => ValueModel::Binary(t, bytes@),
            Value::Array(items) => ValueModel::Array(Value::models_of(items@)),
            Value::Doc(d) => ValueModel::Doc(d.model()),
            Value::Id(oid) => ValueModel::Id(oid.model()),
            Value::DateTime(t) => ValueModel::DateTime(t),
        }
    }

    pub open spec fn models_of(s: Seq<Value>) -> Seq<ValueModel>
        decreases s,
    {
        if s.len() == 0 {
            Seq::empty()
        } else {
            seq![s[0].model()] + Value::models_of(s.subrange(1, s.len() as int))
        }
    }
}

pub proof fn lemma_models_of_len(s: Seq<Value>)
    ensures
        Value::models_of(s).len() == s.len(),
    decreases s.len(),
{
    if s.len() > 0 {
        lemma_models_of_len(s.subrange(1, s.len() as int));
    }
}

pub proof fn lemma_models_of_index(s: Seq<Value>, i: int)
    requires
        0 <= i < s.len(),
    ensures
        Value::models_of(s)[i] == s[i].model(),
    decreases i,
{
    lemma_models_of_len(s.subrange(1, s.len() as int));
    if i > 0 {
        lemma_models_of_index(s.subrange(1, s.len() as int), i - 1);
    }
}

/// Appending a value appends its model.
pub proof fn lemma_models_of_push(s: Seq<Value>)
    requires
        s.len() > 0,
    ensures
        Value::models_of(s) == Value::models_of(s.drop_last()).push(s.last().model()),
{
    lemma_models_of_len(s);
    lemma_models_of_len(s.drop_last());
    assert forall|j: int|
        0 <= j < s.len() implies Value::models_of(s)[j] == Value::models_of(s.drop_last()).push(
        s.last().model(),
    )[j] by {
        lemma_models_of_index(s, j);
        if j < s.len() - 1 {
            lemma_models_of_index(s.drop_last(), j);
        }
    }
    assert(Value::models_of(s) =~= Value::models_of(s.drop_last()).push(s.last().model()));
}

/// Equality of byte vectors.
#[verifier::loop_isolation(false)]
pub fn bytes_eq(a: &Vec<u8>, b: &Vec<u8>) -> (r: bool)
    ensures
        r <==> a@ == b@,
{
    if a.len() != b.len() {
        return false;
    }
    let mut i: usize = 0;
    while i < a.len()
        invariant
            a@.len() == b@.len(),
            0 <= i <= a@.len(),
            forall|j: int| 0 <= j < i ==> a@[j] == b@[j],
        decreases a@.len() - i,
    {
        if a[i] != b[i] {
            return false;
        }
        i += 1;
    }
    proof {
        assert(a@ =~= b@);
    }
    true
}

impl Value {
    /// Deep structural equality of two value trees.
    #[verifier::loop_isolation(false)]
    pub fn deep_eq(&self, other: &Value) -> (r: bool)
        ensures
            r <==> self.model() == other.model(),
        decreases self,
    {
        match (self, other) {
            (Value::Null, Value::Null) => true,
            (Value::Boolean(x), Value::Boolean(y)) => x == y,
            (Value::Int32(x), Value::Int32(y)) => x == y,
            (Value::Int64(x), Value::Int64(y)) => x == y,
            (Value::Text(x), Value::Text(y)) => str_eq(x.as_str(), y.as_str()),
            (Value::Binary(tx, bx), Value::Binary(ty, by)) => tx == ty && bytes_eq(bx, by),
            (Value::Array(x), Value::Array(y)) => {
                proof {
                    lemma_models_of_len(x@);
                    lemma_models_of_len(y@);
                }
                if x.len() != y.len() {
                    return false;
                }
                let mut i: usize = 0;
                while i < x.len()
                    invariant
                        x@.len() == y@.len(),
                        0 <= i <= x@.len(),
                        *self == Value::Array(*x),
                        *other == Value::Array(*y),
                        forall|j: int| 0 <= j < i ==> x@[j].model() == y@[j].model(),
                    decreases x@.len() - i,
                {
                    proof {
                        assert(decreases_to!(*self => *x));
                        assert(decreases_to!(*x => x@));
                        assert(decreases_to!(x@ => x@[i as int]));
                    }
                    let same = x[i].deep_eq(&y[i]);
                    if !same {
                        proof {
                            lemma_models_of_len(x@);
                            lemma_models_of_len(y@);
                            lemma_models_of_index(x@, i as int);
                            lemma_models_of_index(y@, i as int);
                            assert(Value::models_of(x@)[i as int] != Value::models_of(
                                y@,
                            )[i as int]);
                        }
                        return false;
                    }
                    i += 1;
                }
                proof {
                    lemma_models_of_len(x@);
                    lemma_models_of_len(y@);
                    assert forall|j: int|
                        0 <= j < x@.len() implies Value::models_of(x@)[j] == Value::models_of(
                        y@,
                    )[j] by {
                        lemma_models_of_index(x@, j);
                        lemma_models_of_index(y@, j);
                    }
                    assert(Value::models_of(x@) =~= Value::models_of(y@));
                }
                true
            },
            (Value::Doc(x), Value::Doc(y)) => x.doc_eq(y),
            (Value::Id(x), Value::Id(y)) => x.eq_id(y),
            (Value::DateTime(x), Value::DateTime(y)) => x == y,
            _ => false,
        }
    }
}

/// Ranks of the comparison order the store sorts by: values of different
/// kinds order by kind; within a kind, numbers, booleans and datetimes
/// order by value and identifiers lexicographically.  Strings, binaries,
/// arrays and nested documents tie within their kind: the store's sort
/// keys are scalars.
pub open spec fn rank(v: ValueModel) -> int {
    match v {
        ValueModel::Null => 0,
        ValueModel::Int32(_) => 1,
        ValueModel::Int64(_) => 1,
        ValueModel::Text(_) => 2,
        ValueModel::Doc(_) => 3,
        ValueModel::Array(_) => 4,
        ValueModel::Binary(_, _) => 5,
        ValueModel::Id(_) => 6,
        ValueModel::Boolean(_) => 7,
        ValueModel::DateTime(_) => 8,
    }
}

pub open spec fn num_of(v: ValueModel) -> int {
    match v {
        ValueModel::Boolean(b) => if b {
            1
        } else {
            0
        },
        ValueModel::Int32(i) => i as int,
        ValueModel::Int64(i) => i as int,
        ValueModel::DateTime(t) => t as int,
        _ => 0,
    }
}

/// The total preorder documents are sorted by, one sort key at a time.
pub open spec fn value_le(a: ValueModel, b: ValueModel) -> bool {
    if rank(a) != rank(b) {
        rank(a) < rank(b)
    } else {
        match (a, b) {
            (ValueModel::Id(x), ValueModel::Id(y)) => lex_le(x, y),
            _ => num_of(a) <= num_of(b),
        }
    }
}

pub proof fn lemma_value_le_total(a: ValueModel, b: ValueModel)
    ensures
        value_le(a, b) || value_le(b, a),
{
    if rank(a) == rank(b) {
        match (a, b) {
            (ValueModel::Id(x), ValueModel::Id(y)) => lemma_lex_le_total(x, y),
            _ => {},
        }
    }
}

pub proof fn lemma_value_le_trans(a: ValueModel, b: ValueModel, c: ValueModel)
    requires
        value_le(a, b),
        value_le(b, c),
    ensures
        value_le(a, c),
{
    if rank(a) == rank(b) && rank(b) == rank(c) {
        match (a, b) {
            (ValueModel::Id(x), ValueModel::Id(y)) => {
                match c {
                    ValueModel::Id(z) => lemma_lex_le_trans(x, y, z),
                    _ => {},
                }
            },
            _ => {},
        }
    }
}

impl Value {
    /// Executable form of `value_le` on this node and another.
    pub fn le(&self, other: &Value) -> (r: bool)
        ensures
            r == value_le(self.model(), other.model()),
    {
        let ra = self.rank_exec();
        let rb = other.rank_exec();
        if ra != rb {
            return ra < rb;
        }
        match (self, other) {
            (Value::Id(x), Value::Id(y)) => id_le(x, y),
            _ => self.num_exec() <= other.num_exec(),
        }
    }

    fn rank_exec(&self) -> (r: u8)
        ensures
            r as int == rank(self.model()),
    {
        match self {
            Value::Null => 0,
            Value::Int32(_) => 1,
            Value::Int64(_) => 1,
            Value::Text(_) => 2,
            Value::Doc(_) => 3,
            Value::Array(_) => 4,
            Value::Binary(_, _) => 5,
            Value::Id(_) => 6,
            Value::Boolean(_) => 7,
            Value::DateTime(_) => 8,
        }
    }

    fn num_exec(&self) -> (r: i64)
        ensures
            r as int == num_of(self.model()),
    {
        match self {
            Value::Boolean(b) => if *b {
                1
            } else {
                0
            },
            Value::Int32(i) => *i as i64,
            Value::Int64(i) => *i,
            Value::DateTime(t) => *t,
            _ => 0,
        }
    }
}

} // verus!
