//! The record types of the backend: articles and users, each bound to
//! one collection, with a lossless encoding bridge proved against the
//! round-trip law.

use vstd::prelude::*;
use crate::Error;
use crate::value::{ObjectId, Value, ValueModel};
use crate::document::{Document, DocModel};
use crate::document::{doc_get, doc_wf};
use crate::document::clone_string;
use crate::struct_document::StructDocument;

verus! {

/// The views of string lists: each string as its character sequence.
pub open spec fn strings_view(s: Seq<String>) -> Seq<Seq<char>> {
    Seq::new(s.len(), |i: int| s[i]@)
}

/// Each character sequence as a text value.
pub open spec fn texts_of(ss: Seq<Seq<char>>) -> Seq<ValueModel> {
    Seq::new(ss.len(), |i: int| ValueModel::Text(ss[i]))
}

/// The character sequences back out of a list of text values; `None`
/// when any element is not text.
pub open spec fn seq_texts(items: Seq<ValueModel>) -> Option<Seq<Seq<char>>>
    decreases items.len(),
{
    if items.len() == 0 {
        Some(Seq::empty())
    } else {
        match items[0] {
            ValueModel::Text(t) => match seq_texts(items.subrange(1, items.len() as int)) {
                Some(r) => Some(seq![t] + r),
                None => None,
            },
            _ => None,
        }
    }
}

pub proof fn lemma_texts_round(ss: Seq<Seq<char>>)
    ensures
        seq_texts(texts_of(ss)) == Some(ss),
    decreases ss.len(),
{
    if ss.len() > 0 {
        let tail = ss.subrange(1, ss.len() as int);
        lemma_texts_round(tail);
        assert(texts_of(ss).subrange(1, ss.len() as int) =~= texts_of(tail));
        assert(seq![ss[0]] + tail =~= ss);
    }
}

pub proof fn lemma_seq_texts_all(items: Seq<ValueModel>)
    requires
        forall|i: int| 0 <= i < items.len() ==> (#[trigger] items[i]) is Text,
    ensures
        seq_texts(items) matches Some(r) && r.len() == items.len() && forall|i: int|
            0 <= i < items.len() ==> #[trigger] items[i] == ValueModel::Text(
                seq_texts(items)->Some_0[i],
            ),
    decreases items.len(),
{
    if items.len() > 0 {
        let tail = items.subrange(1, items.len() as int);
        assert forall|i: int| 0 <= i < tail.len() implies (#[trigger] tail[i]) is Text by {
            assert(tail[i] == items[i + 1]);
        }
        lemma_seq_texts_all(tail);
        assert forall|i: int|
            0 <= i < items.len() implies #[trigger] items[i] == ValueModel::Text(
            seq_texts(items)->Some_0[i],
        ) by {
            if i > 0 {
                assert(tail[i - 1] == items[i]);
            }
        }
    }
}

pub proof fn lemma_seq_texts_bad(items: Seq<ValueModel>, i: int)
    requires
        0 <= i < items.len(),
        !(items[i] is Text),
    ensures
        seq_texts(items) is None,
    decreases i,
{
    if items[0] is Text {
        let tail = items.subrange(1, items.len() as int);
        assert(tail[i - 1] == items[i]);
        lemma_seq_texts_bad(tail, i - 1);
    }
}

/// Copy a list of strings into text values.
#[verifier::loop_isolation(false)]
fn texts_vec(ss: &Vec<String>) -> (r: Vec<Value>)
    ensures
        Value::models_of(r@) == texts_of(strings_view(ss@)),
{
    let mut out: Vec<Value> = Vec::new();
    let mut i: usize = 0;
    while i < ss.len()
        invariant
            0 <= i <= ss@.len(),
            out@.len() == i,
            forall|j: int| 0 <= j < i ==> (#[trigger] out@[j]) == Value::Text(ss@[j]),
        decreases ss@.len() - i,
    {
        out.push(Value::Text(clone_string(&ss[i])));
        i += 1;
    }
    proof {
        crate::value::lemma_models_of_len(out@);
        assert forall|j: int|
            0 <= j < out@.len() implies Value::models_of(out@)[j] == texts_of(
            strings_view(ss@),
        )[j] by {
            crate::value::lemma_models_of_index(out@, j);
        }
        assert(Value::models_of(out@) =~= texts_of(strings_view(ss@)));
    }
    out
}

/// Copy a list of text values back into strings; `None` when any
/// element is not text.
#[verifier::loop_isolation(false)]
fn strings_back(items: &Vec<Value>) -> (r: Option<Vec<String>>)
    ensures
        match r {
            Some(v) => seq_texts(Value::models_of(items@)) == Some(strings_view(v@)),
            None => seq_texts(Value::models_of(items@)) is None,
        },
{
    proof {
        crate::value::lemma_models_of_len(items@);
    }
    let mut out: Vec<String> = Vec::new();
    let mut i: usize = 0;
    while i < items.len()
        invariant
            0 <= i <= items@.len(),
            out@.len() == i,
            forall|j: int| 0 <= j < i ==> ((#[trigger] items@[j]) matches Value::Text(s)
                && out@[j]@ == s@),
        decreases items@.len() - i,
    {
        match &items[i] {
            Value::Text(s) => {
                out.push(clone_string(s));
            },
            _ => {
                proof {
                    crate::value::lemma_models_of_index(items@, i as int);
                    lemma_seq_texts_bad(Value::models_of(items@), i as int);
                }
                return None;
            },
        }
        i += 1;
    }
    proof {
        assert forall|j: int|
            0 <= j < items@.len() implies (#[trigger] Value::models_of(items@)[j]) is Text by {
            crate::value::lemma_models_of_index(items@, j);
        }
        lemma_seq_texts_all(Value::models_of(items@));
        assert forall|j: int|
            0 <= j < items@.len() implies seq_texts(Value::models_of(items@))->Some_0[j]
            == strings_view(out@)[j] by {
            crate::value::lemma_models_of_index(items@, j);
        }
        assert(seq_texts(Value::models_of(items@))->Some_0 =~= strings_view(out@));
    }
    Some(out)
}

/// An article as stored: identifier, title, image list, author, body,
/// creation and update times (epoch milliseconds), and status.
pub struct Article {
    pub id: ObjectId,
    pub title: String,
    pub image: Vec<String>,
    pub author_id: ObjectId,
    pub content: String,
    pub create_at: i64,
    pub update_at: i64,
    pub status: i32,
}

/// The mathematical value of an article.
#[verifier::ext_equal]
pub struct ArticleView {
    pub id: Seq<u8>,
    pub title: Seq<char>,
    pub image: Seq<Seq<char>>,
    pub author_id: Seq<u8>,
    pub content: Seq<char>,
    pub create_at: i64,
    pub update_at: i64,
    pub status: i32,
}

pub open spec fn article_encode(v: ArticleView) -> DocModel {
    seq![
        ("_id"@, ValueModel::Id(v.id)),
        ("title"@, ValueModel::Text(v.title)),
        ("image"@, ValueModel::Array(texts_of(v.image))),
        ("author_id"@, ValueModel::Id(v.author_id)),
        ("content"@, ValueModel::Text(v.content)),
        ("create_at"@, ValueModel::DateTime(v.create_at)),
        ("update_at"@, ValueModel::DateTime(v.update_at)),
        ("status"@, ValueModel::Int32(v.status)),
    ]
}

pub open spec fn article_decode(d: DocModel) -> Option<ArticleView> {
    if {
        &&& doc_get(d, "_id"@) matches Some(v) && v is Id
        &&& doc_get(d, "title"@) matches Some(v) && v is Text
        &&& doc_get(d, "image"@) matches Some(v) && v is Array && seq_texts(v->Array_0) is Some
        &&& doc_get(d, "author_id"@) matches Some(v) && v is Id
        &&& doc_get(d, "content"@) matches Some(v) && v is Text
        &&& doc_get(d, "create_at"@) matches Some(v) && v is DateTime
        &&& doc_get(d, "update_at"@) matches Some(v) && v is DateTime
        &&& doc_get(d, "status"@) matches Some(v) && v is Int32
    } {
        Some(
            ArticleView {
                id: doc_get(d, "_id"@)->Some_0->Id_0,
                title: doc_get(d, "title"@)->Some_0->Text_0,
                image: seq_texts(doc_get(d, "image"@)->Some_0->Array_0)->Some_0,
                author_id: doc_get(d, "author_id"@)->Some_0->Id_0,
                content: doc_get(d, "content"@)->Some_0->Text_0,
                create_at: doc_get(d, "create_at"@)->Some_0->DateTime_0,
                update_at: doc_get(d, "update_at"@)->Some_0->DateTime_0,
                status: doc_get(d, "status"@)->Some_0->Int32_0,
            },
        )
    } else {
        None
    }
}


/// Each field of an encoded article, read back by key, and the
/// encoding's well-formedness.
pub proof fn lemma_article_encode_get(v: ArticleView)
    ensures
        doc_get(article_encode(v), "_id"@) == Some(ValueModel::Id(v.id)),
        doc_get(article_encode(v), "title"@) == Some(ValueModel::Text(v.title)),
        doc_get(article_encode(v), "image"@) == Some(ValueModel::Array(texts_of(v.image))),
        doc_get(article_encode(v), "author_id"@) == Some(ValueModel::Id(v.author_id)),
        doc_get(article_encode(v), "content"@) == Some(ValueModel::Text(v.content)),
        doc_get(article_encode(v), "create_at"@) == Some(ValueModel::DateTime(v.create_at)),
        doc_get(article_encode(v), "update_at"@) == Some(ValueModel::DateTime(v.update_at)),
        doc_get(article_encode(v), "status"@) == Some(ValueModel::Int32(v.status)),
        doc_wf(article_encode(v)),
{
    reveal_strlit("_id");
    reveal_strlit("title");
    reveal_strlit("image");
    reveal_strlit("author_id");
    reveal_strlit("content");
    reveal_strlit("create_at");
    reveal_strlit("update_at");
    reveal_strlit("status");
    assert("author_id"@[0] == 'a');
    assert("create_at"@[0] == 'c');
    assert("update_at"@[0] == 'u');
    assert("_id"@.len() == 3);
    assert("title"@.len() == 5);
    assert("image"@.len() == 5);
    assert("author_id"@.len() == 9);
    assert("content"@.len() == 7);
    assert("create_at"@.len() == 9);
    assert("update_at"@.len() == 9);
    assert("status"@.len() == 6);
    assert("title"@[0] == 't');
    assert("image"@[0] == 'i');
    assert("_id"@ != "title"@);
    assert("_id"@ != "image"@);
    assert("_id"@ != "author_id"@);
    assert("_id"@ != "content"@);
    assert("_id"@ != "create_at"@);
    assert("_id"@ != "update_at"@);
    assert("_id"@ != "status"@);
    assert("title"@ != "image"@);
    assert("title"@ != "author_id"@);
    assert("title"@ != "content"@);
    assert("title"@ != "create_at"@);
    assert("title"@ != "update_at"@);
    assert("title"@ != "status"@);
    assert("image"@ != "author_id"@);
    assert("image"@ != "content"@);
    assert("image"@ != "create_at"@);
    assert("image"@ != "update_at"@);
    assert("image"@ != "status"@);
    assert("author_id"@ != "content"@);
    assert("author_id"@ != "create_at"@);
    assert("author_id"@ != "update_at"@);
    assert("author_id"@ != "status"@);
    assert("content"@ != "create_at"@);
    assert("content"@ != "update_at"@);
    assert("content"@ != "status"@);
    assert("create_at"@ != "update_at"@);
    assert("create_at"@ != "status"@);
    assert("update_at"@ != "status"@);
    let e = article_encode(v);
    crate::document::lemma_doc_get_skip(e, "title"@, 1);
    assert(e.subrange(1, 8)[0] == e[1]);
    crate::document::lemma_doc_get_skip(e, "image"@, 2);
    assert(e.subrange(2, 8)[0] == e[2]);
    crate::document::lemma_doc_get_skip(e, "author_id"@, 3);
    assert(e.subrange(3, 8)[0] == e[3]);
    crate::document::lemma_doc_get_skip(e, "content"@, 4);
    assert(e.subrange(4, 8)[0] == e[4]);
    crate::document::lemma_doc_get_skip(e, "create_at"@, 5);
    assert(e.subrange(5, 8)[0] == e[5]);
    crate::document::lemma_doc_get_skip(e, "update_at"@, 6);
    assert(e.subrange(6, 8)[0] == e[6]);
    crate::document::lemma_doc_get_skip(e, "status"@, 7);
    assert(e.subrange(7, 8)[0] == e[7]);
}

impl StructDocument for Article {
    type V = ArticleView;

    open spec fn view(&self) -> ArticleView {
        ArticleView {
            id: self.id.model(),
            title: self.title@,
            image: strings_view(self.image@),
            author_id: self.author_id.model(),
            content: self.content@,
            create_at: self.create_at,
            update_at: self.update_at,
            status: self.status,
        }
    }

    open spec fn spec_wf(v: ArticleView) -> bool {
        true
    }

    open spec fn spec_id(v: ArticleView) -> Seq<u8> {
        v.id
    }

    open spec fn spec_encode(v: ArticleView) -> DocModel {
        article_encode(v)
    }

    open spec fn spec_decode(d: DocModel) -> Option<ArticleView> {
        article_decode(d)
    }

    open spec fn spec_name() -> Seq<char> {
        "article"@
    }

    fn name() -> (r: String) {
        "article".to_owned()
    }

    fn to_document(&self) -> (r: Result<Document, Error>) {
        let mut fv: Vec<(String, Value)> = Vec::new();
        fv.push(("_id".to_owned(), Value::Id(self.id)));
        fv.push(("title".to_owned(), Value::Text(clone_string(&self.title))));
        fv.push(("image".to_owned(), Value::Array(texts_vec(&self.image))));
        fv.push(("author_id".to_owned(), Value::Id(self.author_id)));
        fv.push(("content".to_owned(), Value::Text(clone_string(&self.content))));
        fv.push(("create_at".to_owned(), Value::DateTime(self.create_at)));
        fv.push(("update_at".to_owned(), Value::DateTime(self.update_at)));
        fv.push(("status".to_owned(), Value::Int32(self.status)));
        let d = Document { fields: fv };
        proof {
            crate::document::lemma_fields_model_len(d.fields@);
            assert forall|j: int|
                0 <= j < d.fields@.len() implies Document::fields_model(d.fields@)[j]
                == article_encode(self.view())[j] by {
                crate::document::lemma_fields_model_index(d.fields@, j);
            }
            assert(d.model() =~= article_encode(self.view()));
        }
        Ok(d)
    }

    fn from_document(doc: &Document) -> (r: Result<Article, Error>) {
        proof {
            reveal_strlit("_id");
            reveal_strlit("title");
            reveal_strlit("image");
            reveal_strlit("author_id");
            reveal_strlit("content");
            reveal_strlit("create_at");
            reveal_strlit("update_at");
            reveal_strlit("status");
        }
        let id = match doc.get_id("_id") {
            Some(i) => i,
            None => {
                return Err(Error::Decoding);
            },
        };
        let title = match doc.get("title") {
            Some(Value::Text(s)) => clone_string(s),
            _ => {
                return Err(Error::Decoding);
            },
        };
        let image = match doc.get("image") {
            Some(Value::Array(items)) => match strings_back(items) {
                Some(v) => v,
                None => {
                    return Err(Error::Decoding);
                },
            },
            _ => {
                return Err(Error::Decoding);
            },
        };
        let author_id = match doc.get_id("author_id") {
            Some(i) => i,
            None => {
                return Err(Error::Decoding);
            },
        };
        let content = match doc.get("content") {
            Some(Value::Text(s)) => clone_string(s),
            _ => {
                return Err(Error::Decoding);
            },
        };
        let create_at = match doc.get("create_at") {
            Some(Value::DateTime(t)) => *t,
            _ => {
                return Err(Error::Decoding);
            },
        };
        let update_at = match doc.get("update_at") {
            Some(Value::DateTime(t)) => *t,
            _ => {
                return Err(Error::Decoding);
            },
        };
        let status = match doc.get("status") {
            Some(Value::Int32(i)) => *i,
            _ => {
                return Err(Error::Decoding);
            },
        };
        let out = Article { id, title, image, author_id, content, create_at, update_at, status };
        proof {
            assert(article_decode(doc.model()) == Some(out.view())) by {
                assert(out.view() =~= article_decode(doc.model())->Some_0);
            }
        }
        Ok(out)
    }

    proof fn lemma_round_trip(v: ArticleView) {
        lemma_article_encode_get(v);
        lemma_texts_round(v.image);
        let e = article_encode(v);
        assert(article_decode(e) matches Some(w) && w =~= v);
    }
}

/// A user's role, stored as a small integer code.
#[derive(Clone, Copy, Debug, PartialEq, Eq, Structural)]
pub enum Role {
    Admin,
    Guest,
}

pub open spec fn role_code(r: Role) -> i32 {
    match r {
        Role::Admin => 1,
        Role::Guest => 0,
    }
}

pub open spec fn code_role(n: i32) -> Option<Role> {
    if n == 0 {
        Some(Role::Guest)
    } else if n == 1 {
        Some(Role::Admin)
    } else {
        None
    }
}

fn role_from_code(n: i32) -> (r: Option<Role>)
    ensures
        r == code_role(n),
{
    if n == 0 {
        Some(Role::Guest)
    } else if n == 1 {
        Some(Role::Admin)
    } else {
        None
    }
}

fn role_to_code(r: Role) -> (n: i32)
    ensures
        n == role_code(r),
{
    match r {
        Role::Admin => 1,
        Role::Guest => 0,
    }
}

/// A user as stored: identifier, name, avatar, role, password digest
/// (binary), and creation and update times.
pub struct User {
    pub id: ObjectId,
    pub username: String,
    pub avatar: String,
    pub role: Role,
    pub password: Vec<u8>,
    pub create_at: i64,
    pub update_at: i64,
}

/// The mathematical value of a user.
#[verifier::ext_equal]
pub struct UserView {
    pub id: Seq<u8>,
    pub username: Seq<char>,
    pub avatar: Seq<char>,
    pub role: Role,
    pub password: Seq<u8>,
    pub create_at: i64,
    pub update_at: i64,
}

pub open spec fn user_encode(v: UserView) -> DocModel {
    seq![
        ("_id"@, ValueModel::Id(v.id)),
        ("username"@, ValueModel::Text(v.username)),
        ("avatar"@, ValueModel::Text(v.avatar)),
        ("role"@, ValueModel::Int32(role_code(v.role))),
        ("password"@, ValueModel::Binary(0u8, v.password)),
        ("create_at"@, ValueModel::DateTime(v.create_at)),
        ("update_at"@, ValueModel::DateTime(v.update_at)),
    ]
}

pub open spec fn user_decode(d: DocModel) -> Option<UserView> {
    if {
        &&& doc_get(d, "_id"@) matches Some(v) && v is Id
        &&& doc_get(d, "username"@) matches Some(v) && v is Text
        &&& doc_get(d, "avatar"@) matches Some(v) && v is Text
        &&& doc_get(d, "role"@) matches Some(v) && v is Int32 && code_role(v->Int32_0) is Some
        &&& doc_get(d, "password"@) matches Some(v) && v is Binary
        &&& doc_get(d, "create_at"@) matches Some(v) && v is DateTime
        &&& doc_get(d, "update_at"@) matches Some(v) && v is DateTime
    } {
        Some(
            UserView {
                id: doc_get(d, "_id"@)->Some_0->Id_0,
                username: doc_get(d, "username"@)->Some_0->Text_0,
                avatar: doc_get(d, "avatar"@)->Some_0->Text_0,
                role: code_role(doc_get(d, "role"@)->Some_0->Int32_0)->Some_0,
                password: doc_get(d, "password"@)->Some_0->Binary_1,
                create_at: doc_get(d, "create_at"@)->Some_0->DateTime_0,
                update_at: doc_get(d, "update_at"@)->Some_0->DateTime_0,
            },
        )
    } else {
        None
    }
}

/// Each field of an encoded user, read back by key, and the encoding's
/// well-formedness.
pub proof fn lemma_user_encode_get(v: UserView)
    ensures
        doc_get(user_encode(v), "_id"@) == Some(ValueModel::Id(v.id)),
        doc_get(user_encode(v), "username"@) == Some(ValueModel::Text(v.username)),
        doc_get(user_encode(v), "avatar"@) == Some(ValueModel::Text(v.avatar)),
        doc_get(user_encode(v), "role"@) == Some(ValueModel::Int32(role_code(v.role))),
        doc_get(user_encode(v), "password"@) == Some(ValueModel::Binary(0u8, v.password)),
        doc_get(user_encode(v), "create_at"@) == Some(ValueModel::DateTime(v.create_at)),
        doc_get(user_encode(v), "update_at"@) == Some(ValueModel::DateTime(v.update_at)),
        doc_wf(user_encode(v)),
{
    reveal_strlit("_id");
    reveal_strlit("username");
    reveal_strlit("avatar");
    reveal_strlit("role");
    reveal_strlit("password");
    reveal_strlit("create_at");
    reveal_strlit("update_at");
    assert("_id"@.len() == 3);
    assert("username"@.len() == 8);
    assert("avatar"@.len() == 6);
    assert("role"@.len() == 4);
    assert("password"@.len() == 8);
    assert("create_at"@.len() == 9);
    assert("update_at"@.len() == 9);
    assert("username"@[0] == 'u');
    assert("password"@[0] == 'p');
    assert("create_at"@[0] == 'c');
    assert("update_at"@[0] == 'u');
    assert("_id"@ != "username"@);
    assert("_id"@ != "avatar"@);
    assert("_id"@ != "role"@);
    assert("_id"@ != "password"@);
    assert("_id"@ != "create_at"@);
    assert("_id"@ != "update_at"@);
    assert("username"@ != "avatar"@);
    assert("username"@ != "role"@);
    assert("username"@ != "password"@);
    assert("username"@ != "create_at"@);
    assert("username"@ != "update_at"@);
    assert("avatar"@ != "role"@);
    assert("avatar"@ != "password"@);
    assert("avatar"@ != "create_at"@);
    assert("avatar"@ != "update_at"@);
    assert("role"@ != "password"@);
    assert("role"@ != "create_at"@);
    assert("role"@ != "update_at"@);
    assert("password"@ != "create_at"@);
    assert("password"@ != "update_at"@);
    assert("create_at"@ != "update_at"@);
    let e = user_encode(v);
    crate::document::lemma_doc_get_skip(e, "username"@, 1);
    assert(e.subrange(1, 7)[0] == e[1]);
    crate::document::lemma_doc_get_skip(e, "avatar"@, 2);
    assert(e.subrange(2, 7)[0] == e[2]);
    crate::document::lemma_doc_get_skip(e, "role"@, 3);
    assert(e.subrange(3, 7)[0] == e[3]);
    crate::document::lemma_doc_get_skip(e, "password"@, 4);
    assert(e.subrange(4, 7)[0] == e[4]);
    crate::document::lemma_doc_get_skip(e, "create_at"@, 5);
    assert(e.subrange(5, 7)[0] == e[5]);
    crate::document::lemma_doc_get_skip(e, "update_at"@, 6);
    assert(e.subrange(6, 7)[0] == e[6]);
}

impl StructDocument for User {
    type V = UserView;

    open spec fn view(&self) -> UserView {
        UserView {
            id: self.id.model(),
            username: self.username@,
            avatar: self.avatar@,
            role: self.role,
            password: self.password@,
            create_at: self.create_at,
            update_at: self.update_at,
        }
    }

    open spec fn spec_wf(v: UserView) -> bool {
        true
    }

    open spec fn spec_id(v: UserView) -> Seq<u8> {
        v.id
    }

    open spec fn spec_encode(v: UserView) -> DocModel {
        user_encode(v)
    }

    open spec fn spec_decode(d: DocModel) -> Option<UserView> {
        user_decode(d)
    }

    open spec fn spec_name() -> Seq<char> {
        "user"@
    }

    fn name() -> (r: String) {
        "user".to_owned()
    }

    fn to_document(&self) -> (r: Result<Document, Error>) {
        let mut fv: Vec<(String, Value)> = Vec::new();
        fv.push(("_id".to_owned(), Value::Id(self.id)));
        fv.push(("username".to_owned(), Value::Text(clone_string(&self.username))));
        fv.push(("avatar".to_owned(), Value::Text(clone_string(&self.avatar))));
        fv.push(("role".to_owned(), Value::Int32(role_to_code(self.role))));
        fv.push(("password".to_owned(), Value::Binary(0u8, crate::document::clone_bytes(
            &self.password,
        ))));
        fv.push(("create_at".to_owned(), Value::DateTime(self.create_at)));
        fv.push(("update_at".to_owned(), Value::DateTime(self.update_at)));
        let d = Document { fields: fv };
        proof {
            crate::document::lemma_fields_model_len(d.fields@);
            assert forall|j: int|
                0 <= j < d.fields@.len() implies Document::fields_model(d.fields@)[j]
                == user_encode(self.view())[j] by {
                crate::document::lemma_fields_model_index(d.fields@, j);
            }
            assert(d.model() =~= user_encode(self.view()));
        }
        Ok(d)
    }

    fn from_document(doc: &Document) -> (r: Result<User, Error>) {
        let id = match doc.get_id("_id") {
            Some(i) => i,
            None => {
                return Err(Error::Decoding);
            },
        };
        let username = match doc.get("username") {
            Some(Value::Text(s)) => clone_string(s),
            _ => {
                return Err(Error::Decoding);
            },
        };
        let avatar = match doc.get("avatar") {
            Some(Value::Text(s)) => clone_string(s),
            _ => {
                return Err(Error::Decoding);
            },
        };
        let role = match doc.get("role") {
            Some(Value::Int32(n)) => match role_from_code(*n) {
                Some(r_) => r_,
                None => {
                    return Err(Error::Decoding);
                },
            },
            _ => {
                return Err(Error::Decoding);
            },
        };
        let password = match doc.get("password") {
            Some(Value::Binary(_t, b)) => crate::document::clone_bytes(b),
            _ => {
                return Err(Error::Decoding);
            },
        };
        let create_at = match doc.get("create_at") {
            Some(Value::DateTime(t)) => *t,
            _ => {
                return Err(Error::Decoding);
            },
        };
        let update_at = match doc.get("update_at") {
            Some(Value::DateTime(t)) => *t,
            _ => {
                return Err(Error::Decoding);
            },
        };
        let out = User { id, username, avatar, role, password, create_at, update_at };
        proof {
            assert(user_decode(doc.model()) == Some(out.view())) by {
                assert(out.view() =~= user_decode(doc.model())->Some_0);
            }
        }
        Ok(out)
    }

    proof fn lemma_round_trip(v: UserView) {
        lemma_user_encode_get(v);
        let e = user_encode(v);
        assert(user_decode(e) matches Some(w) && w =~= v);
    }
}

} // verus!
