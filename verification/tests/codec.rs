use docstore::document::Document;
use docstore::value::Value;
use docstore::model::{Article, Role, User};
use docstore::struct_document::StructDocument;
use docstore::value::ObjectId;
use docstore::Error;

fn oid(n: u8) -> ObjectId {
    let mut bytes = [0u8; 12];
    bytes[11] = n;
    ObjectId::new(bytes)
}

fn sample_article(n: u8, title: &str) -> Article {
    Article {
        id: oid(n),
        title: title.to_string(),
        image: vec!["a.png".to_string(), "b.png".to_string()],
        author_id: oid(200),
        content: "body text".to_string(),
        create_at: 1_500_000_000_000,
        update_at: 1_500_000_000_001,
        status: 0,
    }
}

#[test]
fn article_round_trip() {
    let a = sample_article(7, "hello");
    let doc = a.to_document().unwrap();
    let back = Article::from_document(&doc).unwrap();
    assert!(back.id.eq_id(&a.id));
    assert_eq!(back.title, a.title);
    assert_eq!(back.image, a.image);
    assert!(back.author_id.eq_id(&a.author_id));
    assert_eq!(back.content, a.content);
    assert_eq!(back.create_at, a.create_at);
    assert_eq!(back.update_at, a.update_at);
    assert_eq!(back.status, a.status);
}

#[test]
fn user_round_trip() {
    let u = User {
        id: oid(9),
        username: "ada".to_string(),
        avatar: "".to_string(),
        role: Role::Guest,
        password: vec![1, 2, 3, 4],
        create_at: 10,
        update_at: 20,
    };
    let doc = u.to_document().unwrap();
    let back = User::from_document(&doc).unwrap();
    assert!(back.id.eq_id(&u.id));
    assert_eq!(back.username, u.username);
    assert_eq!(back.avatar, u.avatar);
    assert_eq!(back.role, u.role);
    assert_eq!(back.password, u.password);
    assert_eq!(back.create_at, u.create_at);
    assert_eq!(back.update_at, u.update_at);
}

#[test]
fn missing_field_is_a_decoding_error() {
    let a = sample_article(7, "hello");
    let mut doc = a.to_document().unwrap();
    // drop the title field
    doc.fields.retain(|(k, _)| k.as_str() != "title");
    let r = Article::from_document(&doc);
    assert_eq!(r.err(), Some(Error::Decoding));
}

#[test]
fn mistyped_field_is_a_decoding_error() {
    let a = sample_article(7, "hello");
    let mut doc = a.to_document().unwrap();
    doc.set("status".to_string(), Value::Text("zero".to_string()));
    let r = Article::from_document(&doc);
    assert_eq!(r.err(), Some(Error::Decoding));
}

#[test]
fn unknown_role_code_is_a_decoding_error() {
    let u = User {
        id: oid(9),
        username: "ada".to_string(),
        avatar: "".to_string(),
        role: Role::Admin,
        password: vec![],
        create_at: 0,
        update_at: 0,
    };
    let mut doc = u.to_document().unwrap();
    doc.set("role".to_string(), Value::Int32(42));
    let r = User::from_document(&doc);
    assert_eq!(r.err(), Some(Error::Decoding));
}

#[test]
fn nested_array_and_subdocument_round_trip_values() {
    // a value tree with a nested array and a nested document survives a
    // deep copy and compares equal to itself, not to a changed tree
    let mut inner = Document::new();
    inner.set("k".to_string(), Value::Int64(5));
    let tree = Value::Array(vec![
        Value::Null,
        Value::Boolean(true),
        Value::Doc(inner),
        Value::Array(vec![Value::Text("x".to_string())]),
    ]);
    let copy = match &tree {
        Value::Array(items) => Value::Array(items.iter().map(clone_value_for_test).collect()),
        _ => unreachable!(),
    };
    assert!(tree.deep_eq(&copy));
    let other = Value::Array(vec![Value::Null]);
    assert!(!tree.deep_eq(&other));
}

fn clone_value_for_test(v: &Value) -> Value {
    match v {
        Value::Null => Value::Null,
        Value::Boolean(b) => Value::Boolean(*b),
        Value::Int32(i) => Value::Int32(*i),
        Value::Int64(i) => Value::Int64(*i),
        Value::Text(s) => Value::Text(s.clone()),
        Value::Binary(t, b) => Value::Binary(*t, b.clone()),
        Value::Array(items) => Value::Array(items.iter().map(clone_value_for_test).collect()),
        Value::Doc(d) => {
            let mut out = Document::new();
            for (k, v) in &d.fields {
                out.fields.push((k.clone(), clone_value_for_test(v)));
            }
            Value::Doc(out)
        }
        Value::Id(o) => Value::Id(*o),
        Value::DateTime(t) => Value::DateTime(*t),
    }
}

#[test]
fn merge_keeps_the_base_on_collision() {
    let mut base = Document::new();
    base.set("_id".to_string(), Value::Int32(1));
    base.set("x".to_string(), Value::Int32(10));
    let mut extra = Document::new();
    extra.set("_id".to_string(), Value::Int32(2));
    extra.set("y".to_string(), Value::Int32(20));
    let merged = base.merge(&extra);
    match merged.get("_id") {
        Some(Value::Int32(n)) => assert_eq!(*n, 1),
        _ => panic!("_id lost in merge"),
    }
    match merged.get("y") {
        Some(Value::Int32(n)) => assert_eq!(*n, 20),
        _ => panic!("extra field lost in merge"),
    }
    assert_eq!(merged.len(), 3);
}

#[test]
fn document_set_replaces_in_place() {
    let mut d = Document::new();
    d.set("a".to_string(), Value::Int32(1));
    d.set("b".to_string(), Value::Int32(2));
    d.set("a".to_string(), Value::Int32(3));
    assert_eq!(d.len(), 2);
    match d.get("a") {
        Some(Value::Int32(n)) => assert_eq!(*n, 3),
        _ => panic!("set did not replace"),
    }
}
