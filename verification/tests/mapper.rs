use docstore::article::Article as ArticleEndpoints;
use docstore::auth::Auth;
use docstore::document::Document;
use docstore::model::{Article, Role, User};
use docstore::store::{Collection, FindOptions};
use docstore::struct_document::{aggregate, count, distinct, find, find_by_id, find_one, save, Cursor};
use docstore::value::{ObjectId, Value};
use docstore::struct_document::StructDocument;
use docstore::Error;

fn oid(n: u8) -> ObjectId {
    let mut bytes = [0u8; 12];
    bytes[11] = n;
    ObjectId::new(bytes)
}

fn article(n: u8, title: &str, status: i32) -> Article {
    Article {
        id: oid(n),
        title: title.to_string(),
        image: vec![],
        author_id: oid(250),
        content: "c".to_string(),
        create_at: n as i64,
        update_at: n as i64,
        status,
    }
}

#[test]
fn save_inserts_then_replaces() {
    // Scenario: save {id: A, title: "x"}, then save {id: A, title: "y"}:
    // the lookup returns "y" and the collection holds exactly one
    // document with id A.
    let mut store = Collection::new();
    save(&article(1, "x", 0), &mut store, None).unwrap();
    save(&article(1, "y", 0), &mut store, None).unwrap();
    let found: Option<Article> = find_by_id(&store, &oid(1), None, &FindOptions::default())
        .unwrap();
    assert_eq!(found.unwrap().title, "y");
    assert_eq!(count(&store, None, &FindOptions::default()).unwrap(), 1);
}

#[test]
fn save_twice_same_content_leaves_one_document() {
    let mut store = Collection::new();
    save(&article(1, "x", 0), &mut store, None).unwrap();
    save(&article(1, "x", 0), &mut store, None).unwrap();
    assert_eq!(count(&store, None, &FindOptions::default()).unwrap(), 1);
    let found: Option<Article> = find_by_id(&store, &oid(1), None, &FindOptions::default())
        .unwrap();
    assert_eq!(found.unwrap().title, "x");
}

#[test]
fn find_by_id_cannot_be_overridden_by_extra_filter() {
    // Identifier protection: a lookup for A with an extra {_id: B}
    // filter returns A's record, never B's.
    let mut store = Collection::new();
    save(&article(1, "first", 0), &mut store, None).unwrap();
    save(&article(2, "second", 0), &mut store, None).unwrap();
    let mut extra = Document::new();
    extra.set("_id".to_string(), Value::Id(oid(2)));
    let found: Option<Article> =
        find_by_id(&store, &oid(1), Some(&extra), &FindOptions::default()).unwrap();
    assert_eq!(found.unwrap().title, "first");
}

#[test]
fn find_by_id_extra_filter_still_filters_other_fields() {
    let mut store = Collection::new();
    save(&article(1, "draft", 1), &mut store, None).unwrap();
    let mut extra = Document::new();
    extra.set("status".to_string(), Value::Int32(0));
    let found: Option<Article> =
        find_by_id(&store, &oid(1), Some(&extra), &FindOptions::default()).unwrap();
    assert!(found.is_none());
}

#[test]
fn missing_record_is_none_not_an_error() {
    let store = Collection::new();
    let found: Option<Article> = find_by_id(&store, &oid(9), None, &FindOptions::default())
        .unwrap();
    assert!(found.is_none());
    let one: Option<Article> = find_one(&store, None, &FindOptions::default()).unwrap();
    assert!(one.is_none());
}

#[test]
fn find_sorts_descending_by_id() {
    let mut store = Collection::new();
    save(&article(2, "two", 0), &mut store, None).unwrap();
    save(&article(1, "one", 0), &mut store, None).unwrap();
    save(&article(3, "three", 0), &mut store, None).unwrap();
    let (filter, options) = ArticleEndpoints::list_query(1, 10);
    let out: Vec<Article> = find(&store, Some(&filter), &options).unwrap();
    let titles: Vec<&str> = out.iter().map(|a| a.title.as_str()).collect();
    assert_eq!(titles, vec!["three", "two", "one"]);
}

#[test]
fn pagination_skips_and_limits() {
    let mut store = Collection::new();
    for n in 1..=5u8 {
        save(&article(n, &format!("t{}", n), 0), &mut store, None).unwrap();
    }
    // page 2 of 2 per page, newest first: ids 5,4 | 3,2 | 1
    let (filter, options) = ArticleEndpoints::list_query(2, 2);
    let out: Vec<Article> = find(&store, Some(&filter), &options).unwrap();
    let titles: Vec<&str> = out.iter().map(|a| a.title.as_str()).collect();
    assert_eq!(titles, vec!["t3", "t2"]);
}

#[test]
fn fifteen_matching_documents_limit_ten_returns_newest_first() {
    // Scenario: 15 stored documents match {status: 0}; a find with
    // sort {_id: -1}, limit 10, skip 0 returns exactly the 10 newest.
    let mut store = Collection::new();
    for n in 1..=15u8 {
        save(&article(n, &format!("t{}", n), 0), &mut store, None).unwrap();
    }
    save(&article(16, "unpublished", 1), &mut store, None).unwrap();
    let (filter, options) = ArticleEndpoints::list_query(1, 10);
    let out: Vec<Article> = find(&store, Some(&filter), &options).unwrap();
    assert_eq!(out.len(), 10);
    let titles: Vec<String> = out.iter().map(|a| a.title.clone()).collect();
    let expected: Vec<String> = (6..=15u8).rev().map(|n| format!("t{}", n)).collect();
    assert_eq!(titles, expected);
}

#[test]
fn find_surfaces_a_decode_failure() {
    let mut store = Collection::new();
    save(&article(1, "good", 0), &mut store, None).unwrap();
    // corrupt the stored document through the raw store handle
    store.docs[0].set("title".to_string(), Value::Int32(5));
    let r: Result<Vec<Article>, Error> = find(&store, None, &FindOptions::default());
    assert_eq!(r.err(), Some(Error::Decoding));
    let r1: Result<Option<Article>, Error> = find_one(&store, None, &FindOptions::default());
    assert_eq!(r1.err(), Some(Error::Decoding));
}

#[test]
fn count_honours_filter() {
    let mut store = Collection::new();
    save(&article(1, "a", 0), &mut store, None).unwrap();
    save(&article(2, "b", 1), &mut store, None).unwrap();
    save(&article(3, "c", 0), &mut store, None).unwrap();
    let mut published = Document::new();
    published.set("status".to_string(), Value::Int32(0));
    assert_eq!(count(&store, Some(&published), &FindOptions::default()).unwrap(), 2);
    assert_eq!(count(&store, None, &FindOptions::default()).unwrap(), 3);
}

#[test]
fn aggregate_match_sort_limit() {
    let mut store = Collection::new();
    save(&article(1, "a", 0), &mut store, None).unwrap();
    save(&article(2, "b", 1), &mut store, None).unwrap();
    save(&article(3, "c", 0), &mut store, None).unwrap();
    save(&article(4, "d", 0), &mut store, None).unwrap();
    let mut match_filter = Document::new();
    match_filter.set("status".to_string(), Value::Int32(0));
    let mut match_stage = Document::new();
    match_stage.set("$match".to_string(), Value::Doc(match_filter));
    let mut sort_doc = Document::new();
    sort_doc.set("_id".to_string(), Value::Int32(-1));
    let mut sort_stage = Document::new();
    sort_stage.set("$sort".to_string(), Value::Doc(sort_doc));
    let mut limit_stage = Document::new();
    limit_stage.set("$limit".to_string(), Value::Int32(2));
    let pipeline = vec![match_stage, sort_stage, limit_stage];
    let out = aggregate(&store, &pipeline, None).unwrap();
    assert_eq!(out.len(), 2);
    let ids: Vec<u8> = out
        .iter()
        .map(|d| match d.get("_id") {
            Some(Value::Id(o)) => o.bytes[11],
            _ => panic!("missing _id"),
        })
        .collect();
    assert_eq!(ids, vec![4, 3]);
}

#[test]
fn aggregate_unknown_stage_is_a_store_error() {
    let mut store = Collection::new();
    save(&article(1, "a", 0), &mut store, None).unwrap();
    let mut group_stage = Document::new();
    group_stage.set("$group".to_string(), Value::Null);
    let r = aggregate(&store, &vec![group_stage], None);
    assert_eq!(r.err(), Some(Error::Store));
}

#[test]
fn distinct_deduplicates_in_first_seen_order() {
    let mut store = Collection::new();
    save(&article(1, "x", 0), &mut store, None).unwrap();
    save(&article(2, "y", 1), &mut store, None).unwrap();
    save(&article(3, "x", 0), &mut store, None).unwrap();
    let vals = distinct(&store, "title", None, None).unwrap();
    let titles: Vec<&str> = vals
        .iter()
        .map(|v| match v {
            Value::Text(s) => s.as_str(),
            _ => panic!("unexpected value kind"),
        })
        .collect();
    assert_eq!(titles, vec!["x", "y"]);
}

#[test]
fn login_and_logon_flow() {
    let mut store = Collection::new();
    let digest = vec![9u8, 8, 7];
    let user = Auth::new_user(oid(1), "ada".to_string(), digest.clone(), 5);
    assert_eq!(user.role, Role::Guest);
    assert_eq!(user.avatar, "");
    save(&user, &mut store, None).unwrap();
    // a sign-up under a taken name finds the existing user
    let taken: Option<User> = find_one(
        &store,
        Some(&Auth::logon_filter(&"ada".to_string())),
        &FindOptions::default(),
    )
    .unwrap();
    assert!(taken.is_some());
    // a login with the right digest finds the user, a wrong one does not
    let ok: Option<User> = find_one(
        &store,
        Some(&Auth::login_filter("ada".to_string(), digest)),
        &FindOptions::default(),
    )
    .unwrap();
    assert_eq!(ok.unwrap().username, "ada");
    let bad: Option<User> = find_one(
        &store,
        Some(&Auth::login_filter("ada".to_string(), vec![0u8])),
        &FindOptions::default(),
    )
    .unwrap();
    assert!(bad.is_none());
}

#[test]
fn detail_filter_selects_published_record_only() {
    let mut store = Collection::new();
    save(&article(1, "pub", 0), &mut store, None).unwrap();
    save(&article(2, "hidden", 1), &mut store, None).unwrap();
    let f1 = ArticleEndpoints::detail_filter(&oid(1));
    let r1: Option<Article> = find_one(&store, Some(&f1), &FindOptions::default()).unwrap();
    assert_eq!(r1.unwrap().title, "pub");
    let f2 = ArticleEndpoints::detail_filter(&oid(2));
    let r2: Option<Article> = find_one(&store, Some(&f2), &FindOptions::default()).unwrap();
    assert!(r2.is_none());
}

#[test]
fn update_keeps_identity_and_creation_time() {
    let a = article(1, "old", 0);
    let created = a.create_at;
    let updated = ArticleEndpoints::apply_update(
        a,
        "new".to_string(),
        vec!["i.png".to_string()],
        "body".to_string(),
        99,
    );
    assert!(updated.id.eq_id(&oid(1)));
    assert_eq!(updated.title, "new");
    assert_eq!(updated.create_at, created);
    assert_eq!(updated.update_at, 99);
    assert_eq!(updated.status, 0);
}

#[test]
fn collection_name_bindings() {
    assert_eq!(Article::name(), "article");
    assert_eq!(User::name(), "user");
}

#[test]
fn cursor_decodes_on_demand_and_ends() {
    let mut store = Collection::new();
    save(&article(1, "one", 0), &mut store, None).unwrap();
    save(&article(2, "two", 0), &mut store, None).unwrap();
    let (filter, options) = ArticleEndpoints::list_query(1, 10);
    let mut cur = Cursor::open(&store, Some(&filter), &options);
    let first: Article = cur.next().unwrap().unwrap();
    assert_eq!(first.title, "two");
    let second: Article = cur.next().unwrap().unwrap();
    assert_eq!(second.title, "one");
    assert!(cur.next::<Article>().is_none());
}

#[test]
fn cursor_surfaces_decode_failure_mid_walk() {
    let mut store = Collection::new();
    save(&article(1, "good", 0), &mut store, None).unwrap();
    save(&article(2, "bad", 0), &mut store, None).unwrap();
    store.docs[1].set("title".to_string(), Value::Int32(9));
    let mut cur = Cursor::open(&store, None, &FindOptions::default());
    let first: Result<Article, Error> = cur.next().unwrap();
    assert!(first.is_ok());
    let second: Result<Article, Error> = cur.next().unwrap();
    assert_eq!(second.err(), Some(Error::Decoding));
}
