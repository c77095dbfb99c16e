//! The article endpoints' decision logic: which filters and query
//! options each request issues, and how a request's fields become or
//! change a record.  The surrounding HTTP routing, body parsing and
//! response shaping live outside the library and call in with plain
//! values.

use vstd::prelude::*;
use crate::value::{ObjectId, Value, ValueModel};
use crate::document::Document;
use crate::store::{FindOptions, id_desc_sort};
use crate::model::{self, ArticleView, strings_view};
use crate::struct_document::StructDocument;

verus! {

/// The article endpoints.
pub struct Article;

/// The filter a listing queries with: published articles only.
pub open spec fn list_filter_model() -> crate::document::DocModel {
    seq![("status"@, ValueModel::Int32(0))]
}

/// The filter a detail lookup queries with: one identifier, published
/// only.
pub open spec fn detail_filter_model(idb: Seq<u8>) -> crate::document::DocModel {
    seq![("_id"@, ValueModel::Id(idb)), ("status"@, ValueModel::Int32(0))]
}

impl Article {
    /// What a listing request asks the store: published articles,
    /// newest first, one page of `per_page` starting after the pages
    /// before `page`.
    pub fn list_query(page: i64, per_page: i64) -> (r: (Document, FindOptions))
        requires
            1 <= page,
            0 <= per_page,
            (page - 1) * per_page <= i64::MAX,
        ensures
            r.0.model() == list_filter_model(),
            r.1.wf(),
            r.1.model().sort == Some(id_desc_sort()),
            r.1.model().limit == Some(per_page as int),
            r.1.model().skip == (page - 1) * per_page,
    {
        let mut ff: Vec<(String, Value)> = Vec::new();
        ff.push(("status".to_owned(), Value::Int32(0)));
        let filter = Document { fields: ff };
        let mut sf: Vec<(String, Value)> = Vec::new();
        sf.push(("_id".to_owned(), Value::Int32(-1)));
        let sort = Document { fields: sf };
        proof {
            crate::document::lemma_fields_model_len(filter.fields@);
            crate::document::lemma_fields_model_index(filter.fields@, 0);
            assert(filter.model() =~= list_filter_model());
            crate::document::lemma_fields_model_len(sort.fields@);
            crate::document::lemma_fields_model_index(sort.fields@, 0);
            assert(sort.model() =~= id_desc_sort());
        }
        let options = FindOptions {
            sort: Some(sort),
            limit: Some(per_page),
            skip: Some((page - 1) * per_page),
        };
        (filter, options)
    }

    /// What a detail request asks the store: that identifier, published
    /// only.
    pub fn detail_filter(id: &ObjectId) -> (r: Document)
        ensures
            r.model() == detail_filter_model(id.model()),
    {
        let mut ff: Vec<(String, Value)> = Vec::new();
        ff.push(("_id".to_owned(), Value::Id(ObjectId { bytes: id.bytes })));
        ff.push(("status".to_owned(), Value::Int32(0)));
        let filter = Document { fields: ff };
        proof {
            crate::document::lemma_fields_model_len(filter.fields@);
            crate::document::lemma_fields_model_index(filter.fields@, 0);
            crate::document::lemma_fields_model_index(filter.fields@, 1);
            assert(filter.model() =~= detail_filter_model(id.model()));
        }
        filter
    }

    /// A new article from a creation request: fresh identifier, the
    /// request's title, images and body, the caller as author, both
    /// times set to now, published.
    pub fn new_article(
        id: ObjectId,
        author_id: ObjectId,
        title: String,
        image: Vec<String>,
        content: String,
        now: i64,
    ) -> (r: model::Article)
        ensures
            r.view() == (ArticleView {
                id: id.model(),
                title: title@,
                image: strings_view(image@),
                author_id: author_id.model(),
                content: content@,
                create_at: now,
                update_at: now,
                status: 0,
            }),
    {
        model::Article {
            id,
            title,
            image,
            author_id,
            content,
            create_at: now,
            update_at: now,
            status: 0,
        }
    }

    /// An update request applied to a fetched article: the title,
    /// images and body are replaced and the update time set to now;
    /// the identifier, author, creation time and status stay.
    pub fn apply_update(
        article: model::Article,
        title: String,
        image: Vec<String>,
        content: String,
        now: i64,
    ) -> (r: model::Article)
        ensures
            r.view() == (ArticleView {
                title: title@,
                image: strings_view(image@),
                content: content@,
                update_at: now,
                ..article.view()
            }),
    {
        model::Article {
            id: article.id,
            title,
            image,
            author_id: article.author_id,
            content,
            create_at: article.create_at,
            update_at: now,
            status: article.status,
        }
    }
}

} // verus!
