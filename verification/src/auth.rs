//! The user-authentication endpoints' decision logic: the filters a
//! login and a sign-up query with, and the record a sign-up stores.
//! Password hashing, token issuance and HTTP plumbing are external
//! collaborators; they hand in plain values (the password digest as
//! bytes) and take plain values back.

use vstd::prelude::*;
use crate::value::{Value, ValueModel, ObjectId};
use crate::document::Document;
use crate::model::{self, Role, UserView};
use crate::struct_document::StructDocument;

verus! {

/// The user-authentication endpoints.
pub struct Auth;

/// The filter a login queries with: the name and the password digest.
pub open spec fn login_filter_model(username: Seq<char>, digest: Seq<u8>) -> crate::document::DocModel {
    seq![("username"@, ValueModel::Text(username)), ("password"@, ValueModel::Binary(0u8, digest))]
}

/// The filter a sign-up checks for a taken name with.
pub open spec fn logon_filter_model(username: Seq<char>) -> crate::document::DocModel {
    seq![("username"@, ValueModel::Text(username))]
}

impl Auth {
    /// What a login asks the store: the user with this name and this
    /// password digest.
    pub fn login_filter(username: String, digest: Vec<u8>) -> (r: Document)
        ensures
            r.model() == login_filter_model(username@, digest@),
    {
        let mut ff: Vec<(String, Value)> = Vec::new();
        ff.push(("username".to_owned(), Value::Text(username)));
        ff.push(("password".to_owned(), Value::Binary(0u8, digest)));
        let filter = Document { fields: ff };
        proof {
            crate::document::lemma_fields_model_len(filter.fields@);
            crate::document::lemma_fields_model_index(filter.fields@, 0);
            crate::document::lemma_fields_model_index(filter.fields@, 1);
            assert(filter.model() =~= login_filter_model(username@, digest@));
        }
        filter
    }

    /// What a sign-up asks the store first: any user with this name.
    pub fn logon_filter(username: &String) -> (r: Document)
        ensures
            r.model() == logon_filter_model(username@),
    {
        let mut ff: Vec<(String, Value)> = Vec::new();
        ff.push(("username".to_owned(), Value::Text(crate::document::clone_string(username))));
        let filter = Document { fields: ff };
        proof {
            crate::document::lemma_fields_model_len(filter.fields@);
            crate::document::lemma_fields_model_index(filter.fields@, 0);
            assert(filter.model() =~= logon_filter_model(username@));
        }
        filter
    }

    /// The record a sign-up stores: fresh identifier, the given name
    /// and password digest, an empty avatar, the guest role, both times
    /// set to now.
    pub fn new_user(id: ObjectId, username: String, digest: Vec<u8>, now: i64) -> (r:
        model::User)
        ensures
            r.view() == (UserView {
                id: id.model(),
                username: username@,
                avatar: Seq::empty(),
                role: Role::Guest,
                password: digest@,
                create_at: now,
                update_at: now,
            }),
    {
        let empty_avatar = "".to_owned();
        proof {
            reveal_strlit("");
            assert(empty_avatar@ =~= Seq::<char>::empty());
        }
        model::User {
            id,
            username,
            avatar: empty_avatar,
            role: Role::Guest,
            password: digest,
            create_at: now,
            update_at: now,
        }
    }
}

} // verus!
