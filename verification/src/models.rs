//! Rows of the service's tables and the values that requests carry.
use vstd::prelude::*;

verus! {

/// An account as a login request reads it back: its id and the column that
/// the lookup selects into `username`.
#[derive(Clone, Debug)]
pub struct AccountDTO {
    pub id: String,
    pub username: Option<String>,
}

/// The credentials of a login request.
#[derive(Clone, Debug)]
pub struct LoginInput {
    pub password: String,
    pub username: String,
}

/// A row of the `logins` table: an access token and the account it belongs to.
#[derive(Clone, Debug)]
pub struct LoginInsertInput {
    pub token: String,
    pub account: String,
}

/// The answer to a login request; the empty token means "refused".
#[derive(Clone, Debug)]
pub struct TokenDTO {
    pub token: String,
}

/// A stored password as a listing shows it: without the secret.
#[derive(Clone, Debug)]
pub struct SimplePasswordDTO {
    pub id: i32,
    pub username: String,
    pub website: i32,
}

/// A stored password with its sealed secret, as the table holds it.
#[derive(Clone, Debug)]
pub struct MiddlePasswordDTO {
    pub id: i32,
    pub username: String,
    pub password: String,
    pub nonce: String,
    pub website: i32,
}

/// A stored password with its secret opened.
#[derive(Clone, Debug)]
pub struct PasswordDTO {
    pub id: i32,
    pub username: String,
    pub password: String,
    pub website: i32,
}

/// The passphrase that opens stored passwords.
#[derive(Clone, Debug)]
pub struct Info {
    pub password: String,
}

/// A request to store a new password, sealed under `passphrase`.
#[derive(Clone, Debug)]
pub struct PasswordInput {
    pub username: String,
    pub password: String,
    pub passphrase: String,
    pub website: i32,
}

/// A row to insert into the `passwords` table.
#[derive(Clone, Debug)]
pub struct PasswdTemplate {
    pub website: i32,
    pub username: String,
    pub password: String,
    pub nonce: String,
    pub account: String,
}

/// A row of the `websites` table.
#[derive(Clone, Debug)]
pub struct WebsiteDTO {
    pub id: i32,
    pub name: String,
}

/// A request to register a website.
#[derive(Clone, Debug)]
pub struct WebsiteInput {
    pub name: String,
}

/// A row of the `accounts` table.
#[derive(Clone, Debug)]
pub struct AccountRow {
    pub id: String,
    pub username: Option<String>,
    pub password: Option<String>,
}

/// A row of the `logins` table.
#[derive(Clone, Debug)]
pub struct LoginRow {
    pub token: String,
    pub account: String,
}

/// A row of the `passwords` table.
#[derive(Clone, Debug)]
pub struct PasswordRow {
    pub id: i32,
    pub username: String,
    pub password: String,
    pub nonce: String,
    pub website: i32,
    pub account: String,
}

impl From<PasswordDTO> for SimplePasswordDTO {
    fn from(p: PasswordDTO) -> (r: Self) {
        SimplePasswordDTO { id: p.id, website: p.website, username: p.username }
    }
}

impl vstd::std_specs::convert::FromSpecImpl<PasswordDTO> for SimplePasswordDTO {
    open spec fn obeys_from_spec() -> bool {
        true
    }

    open spec fn from_spec(p: PasswordDTO) -> SimplePasswordDTO {
        SimplePasswordDTO { id: p.id, website: p.website, username: p.username }
    }
}

} // verus!
