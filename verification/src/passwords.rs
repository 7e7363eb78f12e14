//! Stored passwords: listing them, opening one, and sealing a new one.
use crate::access::{
    count_grants, ids_unique, key_count, lemma_owned_rows_depend_on_opened, lemma_owned_rows_distinct,
    lemma_owned_rows_members, lemma_owned_rows_sound_and_complete, opened_rows, owned_rows, token_known, tokens_unique,
};
use crate::auth::{lemma_login_replaces_account_tokens, logins_after_grant};
use crate::auth::ApiKey;
use crate::crypto::{open_password, opened_text, seal_password, sealable, sealed_text, sealed_under, NONCE_LEN};
use crate::models::{
    Info, LoginInsertInput, LoginRow, MiddlePasswordDTO, PasswdTemplate, PasswordDTO, PasswordInput, PasswordRow, SimplePasswordDTO,
};
use crate::patterns::{has_run_without_newline, is_valid_master_passphrase};
use vstd::prelude::*;

verus! {

/// HTTP status of a new password whose passphrase is refused.
pub const NOT_ACCEPTABLE: u16 = 406;

/// HTTP status of a request whose token opens no account.
pub const NOT_FOUND: u16 = 404;

/// HTTP status of a password that cannot be sealed.
pub const INTERNAL_SERVER_ERROR: u16 = 500;

/// Selects the stored passwords of one website.
pub open spec fn on_website(website: i32) -> spec_fn(PasswordRow) -> bool {
    |p: PasswordRow| p.website == website
}

/// Selects one stored password of one website.
pub open spec fn is_entry(website: i32, id: i32) -> spec_fn(PasswordRow) -> bool {
    |p: PasswordRow| p.website == website && p.id == id
}

/// A stored password as a listing shows it.
pub open spec fn listed(p: PasswordRow) -> SimplePasswordDTO {
    SimplePasswordDTO { id: p.id, username: p.username, website: p.website }
}

/// A stored password as the table holds it.
pub open spec fn as_middle(p: PasswordRow) -> MiddlePasswordDTO {
    MiddlePasswordDTO { id: p.id, username: p.username, password: p.password, nonce: p.nonce, website: p.website }
}

/// Lists the stored passwords of `website_id` that the access token opens,
/// without their secrets: each row of the website joined with each login row
/// that pairs the token with the row's account, in table order.
pub fn get_passwords_with_website(
    website_id: i32,
    key: &ApiKey,
    passwords: &[PasswordRow],
    logins: &[LoginRow],
) -> (r: Vec<SimplePasswordDTO>)
    ensures
        ({
            let rows = owned_rows(passwords@, logins@, key.0@, on_website(website_id));
            &&& r@.len() == rows.len()
            &&& forall|k: int| 0 <= k < rows.len() ==> #[trigger] r@[k] == listed(rows[k])
        }),
        forall|k: int|
            0 <= k < r@.len() ==> (#[trigger] r@[k]).website == website_id && exists|i: int|
                #![trigger passwords@[i]]
                0 <= i < passwords@.len() && passwords@[i].website == website_id
                    && passwords@[i].id == r@[k].id && passwords@[i].username == r@[k].username
                    && key_count(logins@, key.0@, passwords@[i].account@) > 0,
        forall|i: int|
            0 <= i < passwords@.len() && (#[trigger] passwords@[i]).website == website_id && key_count(
                logins@,
                key.0@,
                passwords@[i].account@,
            ) > 0 ==> exists|k: int|
                0 <= k < r@.len() && (#[trigger] r@[k]).id == passwords@[i].id && r@[k].username
                    == passwords@[i].username,
{
    let token = key.0.to_owned();
    let ghost keep = on_website(website_id);
    let mut out: Vec<SimplePasswordDTO> = Vec::new();
    let mut i: usize = 0;
    while i < passwords.len()
        invariant
            i <= passwords@.len(),
            token@ == key.0@,
            keep == on_website(website_id),
            ({
                let rows = owned_rows(passwords@.take(i as int), logins@, key.0@, keep);
                &&& out@.len() == rows.len()
                &&& forall|k: int| 0 <= k < rows.len() ==> #[trigger] out@[k] == listed(rows[k])
            }),
        decreases passwords@.len() - i,
    {
        let ghost before = owned_rows(passwords@.take(i as int), logins@, key.0@, keep);
        assert(passwords@.take(i + 1).drop_last() =~= passwords@.take(i as int));
        let p = &passwords[i];
        if p.website == website_id {
            let n = count_grants(logins, &token, &p.account);
            let mut c: usize = 0;
            while c < n
                invariant
                    c <= n,
                    out@.len() == before.len() + c,
                    forall|k: int| 0 <= k < before.len() ==> #[trigger] out@[k] == listed(before[k]),
                    forall|k: int| before.len() <= k < out@.len() ==> #[trigger] out@[k] == listed(*p),
                decreases n - c,
            {
                out.push(SimplePasswordDTO { id: p.id, username: p.username.clone(), website: p.website });
                c = c + 1;
            }
        }
        proof {
            let rows = owned_rows(passwords@.take(i + 1), logins@, key.0@, keep);
            assert forall|k: int| 0 <= k < rows.len() implies #[trigger] out@[k] == listed(rows[k]) by {
                if k >= before.len() {
                    assert(rows[k] == passwords@[i as int]);
                }
            }
        }
        i = i + 1;
    }
    assert(passwords@.take(passwords@.len() as int) =~= passwords@);
    proof {
        lemma_listing_of_website(passwords@, logins@, key.0@, website_id, out@);
    }
    out
}

/// A listing built row by row from the joined rows of a website holds only
/// rows of that website that the token opens, and each of them.
pub proof fn lemma_listing_of_website(
    passwords: Seq<PasswordRow>,
    logins: Seq<LoginRow>,
    key: Seq<char>,
    website_id: i32,
    r: Seq<SimplePasswordDTO>,
)
    requires
        ({
            let rows = owned_rows(passwords, logins, key, on_website(website_id));
            &&& r.len() == rows.len()
            &&& forall|k: int| 0 <= k < rows.len() ==> #[trigger] r[k] == listed(rows[k])
        }),
    ensures
        forall|k: int|
            0 <= k < r.len() ==> (#[trigger] r[k]).website == website_id && exists|i: int|
                #![trigger passwords[i]]
                0 <= i < passwords.len() && passwords[i].website == website_id && passwords[i].id == r[k].id
                    && passwords[i].username == r[k].username && key_count(logins, key, passwords[i].account@) > 0,
        forall|i: int|
            0 <= i < passwords.len() && (#[trigger] passwords[i]).website == website_id && key_count(
                logins,
                key,
                passwords[i].account@,
            ) > 0 ==> exists|k: int|
                0 <= k < r.len() && (#[trigger] r[k]).id == passwords[i].id && r[k].username == passwords[i].username,
{
    let keep = on_website(website_id);
    let rows = owned_rows(passwords, logins, key, keep);
    lemma_owned_rows_sound_and_complete(passwords, logins, key, keep);
    assert forall|k: int| 0 <= k < r.len() implies (#[trigger] r[k]).website == website_id && exists|i: int|
        #![trigger passwords[i]]
        0 <= i < passwords.len() && passwords[i].website == website_id && passwords[i].id == r[k].id
            && passwords[i].username == r[k].username && key_count(logins, key, passwords[i].account@) > 0 by {
        assert(keep(rows[k]));
        assert(passwords.contains(rows[k]));
        let i = choose|i: int| 0 <= i < passwords.len() && passwords[i] == rows[k];
        assert(passwords[i] == rows[k]);
        assert(0 <= i < passwords.len() && passwords[i].website == website_id && passwords[i].id == r[k].id
            && passwords[i].username == r[k].username && key_count(logins, key, passwords[i].account@) > 0);
    }
    assert forall|i: int|
        0 <= i < passwords.len() && (#[trigger] passwords[i]).website == website_id && key_count(
            logins,
            key,
            passwords[i].account@,
        ) > 0 implies exists|k: int|
            0 <= k < r.len() && (#[trigger] r[k]).id == passwords[i].id && r[k].username == passwords[i].username by {
        assert(keep(passwords[i]));
        assert(rows.contains(passwords[i]));
        let k = choose|k: int| 0 <= k < rows.len() && rows[k] == passwords[i];
        assert(r[k] == listed(rows[k]));
    }
}

/// Whether `entries` are `rows` opened under `passphrase`, entry by entry: the
/// same id, user name and website, the secret opened, and a secret sealed
/// under `passphrase` opened to the password that was sealed.
pub open spec fn opened_entries(entries: Seq<PasswordDTO>, rows: Seq<PasswordRow>, passphrase: Seq<char>) -> bool {
    &&& entries.len() == rows.len()
    &&& forall|k: int| 0 <= k < rows.len() ==> {
        &&& (#[trigger] entries[k]).id == rows[k].id
        &&& entries[k].username == rows[k].username
        &&& entries[k].website == rows[k].website
        &&& entries[k].password@ == opened_text(rows[k].password@, passphrase)
    }
    &&& forall|k: int, password: Seq<char>, nonce: Seq<u8>|
        0 <= k < rows.len() && #[trigger] sealed_under(rows[k].password@, passphrase, password, nonce)
            ==> (#[trigger] entries[k]).password@ == password
}

/// The opened entries of one website and id hold only rows of that website
/// and id that the token opens, each opened under the passphrase, and one for
/// each such row.
pub proof fn lemma_entries_of_request(
    passwords: Seq<PasswordRow>,
    logins: Seq<LoginRow>,
    key: Seq<char>,
    website_id: i32,
    passwd_id: i32,
    passphrase: Seq<char>,
    r: Seq<PasswordDTO>,
)
    requires
        opened_entries(r, owned_rows(passwords, logins, key, is_entry(website_id, passwd_id)), passphrase),
    ensures
        forall|k: int|
            0 <= k < r.len() ==> (#[trigger] r[k]).website == website_id && r[k].id == passwd_id && exists|i: int|
                #![trigger passwords[i]]
                0 <= i < passwords.len() && passwords[i].website == website_id && passwords[i].id == passwd_id
                    && passwords[i].username == r[k].username && key_count(logins, key, passwords[i].account@) > 0
                    && r[k].password@ == opened_text(passwords[i].password@, passphrase),
        forall|i: int|
            0 <= i < passwords.len() && (#[trigger] passwords[i]).website == website_id && passwords[i].id == passwd_id
                && key_count(logins, key, passwords[i].account@) > 0 ==> exists|k: int|
                0 <= k < r.len() && (#[trigger] r[k]).username == passwords[i].username && r[k].password@
                    == opened_text(passwords[i].password@, passphrase),
{
    let keep = is_entry(website_id, passwd_id);
    let rows = owned_rows(passwords, logins, key, keep);
    lemma_owned_rows_sound_and_complete(passwords, logins, key, keep);
    assert forall|k: int| 0 <= k < r.len() implies (#[trigger] r[k]).website == website_id && r[k].id == passwd_id
        && exists|i: int|
        #![trigger passwords[i]]
        0 <= i < passwords.len() && passwords[i].website == website_id && passwords[i].id == passwd_id
            && passwords[i].username == r[k].username && key_count(logins, key, passwords[i].account@) > 0
            && r[k].password@ == opened_text(passwords[i].password@, passphrase) by {
        assert(keep(rows[k]));
        assert(passwords.contains(rows[k]));
        let i = choose|i: int| 0 <= i < passwords.len() && passwords[i] == rows[k];
        assert(passwords[i] == rows[k]);
    }
    assert forall|i: int|
        0 <= i < passwords.len() && (#[trigger] passwords[i]).website == website_id && passwords[i].id == passwd_id
            && key_count(logins, key, passwords[i].account@) > 0 implies exists|k: int|
            0 <= k < r.len() && (#[trigger] r[k]).username == passwords[i].username && r[k].password@
                == opened_text(passwords[i].password@, passphrase) by {
        assert(keep(passwords[i]));
        assert(rows.contains(passwords[i]));
        let k = choose|k: int| 0 <= k < rows.len() && rows[k] == passwords[i];
        assert(r[k].username == rows[k].username);
    }
}

/// Opens one stored password (by website and id) that the access token
/// opens, under the passphrase in `info`: one entry for each login row that
/// pairs the token with the row's account. A secret that does not open reads
/// as the empty string; what was sealed under the same passphrase opens to
/// the password that was sealed.
pub fn get_password_with_id(
    website_id: i32,
    passwd_id: i32,
    info: &Info,
    key: &ApiKey,
    passwords: &[PasswordRow],
    logins: &[LoginRow],
) -> (r: Vec<PasswordDTO>)
    ensures
        opened_entries(r@, owned_rows(passwords@, logins@, key.0@, is_entry(website_id, passwd_id)), info.password@),
        forall|k: int|
            0 <= k < r@.len() ==> (#[trigger] r@[k]).website == website_id && r@[k].id == passwd_id && exists|i: int|
                #![trigger passwords@[i]]
                0 <= i < passwords@.len() && passwords@[i].website == website_id && passwords@[i].id == passwd_id
                    && passwords@[i].username == r@[k].username && key_count(logins@, key.0@, passwords@[i].account@) > 0
                    && r@[k].password@ == opened_text(passwords@[i].password@, info.password@),
        forall|i: int|
            0 <= i < passwords@.len() && (#[trigger] passwords@[i]).website == website_id && passwords@[i].id == passwd_id
                && key_count(logins@, key.0@, passwords@[i].account@) > 0 ==> exists|k: int|
                0 <= k < r@.len() && (#[trigger] r@[k]).username == passwords@[i].username && r@[k].password@
                    == opened_text(passwords@[i].password@, info.password@),
{
    let token = key.0.to_owned();
    let ghost keep = is_entry(website_id, passwd_id);
    let mut out: Vec<PasswordDTO> = Vec::new();
    let mut i: usize = 0;
    while i < passwords.len()
        invariant
            i <= passwords@.len(),
            token@ == key.0@,
            keep == is_entry(website_id, passwd_id),
            opened_entries(out@, owned_rows(passwords@.take(i as int), logins@, key.0@, keep), info.password@),
        decreases passwords@.len() - i,
    {
        let ghost before = owned_rows(passwords@.take(i as int), logins@, key.0@, keep);
        assert(passwords@.take(i + 1).drop_last() =~= passwords@.take(i as int));
        let p = &passwords[i];
        if p.website == website_id && p.id == passwd_id {
            let n = count_grants(logins, &token, &p.account);
            let opened = open_password(p.password.as_str(), info.password.as_str());
            let mut c: usize = 0;
            while c < n
                invariant
                    c <= n,
                    out@.len() == before.len() + c,
                    forall|k: int| 0 <= k < before.len() ==> {
                        &&& (#[trigger] out@[k]).id == before[k].id
                        &&& out@[k].username == before[k].username
                        &&& out@[k].website == before[k].website
                        &&& out@[k].password@ == opened_text(before[k].password@, info.password@)
                    },
                    forall|k: int, password: Seq<char>, nonce: Seq<u8>|
                        0 <= k < before.len() && #[trigger] sealed_under(before[k].password@, info.password@, password, nonce)
                            ==> (#[trigger] out@[k]).password@ == password,
                    forall|k: int| before.len() <= k < out@.len() ==> {
                        &&& (#[trigger] out@[k]).id == p.id
                        &&& out@[k].username == p.username
                        &&& out@[k].website == p.website
                        &&& out@[k].password@ == opened@
                    },
                decreases n - c,
            {
                out.push(PasswordDTO {
                    id: p.id,
                    username: p.username.clone(),
                    password: opened.clone(),
                    website: p.website,
                });
                c = c + 1;
            }
        }
        proof {
            let rows = owned_rows(passwords@.take(i + 1), logins@, key.0@, keep);
            assert forall|k: int| before.len() <= k < rows.len() implies #[trigger] rows[k] == passwords@[i as int] by {}
        }
        i = i + 1;
    }
    assert(passwords@.take(passwords@.len() as int) =~= passwords@);
    proof {
        lemma_entries_of_request(passwords@, logins@, key.0@, website_id, passwd_id, info.password@, out@);
    }
    out
}

/// The position of the first login row that holds the token `key`, or -1.
pub open spec fn first_token_index(logins: Seq<LoginRow>, key: Seq<char>) -> int
    decreases logins.len(),
{
    if logins.len() == 0 {
        -1
    } else {
        let k = first_token_index(logins.drop_last(), key);
        if k >= 0 {
            k
        } else if logins.last().token@ == key {
            logins.len() - 1
        } else {
            -1
        }
    }
}

/// The first token position of a prefix that holds the token is the first of
/// the whole table.
proof fn lemma_first_token_index_prefix(logins: Seq<LoginRow>, key: Seq<char>, n: int)
    requires
        0 <= n <= logins.len(),
        first_token_index(logins.take(n), key) >= 0,
    ensures
        first_token_index(logins, key) == first_token_index(logins.take(n), key),
    decreases logins.len() - n,
{
    if n < logins.len() {
        assert(logins.take(n + 1).drop_last() =~= logins.take(n));
        lemma_first_token_index_prefix(logins, key, n + 1);
    } else {
        assert(logins.take(n) =~= logins);
    }
}

/// Whether `t` is the row that storing `passwd` through the token `key`
/// inserts: the account of the first login row holding the token, the
/// request's website and user name, an empty nonce column, and the password
/// sealed under the passphrase with some nonce.
pub open spec fn stored_template(t: PasswdTemplate, passwd: PasswordInput, key: Seq<char>, logins: Seq<LoginRow>) -> bool {
    let k = first_token_index(logins, key);
    &&& 0 <= k < logins.len()
    &&& t.account == logins[k].account
    &&& t.website == passwd.website
    &&& t.username == passwd.username
    &&& t.nonce@ == Seq::<char>::empty()
    &&& exists|nonce: Seq<u8>| #[trigger] sealed_under(t.password@, passwd.passphrase@, passwd.password@, nonce)
}

/// Decides a request to store a new password. A passphrase without sixteen
/// characters in a row on one line is refused (406); a token that no login
/// row holds opens no account (404); a password too long to seal fails (500).
/// Otherwise the row to insert belongs to the account of the first login row
/// holding the token, and carries the password sealed under the passphrase
/// and an empty nonce column (the nonce travels inside the sealed text).
pub fn new_password(passwd: &PasswordInput, key: &ApiKey, logins: &[LoginRow]) -> (r: Result<PasswdTemplate, u16>)
    ensures
        !has_run_without_newline(passwd.passphrase@, 16) ==> r == Err::<PasswdTemplate, u16>(NOT_ACCEPTABLE),
        has_run_without_newline(passwd.passphrase@, 16) && !token_known(logins@, key.0@)
            ==> r == Err::<PasswdTemplate, u16>(NOT_FOUND),
        has_run_without_newline(passwd.passphrase@, 16) && token_known(logins@, key.0@) && !sealable(passwd.password@)
            ==> r == Err::<PasswdTemplate, u16>(INTERNAL_SERVER_ERROR),
        has_run_without_newline(passwd.passphrase@, 16) && token_known(logins@, key.0@) && sealable(passwd.password@)
            ==> r is Ok,
        r matches Ok(t) ==> stored_template(t, *passwd, key.0@, logins@),
{
    if !is_valid_master_passphrase(passwd.passphrase.as_str()) {
        return Err(NOT_ACCEPTABLE);
    }
    let token = key.0.to_owned();
    let mut i: usize = 0;
    let mut found = false;
    while i < logins.len() && !found
        invariant
            i <= logins@.len(),
            token@ == key.0@,
            first_token_index(logins@.take(i as int), key.0@) == -1,
            forall|q: int| 0 <= q < i ==> logins@[q].token@ != key.0@,
            found ==> i < logins@.len() && logins@[i as int].token@ == key.0@,
        decreases logins@.len() - i + (if found { 0int } else { 1int }),
    {
        assert(logins@.take(i + 1).drop_last() =~= logins@.take(i as int));
        if logins[i].token == token {
            found = true;
        } else {
            i = i + 1;
        }
    }
    if !found {
        return Err(NOT_FOUND);
    }
    proof {
        assert(logins@.take(i + 1).drop_last() =~= logins@.take(i as int));
        lemma_first_token_index_prefix(logins@, key.0@, i + 1);
    }
    let sealed = match seal_password(passwd.password.as_str(), passwd.passphrase.as_str()) {
        Some(s) => s,
        None => {
            return Err(INTERNAL_SERVER_ERROR);
        },
    };
    let ghost nonce = choose|nonce: Seq<u8>| #[trigger] sealed_under(sealed@, passwd.passphrase@, passwd.password@, nonce);
    let t = PasswdTemplate {
        website: passwd.website,
        username: passwd.username.clone(),
        password: sealed,
        nonce: String::new(),
        account: logins[i].account.clone(),
    };
    assert(sealed_under(t.password@, passwd.passphrase@, passwd.password@, nonce));
    Ok(t)
}

/// The position of the first row with the largest id, or -1 for no rows.
pub open spec fn newest_index(passwords: Seq<PasswordRow>) -> int
    decreases passwords.len(),
{
    if passwords.len() == 0 {
        -1
    } else {
        let k = newest_index(passwords.drop_last());
        if k < 0 || passwords.last().id > passwords[k].id {
            passwords.len() - 1
        } else {
            k
        }
    }
}

/// The newest row is a row of the table with the largest id, before which
/// every row has a smaller id, and the answer carries its fields unchanged.
pub proof fn lemma_newest_row(passwords: Seq<PasswordRow>)
    ensures
        passwords.len() == 0 <==> newest_index(passwords) == -1,
        passwords.len() > 0 ==> {
            let k = newest_index(passwords);
            let d = as_middle(passwords[k]);
            &&& 0 <= k < passwords.len()
            &&& forall|q: int| 0 <= q < passwords.len() ==> #[trigger] passwords[q].id <= passwords[k].id
            &&& forall|q: int| 0 <= q < k ==> #[trigger] passwords[q].id < passwords[k].id
            &&& d.id == passwords[k].id
            &&& d.username == passwords[k].username
            &&& d.password == passwords[k].password
            &&& d.nonce == passwords[k].nonce
            &&& d.website == passwords[k].website
        },
    decreases passwords.len(),
{
    if passwords.len() > 0 {
        let rest = passwords.drop_last();
        lemma_newest_row(rest);
        let k = newest_index(passwords);
        assert forall|q: int| 0 <= q < passwords.len() implies #[trigger] passwords[q].id <= passwords[k].id by {
            if q < rest.len() {
                assert(rest[q] == passwords[q]);
            }
            if newest_index(rest) >= 0 {
                assert(rest[newest_index(rest)] == passwords[newest_index(rest)]);
            }
        }
        assert forall|q: int| 0 <= q < k implies #[trigger] passwords[q].id < passwords[k].id by {
            assert(rest[q] == passwords[q]);
            if newest_index(rest) >= 0 {
                assert(rest[newest_index(rest)] == passwords[newest_index(rest)]);
            }
        }
    }
}

/// The stored password with the largest id (the first of them, should ids
/// repeat): the row a store just inserted. `None` for an empty table.
pub fn newest_password(passwords: &[PasswordRow]) -> (r: Option<MiddlePasswordDTO>)
    ensures
        r is None <==> passwords@.len() == 0,
        r matches Some(d) ==> {
            let k = newest_index(passwords@);
            &&& 0 <= k < passwords@.len()
            &&& d == as_middle(passwords@[k])
            &&& d.id == passwords@[k].id
            &&& d.username == passwords@[k].username
            &&& d.password == passwords@[k].password
            &&& d.nonce == passwords@[k].nonce
            &&& d.website == passwords@[k].website
            &&& forall|q: int| 0 <= q < passwords@.len() ==> #[trigger] passwords@[q].id <= d.id
            &&& forall|q: int| 0 <= q < k ==> #[trigger] passwords@[q].id < d.id
        },
{
    if passwords.len() == 0 {
        return None;
    }
    let mut best: usize = 0;
    let mut i: usize = 1;
    assert(passwords@.take(1).drop_last() =~= passwords@.take(0));
    assert(newest_index(passwords@.take(0)) == -1);
    while i < passwords.len()
        invariant
            1 <= i <= passwords@.len(),
            best < i,
            best as int == newest_index(passwords@.take(i as int)),
            forall|q: int| 0 <= q < i ==> #[trigger] passwords@[q].id <= passwords@[best as int].id,
            forall|q: int| 0 <= q < best ==> #[trigger] passwords@[q].id < passwords@[best as int].id,
        decreases passwords@.len() - i,
    {
        assert(passwords@.take(i + 1).drop_last() =~= passwords@.take(i as int));
        if passwords[i].id > passwords[best].id {
            best = i;
        }
        i = i + 1;
    }
    assert(passwords@.take(passwords@.len() as int) =~= passwords@);
    let p = &passwords[best];
    Some(MiddlePasswordDTO {
        id: p.id,
        username: p.username.clone(),
        password: p.password.clone(),
        nonce: p.nonce.clone(),
        website: p.website,
    })
}

/// The row a stored template becomes once the table gives it `id`.
pub open spec fn row_of(t: PasswdTemplate, id: i32) -> PasswordRow {
    PasswordRow {
        id,
        username: t.username,
        password: t.password,
        nonce: t.nonce,
        website: t.website,
        account: t.account,
    }
}

/// The login row at a given position pairs its token with its account at
/// least once.
proof fn lemma_login_row_counts(logins: Seq<LoginRow>, k: int)
    requires
        0 <= k < logins.len(),
    ensures
        key_count(logins, logins[k].token@, logins[k].account@) > 0,
    decreases logins.len(),
{
    if k < logins.len() - 1 {
        lemma_login_row_counts(logins.drop_last(), k);
        assert(logins.drop_last()[k] == logins[k]);
    }
}

/// The first token position, when there is one, lies in the table and holds
/// the token.
proof fn lemma_first_token_index_bounds(logins: Seq<LoginRow>, key: Seq<char>)
    ensures
        first_token_index(logins, key) >= 0 ==> {
            let k = first_token_index(logins, key);
            0 <= k < logins.len() && logins[k].token@ == key
        },
    decreases logins.len(),
{
    if logins.len() > 0 {
        lemma_first_token_index_bounds(logins.drop_last(), key);
        let k = first_token_index(logins.drop_last(), key);
        if k >= 0 {
            assert(logins.drop_last()[k] == logins[k]);
        }
    }
}

/// A password stored through a token is, once inserted, listed for its
/// website and found as its entry by that same token.
pub proof fn lemma_stored_password_is_visible(
    passwords: Seq<PasswordRow>,
    logins: Seq<LoginRow>,
    key: Seq<char>,
    template: PasswdTemplate,
    id: i32,
)
    requires
        first_token_index(logins, key) >= 0,
        template.account == logins[first_token_index(logins, key)].account,
    ensures
        owned_rows(passwords.push(row_of(template, id)), logins, key, on_website(template.website)).contains(
            row_of(template, id),
        ),
        owned_rows(passwords.push(row_of(template, id)), logins, key, is_entry(template.website, id)).contains(
            row_of(template, id),
        ),
{
    let row = row_of(template, id);
    let all = passwords.push(row);
    lemma_first_token_index_bounds(logins, key);
    lemma_login_row_counts(logins, first_token_index(logins, key));
    assert(all[all.len() - 1] == row);
    lemma_owned_rows_members(all, logins, key, on_website(template.website), row);
    lemma_owned_rows_members(all, logins, key, is_entry(template.website, id), row);
}

/// After a login is granted and written, its token sees every stored
/// password of the account, and the account's earlier tokens see none.
pub proof fn lemma_login_token_sees_account_passwords(
    passwords: Seq<PasswordRow>,
    logins: Seq<LoginRow>,
    grant: LoginInsertInput,
    keep: spec_fn(PasswordRow) -> bool,
    key: Seq<char>,
    row: PasswordRow,
)
    requires
        passwords.contains(row),
        keep(row),
        row.account@ == grant.account@,
    ensures
        owned_rows(passwords, logins_after_grant(logins, grant), grant.token@, keep).contains(row),
        key != grant.token@ ==> !owned_rows(passwords, logins_after_grant(logins, grant), key, keep).contains(row),
{
    let after = logins_after_grant(logins, grant);
    lemma_login_replaces_account_tokens(logins, grant, grant.token@, row.account@);
    lemma_login_replaces_account_tokens(logins, grant, key, row.account@);
    lemma_owned_rows_members(passwords, after, grant.token@, keep, row);
    lemma_owned_rows_members(passwords, after, key, keep, row);
}

/// With unique tokens, the login row at a given position is the only one
/// that pairs its token with its account.
proof fn lemma_unique_token_counts_once(logins: Seq<LoginRow>, k: int)
    requires
        0 <= k < logins.len(),
        tokens_unique(logins),
    ensures
        key_count(logins, logins[k].token@, logins[k].account@) == 1,
    decreases logins.len(),
{
    let rest = logins.drop_last();
    if k == logins.len() - 1 {
        assert(!token_known(rest, logins[k].token@)) by {
            if token_known(rest, logins[k].token@) {
                let i = choose|i: int| 0 <= i < rest.len() && #[trigger] rest[i].token@ == logins[k].token@;
                assert(logins[i].token@ == logins[k].token@);
            }
        }
        crate::access::lemma_unknown_key_owns_nothing(rest, logins[k].token@, logins[k].account@);
    } else {
        assert(rest[k] == logins[k]);
        lemma_unique_token_counts_once(rest, k);
        assert(logins[logins.len() - 1].token@ != logins[k].token@);
    }
}

/// No row is joined when the selection keeps none.
proof fn lemma_owned_rows_none_kept(
    passwords: Seq<PasswordRow>,
    logins: Seq<LoginRow>,
    key: Seq<char>,
    keep: spec_fn(PasswordRow) -> bool,
)
    requires
        forall|i: int| 0 <= i < passwords.len() ==> !keep(#[trigger] passwords[i]),
    ensures
        owned_rows(passwords, logins, key, keep).len() == 0,
    decreases passwords.len(),
{
    if passwords.len() > 0 {
        assert(!keep(passwords[passwords.len() - 1]));
        let rest = passwords.drop_last();
        assert forall|i: int| 0 <= i < rest.len() implies !keep(#[trigger] rest[i]) by {
            assert(rest[i] == passwords[i]);
        }
        lemma_owned_rows_none_kept(rest, logins, key, keep);
    }
}

/// Storing a password and then opening it reads it back: when
/// `new_password` gave `template` for the token `key`, the row is inserted
/// under an id no row had, login tokens are unique, and nothing else is
/// written, `get_password_with_id` under the same passphrase answers exactly
/// one entry, holding the stored user name, website and password.
pub proof fn lemma_stored_password_reads_back(
    passwords: Seq<PasswordRow>,
    logins: Seq<LoginRow>,
    key: Seq<char>,
    passwd: PasswordInput,
    template: PasswdTemplate,
    id: i32,
    entries: Seq<PasswordDTO>,
)
    requires
        stored_template(template, passwd, key, logins),
        forall|i: int| 0 <= i < passwords.len() ==> #[trigger] passwords[i].id != id,
        tokens_unique(logins),
        opened_entries(
            entries,
            owned_rows(passwords.push(row_of(template, id)), logins, key, is_entry(template.website, id)),
            passwd.passphrase@,
        ),
    ensures
        entries.len() == 1,
        entries[0].id == id,
        entries[0].username == passwd.username,
        entries[0].website == passwd.website,
        entries[0].password@ == passwd.password@,
{
    let row = row_of(template, id);
    let all = passwords.push(row);
    let keep = is_entry(template.website, id);
    let k = first_token_index(logins, key);
    lemma_first_token_index_bounds(logins, key);
    lemma_unique_token_counts_once(logins, k);
    assert forall|i: int| 0 <= i < passwords.len() implies !keep(#[trigger] passwords[i]) by {
        assert(passwords[i].id != id);
    }
    lemma_owned_rows_none_kept(passwords, logins, key, keep);
    assert(all.drop_last() =~= passwords);
    assert(all.last() == row);
    let rows = owned_rows(all, logins, key, keep);
    assert(rows.len() == 1);
    assert(rows[0] == row);
    let nonce = choose|nonce: Seq<u8>| #[trigger] sealed_under(template.password@, passwd.passphrase@, passwd.password@, nonce);
    assert(sealed_under(rows[0].password@, passwd.passphrase@, passwd.password@, nonce));
    assert(entries[0].password@ == passwd.password@);
}

/// Whether two rows agree on everything but the sealed secret and the nonce
/// column.
pub open spec fn same_but_secret(a: PasswordRow, b: PasswordRow) -> bool {
    &&& a.id == b.id
    &&& a.username == b.username
    &&& a.website == b.website
    &&& a.account@ == b.account@
}

/// Listings of two tables that differ only in secrets and nonce columns show
/// the same entries.
proof fn lemma_listing_ignores_secrets(
    passwords1: Seq<PasswordRow>,
    passwords2: Seq<PasswordRow>,
    logins: Seq<LoginRow>,
    key: Seq<char>,
    website: i32,
)
    requires
        passwords1.len() == passwords2.len(),
        forall|i: int| 0 <= i < passwords1.len() ==> same_but_secret(#[trigger] passwords1[i], passwords2[i]),
    ensures
        ({
            let rows1 = owned_rows(passwords1, logins, key, on_website(website));
            let rows2 = owned_rows(passwords2, logins, key, on_website(website));
            &&& rows1.len() == rows2.len()
            &&& forall|k: int| 0 <= k < rows1.len() ==> listed(#[trigger] rows1[k]) == listed(rows2[k])
        }),
    decreases passwords1.len(),
{
    if passwords1.len() > 0 {
        let n = passwords1.len() - 1;
        assert(same_but_secret(passwords1[n], passwords2[n]));
        lemma_listing_ignores_secrets(passwords1.drop_last(), passwords2.drop_last(), logins, key, website);
        let rows1 = owned_rows(passwords1, logins, key, on_website(website));
        let rows2 = owned_rows(passwords2, logins, key, on_website(website));
        let prev1 = owned_rows(passwords1.drop_last(), logins, key, on_website(website));
        let prev2 = owned_rows(passwords2.drop_last(), logins, key, on_website(website));
        assert forall|k: int| 0 <= k < rows1.len() implies listed(#[trigger] rows1[k]) == listed(rows2[k]) by {
            if k < prev1.len() {
                assert(rows1[k] == prev1[k] && rows2[k] == prev2[k]);
            } else {
                assert(rows1[k] == passwords1[n] && rows2[k] == passwords2[n]);
            }
        }
    }
}

/// The website listing depends only on the rows the token opens, and not on
/// their secrets: two tables whose opened rows agree but for secrets and
/// nonce columns list the same entries, whatever other accounts store.
pub proof fn lemma_listing_depends_only_on_opened_entries(
    passwords1: Seq<PasswordRow>,
    passwords2: Seq<PasswordRow>,
    logins: Seq<LoginRow>,
    key: Seq<char>,
    website: i32,
)
    requires
        opened_rows(passwords1, logins, key).len() == opened_rows(passwords2, logins, key).len(),
        forall|i: int|
            0 <= i < opened_rows(passwords1, logins, key).len() ==> same_but_secret(
                #[trigger] opened_rows(passwords1, logins, key)[i],
                opened_rows(passwords2, logins, key)[i],
            ),
    ensures
        ({
            let rows1 = owned_rows(passwords1, logins, key, on_website(website));
            let rows2 = owned_rows(passwords2, logins, key, on_website(website));
            &&& rows1.len() == rows2.len()
            &&& forall|k: int| 0 <= k < rows1.len() ==> listed(#[trigger] rows1[k]) == listed(rows2[k])
        }),
{
    lemma_owned_rows_depend_on_opened(passwords1, logins, key, on_website(website));
    lemma_owned_rows_depend_on_opened(passwords2, logins, key, on_website(website));
    lemma_listing_ignores_secrets(
        opened_rows(passwords1, logins, key),
        opened_rows(passwords2, logins, key),
        logins,
        key,
        website,
    );
}

/// With unique tokens and ids, opening one entry answers at most one entry.
pub proof fn lemma_entry_answer_at_most_one(
    passwords: Seq<PasswordRow>,
    logins: Seq<LoginRow>,
    key: Seq<char>,
    website: i32,
    id: i32,
)
    requires
        tokens_unique(logins),
        ids_unique(passwords),
    ensures
        owned_rows(passwords, logins, key, is_entry(website, id)).len() <= 1,
{
    let rows = owned_rows(passwords, logins, key, is_entry(website, id));
    lemma_owned_rows_distinct(passwords, logins, key, is_entry(website, id));
    if rows.len() > 1 {
        lemma_owned_rows_members(passwords, logins, key, is_entry(website, id), rows[0]);
        lemma_owned_rows_members(passwords, logins, key, is_entry(website, id), rows[1]);
        assert(rows.contains(rows[0]));
        assert(rows.contains(rows[1]));
        assert(rows[0].id != rows[1].id);
    }
}

/// The account a stored template belongs to is opened by the token that
/// stored it.
pub proof fn lemma_stored_template_opens_account(
    template: PasswdTemplate,
    passwd: PasswordInput,
    key: Seq<char>,
    logins: Seq<LoginRow>,
)
    requires
        stored_template(template, passwd, key, logins),
    ensures
        key_count(logins, key, template.account@) > 0,
{
    lemma_first_token_index_bounds(logins, key);
    lemma_login_row_counts(logins, first_token_index(logins, key));
}

} // verus!
