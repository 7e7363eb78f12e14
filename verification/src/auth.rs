//! Access tokens: checking the token a request presents, and issuing a fresh
//! one when credentials match an account.
//!
//! Tokens, user names and password hashes are compared exactly, character
//! for character (no case folding or trailing-space rule of a database
//! collation).
use crate::access::{is_known_token, key_count, token_known, tokens_unique};
use crate::crypto::{is_lower_hex_char, sha256_hex, sha256_hex_digest};
use crate::models::{AccountDTO, AccountRow, LoginInput, LoginInsertInput, LoginRow, TokenDTO};
use vstd::prelude::*;
use vstd::utf8::encode_utf8;

verus! {

/// HTTP status of a request that presents no access token.
pub const UNAUTHORIZED: u16 = 401;

/// HTTP status of a request whose access token no login row holds.
pub const FORBIDDEN: u16 = 403;

/// The access token a request presents, once it is known to be valid.
pub struct ApiKey<'r>(pub &'r str);

/// Why a request's access token was refused.
#[derive(Debug, PartialEq, Eq, Structural)]
pub enum ApiKeyError {
    Missing,
    Invalid,
}

impl<'r> ApiKey<'r> {
    /// Checks the `x-api-key` header of a request against the `logins` table:
    /// no header is answered 401 (`Missing`), a token that no login row holds
    /// is answered 403 (`Invalid`), and any other token is accepted.
    pub fn from_request(header: Option<&'r str>, logins: &[LoginRow]) -> (r: Result<ApiKey<'r>, (u16, ApiKeyError)>)
        ensures
            header is None ==> r == Err::<ApiKey<'r>, (u16, ApiKeyError)>((UNAUTHORIZED, ApiKeyError::Missing)),
            header matches Some(k) ==> (token_known(logins@, k@) ==> r == Ok::<ApiKey<'r>, (u16, ApiKeyError)>(ApiKey(k))),
            header matches Some(k) ==> (!token_known(logins@, k@) ==> r == Err::<ApiKey<'r>, (u16, ApiKeyError)>((FORBIDDEN, ApiKeyError::Invalid))),
    {
        match header {
            None => Err((UNAUTHORIZED, ApiKeyError::Missing)),
            Some(key) => {
                let owned = key.to_owned();
                if is_known_token(logins, &owned) {
                    Ok(ApiKey(key))
                } else {
                    Err((FORBIDDEN, ApiKeyError::Invalid))
                }
            },
        }
    }
}

/// What a login request decides; `logins_after_login` says what it writes.
pub enum LoginDecision {
    /// No account has these credentials: the answer is the empty token and
    /// nothing is written.
    Refused,
    /// The account's login rows are all deleted and this one is inserted; its
    /// token is the answer.
    Granted(LoginInsertInput),
}

impl LoginDecision {
    /// The answer the request gives.
    pub fn response(&self) -> (r: TokenDTO)
        ensures
            self is Refused ==> r.token@ == Seq::<char>::empty(),
            self matches LoginDecision::Granted(g) ==> r.token == g.token,
    {
        match self {
            LoginDecision::Refused => TokenDTO { token: String::new() },
            LoginDecision::Granted(g) => TokenDTO { token: g.token.clone() },
        }
    }
}

/// The stored form of a login password: the lower-case hexadecimal SHA-256
/// digest of its UTF-8 bytes.
pub open spec fn password_hash(password: Seq<char>) -> Seq<char> {
    sha256_hex_digest(encode_utf8(password))
}

/// Whether an account's stored password hash is `hash`.
pub open spec fn has_hash(a: AccountRow, hash: Seq<char>) -> bool {
    a.password matches Some(p) && p@ == hash
}

/// Whether an account has the user name `username` and the password hash `hash`.
pub open spec fn has_credentials(a: AccountRow, username: Seq<char>, hash: Seq<char>) -> bool {
    &&& has_hash(a, hash)
    &&& a.username matches Some(u) && u@ == username
}

/// Whether some account has the user name `username` and the password hash `hash`.
pub open spec fn credentials_match(accounts: Seq<AccountRow>, username: Seq<char>, hash: Seq<char>) -> bool {
    exists|i: int| 0 <= i < accounts.len() && #[trigger] has_credentials(accounts[i], username, hash)
}

/// The position of the first account whose password hash is `hash`, or -1.
pub open spec fn first_hash_index(accounts: Seq<AccountRow>, hash: Seq<char>) -> int
    decreases accounts.len(),
{
    if accounts.len() == 0 {
        -1
    } else {
        let k = first_hash_index(accounts.drop_last(), hash);
        if k >= 0 {
            k
        } else if has_hash(accounts.last(), hash) {
            accounts.len() - 1
        } else {
            -1
        }
    }
}

/// The login rows left after deleting those of `account`.
pub open spec fn without_account(logins: Seq<LoginRow>, account: Seq<char>) -> Seq<LoginRow>
    decreases logins.len(),
{
    if logins.len() == 0 {
        Seq::empty()
    } else {
        let rest = without_account(logins.drop_last(), account);
        if logins.last().account@ == account {
            rest
        } else {
            rest.push(logins.last())
        }
    }
}

/// Deleting an account's login rows keeps every other row, in order.
pub proof fn lemma_without_account_is_filter(logins: Seq<LoginRow>, account: Seq<char>)
    ensures
        without_account(logins, account) == logins.filter(|l: LoginRow| l.account@ != account),
    decreases logins.len(),
{
    reveal(Seq::filter);
    if logins.len() > 0 {
        lemma_without_account_is_filter(logins.drop_last(), account);
    }
}

/// The `logins` table after a granted login has been written.
pub open spec fn logins_after_grant(logins: Seq<LoginRow>, grant: LoginInsertInput) -> Seq<LoginRow> {
    without_account(logins, grant.account@).push(LoginRow { token: grant.token, account: grant.account })
}

/// The `logins` table after a login decision is written: unchanged when the
/// login is refused, `logins_after_grant` when it is granted.
pub open spec fn logins_after_login(logins: Seq<LoginRow>, decision: LoginDecision) -> Seq<LoginRow> {
    match decision {
        LoginDecision::Refused => logins,
        LoginDecision::Granted(g) => logins_after_grant(logins, g),
    }
}

/// Whether position `i` of a hyphenated UUID holds a hyphen.
pub open spec fn uuid_hyphen_at(i: int) -> bool {
    i == 8 || i == 13 || i == 18 || i == 23
}

/// `uuid::Uuid::new_v4()` written with `to_string`: a random version-4 UUID in
/// its hyphenated lower-case form. Claimed: 36 characters, hyphens at
/// positions 8, 13, 18 and 23, lower-case hexadecimal digits elsewhere, the
/// version digit `4` at position 14 and a variant digit of `8`, `9`, `a` or
/// `b` at position 19; nothing about the random digits.
#[verifier::external_body]
fn new_access_token() -> (r: String)
    ensures
        r@.len() == 36,
        forall|i: int| 0 <= i < 36 && uuid_hyphen_at(i) ==> #[trigger] r@[i] == '-',
        forall|i: int| 0 <= i < 36 && !uuid_hyphen_at(i) ==> is_lower_hex_char(#[trigger] r@[i]),
        r@[14] == '4',
        r@[19] == '8' || r@[19] == '9' || r@[19] == 'a' || r@[19] == 'b',
{
    uuid::Uuid::new_v4().to_string()
}

/// Finds the account a login with `username` and password hash `hash` opens:
/// `None` when no account has both; else the first account whose hash is
/// `hash` (the user name plays no part in that choice), read as its id and,
/// in `username`, its stored hash.
pub fn login_account(accounts: &[AccountRow], username: &String, hash: &String) -> (r: Option<AccountDTO>)
    ensures
        r is None <==> !credentials_match(accounts@, username@, hash@),
        r matches Some(a) ==> {
            let k = first_hash_index(accounts@, hash@);
            &&& 0 <= k < accounts@.len()
            &&& a.id == accounts@[k].id
            &&& a.username == accounts@[k].password
            &&& accounts@[k].password matches Some(p) && p@ == hash@
            &&& forall|q: int| 0 <= q < k ==> !((#[trigger] accounts@[q]).password matches Some(p) && p@ == hash@)
        },
{
    let mut found = false;
    let mut i: usize = 0;
    while i < accounts.len()
        invariant
            i <= accounts@.len(),
            found == exists|k: int| 0 <= k < i && #[trigger] has_credentials(accounts@[k], username@, hash@),
        decreases accounts@.len() - i,
    {
        let a = &accounts[i];
        let matches = match (&a.password, &a.username) {
            (Some(p), Some(u)) => *p == *hash && *u == *username,
            _ => false,
        };
        assert(matches == has_credentials(accounts@[i as int], username@, hash@));
        found = found || matches;
        i = i + 1;
    }
    if !found {
        return None;
    }
    let mut j: usize = 0;
    while j < accounts.len()
        invariant
            j <= accounts@.len(),
            credentials_match(accounts@, username@, hash@),
            first_hash_index(accounts@.take(j as int), hash@) == -1,
        decreases accounts@.len() - j,
    {
        assert(accounts@.take(j + 1).drop_last() =~= accounts@.take(j as int));
        let a = &accounts[j];
        let hit = match &a.password {
            Some(p) => *p == *hash,
            None => false,
        };
        if hit {
            proof {
                lemma_first_hash_index_prefix(accounts@, hash@, j + 1);
                lemma_first_hash_is_first(accounts@, hash@);
            }
            let stored = match &a.password {
                Some(p) => Some(p.clone()),
                None => None,
            };
            return Some(AccountDTO { id: a.id.clone(), username: stored });
        }
        j = j + 1;
    }
    proof {
        assert(accounts@.take(accounts@.len() as int) =~= accounts@);
        let k = choose|k: int| 0 <= k < accounts@.len() && #[trigger] has_credentials(accounts@[k], username@, hash@);
        lemma_first_hash_index_finds(accounts@, hash@, k);
    }
    None
}

/// The first hash position of a prefix that holds a match is the first of
/// the whole table.
proof fn lemma_first_hash_index_prefix(accounts: Seq<AccountRow>, hash: Seq<char>, n: int)
    requires
        0 <= n <= accounts.len(),
        first_hash_index(accounts.take(n), hash) >= 0,
    ensures
        first_hash_index(accounts, hash) == first_hash_index(accounts.take(n), hash),
    decreases accounts.len() - n,
{
    if n < accounts.len() {
        assert(accounts.take(n + 1).drop_last() =~= accounts.take(n));
        lemma_first_hash_index_prefix(accounts, hash, n + 1);
    } else {
        assert(accounts.take(n) =~= accounts);
    }
}

/// A table with an account of hash `hash` has a first such account.
proof fn lemma_first_hash_index_finds(accounts: Seq<AccountRow>, hash: Seq<char>, k: int)
    requires
        0 <= k < accounts.len(),
        has_hash(accounts[k], hash),
    ensures
        0 <= first_hash_index(accounts, hash) <= k,
        has_hash(accounts[first_hash_index(accounts, hash)], hash),
    decreases accounts.len(),
{
    if k < accounts.len() - 1 {
        lemma_first_hash_index_finds(accounts.drop_last(), hash, k);
    } else if first_hash_index(accounts.drop_last(), hash) >= 0 {
        let f = first_hash_index(accounts.drop_last(), hash);
        lemma_first_hash_index_bounds(accounts.drop_last(), hash);
        assert(accounts.drop_last()[f] == accounts[f]);
    }
}

/// A first hash position, when there is one, lies in the table and has the hash.
proof fn lemma_first_hash_index_bounds(accounts: Seq<AccountRow>, hash: Seq<char>)
    ensures
        first_hash_index(accounts, hash) >= 0 ==> {
            let f = first_hash_index(accounts, hash);
            0 <= f < accounts.len() && has_hash(accounts[f], hash)
        },
        first_hash_index(accounts, hash) >= -1,
    decreases accounts.len(),
{
    if accounts.len() > 0 {
        lemma_first_hash_index_bounds(accounts.drop_last(), hash);
        let f = first_hash_index(accounts.drop_last(), hash);
        if f >= 0 {
            assert(accounts.drop_last()[f] == accounts[f]);
        }
    }
}

/// The first hash position is the first account holding the hash: no
/// earlier account holds it, and there is none exactly when no account does.
pub proof fn lemma_first_hash_is_first(accounts: Seq<AccountRow>, hash: Seq<char>)
    ensures
        first_hash_index(accounts, hash) == -1 <==> forall|q: int|
            0 <= q < accounts.len() ==> !((#[trigger] accounts[q]).password matches Some(p) && p@ == hash),
        first_hash_index(accounts, hash) != -1 ==> {
            let k = first_hash_index(accounts, hash);
            &&& 0 <= k < accounts.len()
            &&& accounts[k].password matches Some(p) && p@ == hash
            &&& forall|q: int| 0 <= q < k ==> !((#[trigger] accounts[q]).password matches Some(p) && p@ == hash)
        },
    decreases accounts.len(),
{
    lemma_first_hash_index_bounds(accounts, hash);
    if accounts.len() > 0 {
        let rest = accounts.drop_last();
        lemma_first_hash_is_first(rest, hash);
        lemma_first_hash_index_bounds(rest, hash);
        assert forall|q: int| 0 <= q < rest.len() implies #[trigger] rest[q] == accounts[q] by {}
        assert(accounts[accounts.len() - 1] == accounts.last());
        if first_hash_index(accounts, hash) == -1 {
            assert forall|q: int| 0 <= q < accounts.len() implies !((#[trigger] accounts[q]).password matches Some(p)
                && p@ == hash) by {
                if q < rest.len() {
                    assert(rest[q] == accounts[q]);
                }
            }
        }
        if forall|q: int| 0 <= q < accounts.len() ==> !((#[trigger] accounts[q]).password matches Some(p) && p@ == hash) {
            assert forall|q: int| 0 <= q < rest.len() implies !((#[trigger] rest[q]).password matches Some(p) && p@ == hash) by {
                assert(rest[q] == accounts[q]);
            }
            assert(!has_hash(accounts.last(), hash));
        }
        if first_hash_index(accounts, hash) != -1 {
            let k = first_hash_index(accounts, hash);
            assert forall|q: int| 0 <= q < k implies !((#[trigger] accounts[q]).password matches Some(p) && p@ == hash) by {
                assert(rest[q] == accounts[q]);
            }
        }
    }
}

/// Decides a login request against the `accounts` table. When no account has
/// the user name and the SHA-256 hash of the password, the login is refused.
/// Otherwise the first account whose stored hash is that hash gets a fresh
/// random token.
pub fn get_login(password: &LoginInput, accounts: &[AccountRow]) -> (r: LoginDecision)
    ensures
        r is Refused <==> !credentials_match(accounts@, password.username@, password_hash(password.password@)),
        r matches LoginDecision::Granted(g) ==> {
            let k = first_hash_index(accounts@, password_hash(password.password@));
            &&& 0 <= k < accounts@.len()
            &&& has_hash(accounts@[k], password_hash(password.password@))
            &&& accounts@[k].password matches Some(p) && p@ == password_hash(password.password@)
            &&& forall|q: int|
                0 <= q < k ==> !((#[trigger] accounts@[q]).password matches Some(p) && p@ == password_hash(
                    password.password@,
                ))
            &&& exists|q: int|
                0 <= q < accounts@.len() && ((#[trigger] accounts@[q]).username matches Some(u) && u@
                    == password.username@) && (accounts@[q].password matches Some(p) && p@ == password_hash(
                    password.password@,
                ))
            &&& g.account == accounts@[k].id
            &&& g.token@.len() == 36
            &&& forall|i: int| 0 <= i < 36 && uuid_hyphen_at(i) ==> #[trigger] g.token@[i] == '-'
            &&& forall|i: int| 0 <= i < 36 && !uuid_hyphen_at(i) ==> is_lower_hex_char(#[trigger] g.token@[i])
        },
{
    let hash = sha256_hex(password.password.as_str().as_bytes());
    match login_account(accounts, &password.username, &hash) {
        None => LoginDecision::Refused,
        Some(account) => {
            proof {
                lemma_first_hash_index_bounds(accounts@, hash@);
                lemma_first_hash_is_first(accounts@, hash@);
                let q = choose|q: int| 0 <= q < accounts@.len() && #[trigger] has_credentials(accounts@[q], password.username@, hash@);
                assert(has_credentials(accounts@[q], password.username@, hash@));
            }
            let token = new_access_token();
            LoginDecision::Granted(LoginInsertInput { token, account: account.id })
        },
    }
}

/// After a granted login is written, its token is accepted.
pub proof fn lemma_granted_token_is_accepted(logins: Seq<LoginRow>, grant: LoginInsertInput)
    ensures
        token_known(logins_after_grant(logins, grant), grant.token@),
{
    let after = logins_after_grant(logins, grant);
    assert(after[after.len() - 1].token@ == grant.token@);
}

/// Deleting an account's login rows leaves every other row's count alone and
/// leaves the account with none.
proof fn lemma_without_account_counts(logins: Seq<LoginRow>, account: Seq<char>, key: Seq<char>, other: Seq<char>)
    ensures
        key_count(without_account(logins, account), key, other) == if other == account {
            0
        } else {
            key_count(logins, key, other)
        },
    decreases logins.len(),
{
    if logins.len() > 0 {
        lemma_without_account_counts(logins.drop_last(), account, key, other);
        let rest = without_account(logins.drop_last(), account);
        if logins.last().account@ != account {
            assert(rest.push(logins.last()).drop_last() =~= rest);
        }
    }
}

/// After a granted login is written, the account's only token is the new
/// one: every earlier token of the account stops opening it, the new token
/// opens it once, and what other tokens open is unchanged.
pub proof fn lemma_login_replaces_account_tokens(
    logins: Seq<LoginRow>,
    grant: LoginInsertInput,
    key: Seq<char>,
    account: Seq<char>,
)
    ensures
        account == grant.account@ ==> key_count(logins_after_grant(logins, grant), key, account) == if key == grant.token@ {
            1nat
        } else {
            0nat
        },
        account != grant.account@ ==> key_count(logins_after_grant(logins, grant), key, account) == key_count(logins, key, account),
{
    let rest = without_account(logins, grant.account@);
    lemma_without_account_counts(logins, grant.account@, key, account);
    assert(logins_after_grant(logins, grant).drop_last() =~= rest);
}

/// A fresh token (one no login row held) opens, after the login is written,
/// exactly the granted account.
pub proof fn lemma_fresh_token_opens_only_its_account(
    logins: Seq<LoginRow>,
    grant: LoginInsertInput,
    account: Seq<char>,
)
    requires
        !token_known(logins, grant.token@),
    ensures
        key_count(logins_after_grant(logins, grant), grant.token@, account) == if account == grant.account@ {
            1nat
        } else {
            0nat
        },
{
    lemma_login_replaces_account_tokens(logins, grant, grant.token@, account);
    crate::access::lemma_unknown_key_owns_nothing(logins, grant.token@, account);
}

/// A login opens the account whose credentials it presents, when no other
/// account shares that password hash.
pub proof fn lemma_login_opens_credentials_account(
    accounts: Seq<AccountRow>,
    username: Seq<char>,
    hash: Seq<char>,
    i: int,
)
    requires
        0 <= i < accounts.len(),
        has_credentials(accounts[i], username, hash),
        forall|j: int| 0 <= j < accounts.len() && j != i ==> !has_hash(#[trigger] accounts[j], hash),
    ensures
        first_hash_index(accounts, hash) == i,
{
    lemma_first_hash_index_finds(accounts, hash, i);
    lemma_first_hash_index_bounds(accounts, hash);
}

/// Every row left after deleting an account's login rows was in the table
/// and belongs to another account.
proof fn lemma_without_account_members(logins: Seq<LoginRow>, account: Seq<char>)
    ensures
        forall|k: int|
            0 <= k < without_account(logins, account).len() ==> logins.contains(
                #[trigger] without_account(logins, account)[k],
            ) && without_account(logins, account)[k].account@ != account,
    decreases logins.len(),
{
    if logins.len() > 0 {
        let rest = without_account(logins.drop_last(), account);
        lemma_without_account_members(logins.drop_last(), account);
        assert forall|k: int| 0 <= k < rest.len() implies logins.contains(#[trigger] rest[k]) by {
            let j = choose|j: int| 0 <= j < logins.drop_last().len() && logins.drop_last()[j] == rest[k];
            assert(logins[j] == rest[k]);
        }
        assert(logins[logins.len() - 1] == logins.last());
        if logins.last().account@ != account {
            let all = rest.push(logins.last());
            assert forall|k: int| 0 <= k < all.len() implies logins.contains(#[trigger] all[k]) && all[k].account@ != account by {
                if k < rest.len() {
                    assert(all[k] == rest[k]);
                }
            }
        }
    }
}

/// A second login with the same credentials revokes the token of the first:
/// afterwards the first token is held by no login row (so `from_request`
/// refuses it with 403) and the second one is. The table's key holds after
/// the first login (no two rows share a token), and the second token differs
/// from the first.
pub proof fn lemma_second_login_revokes_first(
    accounts: Seq<AccountRow>,
    hash: Seq<char>,
    logins: Seq<LoginRow>,
    first: LoginInsertInput,
    second: LoginInsertInput,
)
    requires
        0 <= first_hash_index(accounts, hash) < accounts.len(),
        first.account == accounts[first_hash_index(accounts, hash)].id,
        second.account == accounts[first_hash_index(accounts, hash)].id,
        tokens_unique(logins_after_grant(logins, first)),
        second.token@ != first.token@,
    ensures
        ({
            let after = logins_after_login(
                logins_after_login(logins, LoginDecision::Granted(first)),
                LoginDecision::Granted(second),
            );
            &&& !token_known(after, first.token@)
            &&& token_known(after, second.token@)
        }),
{
    let once = logins_after_grant(logins, first);
    let twice = logins_after_grant(once, second);
    let kept_once = without_account(logins, first.account@);
    let kept_twice = without_account(once, second.account@);
    lemma_without_account_members(logins, first.account@);
    lemma_without_account_members(once, second.account@);
    lemma_granted_token_is_accepted(once, second);
    if token_known(twice, first.token@) {
        let i = choose|i: int| 0 <= i < twice.len() && #[trigger] twice[i].token@ == first.token@;
        assert(i < kept_twice.len());
        assert(twice[i] == kept_twice[i]);
        let j = choose|j: int| 0 <= j < once.len() && once[j] == kept_twice[i];
        if j < kept_once.len() {
            assert(once[once.len() - 1].token@ == first.token@);
        } else {
            assert(once[j].account == first.account);
        }
    }
}

/// How many login rows belong to `account`.
pub open spec fn account_login_count(logins: Seq<LoginRow>, account: Seq<char>) -> nat
    decreases logins.len(),
{
    if logins.len() == 0 {
        0
    } else {
        account_login_count(logins.drop_last(), account) + if logins.last().account@ == account {
            1nat
        } else {
            0nat
        }
    }
}

/// Whether every account has at most one login row (one live token).
pub open spec fn one_token_per_account(logins: Seq<LoginRow>) -> bool {
    forall|account: Seq<char>| #[trigger] account_login_count(logins, account) <= 1
}

/// Deleting an account's login rows leaves it none and the others theirs.
proof fn lemma_without_account_login_count(logins: Seq<LoginRow>, account: Seq<char>, other: Seq<char>)
    ensures
        account_login_count(without_account(logins, account), other) == if other == account {
            0
        } else {
            account_login_count(logins, other)
        },
    decreases logins.len(),
{
    if logins.len() > 0 {
        lemma_without_account_login_count(logins.drop_last(), account, other);
        let rest = without_account(logins.drop_last(), account);
        if logins.last().account@ != account {
            assert(rest.push(logins.last()).drop_last() =~= rest);
        }
    }
}

/// After a granted login is written, its account has exactly one login row,
/// and every account keeps at most one live token when it did before.
pub proof fn lemma_login_keeps_one_token_per_account(logins: Seq<LoginRow>, grant: LoginInsertInput)
    ensures
        account_login_count(logins_after_grant(logins, grant), grant.account@) == 1,
        one_token_per_account(logins) ==> one_token_per_account(logins_after_grant(logins, grant)),
{
    let rest = without_account(logins, grant.account@);
    let after = logins_after_grant(logins, grant);
    assert(after.drop_last() =~= rest);
    lemma_without_account_login_count(logins, grant.account@, grant.account@);
    assert forall|account: Seq<char>| one_token_per_account(logins) implies #[trigger] account_login_count(after, account) <= 1 by {
        lemma_without_account_login_count(logins, grant.account@, account);
        assert(account_login_count(logins, account) <= 1);
    }
}

} // verus!
