//! Who may see what: a request's access token opens the rows of every
//! account that a row of the `logins` table pairs it with.
use crate::models::{LoginRow, PasswordRow};
use vstd::prelude::*;

verus! {

/// How many rows of `logins` pair the token `key` with `account`.
pub open spec fn key_count(logins: Seq<LoginRow>, key: Seq<char>, account: Seq<char>) -> nat
    decreases logins.len(),
{
    if logins.len() == 0 {
        0
    } else {
        let l = logins.last();
        key_count(logins.drop_last(), key, account) + if l.token@ == key && l.account@ == account {
            1nat
        } else {
            0nat
        }
    }
}

/// Whether some row of `logins` holds the token `key`.
pub open spec fn token_known(logins: Seq<LoginRow>, key: Seq<char>) -> bool {
    exists|i: int| 0 <= i < logins.len() && #[trigger] logins[i].token@ == key
}

/// The rows of `passwords` that `keep` selects, joined with the rows of
/// `logins` that pair `key` with their account: a row appears once for each
/// such login row, in table order.
pub open spec fn owned_rows(
    passwords: Seq<PasswordRow>,
    logins: Seq<LoginRow>,
    key: Seq<char>,
    keep: spec_fn(PasswordRow) -> bool,
) -> Seq<PasswordRow>
    decreases passwords.len(),
{
    if passwords.len() == 0 {
        Seq::empty()
    } else {
        let p = passwords.last();
        owned_rows(passwords.drop_last(), logins, key, keep) + if keep(p) {
            Seq::new(key_count(logins, key, p.account@), |_k: int| p)
        } else {
            Seq::empty()
        }
    }
}

/// Counts the rows of `logins` that pair `key` with `account`.
pub fn count_grants(logins: &[LoginRow], key: &String, account: &String) -> (n: usize)
    ensures
        n == key_count(logins@, key@, account@),
        n == logins@.filter(|l: LoginRow| l.token@ == key@ && l.account@ == account@).len(),
{
    let mut n: usize = 0;
    let mut i: usize = 0;
    while i < logins.len()
        invariant
            i <= logins@.len(),
            n == key_count(logins@.take(i as int), key@, account@),
            n == logins@.take(i as int).filter(|l: LoginRow| l.token@ == key@ && l.account@ == account@).len(),
            n <= i,
        decreases logins@.len() - i,
    {
        assert(logins@.take(i + 1).drop_last() =~= logins@.take(i as int));
        proof {
            reveal(Seq::filter);
        }
        if logins[i].token == *key && logins[i].account == *account {
            n = n + 1;
        }
        i = i + 1;
    }
    assert(logins@.take(logins@.len() as int) =~= logins@);
    n
}

/// A token pairs with an account as often as the login rows holding both.
pub proof fn lemma_key_count_is_filter_len(logins: Seq<LoginRow>, key: Seq<char>, account: Seq<char>)
    ensures
        key_count(logins, key, account) == logins.filter(|l: LoginRow| l.token@ == key && l.account@ == account).len(),
    decreases logins.len(),
{
    reveal(Seq::filter);
    if logins.len() > 0 {
        lemma_key_count_is_filter_len(logins.drop_last(), key, account);
    }
}

/// Whether some row of `logins` holds the token `key`.
pub fn is_known_token(logins: &[LoginRow], key: &String) -> (r: bool)
    ensures
        r == token_known(logins@, key@),
{
    let mut i: usize = 0;
    while i < logins.len()
        invariant
            i <= logins@.len(),
            forall|k: int| 0 <= k < i ==> logins@[k].token@ != key@,
        decreases logins@.len() - i,
    {
        if logins[i].token == *key {
            return true;
        }
        i = i + 1;
    }
    false
}

/// A token that no login row holds pairs with no account.
pub proof fn lemma_unknown_key_owns_nothing(logins: Seq<LoginRow>, key: Seq<char>, account: Seq<char>)
    requires
        !token_known(logins, key),
    ensures
        key_count(logins, key, account) == 0,
    decreases logins.len(),
{
    if logins.len() > 0 {
        assert(!token_known(logins.drop_last(), key)) by {
            if token_known(logins.drop_last(), key) {
                let i = choose|i: int| 0 <= i < logins.drop_last().len() && #[trigger] logins.drop_last()[i].token@ == key;
                assert(logins[i].token@ == key);
            }
        }
        lemma_unknown_key_owns_nothing(logins.drop_last(), key, account);
        assert(logins[logins.len() - 1].token@ != key);
    }
}

/// A token that no login row holds sees no stored password, whatever the
/// selection.
pub proof fn lemma_unknown_key_sees_no_password(
    passwords: Seq<PasswordRow>,
    logins: Seq<LoginRow>,
    key: Seq<char>,
    keep: spec_fn(PasswordRow) -> bool,
)
    requires
        !token_known(logins, key),
    ensures
        owned_rows(passwords, logins, key, keep).len() == 0,
    decreases passwords.len(),
{
    if passwords.len() > 0 {
        lemma_unknown_key_sees_no_password(passwords.drop_last(), logins, key, keep);
        lemma_unknown_key_owns_nothing(logins, key, passwords.last().account@);
    }
}

/// A row appears in the joined rows exactly when the table holds it, the
/// selection keeps it, and the token opens its account.
pub proof fn lemma_owned_rows_members(
    passwords: Seq<PasswordRow>,
    logins: Seq<LoginRow>,
    key: Seq<char>,
    keep: spec_fn(PasswordRow) -> bool,
    row: PasswordRow,
)
    ensures
        owned_rows(passwords, logins, key, keep).contains(row) <==> (passwords.contains(row) && keep(row)
            && key_count(logins, key, row.account@) > 0),
    decreases passwords.len(),
{
    if passwords.len() > 0 {
        let rest = passwords.drop_last();
        let p = passwords.last();
        let prev = owned_rows(rest, logins, key, keep);
        let block = if keep(p) {
            Seq::new(key_count(logins, key, p.account@), |_k: int| p)
        } else {
            Seq::<PasswordRow>::empty()
        };
        let all = owned_rows(passwords, logins, key, keep);
        assert(all == prev + block);
        lemma_owned_rows_members(rest, logins, key, keep, row);
        if all.contains(row) {
            let i = choose|i: int| 0 <= i < all.len() && all[i] == row;
            if i < prev.len() {
                assert(prev[i] == row);
                let j = choose|j: int| 0 <= j < rest.len() && rest[j] == row;
                assert(passwords[j] == row);
            } else {
                assert(block[i - prev.len()] == row);
                assert(passwords[passwords.len() - 1] == row);
            }
        }
        if passwords.contains(row) && keep(row) && key_count(logins, key, row.account@) > 0 {
            let j = choose|j: int| 0 <= j < passwords.len() && passwords[j] == row;
            if j < rest.len() {
                assert(rest[j] == row);
                let i = choose|i: int| 0 <= i < prev.len() && prev[i] == row;
                assert(all[i] == row);
            } else {
                assert(p == row);
                assert(block[0] == row);
                assert(all[prev.len() as int] == row);
            }
        }
    }
}

/// Every joined row is a table row that the selection keeps and whose
/// account the token opens; every such table row is joined.
pub proof fn lemma_owned_rows_sound_and_complete(
    passwords: Seq<PasswordRow>,
    logins: Seq<LoginRow>,
    key: Seq<char>,
    keep: spec_fn(PasswordRow) -> bool,
)
    ensures
        ({
            let rows = owned_rows(passwords, logins, key, keep);
            &&& forall|k: int|
                0 <= k < rows.len() ==> {
                    &&& keep(#[trigger] rows[k])
                    &&& key_count(logins, key, rows[k].account@) > 0
                    &&& passwords.contains(rows[k])
                }
            &&& forall|i: int|
                0 <= i < passwords.len() && keep(#[trigger] passwords[i]) && key_count(logins, key, passwords[i].account@)
                    > 0 ==> rows.contains(passwords[i])
        }),
{
    let rows = owned_rows(passwords, logins, key, keep);
    assert forall|k: int| 0 <= k < rows.len() implies {
        &&& keep(#[trigger] rows[k])
        &&& key_count(logins, key, rows[k].account@) > 0
        &&& passwords.contains(rows[k])
    } by {
        lemma_owned_rows_members(passwords, logins, key, keep, rows[k]);
        assert(rows.contains(rows[k]));
    }
    assert forall|i: int|
        0 <= i < passwords.len() && keep(#[trigger] passwords[i]) && key_count(logins, key, passwords[i].account@)
            > 0 implies rows.contains(passwords[i]) by {
        lemma_owned_rows_members(passwords, logins, key, keep, passwords[i]);
        assert(passwords.contains(passwords[i]));
    }
}

/// Whether no two login rows hold the same token (the table's key).
pub open spec fn tokens_unique(logins: Seq<LoginRow>) -> bool {
    forall|i: int, j: int| 0 <= i < j < logins.len() ==> logins[i].token@ != logins[j].token@
}

/// Whether no two password rows have the same id (the table's key).
pub open spec fn ids_unique(passwords: Seq<PasswordRow>) -> bool {
    forall|i: int, j: int| 0 <= i < j < passwords.len() ==> passwords[i].id != passwords[j].id
}

/// The password rows whose account the token `key` opens, in table order.
pub open spec fn opened_rows(passwords: Seq<PasswordRow>, logins: Seq<LoginRow>, key: Seq<char>) -> Seq<PasswordRow>
    decreases passwords.len(),
{
    if passwords.len() == 0 {
        Seq::empty()
    } else {
        let prev = opened_rows(passwords.drop_last(), logins, key);
        if key_count(logins, key, passwords.last().account@) > 0 {
            prev.push(passwords.last())
        } else {
            prev
        }
    }
}

/// A row is among the opened rows exactly when the table holds it and the
/// token opens its account.
pub proof fn lemma_opened_rows_members(
    passwords: Seq<PasswordRow>,
    logins: Seq<LoginRow>,
    key: Seq<char>,
    row: PasswordRow,
)
    ensures
        opened_rows(passwords, logins, key).contains(row) <==> (passwords.contains(row) && key_count(
            logins,
            key,
            row.account@,
        ) > 0),
    decreases passwords.len(),
{
    if passwords.len() > 0 {
        let rest = passwords.drop_last();
        let prev = opened_rows(rest, logins, key);
        lemma_opened_rows_members(rest, logins, key, row);
        assert(passwords[passwords.len() - 1] == passwords.last());
        if passwords.contains(row) {
            let j = choose|j: int| 0 <= j < passwords.len() && passwords[j] == row;
            if j < rest.len() {
                assert(rest[j] == row);
            }
        }
        if rest.contains(row) {
            let j = choose|j: int| 0 <= j < rest.len() && rest[j] == row;
            assert(passwords[j] == row);
        }
        if key_count(logins, key, passwords.last().account@) > 0 {
            let all = prev.push(passwords.last());
            assert(all[prev.len() as int] == passwords.last());
            if prev.contains(row) {
                let j = choose|j: int| 0 <= j < prev.len() && prev[j] == row;
                assert(all[j] == row);
            }
            if all.contains(row) {
                let j = choose|j: int| 0 <= j < all.len() && all[j] == row;
                if j < prev.len() {
                    assert(prev[j] == row);
                }
            }
        }
    }
}

/// The joined rows depend only on the rows the token opens: the rows of
/// accounts the token does not open change nothing.
pub proof fn lemma_owned_rows_depend_on_opened(
    passwords: Seq<PasswordRow>,
    logins: Seq<LoginRow>,
    key: Seq<char>,
    keep: spec_fn(PasswordRow) -> bool,
)
    ensures
        owned_rows(passwords, logins, key, keep) == owned_rows(opened_rows(passwords, logins, key), logins, key, keep),
    decreases passwords.len(),
{
    if passwords.len() > 0 {
        let rest = passwords.drop_last();
        let p = passwords.last();
        lemma_owned_rows_depend_on_opened(rest, logins, key, keep);
        let op = opened_rows(passwords, logins, key);
        let prev = opened_rows(rest, logins, key);
        if key_count(logins, key, p.account@) > 0 {
            assert(op.drop_last() =~= prev);
            assert(op.last() == p);
        } else {
            let block = if keep(p) {
                Seq::new(key_count(logins, key, p.account@), |_k: int| p)
            } else {
                Seq::<PasswordRow>::empty()
            };
            assert(block =~= Seq::<PasswordRow>::empty());
            assert(owned_rows(passwords, logins, key, keep) =~= owned_rows(rest, logins, key, keep));
        }
    }
}

/// Two password tables whose rows opened by the token are the same give the
/// same joined rows: other accounts' rows neither change nor leak into the
/// answers of `get_passwords_with_website` and `get_password_with_id`.
pub proof fn lemma_other_accounts_do_not_interfere(
    passwords1: Seq<PasswordRow>,
    passwords2: Seq<PasswordRow>,
    logins: Seq<LoginRow>,
    key: Seq<char>,
    keep: spec_fn(PasswordRow) -> bool,
)
    requires
        opened_rows(passwords1, logins, key) == opened_rows(passwords2, logins, key),
    ensures
        owned_rows(passwords1, logins, key, keep) == owned_rows(passwords2, logins, key, keep),
{
    lemma_owned_rows_depend_on_opened(passwords1, logins, key, keep);
    lemma_owned_rows_depend_on_opened(passwords2, logins, key, keep);
}

/// With unique tokens, a token pairs with an account at most once.
pub proof fn lemma_unique_tokens_count_at_most_once(logins: Seq<LoginRow>, key: Seq<char>, account: Seq<char>)
    requires
        tokens_unique(logins),
    ensures
        key_count(logins, key, account) <= 1,
    decreases logins.len(),
{
    if logins.len() > 0 {
        let rest = logins.drop_last();
        assert(tokens_unique(rest)) by {
            assert forall|i: int, j: int| 0 <= i < j < rest.len() implies rest[i].token@ != rest[j].token@ by {
                assert(rest[i] == logins[i] && rest[j] == logins[j]);
            }
        }
        lemma_unique_tokens_count_at_most_once(rest, key, account);
        if logins.last().token@ == key {
            assert(!token_known(rest, key)) by {
                if token_known(rest, key) {
                    let i = choose|i: int| 0 <= i < rest.len() && #[trigger] rest[i].token@ == key;
                    assert(logins[i].token@ == key);
                    assert(logins[logins.len() - 1].token@ == key);
                }
            }
            lemma_unknown_key_owns_nothing(rest, key, account);
        }
    }
}

/// With unique tokens and unique ids, the joined rows have distinct ids:
/// each stored password is listed at most once.
pub proof fn lemma_owned_rows_distinct(
    passwords: Seq<PasswordRow>,
    logins: Seq<LoginRow>,
    key: Seq<char>,
    keep: spec_fn(PasswordRow) -> bool,
)
    requires
        tokens_unique(logins),
        ids_unique(passwords),
    ensures
        ({
            let rows = owned_rows(passwords, logins, key, keep);
            forall|i: int, j: int| 0 <= i < j < rows.len() ==> (#[trigger] rows[i]).id != (#[trigger] rows[j]).id
        }),
    decreases passwords.len(),
{
    if passwords.len() > 0 {
        let rest = passwords.drop_last();
        let p = passwords.last();
        assert(ids_unique(rest)) by {
            assert forall|i: int, j: int| 0 <= i < j < rest.len() implies rest[i].id != rest[j].id by {
                assert(rest[i] == passwords[i] && rest[j] == passwords[j]);
            }
        }
        lemma_owned_rows_distinct(rest, logins, key, keep);
        lemma_unique_tokens_count_at_most_once(logins, key, p.account@);
        let prev = owned_rows(rest, logins, key, keep);
        let rows = owned_rows(passwords, logins, key, keep);
        assert forall|i: int, j: int| 0 <= i < j < rows.len() implies (#[trigger] rows[i]).id != (#[trigger] rows[j]).id by {
            if j >= prev.len() {
                assert(j == prev.len());
                assert(rows[j] == p);
                assert(rows[i] == prev[i]);
                lemma_owned_rows_members(rest, logins, key, keep, prev[i]);
                assert(prev.contains(prev[i]));
                let m = choose|m: int| 0 <= m < rest.len() && rest[m] == prev[i];
                assert(passwords[m] == rest[m]);
                assert(passwords[passwords.len() - 1] == p);
            } else {
                assert(rows[i] == prev[i] && rows[j] == prev[j]);
            }
        }
    }
}

} // verus!
