//! Websites: listing those an access token has passwords for, searching
//! them by name, and registering new ones.
use crate::access::{
    count_grants, key_count, lemma_opened_rows_members, lemma_unknown_key_owns_nothing, opened_rows, token_known,
};
use crate::passwords::{lemma_stored_template_opens_account, row_of, stored_template};
use crate::auth::ApiKey;
use crate::like::{
    contains_pattern, escape_free, lemma_containing_text_matches, lemma_plain_query_matches_iff_contained, like_matches,
    occurs_at, sql_like, wildcard_free,
};
use crate::models::{LoginRow, PasswdTemplate, PasswordInput, PasswordRow, WebsiteDTO, WebsiteInput};
use crate::passwords::{NOT_ACCEPTABLE, NOT_FOUND};
use crate::patterns::{has_dotted_quad, ip_address_pattern, looks_like_ip_address, regex_match_result};
use vstd::prelude::*;
use vstd::string::StringExecFns;
use vstd::utf8::{encode_utf8, is_ascii_chars};

verus! {

/// Whether some stored password of website `w` belongs to an account that
/// the token `key` opens.
pub open spec fn website_reachable(w: WebsiteDTO, passwords: Seq<PasswordRow>, logins: Seq<LoginRow>, key: Seq<char>) -> bool {
    exists|i: int|
        0 <= i < passwords.len() && #[trigger] passwords[i].website == w.id && key_count(logins, key, passwords[i].account@) > 0
}

/// Whether two website rows hold the same values.
pub open spec fn same_website(a: WebsiteDTO, b: WebsiteDTO) -> bool {
    a.id == b.id && a.name@ == b.name@
}

/// Whether `list` holds a row with the values of `w`.
pub open spec fn lists_website(list: Seq<WebsiteDTO>, w: WebsiteDTO) -> bool {
    exists|k: int| 0 <= k < list.len() && #[trigger] same_website(list[k], w)
}

/// The distinct websites that the token `key` has stored passwords for, in
/// table order (each first occurrence kept).
pub open spec fn visible_websites(
    websites: Seq<WebsiteDTO>,
    passwords: Seq<PasswordRow>,
    logins: Seq<LoginRow>,
    key: Seq<char>,
) -> Seq<WebsiteDTO>
    decreases websites.len(),
{
    if websites.len() == 0 {
        Seq::empty()
    } else {
        let prev = visible_websites(websites.drop_last(), passwords, logins, key);
        let w = websites.last();
        if website_reachable(w, passwords, logins, key) && !lists_website(prev, w) {
            prev.push(w)
        } else {
            prev
        }
    }
}

/// The `LIKE` pattern that finds names containing `name`.
pub open spec fn search_pattern(name: Seq<char>) -> Seq<char> {
    contains_pattern(name)
}

/// The websites whose names are `LIKE pattern`, in table order.
pub open spec fn websites_like(websites: Seq<WebsiteDTO>, pattern: Seq<char>) -> Seq<WebsiteDTO>
    decreases websites.len(),
{
    if websites.len() == 0 {
        Seq::empty()
    } else {
        let prev = websites_like(websites.drop_last(), pattern);
        if like_matches(pattern, websites.last().name@) {
            prev.push(websites.last())
        } else {
            prev
        }
    }
}

/// Whether `name` is shaped like an IPv4 address.
pub open spec fn ip_like(name: Seq<char>) -> bool {
    regex_match_result(ip_address_pattern(), name) == Some(true)
}

/// The website listing holds only table rows that some password the token
/// opens points at, no row twice, and every row that such a password points
/// at.
pub proof fn lemma_website_listing_facts(
    websites: Seq<WebsiteDTO>,
    passwords: Seq<PasswordRow>,
    logins: Seq<LoginRow>,
    key: Seq<char>,
)
    ensures
        ({
            let r = visible_websites(websites, passwords, logins, key);
            &&& forall|k: int|
                0 <= k < r.len() ==> websites.contains(#[trigger] r[k]) && exists|i: int|
                    #![trigger passwords[i]]
                    0 <= i < passwords.len() && passwords[i].website == r[k].id && key_count(
                        logins,
                        key,
                        passwords[i].account@,
                    ) > 0
            &&& forall|k: int, j: int|
                0 <= k < j < r.len() ==> !((#[trigger] r[k]).id == (#[trigger] r[j]).id && r[k].name@ == r[j].name@)
            &&& forall|q: int, i: int|
                0 <= q < websites.len() && 0 <= i < passwords.len() && (#[trigger] passwords[i]).website
                    == (#[trigger] websites[q]).id && key_count(logins, key, passwords[i].account@) > 0 ==> exists|k: int|
                    0 <= k < r.len() && (#[trigger] r[k]).id == websites[q].id && r[k].name@ == websites[q].name@
        }),
{
    let r = visible_websites(websites, passwords, logins, key);
    lemma_visible_websites_distinct_and_complete(websites, passwords, logins, key);
    assert forall|k: int, j: int| 0 <= k < j < r.len() implies !((#[trigger] r[k]).id == (#[trigger] r[j]).id
        && r[k].name@ == r[j].name@) by {
        assert(!same_website(r[k], r[j]));
    }
    assert forall|q: int, i: int|
        0 <= q < websites.len() && 0 <= i < passwords.len() && (#[trigger] passwords[i]).website
            == (#[trigger] websites[q]).id && key_count(logins, key, passwords[i].account@) > 0 implies exists|k: int|
            0 <= k < r.len() && (#[trigger] r[k]).id == websites[q].id && r[k].name@ == websites[q].name@ by {
        assert(website_reachable(websites[q], passwords, logins, key));
        assert(lists_website(r, websites[q]));
        let k = choose|k: int| 0 <= k < r.len() && #[trigger] same_website(r[k], websites[q]);
        assert(r[k].id == websites[q].id);
    }
}

/// Lists the distinct websites that the access token has stored passwords
/// for: each website joined with its passwords and their accounts' login
/// rows, kept where the login row holds the token.
pub fn get_websites(
    key: &ApiKey,
    websites: &[WebsiteDTO],
    passwords: &[PasswordRow],
    logins: &[LoginRow],
) -> (r: Vec<WebsiteDTO>)
    ensures
        r@ == visible_websites(websites@, passwords@, logins@, key.0@),
        forall|k: int|
            0 <= k < r@.len() ==> websites@.contains(#[trigger] r@[k]) && exists|i: int|
                #![trigger passwords@[i]]
                0 <= i < passwords@.len() && passwords@[i].website == r@[k].id && key_count(
                    logins@,
                    key.0@,
                    passwords@[i].account@,
                ) > 0,
        forall|k: int, j: int|
            0 <= k < j < r@.len() ==> !((#[trigger] r@[k]).id == (#[trigger] r@[j]).id && r@[k].name@ == r@[j].name@),
        forall|q: int, i: int|
            0 <= q < websites@.len() && 0 <= i < passwords@.len() && (#[trigger] passwords@[i]).website
                == (#[trigger] websites@[q]).id && key_count(logins@, key.0@, passwords@[i].account@) > 0 ==> exists|k: int|
                0 <= k < r@.len() && (#[trigger] r@[k]).id == websites@[q].id && r@[k].name@ == websites@[q].name@,
{
    let token = key.0.to_owned();
    let mut out: Vec<WebsiteDTO> = Vec::new();
    let mut i: usize = 0;
    while i < websites.len()
        invariant
            i <= websites@.len(),
            token@ == key.0@,
            out@ == visible_websites(websites@.take(i as int), passwords@, logins@, key.0@),
        decreases websites@.len() - i,
    {
        assert(websites@.take(i + 1).drop_last() =~= websites@.take(i as int));
        let w = &websites[i];
        let mut reachable = false;
        let mut j: usize = 0;
        while j < passwords.len() && !reachable
            invariant
                j <= passwords@.len(),
                token@ == key.0@,
                reachable ==> website_reachable(*w, passwords@, logins@, key.0@),
                !reachable ==> forall|q: int|
                    0 <= q < j ==> !(#[trigger] passwords@[q].website == w.id && key_count(logins@, key.0@, passwords@[q].account@) > 0),
            decreases passwords@.len() - j,
        {
            let p = &passwords[j];
            if p.website == w.id && count_grants(logins, &token, &p.account) > 0 {
                reachable = true;
            }
            j = j + 1;
        }
        if reachable {
            let mut listed = false;
            let mut k: usize = 0;
            while k < out.len() && !listed
                invariant
                    k <= out@.len(),
                    listed ==> lists_website(out@, *w),
                    !listed ==> forall|q: int| 0 <= q < k ==> !(#[trigger] same_website(out@[q], *w)),
                decreases out@.len() - k,
            {
                if out[k].id == w.id && out[k].name == w.name {
                    assert(same_website(out@[k as int], *w));
                    listed = true;
                }
                k = k + 1;
            }
            if !listed {
                out.push(WebsiteDTO { id: w.id, name: w.name.clone() });
            }
        }
        i = i + 1;
    }
    assert(websites@.take(websites@.len() as int) =~= websites@);
    proof {
        lemma_website_listing_facts(websites@, passwords@, logins@, key.0@);
    }
    out
}

/// The UTF-8 encoding of joined text is the joined encodings.
proof fn lemma_encode_utf8_concat(a: Seq<char>, b: Seq<char>)
    ensures
        encode_utf8(a + b) == encode_utf8(a) + encode_utf8(b),
    decreases a.len(),
{
    if a.len() == 0 {
        assert(a + b =~= b);
        assert(encode_utf8(a) + encode_utf8(b) =~= encode_utf8(b));
    } else {
        assert((a + b).drop_first() =~= a.drop_first() + b);
        assert((a + b)[0] == a[0]);
        lemma_encode_utf8_concat(a.drop_first(), b);
        assert(encode_utf8(a + b) =~= encode_utf8(a) + encode_utf8(b));
    }
}

/// Builds the `LIKE` pattern `%name%`.
fn search_pattern_string(name: &str) -> (r: String)
    ensures
        r@ == search_pattern(name@),
        encode_utf8(r@).len() == encode_utf8(name@).len() + 2,
{
    let mut q = String::from_str("%");
    q.append(name);
    q.append("%");
    proof {
        reveal_strlit("%");
        assert(q@ =~= search_pattern(name@));
        lemma_encode_utf8_concat(seq!['%'] + name@, seq!['%']);
        lemma_encode_utf8_concat(seq!['%'], name@);
        assert(encode_utf8(seq!['%']).len() == 1) by {
            assert(seq!['%'].drop_first() =~= Seq::<char>::empty());
            assert(('%' as u32) == 37u32);
            assert(encode_utf8(Seq::<char>::empty()).len() == 0);
        }
    }
    q
}

/// The websites whose names are `LIKE pattern`, in table order.
fn filter_like(websites: &[WebsiteDTO], pattern: &str) -> (r: Vec<WebsiteDTO>)
    ensures
        r@ == websites_like(websites@, pattern@),
        r@ == websites@.filter(|w: WebsiteDTO| like_matches(pattern@, w.name@)),
{
    let mut out: Vec<WebsiteDTO> = Vec::new();
    let mut i: usize = 0;
    while i < websites.len()
        invariant
            i <= websites@.len(),
            out@ == websites_like(websites@.take(i as int), pattern@),
        decreases websites@.len() - i,
    {
        assert(websites@.take(i + 1).drop_last() =~= websites@.take(i as int));
        let w = &websites[i];
        if sql_like(pattern, w.name.as_str()) {
            out.push(WebsiteDTO { id: w.id, name: w.name.clone() });
        }
        i = i + 1;
    }
    assert(websites@.take(websites@.len() as int) =~= websites@);
    proof {
        lemma_websites_like_is_filter(websites@, pattern@);
    }
    out
}

/// Searches websites by name. A name shaped like an IPv4 address is refused
/// (404), and so is one of at most two UTF-8 bytes (the pattern `%name%` must
/// be longer than four bytes). Otherwise the answer is every website whose
/// name is `LIKE %name%`, in table order.
pub fn get_website_by_name(name: &str, websites: &[WebsiteDTO]) -> (r: Result<Vec<WebsiteDTO>, u16>)
    ensures
        is_ascii_chars(name@) ==> (ip_like(name@) <==> has_dotted_quad(name@)),
        ip_like(name@) ==> r == Err::<Vec<WebsiteDTO>, u16>(NOT_FOUND),
        !ip_like(name@) && encode_utf8(name@).len() <= 2 ==> r == Err::<Vec<WebsiteDTO>, u16>(NOT_FOUND),
        !ip_like(name@) && encode_utf8(name@).len() > 2 ==> r is Ok,
        r matches Ok(v) ==> v@ == websites_like(websites@, search_pattern(name@)),
        r matches Ok(v) ==> v@ == websites@.filter(
            |w: WebsiteDTO| like_matches(seq!['%'] + name@ + seq!['%'], w.name@),
        ),
{
    if looks_like_ip_address(name) {
        return Err(NOT_FOUND);
    }
    let query = search_pattern_string(name);
    if query.as_str().as_bytes().len() <= 4 {
        return Err(NOT_FOUND);
    }
    Ok(filter_like(websites, query.as_str()))
}

/// What registering a website decides.
pub struct WebsitePlan {
    /// The `LIKE` pattern that finds the website afterwards.
    pub pattern: String,
    /// The row to insert, when no website's name matches the pattern yet.
    pub insert: Option<WebsiteInput>,
}

/// Decides a request to register a website. A name shaped like an IPv4
/// address is refused (406). Otherwise the row is inserted unless some
/// website's name is already `LIKE %name%`; the answer is then the website
/// with the smallest id whose name is `LIKE %name%` (`first_website_like`).
pub fn new_website(website: &WebsiteInput, websites: &[WebsiteDTO]) -> (r: Result<WebsitePlan, u16>)
    ensures
        is_ascii_chars(website.name@) ==> (ip_like(website.name@) <==> has_dotted_quad(website.name@)),
        ip_like(website.name@) ==> r == Err::<WebsitePlan, u16>(NOT_ACCEPTABLE),
        !ip_like(website.name@) ==> r is Ok,
        r matches Ok(plan) ==> {
            &&& plan.pattern@ == search_pattern(website.name@)
            &&& (plan.insert is Some <==> websites_like(websites@, search_pattern(website.name@)).len() == 0)
            &&& (plan.insert matches Some(row) ==> row.name == website.name)
        },
{
    if looks_like_ip_address(website.name.as_str()) {
        return Err(NOT_ACCEPTABLE);
    }
    let pattern = search_pattern_string(website.name.as_str());
    let existing = filter_like(websites, pattern.as_str());
    let insert = if existing.len() == 0 {
        Some(WebsiteInput { name: website.name.clone() })
    } else {
        None
    };
    Ok(WebsitePlan { pattern, insert })
}

/// The position of the first website with the smallest id among those whose
/// names are `LIKE pattern`, or -1.
pub open spec fn first_like_index(websites: Seq<WebsiteDTO>, pattern: Seq<char>) -> int
    decreases websites.len(),
{
    if websites.len() == 0 {
        -1
    } else {
        let k = first_like_index(websites.drop_last(), pattern);
        let w = websites.last();
        if like_matches(pattern, w.name@) && (k < 0 || w.id < websites[k].id) {
            websites.len() - 1
        } else {
            k
        }
    }
}

/// The website with the smallest id whose name is `LIKE pattern` (the first
/// such, should ids repeat); `None` when no name matches.
pub fn first_website_like(websites: &[WebsiteDTO], pattern: &str) -> (r: Option<WebsiteDTO>)
    ensures
        r is None <==> websites_like(websites@, pattern@).len() == 0,
        r matches Some(w) ==> {
            let k = first_like_index(websites@, pattern@);
            &&& 0 <= k < websites@.len()
            &&& w == websites@[k]
            &&& like_matches(pattern@, w.name@)
            &&& forall|q: int|
                0 <= q < websites@.len() && like_matches(pattern@, (#[trigger] websites@[q]).name@) ==> w.id
                    <= websites@[q].id
            &&& forall|q: int|
                0 <= q < k && like_matches(pattern@, (#[trigger] websites@[q]).name@) ==> w.id < websites@[q].id
        },
        r is None ==> forall|q: int| 0 <= q < websites@.len() ==> !like_matches(pattern@, (#[trigger] websites@[q]).name@),
{
    let mut best: Option<usize> = None;
    let mut i: usize = 0;
    while i < websites.len()
        invariant
            i <= websites@.len(),
            match best {
                None => first_like_index(websites@.take(i as int), pattern@) == -1
                    && websites_like(websites@.take(i as int), pattern@).len() == 0,
                Some(b) => b < i && first_like_index(websites@.take(i as int), pattern@) == b as int
                    && like_matches(pattern@, websites@[b as int].name@)
                    && websites_like(websites@.take(i as int), pattern@).len() > 0,
            },
        decreases websites@.len() - i,
    {
        assert(websites@.take(i + 1).drop_last() =~= websites@.take(i as int));
        let w = &websites[i];
        if sql_like(pattern, w.name.as_str()) {
            match best {
                None => {
                    best = Some(i);
                },
                Some(b) => {
                    if w.id < websites[b].id {
                        best = Some(i);
                    }
                },
            }
        }
        i = i + 1;
    }
    assert(websites@.take(websites@.len() as int) =~= websites@);
    proof {
        lemma_first_like_is_smallest(websites@, pattern@);
    }
    match best {
        None => None,
        Some(b) => Some(WebsiteDTO { id: websites[b].id, name: websites[b].name.clone() }),
    }
}

/// A search answers the table filtered by the pattern: the matching rows,
/// each as often as the table holds it, in table order.
pub proof fn lemma_websites_like_is_filter(websites: Seq<WebsiteDTO>, pattern: Seq<char>)
    ensures
        websites_like(websites, pattern) == websites.filter(|w: WebsiteDTO| like_matches(pattern, w.name@)),
    decreases websites.len(),
{
    reveal(Seq::filter);
    if websites.len() > 0 {
        lemma_websites_like_is_filter(websites.drop_last(), pattern);
    }
}

/// The first matching website has the smallest id among the websites whose
/// names match (and every earlier match has a larger one); there is none
/// exactly when no name matches.
pub proof fn lemma_first_like_is_smallest(websites: Seq<WebsiteDTO>, pattern: Seq<char>)
    ensures
        first_like_index(websites, pattern) == -1 <==> forall|q: int|
            0 <= q < websites.len() ==> !like_matches(pattern, (#[trigger] websites[q]).name@),
        first_like_index(websites, pattern) == -1 <==> websites_like(websites, pattern).len() == 0,
        first_like_index(websites, pattern) != -1 ==> {
            let k = first_like_index(websites, pattern);
            &&& 0 <= k < websites.len()
            &&& like_matches(pattern, websites[k].name@)
            &&& forall|q: int|
                0 <= q < websites.len() && like_matches(pattern, (#[trigger] websites[q]).name@) ==> websites[k].id
                    <= websites[q].id
            &&& forall|q: int|
                0 <= q < k && like_matches(pattern, (#[trigger] websites[q]).name@) ==> websites[k].id
                    < websites[q].id
        },
    decreases websites.len(),
{
    if websites.len() > 0 {
        let rest = websites.drop_last();
        lemma_first_like_is_smallest(rest, pattern);
        let j = first_like_index(rest, pattern);
        let k = first_like_index(websites, pattern);
        assert forall|q: int| 0 <= q < rest.len() implies #[trigger] rest[q] == websites[q] by {}
        if j >= 0 {
            assert(rest[j] == websites[j]);
        }
        assert(websites[websites.len() - 1] == websites.last());
        if k == -1 {
            assert forall|q: int| 0 <= q < websites.len() implies !like_matches(pattern, (#[trigger] websites[q]).name@) by {
                if q < rest.len() {
                    assert(rest[q] == websites[q]);
                }
            }
        } else {
            assert forall|q: int|
                0 <= q < websites.len() && like_matches(pattern, (#[trigger] websites[q]).name@) implies websites[k].id
                    <= websites[q].id by {
                if q < rest.len() {
                    assert(rest[q] == websites[q]);
                }
            }
            assert forall|q: int|
                0 <= q < k && like_matches(pattern, (#[trigger] websites[q]).name@) implies websites[k].id
                    < websites[q].id by {
                assert(rest[q] == websites[q]);
            }
        }
        if (forall|q: int| 0 <= q < websites.len() ==> !like_matches(pattern, (#[trigger] websites[q]).name@)) {
            assert(!like_matches(pattern, websites[websites.len() - 1].name@));
            assert forall|q: int| 0 <= q < rest.len() implies !like_matches(pattern, (#[trigger] rest[q]).name@) by {
                assert(rest[q] == websites[q]);
            }
        }
    }
}

/// A search answers exactly the websites of the table whose names match.
pub proof fn lemma_websites_like_members(websites: Seq<WebsiteDTO>, pattern: Seq<char>, w: WebsiteDTO)
    ensures
        websites_like(websites, pattern).contains(w) <==> (websites.contains(w) && like_matches(pattern, w.name@)),
    decreases websites.len(),
{
    if websites.len() > 0 {
        let rest = websites.drop_last();
        let prev = websites_like(rest, pattern);
        lemma_websites_like_members(rest, pattern, w);
        if websites.contains(w) {
            let j = choose|j: int| 0 <= j < websites.len() && websites[j] == w;
            if j < rest.len() {
                assert(rest[j] == w);
            }
        }
        if rest.contains(w) {
            let j = choose|j: int| 0 <= j < rest.len() && rest[j] == w;
            assert(websites[j] == w);
        }
        if like_matches(pattern, websites.last().name@) {
            assert(prev.push(websites.last())[prev.len() as int] == websites.last());
            if prev.contains(w) {
                let j = choose|j: int| 0 <= j < prev.len() && prev[j] == w;
                assert(prev.push(websites.last())[j] == w);
            }
            if prev.push(websites.last()).contains(w) {
                let j = choose|j: int| 0 <= j < prev.len() + 1 && prev.push(websites.last())[j] == w;
                if j < prev.len() {
                    assert(prev[j] == w);
                }
            }
        }
        assert(websites[websites.len() - 1] == websites.last());
    }
}

/// A website registered under a name without backslashes is found by its
/// own search pattern once inserted, so the answer to its registration
/// exists.
pub proof fn lemma_registered_website_is_found(websites: Seq<WebsiteDTO>, row: WebsiteDTO)
    requires
        escape_free(row.name@),
    ensures
        websites_like(websites.push(row), search_pattern(row.name@)).len() > 0,
{
    let all = websites.push(row);
    assert(row.name@.subrange(0, row.name@.len() as int) =~= row.name@);
    assert(occurs_at(row.name@, row.name@, 0));
    lemma_containing_text_matches(row.name@, row.name@, 0);
    assert(all[all.len() - 1] == row);
    lemma_websites_like_members(all, search_pattern(row.name@), row);
}

/// Searching for plain text (no `%`, `_` or backslash) answers exactly the
/// websites whose names contain it.
pub proof fn lemma_plain_search_finds_containing_names(websites: Seq<WebsiteDTO>, query: Seq<char>, w: WebsiteDTO)
    requires
        wildcard_free(query),
    ensures
        websites_like(websites, search_pattern(query)).contains(w) <==> (websites.contains(w) && exists|start: int|
            #[trigger] occurs_at(query, w.name@, start)),
{
    lemma_websites_like_members(websites, search_pattern(query), w);
    lemma_plain_query_matches_iff_contained(query, w.name@);
}

/// The website listing holds each website the token has passwords for
/// exactly once, and nothing else.
pub proof fn lemma_visible_websites_distinct_and_complete(
    websites: Seq<WebsiteDTO>,
    passwords: Seq<PasswordRow>,
    logins: Seq<LoginRow>,
    key: Seq<char>,
)
    ensures
        ({
            let vis = visible_websites(websites, passwords, logins, key);
            &&& forall|i: int, j: int| 0 <= i < j < vis.len() ==> !same_website(#[trigger] vis[i], #[trigger] vis[j])
            &&& forall|i: int|
                0 <= i < websites.len() && website_reachable(#[trigger] websites[i], passwords, logins, key)
                    ==> lists_website(vis, websites[i])
            &&& forall|k: int|
                0 <= k < vis.len() ==> websites.contains(#[trigger] vis[k]) && website_reachable(vis[k], passwords, logins, key)
        }),
    decreases websites.len(),
{
    if websites.len() > 0 {
        let rest = websites.drop_last();
        let w = websites.last();
        let prev = visible_websites(rest, passwords, logins, key);
        let vis = visible_websites(websites, passwords, logins, key);
        lemma_visible_websites_distinct_and_complete(rest, passwords, logins, key);
        assert forall|k: int| 0 <= k < prev.len() implies websites.contains(#[trigger] prev[k]) by {
            let j = choose|j: int| 0 <= j < rest.len() && rest[j] == prev[k];
            assert(websites[j] == prev[k]);
        }
        assert(websites[websites.len() - 1] == w);
        if website_reachable(w, passwords, logins, key) && !lists_website(prev, w) {
            assert(vis[prev.len() as int] == w);
            assert(same_website(vis[prev.len() as int], w));
            assert forall|i: int| 0 <= i < websites.len() && website_reachable(#[trigger] websites[i], passwords, logins, key)
                implies lists_website(vis, websites[i]) by {
                if i < rest.len() {
                    assert(rest[i] == websites[i]);
                    let k = choose|k: int| 0 <= k < prev.len() && #[trigger] same_website(prev[k], rest[i]);
                    assert(vis[k] == prev[k]);
                } else {
                    assert(same_website(vis[prev.len() as int], websites[i]));
                }
            }
        } else {
            assert forall|i: int| 0 <= i < websites.len() && website_reachable(#[trigger] websites[i], passwords, logins, key)
                implies lists_website(vis, websites[i]) by {
                if i < rest.len() {
                    assert(rest[i] == websites[i]);
                }
            }
        }
    }
}

/// A token that no login row holds sees no website.
pub proof fn lemma_unknown_key_sees_no_website(
    websites: Seq<WebsiteDTO>,
    passwords: Seq<PasswordRow>,
    logins: Seq<LoginRow>,
    key: Seq<char>,
)
    requires
        !token_known(logins, key),
    ensures
        visible_websites(websites, passwords, logins, key).len() == 0,
    decreases websites.len(),
{
    if websites.len() > 0 {
        lemma_unknown_key_sees_no_website(websites.drop_last(), passwords, logins, key);
        if website_reachable(websites.last(), passwords, logins, key) {
            let i = choose|i: int|
                0 <= i < passwords.len() && #[trigger] passwords[i].website == websites.last().id && key_count(
                    logins,
                    key,
                    passwords[i].account@,
                ) > 0;
            lemma_unknown_key_owns_nothing(logins, key, passwords[i].account@);
        }
    }
}

/// A website is reachable exactly when one of the rows the token opens is
/// stored for it.
proof fn lemma_reachable_through_opened(
    w: WebsiteDTO,
    passwords: Seq<PasswordRow>,
    logins: Seq<LoginRow>,
    key: Seq<char>,
)
    ensures
        website_reachable(w, passwords, logins, key) <==> exists|k: int|
            0 <= k < opened_rows(passwords, logins, key).len() && #[trigger] opened_rows(
                passwords,
                logins,
                key,
            )[k].website == w.id,
{
    let op = opened_rows(passwords, logins, key);
    if website_reachable(w, passwords, logins, key) {
        let i = choose|i: int|
            0 <= i < passwords.len() && #[trigger] passwords[i].website == w.id && key_count(
                logins,
                key,
                passwords[i].account@,
            ) > 0;
        lemma_opened_rows_members(passwords, logins, key, passwords[i]);
        assert(passwords.contains(passwords[i]));
        let k = choose|k: int| 0 <= k < op.len() && op[k] == passwords[i];
        assert(op[k].website == w.id);
    }
    if exists|k: int| 0 <= k < op.len() && #[trigger] op[k].website == w.id {
        let k = choose|k: int| 0 <= k < op.len() && #[trigger] op[k].website == w.id;
        lemma_opened_rows_members(passwords, logins, key, op[k]);
        assert(op.contains(op[k]));
        let i = choose|i: int| 0 <= i < passwords.len() && passwords[i] == op[k];
        assert(passwords[i].website == w.id);
    }
}

/// Other accounts' passwords neither add nor hide websites: two password
/// tables whose rows opened by the token are the same give the same website
/// listing.
pub proof fn lemma_websites_depend_only_on_opened_rows(
    websites: Seq<WebsiteDTO>,
    passwords1: Seq<PasswordRow>,
    passwords2: Seq<PasswordRow>,
    logins: Seq<LoginRow>,
    key: Seq<char>,
)
    requires
        opened_rows(passwords1, logins, key) == opened_rows(passwords2, logins, key),
    ensures
        visible_websites(websites, passwords1, logins, key) == visible_websites(websites, passwords2, logins, key),
    decreases websites.len(),
{
    if websites.len() > 0 {
        lemma_websites_depend_only_on_opened_rows(websites.drop_last(), passwords1, passwords2, logins, key);
        lemma_reachable_through_opened(websites.last(), passwords1, logins, key);
        lemma_reachable_through_opened(websites.last(), passwords2, logins, key);
    }
}

/// Once a stored password is inserted, its website (when the table has it)
/// appears in the website listing of the token that stored it.
pub proof fn lemma_stored_password_website_is_listed(
    websites: Seq<WebsiteDTO>,
    passwords: Seq<PasswordRow>,
    logins: Seq<LoginRow>,
    key: Seq<char>,
    passwd: PasswordInput,
    template: PasswdTemplate,
    id: i32,
    i: int,
)
    requires
        stored_template(template, passwd, key, logins),
        0 <= i < websites.len(),
        websites[i].id == template.website,
    ensures
        lists_website(visible_websites(websites, passwords.push(row_of(template, id)), logins, key), websites[i]),
{
    let all = passwords.push(row_of(template, id));
    lemma_stored_template_opens_account(template, passwd, key, logins);
    let last = all.len() - 1;
    assert(all[last] == row_of(template, id));
    assert(all[last].website == websites[i].id);
    assert(key_count(logins, key, all[last].account@) > 0);
    assert(website_reachable(websites[i], all, logins, key));
    lemma_visible_websites_distinct_and_complete(websites, all, logins, key);
}

/// Registering the same website twice changes nothing the second time: once
/// the first registration is written (its row inserted only when no name
/// matched), some name matches the pattern, so the second registration
/// inserts nothing and, on the same table, answers what the first did. The
/// name holds no backslash.
pub proof fn lemma_second_registration_inserts_nothing(websites: Seq<WebsiteDTO>, row: WebsiteDTO)
    requires
        escape_free(row.name@),
    ensures
        ({
            let pattern = search_pattern(row.name@);
            let after = if websites_like(websites, pattern).len() == 0 {
                websites.push(row)
            } else {
                websites
            };
            websites_like(after, pattern).len() > 0
        }),
{
    if websites_like(websites, search_pattern(row.name@)).len() == 0 {
        lemma_registered_website_is_found(websites, row);
    }
}

} // verus!
