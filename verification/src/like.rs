//! The SQL `LIKE` comparison that website searches use.
//!
//! In a pattern, `%` stands for any run of characters (the empty run too),
//! `_` for any one character, and a backslash makes the character after it
//! stand for itself; every other character stands for itself. A backslash at
//! the very end stands for itself. Characters are compared exactly: there is
//! no case folding and no trailing-space rule of a database collation.
use vstd::prelude::*;

verus! {

broadcast use vstd::string::axiom_spec_iter;

/// Whether the pattern from position `i` on matches the text from position
/// `j` on.
pub open spec fn like_from(pattern: Seq<char>, text: Seq<char>, i: int, j: int) -> bool
    decreases pattern.len() - i + text.len() - j,
    when 0 <= i <= pattern.len() && 0 <= j <= text.len()
{
    if i == pattern.len() {
        j == text.len()
    } else if pattern[i] == '%' {
        like_from(pattern, text, i + 1, j) || (j < text.len() && like_from(pattern, text, i, j + 1))
    } else if pattern[i] == '\\' && i + 1 < pattern.len() {
        j < text.len() && text[j] == pattern[i + 1] && like_from(pattern, text, i + 2, j + 1)
    } else if pattern[i] == '_' {
        j < text.len() && like_from(pattern, text, i + 1, j + 1)
    } else {
        j < text.len() && text[j] == pattern[i] && like_from(pattern, text, i + 1, j + 1)
    }
}

/// Whether `text LIKE pattern` holds.
pub open spec fn like_matches(pattern: Seq<char>, text: Seq<char>) -> bool {
    like_from(pattern, text, 0, 0)
}

/// The characters of a string slice, in order.
pub fn chars_of(s: &str) -> (r: Vec<char>)
    ensures
        r@ == s@,
{
    let mut v: Vec<char> = Vec::new();
    for c in it: s.chars()
        invariant
            v@ == it.seq().take(it.index() as int),
    {
        v.push(c);
    }
    v
}

/// Whether `row` and `end` hold row `i` of the match table: `row[k]` tells
/// whether the pattern from `i` matches the text from `k`, for `k` before the
/// end of the text, and `end` tells it for the end of the text.
pub open spec fn is_table_row(pattern: Seq<char>, text: Seq<char>, i: int, row: Seq<bool>, end: bool) -> bool {
    &&& row.len() == text.len()
    &&& forall|k: int| 0 <= k < text.len() ==> #[trigger] row[k] == like_from(pattern, text, i, k)
    &&& end == like_from(pattern, text, i, text.len() as int)
}

/// Entry `k` of a table row whose last entry is kept apart.
fn cell(row: &Vec<bool>, end: bool, k: usize) -> (r: bool)
    requires
        k <= row@.len(),
    ensures
        r == if k < row@.len() { row@[k as int] } else { end },
{
    if k < row.len() {
        row[k]
    } else {
        end
    }
}

/// Decides `text LIKE pattern` by filling the match table from the ends of
/// both strings backwards, one pattern position at a time.
pub fn sql_like(pattern: &str, text: &str) -> (r: bool)
    ensures
        r == like_matches(pattern@, text@),
{
    let p = chars_of(pattern);
    let t = chars_of(text);
    let m = t.len();
    let ghost ps = p@;
    let ghost ts = t@;
    // Row `p.len()`: the empty pattern matches only the empty text.
    let mut next: Vec<bool> = Vec::new();
    let mut k: usize = 0;
    while k < m
        invariant
            m == ts.len(),
            k <= m,
            next@.len() == k,
            forall|q: int| 0 <= q < k ==> #[trigger] next@[q] == like_from(ps, ts, ps.len() as int, q),
        decreases m - k,
    {
        next.push(false);
        k = k + 1;
    }
    let mut next_end = true;
    let mut next2: Vec<bool> = Vec::new();
    let mut next2_end = false;
    let mut i = p.len();
    while i > 0
        invariant
            ps == p@,
            ts == t@,
            m == ts.len(),
            i <= ps.len(),
            ps.len() <= usize::MAX,
            is_table_row(ps, ts, i as int, next@, next_end),
            i + 1 <= ps.len() ==> is_table_row(ps, ts, i + 1, next2@, next2_end),
        decreases i,
    {
        i = i - 1;
        let c = p[i];
        let escaped = c == '\\' && i + 1 < p.len();
        let mut cur: Vec<bool> = Vec::new();
        let mut k: usize = 0;
        while k < m
            invariant
                m == ts.len(),
                k <= m,
                cur@.len() == k,
            decreases m - k,
        {
            cur.push(false);
            k = k + 1;
        }
        let cur_end = if c == '%' {
            next_end
        } else {
            false
        };
        assert(cur_end == like_from(ps, ts, i as int, m as int));
        let mut j = m;
        while j > 0
            invariant
                ps == p@,
                ts == t@,
                m == ts.len(),
                i < ps.len(),
                ps.len() <= usize::MAX,
                c == ps[i as int],
                escaped == (c == '\\' && i + 1 < ps.len()),
                is_table_row(ps, ts, i + 1, next@, next_end),
                i + 2 <= ps.len() ==> is_table_row(ps, ts, i + 2, next2@, next2_end),
                cur_end == like_from(ps, ts, i as int, m as int),
                cur@.len() == m,
                j <= m,
                forall|q: int| j <= q < m ==> #[trigger] cur@[q] == like_from(ps, ts, i as int, q),
            decreases j,
        {
            j = j - 1;
            let b = if c == '%' {
                cell(&next, next_end, j) || cell(&cur, cur_end, j + 1)
            } else if escaped {
                t[j] == p[i + 1] && cell(&next2, next2_end, j + 1)
            } else if c == '_' {
                cell(&next, next_end, j + 1)
            } else {
                t[j] == c && cell(&next, next_end, j + 1)
            };
            assert(b == like_from(ps, ts, i as int, j as int));
            cur.set(j, b);
        }
        next2 = next;
        next2_end = next_end;
        next = cur;
        next_end = cur_end;
    }
    cell(&next, next_end, 0)
}

/// The pattern `%query%`.
pub open spec fn contains_pattern(query: Seq<char>) -> Seq<char> {
    seq!['%'] + query + seq!['%']
}

/// Whether `text` holds `query` as a run of characters starting at `start`.
pub open spec fn occurs_at(query: Seq<char>, text: Seq<char>, start: int) -> bool {
    0 <= start && start + query.len() <= text.len() && text.subrange(start, start + query.len()) == query
}

/// Whether `query` holds no backslash.
pub open spec fn escape_free(query: Seq<char>) -> bool {
    forall|i: int| 0 <= i < query.len() ==> #[trigger] query[i] != '\\'
}

/// Whether `query` holds no `%`, `_` or backslash.
pub open spec fn wildcard_free(query: Seq<char>) -> bool {
    forall|i: int| 0 <= i < query.len() ==> #[trigger] query[i] != '\\' && query[i] != '%' && query[i] != '_'
}

/// The closing `%` of `%query%` matches any rest of the text.
proof fn lemma_trailing_percent(query: Seq<char>, text: Seq<char>, j: int)
    requires
        0 <= j <= text.len(),
    ensures
        like_from(contains_pattern(query), text, query.len() + 1int, j),
    decreases text.len() - j,
{
    let p = contains_pattern(query);
    assert(p.len() == query.len() + 2);
    assert(p[query.len() + 1int] == '%');
    if j < text.len() {
        lemma_trailing_percent(query, text, j + 1);
    } else {
        assert(like_from(p, text, query.len() + 2int, j));
    }
}

/// The query part of `%query%` matches where the query occurs in the text,
/// when the query holds no backslash.
proof fn lemma_query_part(query: Seq<char>, text: Seq<char>, start: int, k: int)
    requires
        escape_free(query),
        occurs_at(query, text, start),
        0 <= k <= query.len(),
    ensures
        like_from(contains_pattern(query), text, k + 1, start + k),
    decreases query.len() - k,
{
    let p = contains_pattern(query);
    if k == query.len() {
        lemma_trailing_percent(query, text, start + k);
    } else {
        lemma_query_part(query, text, start, k + 1);
        assert(p[k + 1] == query[k]);
        assert(text[start + k] == text.subrange(start, start + query.len())[k]);
        if query[k] == '%' {
            if start + k + 1 < text.len() || start + k + 1 == text.len() {
                assert(like_from(p, text, k + 1, start + k + 1));
            }
        }
    }
}

/// The opening `%` of `%query%` skips any prefix before the query.
proof fn lemma_leading_percent(query: Seq<char>, text: Seq<char>, start: int, j: int)
    requires
        escape_free(query),
        occurs_at(query, text, start),
        0 <= j <= start,
    ensures
        like_from(contains_pattern(query), text, 0, j),
    decreases start - j,
{
    let p = contains_pattern(query);
    assert(p[0] == '%');
    if j == start {
        lemma_query_part(query, text, start, 0);
    } else {
        lemma_leading_percent(query, text, start, j + 1);
    }
}

/// A text that contains `query` is `LIKE '%query%'`, when the query holds no
/// backslash (`%` and `_` in the query only widen what it matches).
pub proof fn lemma_containing_text_matches(query: Seq<char>, text: Seq<char>, start: int)
    requires
        escape_free(query),
        occurs_at(query, text, start),
    ensures
        like_matches(contains_pattern(query), text),
{
    lemma_leading_percent(query, text, start, 0);
}

/// A text `LIKE '%query%'` lets the query part start somewhere.
proof fn lemma_query_start(query: Seq<char>, text: Seq<char>, j: int) -> (s: int)
    requires
        0 <= j <= text.len(),
        like_from(contains_pattern(query), text, 0, j),
    ensures
        j <= s <= text.len(),
        like_from(contains_pattern(query), text, 1, s),
    decreases text.len() - j,
{
    let p = contains_pattern(query);
    assert(p[0] == '%');
    if like_from(p, text, 1, j) {
        j
    } else {
        lemma_query_start(query, text, j + 1)
    }
}

/// Where the query part of `%query%` matches, a query without wildcards
/// stands in the text character for character.
proof fn lemma_plain_query_part(query: Seq<char>, text: Seq<char>, s: int, k: int)
    requires
        wildcard_free(query),
        0 <= k <= query.len(),
        0 <= s + k <= text.len(),
        0 <= s,
        like_from(contains_pattern(query), text, k + 1, s + k),
    ensures
        s + query.len() <= text.len(),
        forall|m: int| k <= m < query.len() ==> text[s + m] == #[trigger] query[m],
    decreases query.len() - k,
{
    let p = contains_pattern(query);
    if k < query.len() {
        assert(p[k + 1] == query[k]);
        lemma_plain_query_part(query, text, s, k + 1);
    }
}

/// A text is `LIKE '%query%'` exactly when it contains `query`, for a query
/// without `%`, `_` or backslash.
pub proof fn lemma_plain_query_matches_iff_contained(query: Seq<char>, text: Seq<char>)
    requires
        wildcard_free(query),
    ensures
        like_matches(contains_pattern(query), text) <==> exists|start: int| #[trigger] occurs_at(query, text, start),
{
    if like_matches(contains_pattern(query), text) {
        let s = lemma_query_start(query, text, 0);
        lemma_plain_query_part(query, text, s, 0);
        assert(text.subrange(s, s + query.len()) =~= query);
        assert(occurs_at(query, text, s));
    }
    if exists|start: int| #[trigger] occurs_at(query, text, start) {
        let start = choose|start: int| #[trigger] occurs_at(query, text, start);
        lemma_containing_text_matches(query, text, start);
    }
}

/// A wildcard-free pattern matches from given positions exactly where the
/// rest of the text spells the rest of the pattern.
proof fn lemma_plain_from(pattern: Seq<char>, text: Seq<char>, i: int, j: int)
    requires
        wildcard_free(pattern),
        0 <= i <= pattern.len(),
        0 <= j <= text.len(),
    ensures
        like_from(pattern, text, i, j) <==> (text.len() - j == pattern.len() - i && forall|m: int|
            0 <= m < pattern.len() - i ==> text[j + m] == #[trigger] pattern[i + m]),
    decreases pattern.len() - i,
{
    if i < pattern.len() {
        assert(pattern[i] != '%' && pattern[i] != '_' && pattern[i] != '\\');
        if j < text.len() {
            lemma_plain_from(pattern, text, i + 1, j + 1);
            if text.len() - j == pattern.len() - i && forall|m: int|
                0 <= m < pattern.len() - i ==> text[j + m] == #[trigger] pattern[i + m] {
                assert(text[j + 0] == pattern[i + 0]);
                assert forall|m: int| 0 <= m < pattern.len() - (i + 1) implies text[(j + 1) + m]
                    == #[trigger] pattern[(i + 1) + m] by {
                    assert(text[j + (m + 1)] == pattern[i + (m + 1)]);
                }
            }
            if like_from(pattern, text, i, j) {
                assert forall|m: int| 0 <= m < pattern.len() - i implies text[j + m] == #[trigger] pattern[i + m] by {
                    if m > 0 {
                        assert(text[(j + 1) + (m - 1)] == pattern[(i + 1) + (m - 1)]);
                    }
                }
            }
        } else {
            assert(!like_from(pattern, text, i, j));
        }
    }
}

/// A pattern without `%`, `_` or backslash matches exactly the text that
/// spells it: the comparison is exact, with no case folding.
pub proof fn lemma_plain_pattern_matches_only_itself(pattern: Seq<char>, text: Seq<char>)
    requires
        wildcard_free(pattern),
    ensures
        like_matches(pattern, text) <==> text == pattern,
{
    lemma_plain_from(pattern, text, 0, 0);
    if text.len() == pattern.len() && forall|m: int| 0 <= m < pattern.len() ==> text[0 + m] == #[trigger] pattern[0 + m] {
        assert forall|m: int| 0 <= m < pattern.len() implies text[m] == pattern[m] by {
            assert(text[0 + m] == pattern[0 + m]);
        }
        assert(text =~= pattern);
    }
    if text == pattern {
        assert forall|m: int| 0 <= m < pattern.len() implies text[0 + m] == #[trigger] pattern[0 + m] by {}
    }
}

/// `%` alone matches every text.
pub proof fn lemma_percent_matches_everything(text: Seq<char>)
    ensures
        like_matches(seq!['%'], text),
{
    lemma_percent_tail(text, text.len() as int);
}

/// `%` alone matches every rest of a text.
proof fn lemma_percent_tail(text: Seq<char>, n: int)
    requires
        0 <= n <= text.len(),
    ensures
        like_from(seq!['%'], text, 0, text.len() - n),
    decreases n,
{
    let p = seq!['%'];
    assert(p[0] == '%');
    if n > 0 {
        lemma_percent_tail(text, n - 1);
    } else {
        assert(like_from(p, text, 1, text.len() as int));
    }
}

/// `_` alone matches exactly the texts of one character.
pub proof fn lemma_underscore_matches_one_character(text: Seq<char>)
    ensures
        like_matches(seq!['_'], text) <==> text.len() == 1,
{
    let p = seq!['_'];
    assert(p[0] == '_');
    if text.len() >= 1 {
        assert(like_from(p, text, 1, 1) <==> text.len() == 1);
    }
}

/// A backslash makes the next character stand for itself: `\c` matches
/// exactly the text `c`, whatever `c` is.
pub proof fn lemma_escaped_character_matches_itself(c: char, text: Seq<char>)
    ensures
        like_matches(seq!['\\', c], text) <==> text == seq![c],
{
    let p = seq!['\\', c];
    assert(p[0] == '\\' && p[1] == c);
    if text.len() >= 1 {
        assert(like_from(p, text, 2, 1) <==> text.len() == 1);
    }
    if like_matches(p, text) {
        assert(text =~= seq![c]);
    }
}

} // verus!
