//! Candidate ranking and fuzzy fallback queries.

use std::cmp::Ordering;

use vstd::prelude::*;

use crate::model::{
    Candidate, CandidateView, manager_rank, ManagerKind, match_rank, MatchKind,
};
use crate::normalize::{
    law_normalized_bounded, normalize, Normalized, NormalizedView, of_tokens,
};
use crate::order::{
    codes, compare_number, compare_text, key_leq, key_order, lemma_key_order_equal,
    lemma_key_order_flip, lemma_key_order_step, lemma_key_order_transitive,
    lemma_stable_sort_sorted, place, sort_by_view, stable_sort, total_preorder, word_order,
};
use crate::text::{
    ascii_alphanumeric_char, ascii_lower, ascii_lower_char, chars_of, concat, contains, has_text,
    is_ascii_alphanumeric, is_ascii_char, lemma_views_push, lower, occurs_at, option_view, same,
    same_ignoring_case, starts_with, take_at_most, text_between, text_contains, text_starts_with,
    views,
};

verus! {

/// How many characters of a query count.
pub const MAX_QUERY_CHARS: usize = 128;

/// How many characters of a package name count.
pub const MAX_NAME_CHARS: usize = 256;

/// How many characters of a description count.
pub const MAX_DESCRIPTION_CHARS: usize = 1_024;

/// The most fallback queries that a query is replaced by.
pub const MAX_FALLBACK_QUERIES: usize = 3;

/// How well a candidate answers a query.
#[derive(Debug, Clone, Copy, PartialEq, Eq, Structural)]
pub struct MatchAssessment {
    pub kind: MatchKind,
    pub score: u16,
    pub edit_distance: Option<usize>,
}

/// The assessment of a candidate that nothing speaks for.
pub open spec fn unmatched() -> MatchAssessment {
    MatchAssessment { kind: MatchKind::Unmatched, score: 0, edit_distance: None }
}

impl MatchAssessment {
    fn new(kind: MatchKind, score: u16, edit_distance: Option<usize>) -> (r: Self)
        ensures
            r == (MatchAssessment { kind, score, edit_distance }),
    {
        MatchAssessment { kind, score, edit_distance }
    }
}

// ---------------------------------------------------------------------------
// Identity
// ---------------------------------------------------------------------------

pub open spec fn all_ascii(s: Seq<char>) -> bool {
    forall|i: int| 0 <= i < s.len() ==> is_ascii_char(#[trigger] s[i])
}

/// Whether two names are the same, up to the case of ASCII names.
pub open spec fn same_identity(a: Seq<char>, b: Seq<char>) -> bool {
    a == b || (all_ascii(a) && all_ascii(b) && lower(a) == lower(b))
}

fn text_is_ascii(s: &str) -> (r: bool)
    ensures
        r == all_ascii(s@),
{
    let chars = chars_of(s);
    let n: usize = chars.len();
    for i in 0..n
        invariant
            n == chars@.len(),
            chars@ == s@,
            forall|j: int| 0 <= j < i ==> is_ascii_char(#[trigger] s@[j]),
    {
        if chars[i] > '\u{7f}' {
            assert(!is_ascii_char(s@[i as int]));
            return false;
        }
    }
    true
}

pub fn exact_identity(a: &str, b: &str) -> (r: bool)
    ensures
        r == same_identity(a@, b@),
{
    same(a, b) || (text_is_ascii(a) && text_is_ascii(b) && same_ignoring_case(a, b))
}

pub open spec fn is_name_separator(c: char) -> bool {
    c == '-' || c == '_' || c == '.'
}

/// The canonical form of `s` as far as it goes, and whether it ends in a
/// separator; nothing if `s` holds what no Python distribution name can hold.
pub open spec fn pypi_form(s: Seq<char>) -> Option<(Seq<char>, bool)>
    decreases s.len(),
{
    if s.len() == 0 {
        Some((Seq::empty(), false))
    } else {
        match pypi_form(s.drop_last()) {
            None => None,
            Some((form, separated)) => if is_name_separator(s.last()) {
                if separated {
                    Some((form, true))
                } else {
                    Some((form.push('-'), true))
                }
            } else if is_ascii_alphanumeric(s.last()) {
                Some((form.push(ascii_lower(s.last())), false))
            } else {
                None
            },
        }
    }
}

/// The canonical identity of a Python distribution: lower case, with each run of
/// separators as one hyphen. Empty for what is no distribution name.
pub open spec fn python_identity(value: Seq<char>) -> Seq<char> {
    match pypi_form(take_at_most(value, MAX_NAME_CHARS as nat)) {
        Some((form, _)) => form,
        None => Seq::empty(),
    }
}

pub proof fn lemma_pypi_form_prefix(s: Seq<char>, n: int)
    requires
        0 <= n <= s.len(),
        pypi_form(s.take(n)) is None,
    ensures
        pypi_form(s) is None,
    decreases s.len() - n,
{
    if n < s.len() {
        assert(s.take(n + 1).drop_last() =~= s.take(n));
        lemma_pypi_form_prefix(s, n + 1);
    } else {
        assert(s.take(n) =~= s);
    }
}

pub fn pypi_identity(value: &str) -> (r: String)
    ensures
        r@ == python_identity(value@),
{
    let chars = chars_of(value);
    let n: usize = if chars.len() < MAX_NAME_CHARS {
        chars.len()
    } else {
        MAX_NAME_CHARS
    };
    let ghost all = take_at_most(value@, MAX_NAME_CHARS as nat);
    let mut result = String::new();
    let mut separator = false;
    assert(result@ =~= Seq::<char>::empty());
    for i in 0..n
        invariant
            n == all.len(),
            n <= chars@.len(),
            chars@ == value@,
            all == take_at_most(value@, MAX_NAME_CHARS as nat),
            pypi_form(all.take(i as int)) == Some((result@, separator)),
    {
        let c = chars[i];
        proof {
            assert(all.take(i + 1).drop_last() =~= all.take(i as int));
            assert(all.take(i + 1).last() == c);
        }
        if c == '-' || c == '_' || c == '.' {
            if !separator {
                result.push('-');
                separator = true;
            }
        } else if ascii_alphanumeric_char(c) {
            result.push(ascii_lower_char(c));
            separator = false;
        } else {
            proof {
                lemma_pypi_form_prefix(all, i + 1);
            }
            let nothing = String::new();
            assert(nothing@ =~= Seq::<char>::empty());
            return nothing;
        }
    }
    assert(all.take(n as int) =~= all);
    result
}

/// Whether a query names a candidate in the way of its manager, though not
/// literally.
pub open spec fn canonical_match(query: Seq<char>, c: CandidateView) -> bool {
    match c.manager {
        ManagerKind::Pip | ManagerKind::Uv => python_identity(query).len() > 0 && python_identity(
            query,
        ) == python_identity(c.match_name),
        ManagerKind::Pacman => same_identity(query, c.match_name),
        _ => false,
    }
}

pub fn canonical_identity_matches(query: &str, candidate: &Candidate) -> (r: bool)
    ensures
        r == canonical_match(query@, candidate@),
{
    match candidate.manager {
        ManagerKind::Pip | ManagerKind::Uv => {
            let identity = pypi_identity(query);
            !identity.as_str().is_empty() && same(
                identity.as_str(),
                pypi_identity(candidate.match_name.as_str()).as_str(),
            )
        },
        ManagerKind::Pacman => exact_identity(query, candidate.match_name.as_str()),
        _ => false,
    }
}

/// Whether a query is a candidate's own name. The match name of pacman leaves
/// out the repository, so there only the package counts.
pub open spec fn exact_match(query: Seq<char>, c: CandidateView) -> bool {
    same_identity(query, c.package) || (c.manager != ManagerKind::Pacman && same_identity(
        query,
        c.match_name,
    ))
}

/// The assessment of a candidate that the query identifies.
pub open spec fn identity_assessment(query: Seq<char>, c: CandidateView) -> Option<
    MatchAssessment,
> {
    if exact_match(query, c) {
        let score: u16 = if query == c.package || query == c.match_name {
            1_000
        } else {
            995
        };
        Some(MatchAssessment { kind: MatchKind::Exact, score, edit_distance: Some(0) })
    } else if canonical_match(query, c) {
        Some(
            MatchAssessment { kind: MatchKind::CanonicalExact, score: 980, edit_distance: Some(0) },
        )
    } else {
        None
    }
}

pub fn assess_identity(query: &str, candidate: &Candidate) -> (r: Option<MatchAssessment>)
    ensures
        r == identity_assessment(query@, candidate@),
{
    if exact_identity(query, candidate.package.as_str()) || (candidate.manager
        != ManagerKind::Pacman && exact_identity(query, candidate.match_name.as_str())) {
        let score: u16 = if same(query, candidate.package.as_str()) || same(
            query,
            candidate.match_name.as_str(),
        ) {
            1_000
        } else {
            995
        };
        return Some(MatchAssessment::new(MatchKind::Exact, score, Some(0)));
    }
    if canonical_identity_matches(query, candidate) {
        return Some(MatchAssessment::new(MatchKind::CanonicalExact, 980, Some(0)));
    }
    None
}

// ---------------------------------------------------------------------------
// Names
// ---------------------------------------------------------------------------

pub open spec fn min_of(a: int, b: int) -> int {
    if a < b {
        a
    } else {
        b
    }
}

/// The part of `span` that a text of `needle` characters makes up in one of
/// `haystack`, rounded down.
pub open spec fn share(needle: int, haystack: int, span: int) -> int {
    let whole = if haystack < 1 {
        1
    } else {
        haystack
    };
    (min_of(needle, whole) * span) / whole
}

pub proof fn lemma_share(needle: int, haystack: int, span: int)
    requires
        0 <= needle,
        0 <= span,
    ensures
        0 <= share(needle, haystack, span) <= span,
{
    let whole = if haystack < 1 {
        1
    } else {
        haystack
    };
    let part = min_of(needle, whole);
    assert(0 <= (part * span) / whole <= span) by (nonlinear_arith)
        requires
            0 <= part <= whole,
            0 <= span,
            whole >= 1,
    ;
}

fn part_of_span(needle: usize, haystack: usize, span: u16) -> (r: u16)
    ensures
        r == share(needle as int, haystack as int, span as int),
        r <= span,
{
    let whole: u128 = if haystack < 1 {
        1
    } else {
        haystack as u128
    };
    let part: u128 = if (needle as u128) < whole {
        needle as u128
    } else {
        whole
    };
    proof {
        lemma_share(needle as int, haystack as int, span as int);
        assert(part * span <= u64::MAX * u16::MAX) by (nonlinear_arith)
            requires
                0 <= part <= u64::MAX,
                0 <= span <= u16::MAX,
        ;
    }
    ((part * span as u128) / whole) as u16
}

pub fn coverage(needle: &str, haystack: &str, span: u16) -> (r: u16)
    ensures
        r == share(needle@.len() as int, haystack@.len() as int, span as int),
        r <= span,
{
    part_of_span(chars_of(needle).len(), chars_of(haystack).len(), span)
}

/// Whether the tokens of `package` hold, one after the other, tokens that begin
/// with those of `query`.
pub open spec fn match_in_order(query: Seq<Seq<char>>, package: Seq<Seq<char>>) -> bool
    decreases package.len(),
{
    if query.len() == 0 {
        true
    } else if package.len() == 0 {
        false
    } else if starts_with(package[0], query[0]) {
        match_in_order(query.drop_first(), package.drop_first())
    } else {
        match_in_order(query, package.drop_first())
    }
}

/// The first token from `from` on that is free and begins with `token`.
pub open spec fn first_free(
    token: Seq<char>,
    package: Seq<Seq<char>>,
    used: Seq<bool>,
    from: int,
) -> Option<int>
    decreases package.len() - from,
{
    if from < 0 || from >= package.len() {
        None
    } else if !used[from] && starts_with(package[from], token) {
        Some(from)
    } else {
        first_free(token, package, used, from + 1)
    }
}

/// Whether each token of `query` in turn finds a free token that begins with it.
pub open spec fn match_in_any_order(
    query: Seq<Seq<char>>,
    package: Seq<Seq<char>>,
    used: Seq<bool>,
) -> bool
    decreases query.len(),
{
    if query.len() == 0 {
        true
    } else {
        match first_free(query[0], package, used, 0) {
            Some(i) => match_in_any_order(query.drop_first(), package, used.update(i, true)),
            None => false,
        }
    }
}

/// No token of `n` is in use.
pub open spec fn all_free(n: nat) -> Seq<bool> {
    Seq::new(n, |i: int| false)
}

/// Whether every token of `query` begins a token of `package`, each another one,
/// and if so whether in order.
pub open spec fn tokens_matched(query: Seq<Seq<char>>, package: Seq<Seq<char>>) -> Option<bool> {
    if query.len() == 0 || package.len() == 0 {
        None
    } else if match_in_order(query, package) {
        Some(true)
    } else if match_in_any_order(query, package, all_free(package.len())) {
        Some(false)
    } else {
        None
    }
}

proof fn lemma_match_step(query: Seq<Seq<char>>, package: Seq<Seq<char>>, q: int, p: int)
    requires
        0 <= q < query.len(),
        0 <= p < package.len(),
    ensures
        match_in_order(query.skip(q), package.skip(p)) == match_in_order(
            if starts_with(package[p], query[q]) {
                query.skip(q + 1)
            } else {
                query.skip(q)
            },
            package.skip(p + 1),
        ),
{
    assert(query.skip(q).drop_first() =~= query.skip(q + 1));
    assert(package.skip(p).drop_first() =~= package.skip(p + 1));
}

fn tokens_in_order(query: &Vec<String>, package: &Vec<String>) -> (r: bool)
    ensures
        r == match_in_order(views(query@), views(package@)),
{
    let n: usize = query.len();
    let m: usize = package.len();
    let ghost qs = views(query@);
    let ghost ps = views(package@);
    let mut q: usize = 0;
    let mut p: usize = 0;
    assert(qs.skip(0) =~= qs);
    assert(ps.skip(0) =~= ps);
    while q < n && p < m
        invariant
            n == query@.len(),
            m == package@.len(),
            qs == views(query@),
            ps == views(package@),
            q <= n,
            p <= m,
            match_in_order(qs, ps) == match_in_order(qs.skip(q as int), ps.skip(p as int)),
        decreases m - p,
    {
        proof {
            lemma_match_step(qs, ps, q as int, p as int);
        }
        if text_starts_with(package[p].as_str(), query[q].as_str()) {
            q = q + 1;
        }
        p = p + 1;
    }
    q == n
}

fn find_free(token: &str, package: &Vec<String>, used: &Vec<bool>) -> (r: Option<usize>)
    requires
        used@.len() == package@.len(),
    ensures
        match r {
            Some(i) => i < package@.len() && first_free(token@, views(package@), used@, 0) == Some(
                i as int,
            ),
            None => first_free(token@, views(package@), used@, 0) is None,
        },
{
    let m: usize = package.len();
    let mut i: usize = 0;
    while i < m
        invariant
            m == package@.len(),
            used@.len() == m,
            i <= m,
            first_free(token@, views(package@), used@, 0) == first_free(
                token@,
                views(package@),
                used@,
                i as int,
            ),
        decreases m - i,
    {
        if !used[i] && text_starts_with(package[i].as_str(), token) {
            return Some(i);
        }
        i = i + 1;
    }
    None
}

fn tokens_in_any_order(query: &Vec<String>, package: &Vec<String>) -> (r: bool)
    ensures
        r == match_in_any_order(views(query@), views(package@), all_free(package@.len())),
{
    let n: usize = query.len();
    let m: usize = package.len();
    let ghost qs = views(query@);
    let ghost ps = views(package@);
    let mut used: Vec<bool> = Vec::new();
    while used.len() < m
        invariant
            m == package@.len(),
            used@.len() <= m,
            forall|j: int| 0 <= j < used@.len() ==> !(#[trigger] used@[j]),
        decreases m - used@.len(),
    {
        used.push(false);
    }
    let ghost start = all_free(package@.len());
    assert(used@ =~= start);
    assert(qs.skip(0) =~= qs);
    let mut q: usize = 0;
    while q < n
        invariant
            n == query@.len(),
            qs == views(query@),
            ps == views(package@),
            q <= n,
            used@.len() == package@.len(),
            start == all_free(package@.len()),
            match_in_any_order(qs, ps, start) == match_in_any_order(qs.skip(q as int), ps, used@),
        decreases n - q,
    {
        assert(qs.skip(q as int).drop_first() =~= qs.skip(q + 1));
        match find_free(query[q].as_str(), package, &used) {
            None => {
                return false;
            },
            Some(i) => {
                used.set(i, true);
            },
        }
        q = q + 1;
    }
    true
}

pub fn token_match(query: &Vec<String>, package: &Vec<String>) -> (r: Option<bool>)
    ensures
        r == tokens_matched(views(query@), views(package@)),
{
    if query.len() == 0 || package.len() == 0 {
        return None;
    }
    if tokens_in_order(query, package) {
        return Some(true);
    }
    if tokens_in_any_order(query, package) {
        return Some(false);
    }
    None
}

/// The assessment by the two names, from the strongest evidence down, as far as
/// no edits are needed.
pub open spec fn name_assessment(q: NormalizedView, p: NormalizedView) -> Option<MatchAssessment> {
    if q.joined == p.joined {
        Some(
            MatchAssessment {
                kind: MatchKind::NormalizedExact,
                score: 940,
                edit_distance: Some(0),
            },
        )
    } else if q.compact == p.compact {
        Some(MatchAssessment { kind: MatchKind::CompactExact, score: 920, edit_distance: Some(0) })
    } else if starts_with(p.joined, q.joined) || starts_with(p.compact, q.compact) {
        let score = (850 + share(q.compact.len() as int, p.compact.len() as int, 49)) as u16;
        Some(MatchAssessment { kind: MatchKind::Prefix, score, edit_distance: None })
    } else if tokens_matched(q.tokens, p.tokens) == Some(true) {
        Some(MatchAssessment { kind: MatchKind::Tokens, score: 839, edit_distance: None })
    } else if tokens_matched(q.tokens, p.tokens) == Some(false) {
        Some(MatchAssessment { kind: MatchKind::Tokens, score: 799, edit_distance: None })
    } else if contains(p.compact, q.compact) {
        let score = (700 + share(q.compact.len() as int, p.compact.len() as int, 59)) as u16;
        Some(MatchAssessment { kind: MatchKind::Contains, score, edit_distance: None })
    } else {
        None
    }
}

pub fn assess_name(query: &Normalized, package: &Normalized) -> (r: Option<MatchAssessment>)
    ensures
        r == name_assessment(query@, package@),
{
    if same(query.joined.as_str(), package.joined.as_str()) {
        return Some(MatchAssessment::new(MatchKind::NormalizedExact, 940, Some(0)));
    }
    if same(query.compact.as_str(), package.compact.as_str()) {
        return Some(MatchAssessment::new(MatchKind::CompactExact, 920, Some(0)));
    }
    if text_starts_with(package.joined.as_str(), query.joined.as_str()) || text_starts_with(
        package.compact.as_str(),
        query.compact.as_str(),
    ) {
        let score: u16 = 850 + coverage(query.compact.as_str(), package.compact.as_str(), 49);
        return Some(MatchAssessment::new(MatchKind::Prefix, score, None));
    }
    if let Some(ordered) = token_match(&query.tokens, &package.tokens) {
        // Every token of the query is matched, so the whole span is earned.
        let score: u16 = if ordered {
            800 + 39
        } else {
            770 + 29
        };
        return Some(MatchAssessment::new(MatchKind::Tokens, score, None));
    }
    if text_contains(package.compact.as_str(), query.compact.as_str()) {
        let score: u16 = 700 + coverage(query.compact.as_str(), package.compact.as_str(), 59);
        return Some(MatchAssessment::new(MatchKind::Contains, score, None));
    }
    None
}

// ---------------------------------------------------------------------------
// Edits
// ---------------------------------------------------------------------------

/// Whether two texts end in the same two characters, in the other order.
pub open spec fn end_swapped(a: Seq<char>, b: Seq<char>) -> bool {
    &&& a.len() > 1
    &&& b.len() > 1
    &&& a.last() != b.last()
    &&& a.last() == b[b.len() - 2]
    &&& a[a.len() - 2] == b.last()
}

/// The optimal string alignment distance: the least number of characters to take
/// out, put in, replace or swap with their neighbour that makes one text of the
/// other, where no place is edited twice.
pub open spec fn alignment_distance(a: Seq<char>, b: Seq<char>) -> nat
    decreases a.len() + b.len(),
{
    if a.len() == 0 {
        b.len()
    } else if b.len() == 0 {
        a.len()
    } else {
        let taken = alignment_distance(a.drop_last(), b) + 1;
        let put = alignment_distance(a, b.drop_last()) + 1;
        let kept = alignment_distance(a.drop_last(), b.drop_last()) + if a.last() == b.last() {
            0nat
        } else {
            1nat
        };
        let edited = least(kept, least(taken, put));
        if end_swapped(a, b) {
            least(
                edited,
                alignment_distance(a.drop_last().drop_last(), b.drop_last().drop_last()) + 1,
            )
        } else {
            edited
        }
    }
}

pub open spec fn least(a: nat, b: nat) -> nat {
    if a < b {
        a
    } else {
        b
    }
}

/// `strsim::osa_distance`. Claimed: the result is the optimal string alignment
/// distance.
#[verifier::external_body]
fn osa(a: &str, b: &str) -> (r: usize)
    ensures
        r == alignment_distance(a@, b@),
{
    strsim::osa_distance(a, b)
}

pub open spec fn gap(a: int, b: int) -> int {
    if a < b {
        b - a
    } else {
        a - b
    }
}

/// The most edits that a query of `length` characters may be away.
pub open spec fn edit_limit(length: int) -> int {
    if length <= 6 {
        1
    } else if length <= 12 {
        2
    } else {
        3
    }
}

/// Those of `names` whose length is at most `limit` away from `length`.
pub open spec fn near(names: Seq<Seq<char>>, length: int, limit: int) -> Seq<Seq<char>>
    decreases names.len(),
{
    if names.len() == 0 {
        Seq::empty()
    } else if gap(length, names.last().len() as int) <= limit {
        near(names.drop_last(), length, limit).push(names.last())
    } else {
        near(names.drop_last(), length, limit)
    }
}

/// The names that the edits to the query are counted from: the compact name and
/// its tokens, as far as their length allows. None for a short query.
pub open spec fn edit_names(q: NormalizedView, p: NormalizedView) -> Seq<Seq<char>> {
    let length = q.compact.len() as int;
    if length < 4 {
        Seq::empty()
    } else {
        near(seq![p.compact] + p.tokens, length, edit_limit(length))
    }
}

/// The least of `distances` that is at most `limit`.
pub open spec fn closest(distances: Seq<nat>, limit: int) -> Option<usize>
    decreases distances.len(),
{
    if distances.len() == 0 {
        None
    } else {
        let rest = closest(distances.drop_last(), limit);
        let last = distances.last();
        if last > limit {
            rest
        } else if rest is Some && rest->0 <= last {
            rest
        } else {
            Some(last as usize)
        }
    }
}

/// Numbers of edits.
pub open spec fn counts(distances: Seq<usize>) -> Seq<nat> {
    distances.map_values(|distance: usize| distance as nat)
}

/// How many edits a query is away from a package name, if few enough.
pub open spec fn edits(q: NormalizedView, p: NormalizedView) -> Option<usize> {
    closest(
        edit_names(q, p).map_values(|name: Seq<char>| alignment_distance(q.compact, name)),
        edit_limit(q.compact.len() as int),
    )
}

fn length_gap(a: usize, b: usize) -> (r: usize)
    ensures
        r == gap(a as int, b as int),
{
    if a < b {
        b - a
    } else {
        a - b
    }
}

fn edit_limit_of(length: usize) -> (r: usize)
    ensures
        r == edit_limit(length as int),
        r <= 3,
{
    if length <= 6 {
        1
    } else if length <= 12 {
        2
    } else {
        3
    }
}

/// The names that the edits to the query are counted from.
pub fn names_within_reach(query: &Normalized, package: &Normalized) -> (r: Vec<String>)
    ensures
        views(r@) == edit_names(query@, package@),
{
    let length: usize = chars_of(query.compact.as_str()).len();
    let mut r: Vec<String> = Vec::new();
    assert(views(r@) =~= Seq::<Seq<char>>::empty());
    if length < 4 {
        return r;
    }
    let limit: usize = edit_limit_of(length);
    let ghost names = seq![package@.compact] + package@.tokens;
    let n: usize = package.tokens.len();
    assert(names.take(1).drop_last() =~= Seq::<Seq<char>>::empty());
    assert(near(names.take(1).drop_last(), length as int, limit as int) =~= Seq::<
        Seq<char>,
    >::empty());
    assert(names.take(1).last() == package@.compact);
    if length_gap(length, chars_of(package.compact.as_str()).len()) <= limit {
        let ghost before = r@;
        let name = package.compact.clone();
        r.push(name);
        proof {
            lemma_views_push(before, name);
        }
    }
    assert(views(r@) == near(names.take(1), length as int, limit as int));
    for i in 0..n
        invariant
            n == package.tokens@.len(),
            names == seq![package@.compact] + package@.tokens,
            views(r@) == near(names.take(i + 1), length as int, limit as int),
    {
        proof {
            assert(names.take(i + 2).drop_last() =~= names.take(i + 1));
            assert(names.take(i + 2).last() == package@.tokens[i as int]);
        }
        if length_gap(length, chars_of(package.tokens[i].as_str()).len()) <= limit {
            let ghost before = r@;
            let name = package.tokens[i].clone();
            r.push(name);
            proof {
                lemma_views_push(before, name);
            }
        }
    }
    assert(names.take(n + 1) =~= names);
    r
}

/// The least of `distances` that a query of `length` characters may be away.
pub fn closest_distance(distances: &Vec<usize>, length: usize) -> (r: Option<usize>)
    ensures
        r == closest(counts(distances@), edit_limit(length as int)),
{
    let ghost all = counts(distances@);
    let limit: usize = edit_limit_of(length);
    let mut best: Option<usize> = None;
    let n: usize = distances.len();
    for i in 0..n
        invariant
            n == distances@.len(),
            limit == edit_limit(length as int),
            all == counts(distances@),
            best == closest(all.take(i as int), limit as int),
    {
        assert(all.take(i + 1).drop_last() =~= all.take(i as int));
        assert(all.take(i + 1).last() == distances@[i as int] as nat);
        let distance: usize = distances[i];
        if distance <= limit {
            best = match best {
                Some(known) => if known <= distance {
                    Some(known)
                } else {
                    Some(distance)
                },
                None => Some(distance),
            };
        }
    }
    assert(all.take(n as int) =~= all);
    best
}

pub fn bounded_edit_distance(query: &Normalized, package: &Normalized) -> (r: Option<usize>)
    ensures
        r == edits(query@, package@),
{
    let names = names_within_reach(query, package);
    let ghost all = views(names@).map_values(
        |name: Seq<char>| alignment_distance(query@.compact, name),
    );
    let mut distances: Vec<usize> = Vec::new();
    let n: usize = names.len();
    assert(counts(distances@) =~= all.take(0));
    for i in 0..n
        invariant
            n == names@.len(),
            all == views(names@).map_values(
                |name: Seq<char>| alignment_distance(query@.compact, name),
            ),
            counts(distances@) == all.take(i as int),
    {
        let distance: usize = osa(query.compact.as_str(), names[i].as_str());
        let ghost before = distances@;
        distances.push(distance);
        assert(all[i as int] == distance as nat);
        assert(counts(distances@) =~= counts(before).push(distance as nat));
        assert(counts(distances@) =~= all.take(i + 1));
    }
    assert(all.take(n as int) =~= all);
    closest_distance(&distances, chars_of(query.compact.as_str()).len())
}

/// The assessment of a name that is `distance` edits away.
pub open spec fn edit_assessment(
    q: NormalizedView,
    p: NormalizedView,
    distance: usize,
) -> MatchAssessment {
    let penalty = min_of(
        distance * 35 + gap(q.compact.len() as int, p.compact.len() as int) * 2,
        119,
    );
    MatchAssessment {
        kind: MatchKind::Edit,
        score: (679 - penalty) as u16,
        edit_distance: Some(distance),
    }
}

pub fn assess_edit(query: &Normalized, package: &Normalized, distance: usize) -> (r: MatchAssessment)
    ensures
        r == edit_assessment(query@, package@, distance),
{
    let apart: usize = length_gap(
        chars_of(query.compact.as_str()).len(),
        chars_of(package.compact.as_str()).len(),
    );
    let penalty: u16 = if distance > 3 || apart > 59 {
        119
    } else {
        let sum: u16 = distance as u16 * 35 + apart as u16 * 2;
        if sum < 119 {
            sum
        } else {
            119
        }
    };
    MatchAssessment::new(MatchKind::Edit, 679 - penalty, Some(distance))
}

// ---------------------------------------------------------------------------
// Descriptions
// ---------------------------------------------------------------------------

/// Whether one of `tokens` begins with `prefix`.
pub open spec fn begins_one(tokens: Seq<Seq<char>>, prefix: Seq<char>) -> bool {
    exists|i: int| 0 <= i < tokens.len() && starts_with(#[trigger] tokens[i], prefix)
}

/// How many of `query` begin one of `tokens`.
pub open spec fn begun(query: Seq<Seq<char>>, tokens: Seq<Seq<char>>) -> nat
    decreases query.len(),
{
    if query.len() == 0 {
        0
    } else {
        begun(query.drop_last(), tokens) + if begins_one(tokens, query.last()) {
            1nat
        } else {
            0nat
        }
    }
}

/// The assessment by the description alone.
pub open spec fn description_match(q: NormalizedView, d: Option<NormalizedView>) -> MatchAssessment {
    match d {
        None => unmatched(),
        Some(d) => if q.tokens.len() == 0 {
            unmatched()
        } else if contains(d.joined, q.joined) || contains(d.compact, q.compact) {
            MatchAssessment { kind: MatchKind::Description, score: 260, edit_distance: None }
        } else if begun(q.tokens, d.tokens) == 0 {
            unmatched()
        } else if begun(q.tokens, d.tokens) == q.tokens.len() {
            MatchAssessment { kind: MatchKind::Description, score: 249, edit_distance: None }
        } else {
            let score = (100 + share(
                begun(q.tokens, d.tokens) as int,
                q.tokens.len() as int,
                99,
            )) as u16;
            MatchAssessment { kind: MatchKind::Description, score, edit_distance: None }
        },
    }
}

fn one_begins(tokens: &Vec<String>, prefix: &str) -> (r: bool)
    ensures
        r == begins_one(views(tokens@), prefix@),
{
    let n: usize = tokens.len();
    for i in 0..n
        invariant
            n == tokens@.len(),
            forall|j: int|
                0 <= j < i ==> !starts_with(#[trigger] views(tokens@)[j], prefix@),
    {
        if text_starts_with(tokens[i].as_str(), prefix) {
            assert(starts_with(views(tokens@)[i as int], prefix@));
            return true;
        }
    }
    false
}

pub proof fn lemma_begun(query: Seq<Seq<char>>, tokens: Seq<Seq<char>>)
    ensures
        begun(query, tokens) <= query.len(),
    decreases query.len(),
{
    if query.len() > 0 {
        lemma_begun(query.drop_last(), tokens);
    }
}

pub fn description_assessment(query: &Normalized, description: &Option<Normalized>) -> (r:
    MatchAssessment)
    ensures
        r == description_match(query@, option_view(*description)),
{
    let description = match description {
        Some(description) => description,
        None => {
            return MatchAssessment::new(MatchKind::Unmatched, 0, None);
        },
    };
    if query.tokens.len() == 0 {
        return MatchAssessment::new(MatchKind::Unmatched, 0, None);
    }
    if text_contains(description.joined.as_str(), query.joined.as_str()) || text_contains(
        description.compact.as_str(),
        query.compact.as_str(),
    ) {
        return MatchAssessment::new(MatchKind::Description, 260, None);
    }
    let ghost qs = query@.tokens;
    let ghost ds = description@.tokens;
    let mut matched: usize = 0;
    let n: usize = query.tokens.len();
    for i in 0..n
        invariant
            n == query.tokens@.len(),
            qs == query@.tokens,
            ds == description@.tokens,
            matched <= i,
            matched == begun(qs.take(i as int), ds),
    {
        proof {
            assert(qs.take(i + 1).drop_last() =~= qs.take(i as int));
            assert(qs.take(i + 1).last() == query.tokens@[i as int]@);
        }
        if one_begins(&description.tokens, query.tokens[i].as_str()) {
            matched = matched + 1;
        }
    }
    assert(qs.take(n as int) =~= qs);
    if matched == 0 {
        return MatchAssessment::new(MatchKind::Unmatched, 0, None);
    }
    let score: u16 = if matched == n {
        220 + 29
    } else {
        100 + part_of_span(matched, n, 99)
    };
    MatchAssessment::new(MatchKind::Description, score, None)
}

// ---------------------------------------------------------------------------
// Assessment
// ---------------------------------------------------------------------------

/// What a description is reduced to.
pub open spec fn normalized_description(description: Option<Seq<char>>) -> Option<NormalizedView> {
    match description {
        Some(text) => Some(normalize(text, MAX_DESCRIPTION_CHARS as nat)),
        None => None,
    }
}

/// The assessment by normalized names, edits and description.
pub open spec fn similarity(
    q: NormalizedView,
    p: NormalizedView,
    d: Option<NormalizedView>,
    edits: Option<usize>,
) -> MatchAssessment {
    if q.compact.len() == 0 || p.compact.len() == 0 {
        description_match(q, d)
    } else {
        match name_assessment(q, p) {
            Some(assessment) => assessment,
            None => match edits {
                Some(distance) => edit_assessment(q, p, distance),
                None => description_match(q, d),
            },
        }
    }
}

/// How well `c` answers `query`.
pub open spec fn assessment(query: Seq<char>, c: CandidateView) -> MatchAssessment {
    match identity_assessment(query, c) {
        Some(assessment) => assessment,
        None => {
            let q = normalize(query, MAX_QUERY_CHARS as nat);
            let p = normalize(c.match_name, MAX_NAME_CHARS as nat);
            similarity(q, p, normalized_description(c.description), edits(q, p))
        },
    }
}

fn normalize_description(description: &Option<String>) -> (r: Option<Normalized>)
    ensures
        option_view(r) == normalized_description(option_view(*description)),
{
    match description {
        Some(text) => Some(Normalized::new(text.as_str(), MAX_DESCRIPTION_CHARS)),
        None => None,
    }
}

/// How well `candidate` answers `query`.
pub fn assess(query: &str, candidate: &Candidate) -> (r: MatchAssessment)
    ensures
        r == assessment(query@, candidate@),
{
    if let Some(assessment) = assess_identity(query, candidate) {
        return assessment;
    }
    let query_name = Normalized::new(query, MAX_QUERY_CHARS);
    let package_name = Normalized::new(candidate.match_name.as_str(), MAX_NAME_CHARS);
    if !query_name.compact.as_str().is_empty() && !package_name.compact.as_str().is_empty() {
        if let Some(assessment) = assess_name(&query_name, &package_name) {
            return assessment;
        }
        if let Some(distance) = bounded_edit_distance(&query_name, &package_name) {
            return assess_edit(&query_name, &package_name, distance);
        }
    }
    description_assessment(&query_name, &normalize_description(&candidate.description))
}

/// Notes on `candidate` how well it answers `query`.
pub fn apply(query: &str, candidate: &mut Candidate)
    ensures
        final(candidate)@ == (CandidateView {
            match_kind: assessment(query@, old(candidate)@).kind,
            score: assessment(query@, old(candidate)@).score,
            ..old(candidate)@
        }),
{
    let assessment = assess(query, candidate);
    candidate.match_kind = assessment.kind;
    candidate.score = assessment.score;
}

// ---------------------------------------------------------------------------
// Order
// ---------------------------------------------------------------------------

/// An optional text as a word: nothing comes before any text.
pub open spec fn option_word(o: Option<Seq<char>>) -> Seq<int> {
    match o {
        None => Seq::empty(),
        Some(s) => seq![0int] + codes(s),
    }
}

pub open spec fn flag(b: bool) -> int {
    if b {
        1
    } else {
        0
    }
}

/// What candidates are ordered by: the query, then the better match first, then
/// what tells equal matches apart.
pub open spec fn candidate_key(c: CandidateView) -> Seq<Seq<int>> {
    seq![codes(c.query)] + (seq![seq![0 - match_rank(c.match_kind)]] + (seq![seq![0 - c.score]] + (
    seq![seq![0 - flag(c.verified)]] + (seq![seq![manager_rank(c.manager)]] + (seq![
        codes(c.manager_instance_id),
    ] + (seq![codes(c.package)] + (seq![option_word(c.version)] + (seq![codes(c.source)]
        + Seq::empty()))))))))
}

pub open spec fn candidate_leq(a: CandidateView, b: CandidateView) -> bool {
    key_leq(candidate_key(a), candidate_key(b))
}

pub(crate) fn compare_option(a: &Option<String>, b: &Option<String>) -> (r: Ordering)
    ensures
        r == word_order(option_word(option_view(*a)), option_word(option_view(*b))),
{
    match (a, b) {
        (Some(x), Some(y)) => {
            proof {
                assert(option_word(option_view(*a)).drop_first() =~= codes(x@));
                assert(option_word(option_view(*b)).drop_first() =~= codes(y@));
            }
            compare_text(x.as_str(), y.as_str())
        },
        (Some(_), None) => Ordering::Greater,
        (None, Some(_)) => Ordering::Less,
        (None, None) => Ordering::Equal,
    }
}

pub(crate) fn flag_number(b: bool) -> (r: u16)
    ensures
        r == flag(b),
{
    if b {
        1
    } else {
        0
    }
}

/// Opens up the comparison of two candidates, word by word.
proof fn lemma_candidate_key(a: CandidateView, b: CandidateView)
    ensures
        key_order(candidate_key(a), candidate_key(b)) == {
            let query = word_order(codes(a.query), codes(b.query));
            let kind = word_order(
                seq![0 - match_rank(a.match_kind)],
                seq![0 - match_rank(b.match_kind)],
            );
            let score = word_order(seq![0 - a.score], seq![0 - b.score]);
            let verified = word_order(seq![0 - flag(a.verified)], seq![0 - flag(b.verified)]);
            let manager = word_order(seq![manager_rank(a.manager)], seq![manager_rank(b.manager)]);
            let instance = word_order(codes(a.manager_instance_id), codes(b.manager_instance_id));
            let package = word_order(codes(a.package), codes(b.package));
            let version = word_order(option_word(a.version), option_word(b.version));
            if query != Ordering::Equal {
                query
            } else if kind != Ordering::Equal {
                kind
            } else if score != Ordering::Equal {
                score
            } else if verified != Ordering::Equal {
                verified
            } else if manager != Ordering::Equal {
                manager
            } else if instance != Ordering::Equal {
                instance
            } else if package != Ordering::Equal {
                package
            } else if version != Ordering::Equal {
                version
            } else {
                word_order(codes(a.source), codes(b.source))
            }
        },
{
    let end: Seq<Seq<int>> = Seq::empty();
    let a9 = seq![codes(a.source)] + end;
    let b9 = seq![codes(b.source)] + end;
    let a8 = seq![option_word(a.version)] + a9;
    let b8 = seq![option_word(b.version)] + b9;
    let a7 = seq![codes(a.package)] + a8;
    let b7 = seq![codes(b.package)] + b8;
    let a6 = seq![codes(a.manager_instance_id)] + a7;
    let b6 = seq![codes(b.manager_instance_id)] + b7;
    let a5 = seq![seq![manager_rank(a.manager)]] + a6;
    let b5 = seq![seq![manager_rank(b.manager)]] + b6;
    let a4 = seq![seq![0 - flag(a.verified)]] + a5;
    let b4 = seq![seq![0 - flag(b.verified)]] + b5;
    let a3 = seq![seq![0 - a.score]] + a4;
    let b3 = seq![seq![0 - b.score]] + b4;
    let a2 = seq![seq![0 - match_rank(a.match_kind)]] + a3;
    let b2 = seq![seq![0 - match_rank(b.match_kind)]] + b3;
    lemma_key_order_step(codes(a.query), a2, codes(b.query), b2);
    lemma_key_order_step(
        seq![0 - match_rank(a.match_kind)],
        a3,
        seq![0 - match_rank(b.match_kind)],
        b3,
    );
    lemma_key_order_step(seq![0 - a.score], a4, seq![0 - b.score], b4);
    lemma_key_order_step(seq![0 - flag(a.verified)], a5, seq![0 - flag(b.verified)], b5);
    lemma_key_order_step(seq![manager_rank(a.manager)], a6, seq![manager_rank(b.manager)], b6);
    lemma_key_order_step(codes(a.manager_instance_id), a7, codes(b.manager_instance_id), b7);
    lemma_key_order_step(codes(a.package), a8, codes(b.package), b8);
    lemma_key_order_step(option_word(a.version), a9, option_word(b.version), b9);
    lemma_key_order_step(codes(a.source), end, codes(b.source), end);
}

pub fn compare_candidates(a: &Candidate, b: &Candidate) -> (r: Ordering)
    ensures
        r == key_order(candidate_key(a@), candidate_key(b@)),
{
    proof {
        lemma_candidate_key(a@, b@);
    }
    match compare_text(a.query.as_str(), b.query.as_str()) {
        Ordering::Equal => {},
        order => {
            return order;
        },
    }
    match compare_number(b.match_kind.rank(), a.match_kind.rank()) {
        Ordering::Equal => {},
        order => {
            return order;
        },
    }
    match compare_number(b.score, a.score) {
        Ordering::Equal => {},
        order => {
            return order;
        },
    }
    match compare_number(flag_number(b.verified), flag_number(a.verified)) {
        Ordering::Equal => {},
        order => {
            return order;
        },
    }
    match compare_number(a.manager.rank(), b.manager.rank()) {
        Ordering::Equal => {},
        order => {
            return order;
        },
    }
    match compare_text(a.manager_instance_id.as_str(), b.manager_instance_id.as_str()) {
        Ordering::Equal => {},
        order => {
            return order;
        },
    }
    match compare_text(a.package.as_str(), b.package.as_str()) {
        Ordering::Equal => {},
        order => {
            return order;
        },
    }
    match compare_option(&a.version, &b.version) {
        Ordering::Equal => {},
        order => {
            return order;
        },
    }
    compare_text(a.source.as_str(), b.source.as_str())
}

fn candidate_first(a: &Candidate, b: &Candidate) -> (r: bool)
    ensures
        r == candidate_leq(a@, b@),
{
    match compare_candidates(a, b) {
        Ordering::Greater => false,
        _ => true,
    }
}

/// The candidates in their order.
pub open spec fn sorted_candidates(candidates: Seq<CandidateView>) -> Seq<CandidateView> {
    stable_sort(candidates, |a: CandidateView, b: CandidateView| candidate_leq(a, b))
}

pub fn sort_candidates(candidates: &mut Vec<Candidate>)
    ensures
        views(final(candidates)@) == sorted_candidates(views(old(candidates)@)),
{
    let mut items: Vec<Candidate> = Vec::new();
    std::mem::swap(&mut items, candidates);
    let ghost leq = |a: CandidateView, b: CandidateView| candidate_leq(a, b);
    *candidates = sort_by_view(items, candidate_first, Ghost(leq));
}

/// Whether the candidate is the very package that was asked for.
pub open spec fn identity_exact(c: CandidateView) -> bool {
    c.match_kind == MatchKind::Exact || c.match_kind == MatchKind::CanonicalExact
}

/// Whether the candidate may be taken without asking.
pub open spec fn unattended_exact(c: CandidateView) -> bool {
    c.verified && identity_exact(c)
}

pub fn is_identity_exact(candidate: &Candidate) -> (r: bool)
    ensures
        r == identity_exact(candidate@),
{
    candidate.match_kind == MatchKind::Exact || candidate.match_kind == MatchKind::CanonicalExact
}

pub fn is_unattended_exact(candidate: &Candidate) -> (r: bool)
    ensures
        r == unattended_exact(candidate@),
{
    candidate.verified && is_identity_exact(candidate)
}

// ---------------------------------------------------------------------------
// Fallback queries
// ---------------------------------------------------------------------------

/// `terms` with `term`, unless it is short, already there or the original query.
pub open spec fn with_term(
    terms: Seq<Seq<char>>,
    term: Seq<char>,
    original: Seq<char>,
) -> Seq<Seq<char>> {
    if term != original && term.len() >= 3 && !terms.contains(term) {
        terms.push(term)
    } else {
        terms
    }
}

/// `terms` filled up from `more` until there are enough.
pub open spec fn with_terms(
    terms: Seq<Seq<char>>,
    more: Seq<Seq<char>>,
    original: Seq<char>,
) -> Seq<Seq<char>>
    decreases more.len(),
{
    if more.len() == 0 || terms.len() >= MAX_FALLBACK_QUERIES {
        terms
    } else {
        with_terms(with_term(terms, more[0], original), more.drop_first(), original)
    }
}

/// The tokens of three characters and more.
pub open spec fn long_tokens(tokens: Seq<Seq<char>>) -> Seq<Seq<char>>
    decreases tokens.len(),
{
    if tokens.len() == 0 {
        Seq::empty()
    } else if tokens.last().len() >= 3 {
        long_tokens(tokens.drop_last()).push(tokens.last())
    } else {
        long_tokens(tokens.drop_last())
    }
}

/// The tokens to search for in place of several, the longest first.
pub open spec fn token_terms(q: NormalizedView) -> Seq<Seq<char>> {
    if q.tokens.len() > 1 {
        stable_sort(long_tokens(q.tokens), |a: Seq<char>, b: Seq<char>| a.len() >= b.len())
    } else {
        Seq::empty()
    }
}

/// Pieces of a name: from its beginning, its middle and its end.
pub open spec fn grams(compact: Seq<char>) -> Seq<Seq<char>> {
    let size: int = if compact.len() >= 9 {
        4
    } else {
        3
    };
    if compact.len() > size {
        let last = compact.len() - size;
        seq![
            compact.subrange(0, size),
            compact.subrange(last / 2, last / 2 + size),
            compact.subrange(last, last + size),
        ]
    } else {
        Seq::empty()
    }
}

/// The queries to try where a query found nothing.
pub open spec fn fallback(q: NormalizedView) -> Seq<Seq<char>> {
    with_terms(with_terms(Seq::empty(), token_terms(q), q.compact), grams(q.compact), q.compact)
}

pub fn push_unique_term(terms: &mut Vec<String>, term: String, original: &str)
    ensures
        views(final(terms)@) == with_term(views(old(terms)@), term@, original@),
{
    proof {
        lemma_views_push(terms@, term);
    }
    if !same(term.as_str(), original) && chars_of(term.as_str()).len() >= 3 && !has_text(
        terms,
        term.as_str(),
    ) {
        terms.push(term);
    }
}

fn push_terms(terms: &mut Vec<String>, more: &Vec<String>, original: &str)
    ensures
        views(final(terms)@) == with_terms(views(old(terms)@), views(more@), original@),
{
    let n: usize = more.len();
    let mut i: usize = 0;
    let ghost all = views(more@);
    assert(all.skip(0) =~= all);
    while i < n && terms.len() < MAX_FALLBACK_QUERIES
        invariant
            n == more@.len(),
            i <= n,
            all == views(more@),
            with_terms(views(terms@), all.skip(i as int), original@) == with_terms(
                views(old(terms)@),
                all,
                original@,
            ),
        decreases n - i,
    {
        assert(all.skip(i as int).drop_first() =~= all.skip(i + 1));
        assert(all.skip(i as int)[0] == more@[i as int]@);
        push_unique_term(terms, more[i].clone(), original);
        i = i + 1;
    }
}

fn select_long(tokens: &Vec<String>) -> (r: Vec<String>)
    ensures
        views(r@) == long_tokens(views(tokens@)),
{
    let ghost all = views(tokens@);
    let mut r: Vec<String> = Vec::new();
    let n: usize = tokens.len();
    assert(views(r@) =~= long_tokens(all.take(0)));
    for i in 0..n
        invariant
            n == tokens@.len(),
            all == views(tokens@),
            views(r@) == long_tokens(all.take(i as int)),
    {
        proof {
            assert(all.take(i + 1).drop_last() =~= all.take(i as int));
            assert(all.take(i + 1).last() == tokens@[i as int]@);
        }
        if chars_of(tokens[i].as_str()).len() >= 3 {
            let ghost before = r@;
            let token = tokens[i].clone();
            r.push(token);
            proof {
                lemma_views_push(before, token);
            }
        }
    }
    assert(all.take(n as int) =~= all);
    r
}

fn not_shorter(a: &String, b: &String) -> (r: bool)
    ensures
        r == (a@.len() >= b@.len()),
{
    chars_of(a.as_str()).len() >= chars_of(b.as_str()).len()
}

fn name_pieces(compact: &str) -> (r: Vec<String>)
    ensures
        views(r@) == grams(compact@),
{
    let characters = chars_of(compact);
    let size: usize = if characters.len() >= 9 {
        4
    } else {
        3
    };
    let mut r: Vec<String> = Vec::new();
    if characters.len() > size {
        let last: usize = characters.len() - size;
        r.push(text_between(&characters, 0, size));
        r.push(text_between(&characters, last / 2, last / 2 + size));
        r.push(text_between(&characters, last, last + size));
    }
    assert(views(r@) =~= grams(compact@));
    r
}

/// The queries to try in place of the given name.
pub fn fallback_terms(name: &Normalized) -> (r: Vec<String>)
    ensures
        views(r@) == fallback(name@),
{
    let mut terms: Vec<String> = Vec::new();
    assert(views(terms@) =~= Seq::<Seq<char>>::empty());
    if name.tokens.len() > 1 {
        let ghost leq = |a: Seq<char>, b: Seq<char>| a.len() >= b.len();
        let tokens = sort_by_view(select_long(&name.tokens), not_shorter, Ghost(leq));
        push_terms(&mut terms, &tokens, name.compact.as_str());
    }
    push_terms(&mut terms, &name_pieces(name.compact.as_str()), name.compact.as_str());
    terms
}

/// The queries to try where `query` found nothing.
pub fn fallback_queries(query: &str) -> (r: Vec<String>)
    ensures
        views(r@) == fallback(normalize(query@, MAX_QUERY_CHARS as nat)),
{
    fallback_terms(&Normalized::new(query, MAX_QUERY_CHARS))
}

// ---------------------------------------------------------------------------
// Laws
// ---------------------------------------------------------------------------

/// The scores that a kind of match can have, the lowest and the highest.
pub open spec fn score_band(kind: MatchKind) -> (int, int) {
    match kind {
        MatchKind::Unmatched => (0, 0),
        MatchKind::Provider => (1, 99),
        MatchKind::Description => (100, 299),
        MatchKind::Edit => (560, 679),
        MatchKind::Contains => (700, 759),
        MatchKind::Tokens => (770, 839),
        MatchKind::Prefix => (850, 899),
        MatchKind::CompactExact => (920, 920),
        MatchKind::NormalizedExact => (940, 940),
        MatchKind::CanonicalExact => (980, 980),
        MatchKind::Exact => (995, 1_000),
    }
}

/// Two texts are no edit apart if and only if they are equal.
pub proof fn law_no_edits_between_equals(a: Seq<char>, b: Seq<char>)
    ensures
        alignment_distance(a, b) == 0 <==> a == b,
    decreases a.len() + b.len(),
{
    if a.len() > 0 && b.len() > 0 {
        let u = a.drop_last();
        let v = b.drop_last();
        law_no_edits_between_equals(u, v);
        assert(a =~= u.push(a.last()));
        assert(b =~= v.push(b.last()));
    } else if a.len() == 0 && b.len() == 0 {
        assert(a =~= b);
    }
}

/// Texts are at least as many edits apart as they differ in length, and the number
/// of edits is the same both ways.
pub proof fn law_edits_bound_the_length(a: Seq<char>, b: Seq<char>)
    ensures
        gap(a.len() as int, b.len() as int) <= alignment_distance(a, b),
        alignment_distance(a, b) == alignment_distance(b, a),
    decreases a.len() + b.len(),
{
    if a.len() > 0 && b.len() > 0 {
        let u = a.drop_last();
        let v = b.drop_last();
        law_edits_bound_the_length(u, b);
        law_edits_bound_the_length(a, v);
        law_edits_bound_the_length(u, v);
        if end_swapped(a, b) {
            law_edits_bound_the_length(u.drop_last(), v.drop_last());
        }
    }
}

/// A part of a text that is made of parts occurs in it, and is shorter where there
/// are others and none is empty.
proof fn lemma_concat_part(parts: Seq<Seq<char>>, k: int)
    requires
        0 <= k < parts.len(),
    ensures
        contains(concat(parts), parts[k]),
        (forall|i: int| 0 <= i < parts.len() ==> (#[trigger] parts[i]).len() > 0) && parts.len()
            > 1 ==> parts[k].len() < concat(parts).len(),
    decreases parts.len(),
{
    let rest = parts.drop_last();
    let s = concat(parts);
    let filled = forall|i: int| 0 <= i < parts.len() ==> (#[trigger] parts[i]).len() > 0;
    if filled {
        assert forall|i: int| 0 <= i < rest.len() implies (#[trigger] rest[i]).len() > 0 by {
            assert(rest[i] == parts[i]);
        }
        assert(parts[parts.len() - 1].len() > 0);
    }
    if k < rest.len() {
        lemma_concat_part(rest, k);
        let i = choose|i: int| occurs_at(concat(rest), rest[k], i);
        assert(s.subrange(i, i + parts[k].len()) =~= concat(rest).subrange(i, i + parts[k].len()));
        assert(occurs_at(s, parts[k], i));
    } else {
        let i = concat(rest).len() as int;
        assert(s.subrange(i, i + parts[k].len()) =~= parts[k]);
        assert(occurs_at(s, parts[k], i));
        if rest.len() > 0 && filled {
            lemma_concat_part(rest, 0);
            assert(rest[0].len() > 0);
            let j = choose|j: int| occurs_at(concat(rest), rest[0], j);
            assert(concat(rest).len() > 0);
        }
    }
}

/// Where the names do not match without edits, none of those that edits are counted
/// from is the query.
proof fn lemma_edit_names_differ(q: NormalizedView, p: NormalizedView, name: Seq<char>)
    requires
        p == of_tokens(p.tokens),
        name_assessment(q, p) is None,
        edit_names(q, p).contains(name),
    ensures
        name != q.compact,
{
    lemma_near(seq![p.compact] + p.tokens, q.compact.len() as int, edit_limit(
        q.compact.len() as int,
    ), name);
    let all = seq![p.compact] + p.tokens;
    let k = choose|k: int| 0 <= k < all.len() && all[k] == name;
    if k > 0 {
        assert(name == p.tokens[k - 1]);
        lemma_concat_part(p.tokens, k - 1);
    }
}

proof fn lemma_near(names: Seq<Seq<char>>, length: int, limit: int, name: Seq<char>)
    requires
        near(names, length, limit).contains(name),
    ensures
        names.contains(name),
    decreases names.len(),
{
    if names.len() > 0 {
        let rest = names.drop_last();
        let list = near(names, length, limit);
        let k = choose|k: int| 0 <= k < list.len() && list[k] == name;
        if k < near(rest, length, limit).len() {
            assert(near(rest, length, limit)[k] == name);
            lemma_near(rest, length, limit, name);
            let m = choose|m: int| 0 <= m < rest.len() && rest[m] == name;
            assert(names[m] == name);
        } else {
            assert(names[names.len() - 1] == name);
        }
    }
}

/// Every assessment has a score in the band of its kind, so that only no match
/// scores nothing. It tells a number of edits only where names were compared whole
/// or by edits: none for a match of the whole name, one to three for edits.
pub proof fn law_score_in_band(query: Seq<char>, c: CandidateView)
    ensures
        score_band(assessment(query, c).kind).0 <= assessment(query, c).score <= score_band(
            assessment(query, c).kind,
        ).1,
        assessment(query, c).kind != MatchKind::Provider,
        assessment(query, c).score == 0 <==> assessment(query, c).kind == MatchKind::Unmatched,
        assessment(query, c).edit_distance == Some(0usize) <==> match_rank(
            assessment(query, c).kind,
        ) >= match_rank(MatchKind::CompactExact),
        assessment(query, c).kind == MatchKind::Edit <==> (assessment(query, c).edit_distance
            matches Some(distance) && 1 <= distance <= 3),
{
    let q = normalize(query, MAX_QUERY_CHARS as nat);
    let p = normalize(c.match_name, MAX_NAME_CHARS as nat);
    lemma_share(q.compact.len() as int, p.compact.len() as int, 49);
    lemma_share(q.compact.len() as int, p.compact.len() as int, 59);
    let names = edit_names(q, p);
    let distances = names.map_values(|name: Seq<char>| alignment_distance(q.compact, name));
    lemma_closest(distances, edit_limit(q.compact.len() as int));
    if name_assessment(q, p) is None {
        assert forall|i: int| 0 <= i < distances.len() implies #[trigger] distances[i] > 0 by {
            assert(distances[i] == alignment_distance(q.compact, names[i]));
            assert(names.contains(names[i]));
            lemma_edit_names_differ(q, p, names[i]);
            law_no_edits_between_equals(q.compact, names[i]);
        }
    }
    match normalized_description(c.description) {
        Some(d) => {
            lemma_share(begun(q.tokens, d.tokens) as int, q.tokens.len() as int, 99);
        },
        None => {},
    }
}

proof fn lemma_closest(distances: Seq<nat>, limit: int)
    requires
        limit <= 3,
    ensures
        match closest(distances, limit) {
            Some(distance) => distance <= limit && distances.contains(distance as nat) && forall|i: int|
                0 <= i < distances.len() ==> distance <= #[trigger] distances[i],
            None => forall|i: int| 0 <= i < distances.len() ==> #[trigger] distances[i] > limit,
        },
    decreases distances.len(),
{
    if distances.len() > 0 {
        let rest = distances.drop_last();
        lemma_closest(rest, limit);
        assert forall|i: int| 0 <= i < distances.len() implies match closest(distances, limit) {
            Some(distance) => distance <= #[trigger] distances[i],
            None => distances[i] > limit,
        } by {
            if i < rest.len() {
                assert(rest[i] == distances[i]);
            }
        }
        match closest(rest, limit) {
            Some(distance) => {
                let k = choose|k: int| 0 <= k < rest.len() && rest[k] == distance as nat;
                assert(distances[k] == distance as nat);
            },
            None => {},
        }
        assert(distances[distances.len() - 1] == distances.last());
    }
}

/// Stronger evidence scores higher, whatever the queries and the candidates:
/// a description never outdoes a name, nor an approximate name the exact one.
pub proof fn law_stronger_match_scores_higher(
    query: Seq<char>,
    c: CandidateView,
    other_query: Seq<char>,
    other: CandidateView,
)
    requires
        match_rank(assessment(query, c).kind) < match_rank(assessment(other_query, other).kind),
    ensures
        assessment(query, c).score < assessment(other_query, other).score,
{
    law_score_in_band(query, c);
    law_score_in_band(other_query, other);
}

/// A match is exact only if the query is a name of the candidate, and canonical
/// only if it identifies it by the rules of its manager. What merely looks alike
/// is neither: a query that is not all ASCII is exact only letter for letter.
pub proof fn law_exact_means_identity(query: Seq<char>, c: CandidateView)
    ensures
        assessment(query, c).kind == MatchKind::Exact <==> exact_match(query, c),
        assessment(query, c).kind == MatchKind::CanonicalExact <==> !exact_match(query, c)
            && canonical_match(query, c),
        !all_ascii(query) && exact_match(query, c) ==> query == c.package || query == c.match_name,
        assessment(query, c).score == 1_000 <==> exact_match(query, c) && (query == c.package
            || query == c.match_name),
{
    law_score_in_band(query, c);
}

/// A candidate is found by its own name with the highest score there is.
pub proof fn law_own_name_scores_highest(c: CandidateView, query: Seq<char>, other: CandidateView)
    ensures
        assessment(c.package, c) == (MatchAssessment {
            kind: MatchKind::Exact,
            score: 1_000,
            edit_distance: Some(0),
        }),
        assessment(query, other).score <= assessment(c.package, c).score,
{
    law_score_in_band(query, other);
}

/// The order of candidates compares any two, is transitive, and finds two level
/// only if they agree in all that they are ordered by.
pub proof fn law_candidate_order(a: CandidateView, b: CandidateView, c: CandidateView)
    ensures
        candidate_leq(a, b) || candidate_leq(b, a),
        candidate_leq(a, b) && candidate_leq(b, c) ==> candidate_leq(a, c),
        candidate_leq(a, b) && candidate_leq(b, a) ==> candidate_key(a) == candidate_key(b),
{
    lemma_key_order_flip(candidate_key(a), candidate_key(b));
    lemma_key_order_equal(candidate_key(a), candidate_key(b));
    if candidate_leq(a, b) && candidate_leq(b, c) {
        lemma_key_order_transitive(candidate_key(a), candidate_key(b), candidate_key(c));
    }
}

proof fn lemma_candidate_preorder()
    ensures
        total_preorder(|a: CandidateView, b: CandidateView| candidate_leq(a, b)),
{
    let leq = |a: CandidateView, b: CandidateView| candidate_leq(a, b);
    assert forall|a: CandidateView, b: CandidateView| #[trigger] leq(a, b) || leq(b, a) by {
        law_candidate_order(a, b, b);
    }
    assert forall|a: CandidateView, b: CandidateView, c: CandidateView|
        #[trigger] leq(a, b) && #[trigger] leq(b, c) implies leq(a, c) by {
        law_candidate_order(a, b, c);
    }
}

/// Sorting puts every candidate in order and neither adds nor loses one.
pub proof fn law_sorting_keeps_candidates(candidates: Seq<CandidateView>)
    ensures
        sorted_candidates(candidates).to_multiset() == candidates.to_multiset(),
        sorted_candidates(candidates).len() == candidates.len(),
        forall|i: int, j: int|
            0 <= i < j < sorted_candidates(candidates).len() ==> candidate_leq(
                #[trigger] sorted_candidates(candidates)[i],
                #[trigger] sorted_candidates(candidates)[j],
            ),
{
    lemma_candidate_preorder();
    lemma_stable_sort_sorted(
        candidates,
        |a: CandidateView, b: CandidateView| candidate_leq(a, b),
    );
}

/// In whatever order candidates come in, what comes out at each place is level with
/// what would come out there in another: it agrees in all that candidates are
/// ordered by.
pub proof fn law_sorting_is_level(
    candidates: Seq<CandidateView>,
    shuffled: Seq<CandidateView>,
)
    requires
        candidates.to_multiset() == shuffled.to_multiset(),
    ensures
        sorted_candidates(candidates).len() == sorted_candidates(shuffled).len(),
        forall|i: int|
            0 <= i < sorted_candidates(candidates).len() ==> candidate_key(
                #[trigger] sorted_candidates(candidates)[i],
            ) == candidate_key(sorted_candidates(shuffled)[i]),
{
    let leq = |a: CandidateView, b: CandidateView| candidate_leq(a, b);
    lemma_candidate_preorder();
    lemma_stable_sort_sorted(candidates, leq);
    lemma_stable_sort_sorted(shuffled, leq);
    let s = sorted_candidates(candidates);
    let t = sorted_candidates(shuffled);
    crate::order::lemma_sorted_level(s, t, leq);
    assert forall|i: int| 0 <= i < s.len() implies candidate_key(#[trigger] s[i]) == candidate_key(
        t[i],
    ) by {
        assert(leq(s[i], t[i]) && leq(t[i], s[i]));
        law_candidate_order(s[i], t[i], t[i]);
    }
}

/// In whatever order candidates come in, they come out in the same one, as long
/// as the order tells them apart.
pub proof fn law_sorting_is_deterministic(
    candidates: Seq<CandidateView>,
    shuffled: Seq<CandidateView>,
)
    requires
        candidates.to_multiset() == shuffled.to_multiset(),
        forall|i: int, j: int|
            0 <= i < candidates.len() && 0 <= j < candidates.len() && candidate_key(
                #[trigger] candidates[i],
            ) == candidate_key(#[trigger] candidates[j]) ==> candidates[i] == candidates[j],
    ensures
        sorted_candidates(candidates) == sorted_candidates(shuffled),
{
    broadcast use vstd::seq_lib::group_to_multiset_ensures;

    let leq = |a: CandidateView, b: CandidateView| candidate_leq(a, b);
    lemma_candidate_preorder();
    lemma_stable_sort_sorted(candidates, leq);
    lemma_stable_sort_sorted(shuffled, leq);
    let s = sorted_candidates(candidates);
    assert forall|i: int, j: int|
        0 <= i < s.len() && 0 <= j < s.len() && leq(#[trigger] s[i], #[trigger] s[j]) && leq(
            s[j],
            s[i],
        ) implies s[i] == s[j] by {
        law_candidate_order(s[i], s[j], s[j]);
        assert(s.contains(s[i]) && s.contains(s[j]));
        assert(s.to_multiset().count(s[i]) > 0 && s.to_multiset().count(s[j]) > 0);
        assert(candidates.contains(s[i]) && candidates.contains(s[j]));
        let m = choose|m: int| 0 <= m < candidates.len() && candidates[m] == s[i];
        let n = choose|n: int| 0 <= n < candidates.len() && candidates[n] == s[j];
        assert(candidates[m] == candidates[n]);
    }
    crate::order::lemma_sorted_unique(s, sorted_candidates(shuffled), leq);
}

/// What holds of every list of fallback queries as it is filled.
spec fn proper_terms(terms: Seq<Seq<char>>, original: Seq<char>) -> bool {
    &&& terms.len() <= MAX_FALLBACK_QUERIES
    &&& terms.no_duplicates()
    &&& forall|i: int|
        0 <= i < terms.len() ==> (#[trigger] terms[i]).len() >= 3 && terms[i] != original
}

proof fn lemma_with_terms(terms: Seq<Seq<char>>, more: Seq<Seq<char>>, original: Seq<char>)
    requires
        proper_terms(terms, original),
    ensures
        proper_terms(with_terms(terms, more, original), original),
        forall|i: int|
            0 <= i < with_terms(terms, more, original).len() ==> terms.contains(
                #[trigger] with_terms(terms, more, original)[i],
            ) || more.contains(with_terms(terms, more, original)[i]),
    decreases more.len(),
{
    let r = with_terms(terms, more, original);
    if more.len() > 0 && terms.len() < MAX_FALLBACK_QUERIES {
        let next = with_term(terms, more[0], original);
        let rest = more.drop_first();
        lemma_with_terms(next, rest, original);
        assert forall|i: int| 0 <= i < r.len() implies terms.contains(#[trigger] r[i])
            || more.contains(r[i]) by {
            if next.contains(r[i]) {
                let k = choose|k: int| 0 <= k < next.len() && next[k] == r[i];
                if k < terms.len() {
                    assert(terms[k] == r[i]);
                } else {
                    assert(more[0] == r[i]);
                }
            } else {
                let k = choose|k: int| 0 <= k < rest.len() && rest[k] == r[i];
                assert(more[k + 1] == r[i]);
            }
        }
    }
}

/// Terms are only added, and the first that may be added is.
proof fn lemma_with_terms_grows(terms: Seq<Seq<char>>, more: Seq<Seq<char>>, original: Seq<char>)
    ensures
        with_terms(terms, more, original).len() >= terms.len(),
        more.len() > 0 && more[0].len() >= 3 && more[0] != original ==> with_terms(
            terms,
            more,
            original,
        ).len() > 0,
    decreases more.len(),
{
    if more.len() > 0 && terms.len() < MAX_FALLBACK_QUERIES {
        let next = with_term(terms, more[0], original);
        lemma_with_terms_grows(next, more.drop_first(), original);
        if terms.contains(more[0]) {
            assert(terms.len() > 0);
        }
    }
}

/// There are at most three fallback queries, and none exactly where the compact name
/// has fewer than four characters. They differ from each other and from the query,
/// have three characters or more, and each occurs in the compact name.
pub proof fn law_fallback_bounded(query: Seq<char>)
    ensures
        ({
            let q = normalize(query, MAX_QUERY_CHARS as nat);
            let terms = fallback(q);
            &&& terms.len() <= MAX_FALLBACK_QUERIES
            &&& terms.no_duplicates()
            &&& terms.len() == 0 <==> q.compact.len() < 4
            &&& forall|i: int|
                0 <= i < terms.len() ==> (#[trigger] terms[i]).len() >= 3 && terms[i] != q.compact
                    && contains(q.compact, terms[i])
        }),
{
    broadcast use vstd::seq_lib::group_to_multiset_ensures;

    let q = normalize(query, MAX_QUERY_CHARS as nat);
    let none: Seq<Seq<char>> = Seq::empty();
    let first = with_terms(none, token_terms(q), q.compact);
    let terms = fallback(q);
    lemma_with_terms(none, token_terms(q), q.compact);
    lemma_with_terms(first, grams(q.compact), q.compact);
    let leq = |a: Seq<char>, b: Seq<char>| a.len() >= b.len();
    lemma_stable_sort_sorted(long_tokens(q.tokens), leq);
    lemma_with_terms_grows(first, grams(q.compact), q.compact);
    law_normalized_bounded(query, MAX_QUERY_CHARS as nat);
    assert forall|i: int| 0 <= i < terms.len() implies (#[trigger] terms[i]).len() >= 3 && terms[i]
        != q.compact && contains(q.compact, terms[i]) && q.compact.len() >= 4 by {
        let term = terms[i];
        if first.contains(term) {
            let k = choose|k: int| 0 <= k < first.len() && first[k] == term;
            assert(first[k] == term);
            assert(token_terms(q).contains(term));
            assert(token_terms(q).to_multiset().count(term) > 0);
            assert(long_tokens(q.tokens).contains(term));
            lemma_long_tokens(q.tokens, term);
            let m = choose|m: int| 0 <= m < q.tokens.len() && q.tokens[m] == term;
            lemma_concat_part(q.tokens, m);
        } else {
            assert(grams(q.compact).contains(term));
            let k = choose|k: int| 0 <= k < grams(q.compact).len() && grams(q.compact)[k] == term;
            let size: int = if q.compact.len() >= 9 {
                4
            } else {
                3
            };
            let last = q.compact.len() - size;
            let at = if k == 0 {
                0
            } else if k == 1 {
                last / 2
            } else {
                last
            };
            assert(term == q.compact.subrange(at, at + size));
            assert(occurs_at(q.compact, term, at));
        }
    }
    if terms.len() > 0 {
        assert(terms[0].len() >= 3);
    }
}

proof fn lemma_long_tokens(tokens: Seq<Seq<char>>, term: Seq<char>)
    requires
        long_tokens(tokens).contains(term),
    ensures
        tokens.contains(term),
    decreases tokens.len(),
{
    if tokens.len() > 0 {
        let rest = tokens.drop_last();
        if tokens.last() == term {
            assert(tokens[tokens.len() - 1] == term);
        } else {
            let k = choose|k: int|
                0 <= k < long_tokens(tokens).len() && long_tokens(tokens)[k] == term;
            assert(long_tokens(rest)[k] == term);
            lemma_long_tokens(rest, term);
            let m = choose|m: int| 0 <= m < rest.len() && rest[m] == term;
            assert(tokens[m] == term);
        }
    }
}

/// Identity comes before all likeness. A query that is a name of the candidate, letter for
/// letter, scores a thousand, and one that differs from it in the case of ASCII letters
/// only, 995; for pacman the name is the package with its repository. A query that names
/// the candidate by the rules of its manager scores 980.
pub proof fn law_identity_scores(query: Seq<char>, c: CandidateView)
    ensures
        query == c.package || (c.manager != ManagerKind::Pacman && query == c.match_name)
            ==> assessment(query, c) == (MatchAssessment {
            kind: MatchKind::Exact,
            score: 1_000,
            edit_distance: Some(0),
        }),
        query != c.package && query != c.match_name && all_ascii(query) && ((all_ascii(c.package)
            && lower(query) == lower(c.package)) || (c.manager != ManagerKind::Pacman && all_ascii(
            c.match_name,
        ) && lower(query) == lower(c.match_name))) ==> assessment(query, c) == (MatchAssessment {
            kind: MatchKind::Exact,
            score: 995,
            edit_distance: Some(0),
        }),
        !exact_match(query, c) && (c.manager == ManagerKind::Pip || c.manager == ManagerKind::Uv)
            && python_identity(query).len() > 0 && python_identity(query) == python_identity(
            c.match_name,
        ) ==> assessment(query, c) == (MatchAssessment {
            kind: MatchKind::CanonicalExact,
            score: 980,
            edit_distance: Some(0),
        }),
        !exact_match(query, c) && c.manager == ManagerKind::Pacman && query == c.match_name
            ==> assessment(query, c) == (MatchAssessment {
            kind: MatchKind::CanonicalExact,
            score: 980,
            edit_distance: Some(0),
        }),
        assessment(query, c).kind == MatchKind::Exact ==> query == c.package || query
            == c.match_name || (all_ascii(query) && (lower(query) == lower(c.package) || lower(query)
            == lower(c.match_name))),
        assessment(query, c).kind == MatchKind::CanonicalExact ==> c.manager == ManagerKind::Pip
            || c.manager == ManagerKind::Uv || c.manager == ManagerKind::Pacman,
{
    law_exact_means_identity(query, c);
}

/// Without identity, likeness is told by the strongest evidence that there is: the same
/// tokens, the same letters, a name that the query begins, tokens that the tokens of the
/// query begin, in order or not, a name that the query stands in, a name that few edits
/// make of the query, and at last the description.
pub proof fn law_strongest_evidence_counts(
    q: NormalizedView,
    p: NormalizedView,
    d: Option<NormalizedView>,
    distance: Option<usize>,
)
    requires
        q.compact.len() > 0,
        p.compact.len() > 0,
    ensures
        ({
            let r = similarity(q, p, d, distance);
            let begins = starts_with(p.joined, q.joined) || starts_with(p.compact, q.compact);
            let part = if q.compact.len() < p.compact.len() {
                q.compact.len() as int
            } else {
                p.compact.len() as int
            };
            &&& q.joined == p.joined ==> r.kind == MatchKind::NormalizedExact && r.score == 940
            &&& q.joined != p.joined && q.compact == p.compact ==> r.kind
                == MatchKind::CompactExact && r.score == 920
            &&& q.joined != p.joined && q.compact != p.compact && begins ==> r.kind
                == MatchKind::Prefix && r.score == 850 + part * 49 / p.compact.len() as int
            &&& q.joined != p.joined && q.compact != p.compact && !begins && tokens_matched(
                q.tokens,
                p.tokens,
            ) == Some(true) ==> r.kind == MatchKind::Tokens && r.score == 839
            &&& q.joined != p.joined && q.compact != p.compact && !begins && tokens_matched(
                q.tokens,
                p.tokens,
            ) == Some(false) ==> r.kind == MatchKind::Tokens && r.score == 799
            &&& q.joined != p.joined && q.compact != p.compact && !begins && tokens_matched(
                q.tokens,
                p.tokens,
            ) is None && contains(p.compact, q.compact) ==> r.kind == MatchKind::Contains && r.score
                == 700 + part * 59 / p.compact.len() as int
            &&& q.joined != p.joined && q.compact != p.compact && !begins && tokens_matched(
                q.tokens,
                p.tokens,
            ) is None && !contains(p.compact, q.compact) ==> {
                &&& distance matches Some(n) ==> r.kind == MatchKind::Edit && r.edit_distance
                    == distance && (n <= 3 ==> {
                    let off = if q.compact.len() < p.compact.len() {
                        p.compact.len() - q.compact.len()
                    } else {
                        q.compact.len() - p.compact.len()
                    };
                    r.score == if n * 35 + off * 2 < 119 {
                        679 - (n * 35 + off * 2)
                    } else {
                        560
                    }
                })
                &&& distance is None ==> r == description_match(q, d)
            }
        }),
{
    lemma_share(q.compact.len() as int, p.compact.len() as int, 49);
    lemma_share(q.compact.len() as int, p.compact.len() as int, 59);
}

/// The description counts for 260 if the query stands in it, for 249 if every token of the
/// query begins a token of it, and for less the fewer do; for nothing if none does, or if
/// there is none.
pub proof fn law_description_counts_least(q: NormalizedView, d: NormalizedView)
    ensures
        description_match(q, None).kind == MatchKind::Unmatched,
        description_match(q, None).score == 0,
        q.tokens.len() == 0 ==> description_match(q, Some(d)).kind == MatchKind::Unmatched,
        q.tokens.len() > 0 && (contains(d.joined, q.joined) || contains(d.compact, q.compact))
            ==> description_match(q, Some(d)).kind == MatchKind::Description && description_match(
            q,
            Some(d),
        ).score == 260,
        q.tokens.len() > 0 && !contains(d.joined, q.joined) && !contains(d.compact, q.compact) ==> {
            let r = description_match(q, Some(d));
            let n = begun(q.tokens, d.tokens) as int;
            let all = q.tokens.len() as int;
            &&& n == 0 ==> r.kind == MatchKind::Unmatched && r.score == 0
            &&& n == all ==> r.kind == MatchKind::Description && r.score == 249
            &&& 0 < n < all ==> r.kind == MatchKind::Description && r.score == 100 + n * 99 / all
        },
{
    lemma_begun(q.tokens, d.tokens);
    lemma_share(begun(q.tokens, d.tokens) as int, q.tokens.len() as int, 99);
}

/// Tokens of a query are counted one by one: a token counts if it begins some token of the
/// description.
pub proof fn law_tokens_are_counted(
    query: Seq<Seq<char>>,
    more: Seq<char>,
    tokens: Seq<Seq<char>>,
)
    ensures
        begun(Seq::empty(), tokens) == 0,
        begun(query.push(more), tokens) == begun(query, tokens) + if exists|i: int|
            0 <= i < tokens.len() && starts_with(#[trigger] tokens[i], more) {
            1nat
        } else {
            0nat
        },
{
    assert(query.push(more).drop_last() =~= query);
}

/// Whether `places` are places in `package`, ever further right, at which tokens begin with
/// those of `query`, one after the other.
pub open spec fn leads_in_order(
    query: Seq<Seq<char>>,
    package: Seq<Seq<char>>,
    places: Seq<int>,
) -> bool {
    &&& places.len() == query.len()
    &&& forall|i: int|
        0 <= i < places.len() ==> 0 <= #[trigger] places[i] < package.len() && starts_with(
            package[places[i]],
            query[i],
        )
    &&& forall|i: int, j: int|
        0 <= i < j < places.len() ==> #[trigger] places[i] < #[trigger] places[j]
}

/// Tokens match in order if and only if there are places, ever further right, at which the
/// tokens of the name begin with those of the query.
pub proof fn law_tokens_match_in_order(query: Seq<Seq<char>>, package: Seq<Seq<char>>)
    ensures
        match_in_order(query, package) <==> exists|places: Seq<int>| #[trigger]
            leads_in_order(query, package, places),
    decreases package.len(),
{
    if query.len() == 0 {
        assert(leads_in_order(query, package, Seq::empty()));
    } else if package.len() == 0 {
        assert forall|places: Seq<int>| !#[trigger] leads_in_order(query, package, places) by {
            if leads_in_order(query, package, places) {
                assert(0 <= places[0] < package.len());
            }
        }
    } else if starts_with(package[0], query[0]) {
        let rest = query.drop_first();
        let behind = package.drop_first();
        law_tokens_match_in_order(rest, behind);
        if match_in_order(query, package) {
            let below = choose|places: Seq<int>| #[trigger] leads_in_order(rest, behind, places);
            let places = seq![0int] + below.map_values(|k: int| k + 1);
            assert forall|i: int| 0 <= i < places.len() implies 0 <= #[trigger] places[i]
                < package.len() && starts_with(package[places[i]], query[i]) by {
                if i > 0 {
                    assert(places[i] == below[i - 1] + 1);
                    assert(behind[below[i - 1]] == package[places[i]]);
                    assert(rest[i - 1] == query[i]);
                }
            }
            assert forall|i: int, j: int| 0 <= i < j < places.len() implies #[trigger] places[i]
                < #[trigger] places[j] by {
                assert(places[j] == below[j - 1] + 1);
                assert(0 <= below[j - 1]);
                if i > 0 {
                    assert(places[i] == below[i - 1] + 1);
                }
            }
            assert(leads_in_order(query, package, places));
        }
        if exists|places: Seq<int>| #[trigger] leads_in_order(query, package, places) {
            let places = choose|places: Seq<int>| #[trigger]
                leads_in_order(query, package, places);
            let below = places.drop_first().map_values(|k: int| k - 1);
            assert forall|i: int| 0 <= i < below.len() implies 0 <= #[trigger] below[i]
                < behind.len() && starts_with(behind[below[i]], rest[i]) by {
                assert(below[i] == places[i + 1] - 1);
                assert(places[0] < places[i + 1]);
                assert(0 <= places[0]);
                assert(behind[below[i]] == package[places[i + 1]]);
                assert(rest[i] == query[i + 1]);
            }
            assert forall|i: int, j: int| 0 <= i < j < below.len() implies #[trigger] below[i]
                < #[trigger] below[j] by {
                assert(places[i + 1] < places[j + 1]);
            }
            assert(leads_in_order(rest, behind, below));
        }
    } else {
        let behind = package.drop_first();
        law_tokens_match_in_order(query, behind);
        if match_in_order(query, package) {
            let below = choose|places: Seq<int>| #[trigger] leads_in_order(query, behind, places);
            let places = below.map_values(|k: int| k + 1);
            assert forall|i: int| 0 <= i < places.len() implies 0 <= #[trigger] places[i]
                < package.len() && starts_with(package[places[i]], query[i]) by {
                assert(places[i] == below[i] + 1);
                assert(behind[below[i]] == package[places[i]]);
            }
            assert forall|i: int, j: int| 0 <= i < j < places.len() implies #[trigger] places[i]
                < #[trigger] places[j] by {
                assert(below[i] < below[j]);
            }
            assert(leads_in_order(query, package, places));
        }
        if exists|places: Seq<int>| #[trigger] leads_in_order(query, package, places) {
            let places = choose|places: Seq<int>| #[trigger]
                leads_in_order(query, package, places);
            let below = places.map_values(|k: int| k - 1);
            assert forall|i: int| 0 <= i < below.len() implies 0 <= #[trigger] below[i]
                < behind.len() && starts_with(behind[below[i]], query[i]) by {
                assert(below[i] == places[i] - 1);
                assert(0 <= places[0]);
                if i > 0 {
                    assert(places[0] < places[i]);
                }
                assert(places[i] != 0);
                assert(behind[below[i]] == package[places[i]]);
            }
            assert forall|i: int, j: int| 0 <= i < j < below.len() implies #[trigger] below[i]
                < #[trigger] below[j] by {
                assert(places[i] < places[j]);
            }
            assert(leads_in_order(query, behind, below));
        }
    }
}

/// Whether `places` are different places in `package` at which tokens begin with those of
/// `query`, one after the other.
pub open spec fn leads_apart(
    query: Seq<Seq<char>>,
    package: Seq<Seq<char>>,
    used: Seq<bool>,
    places: Seq<int>,
) -> bool {
    &&& places.len() == query.len()
    &&& places.no_duplicates()
    &&& forall|i: int|
        0 <= i < places.len() ==> 0 <= #[trigger] places[i] < package.len() && !used[places[i]]
            && starts_with(package[places[i]], query[i])
}

/// Tokens match only if every token of the query begins a token of the name, each another
/// one; that they match in order is found out wherever it is so.
pub proof fn law_tokens_match_apart(query: Seq<Seq<char>>, package: Seq<Seq<char>>)
    ensures
        tokens_matched(query, package) == Some(true) <==> query.len() > 0 && package.len() > 0
            && exists|places: Seq<int>| #[trigger] leads_in_order(query, package, places),
        tokens_matched(query, package) == Some(false) ==> exists|places: Seq<int>| #[trigger]
            leads_apart(query, package, all_free(package.len()), places),
        query.len() == 1 && package.len() > 0 ==> (tokens_matched(query, package) is Some
            <==> exists|k: int| 0 <= k < package.len() && starts_with(#[trigger] package[k], query[0])),
{
    law_tokens_match_in_order(query, package);
    if tokens_matched(query, package) == Some(false) {
        lemma_leads_apart(query, package, all_free(package.len()));
    }
    if query.len() == 1 && package.len() > 0 {
        if tokens_matched(query, package) == Some(true) {
            let places = choose|places: Seq<int>| #[trigger]
                leads_in_order(query, package, places);
            assert(starts_with(package[places[0]], query[0]));
        }
        if tokens_matched(query, package) == Some(false) {
            let places = choose|places: Seq<int>| #[trigger]
                leads_apart(query, package, all_free(package.len()), places);
            assert(starts_with(package[places[0]], query[0]));
        }
        if exists|k: int| 0 <= k < package.len() && starts_with(#[trigger] package[k], query[0]) {
            let k = choose|k: int|
                0 <= k < package.len() && starts_with(#[trigger] package[k], query[0]);
            assert(leads_in_order(query, package, seq![k]));
        }
    }
}

proof fn lemma_leads_apart(query: Seq<Seq<char>>, package: Seq<Seq<char>>, used: Seq<bool>)
    requires
        used.len() == package.len(),
        match_in_any_order(query, package, used),
    ensures
        exists|places: Seq<int>| #[trigger] leads_apart(query, package, used, places),
    decreases query.len(),
{
    if query.len() == 0 {
        assert(leads_apart(query, package, used, Seq::empty()));
    } else {
        let k = first_free(query[0], package, used, 0)->0;
        lemma_first_free(query[0], package, used, 0);
        let taken = used.update(k, true);
        let rest = query.drop_first();
        lemma_leads_apart(rest, package, taken);
        let below = choose|places: Seq<int>| #[trigger] leads_apart(rest, package, taken, places);
        let places = seq![k] + below;
        assert forall|i: int| 0 <= i < places.len() implies 0 <= #[trigger] places[i]
            < package.len() && !used[places[i]] && starts_with(package[places[i]], query[i]) by {
            if i > 0 {
                assert(places[i] == below[i - 1]);
                assert(rest[i - 1] == query[i]);
                assert(!taken[below[i - 1]]);
            }
        }
        assert forall|i: int, j: int| 0 <= i < j < places.len() implies places[i] != places[j] by {
            assert(places[j] == below[j - 1]);
            assert(!taken[below[j - 1]]);
            if i > 0 {
                assert(places[i] == below[i - 1]);
            }
        }
        assert(leads_apart(query, package, used, places));
    }
}

proof fn lemma_first_free(token: Seq<char>, package: Seq<Seq<char>>, used: Seq<bool>, from: int)
    requires
        0 <= from,
    ensures
        first_free(token, package, used, from) matches Some(k) ==> from <= k < package.len()
            && !used[k] && starts_with(package[k], token),
    decreases package.len() - from,
{
    if from < package.len() {
        lemma_first_free(token, package, used, from + 1);
    }
}

/// One character more in a text is one edit more at most, and the same character more in
/// both is none; so is another character in each, and two that change places.
pub proof fn law_each_edit_counts_once(a: Seq<char>, b: Seq<char>, x: char, y: char)
    ensures
        alignment_distance(a.push(x), b) <= alignment_distance(a, b) + 1,
        alignment_distance(a, b.push(x)) <= alignment_distance(a, b) + 1,
        alignment_distance(a.push(x), b.push(x)) <= alignment_distance(a, b),
        alignment_distance(a.push(x), b.push(y)) <= alignment_distance(a, b) + 1,
        alignment_distance(a.push(x).push(y), b.push(y).push(x)) <= alignment_distance(a, b) + 1,
        alignment_distance(a, b) <= if a.len() < b.len() {
            b.len()
        } else {
            a.len()
        },
    decreases a.len() + b.len(),
{
    assert(a.push(x).drop_last() =~= a);
    assert(b.push(x).drop_last() =~= b);
    assert(b.push(y).drop_last() =~= b);
    let s = a.push(x).push(y);
    let t = b.push(y).push(x);
    assert(s.drop_last() =~= a.push(x));
    assert(t.drop_last() =~= b.push(y));
    assert(s.drop_last().drop_last() =~= a);
    assert(t.drop_last().drop_last() =~= b);
    if x == y {
        assert(alignment_distance(a.push(x), b.push(y)) <= alignment_distance(a, b));
    }
    if a.len() > 0 && b.len() > 0 {
        law_each_edit_counts_once(a.drop_last(), b.drop_last(), x, y);
    }
}

/// The number of edits that counts is the least from the query to the name or to a token of
/// it, if it is small enough: one for a query of up to six characters, two for one of up to
/// twelve, three for a longer one. A query of fewer than four characters is not edited.
pub proof fn law_fewest_edits_count(q: NormalizedView, p: NormalizedView)
    ensures
        ({
            let n = q.compact.len();
            let limit: nat = if n <= 6 {
                1
            } else if n <= 12 {
                2
            } else {
                3
            };
            let names = seq![p.compact] + p.tokens;
            &&& n < 4 ==> edits(q, p) is None
            &&& n >= 4 ==> match edits(q, p) {
                Some(distance) => {
                    &&& distance <= limit
                    &&& exists|i: int|
                        0 <= i < names.len() && alignment_distance(q.compact, #[trigger] names[i])
                            == distance
                    &&& forall|i: int|
                        0 <= i < names.len() ==> alignment_distance(
                            q.compact,
                            #[trigger] names[i],
                        ) >= distance
                },
                None => forall|i: int|
                    0 <= i < names.len() ==> alignment_distance(q.compact, #[trigger] names[i])
                        > limit,
            }
        }),
{
    let n = q.compact.len() as int;
    let limit = edit_limit(n);
    let names = seq![p.compact] + p.tokens;
    let list = edit_names(q, p);
    let distances = list.map_values(|name: Seq<char>| alignment_distance(q.compact, name));
    lemma_closest(distances, limit);
    if n >= 4 {
        lemma_near_all(names, n, limit);
        assert forall|i: int| 0 <= i < names.len() implies (alignment_distance(
            q.compact,
            #[trigger] names[i],
        ) > limit || exists|k: int| 0 <= k < list.len() && list[k] == names[i]) by {
            law_edits_bound_the_length(q.compact, names[i]);
        }
        match edits(q, p) {
            Some(distance) => {
                let k = choose|k: int| 0 <= k < distances.len() && distances[k] == distance as nat;
                assert(list.contains(list[k]));
                lemma_near(names, n, limit, list[k]);
                let i = choose|i: int| 0 <= i < names.len() && names[i] == list[k];
                assert(alignment_distance(q.compact, names[i]) == distance);
                assert forall|i: int| 0 <= i < names.len() implies alignment_distance(
                    q.compact,
                    #[trigger] names[i],
                ) >= distance by {
                    if alignment_distance(q.compact, names[i]) <= limit {
                        let k = choose|k: int| 0 <= k < list.len() && list[k] == names[i];
                        assert(distances[k] == alignment_distance(q.compact, names[i]));
                    }
                }
            },
            None => {
                assert forall|i: int| 0 <= i < names.len() implies alignment_distance(
                    q.compact,
                    #[trigger] names[i],
                ) > limit by {
                    if alignment_distance(q.compact, names[i]) <= limit {
                        let k = choose|k: int| 0 <= k < list.len() && list[k] == names[i];
                        assert(distances[k] == alignment_distance(q.compact, names[i]));
                    }
                }
            },
        }
    } else {
        assert(distances.len() == 0);
    }
}

proof fn lemma_near_all(names: Seq<Seq<char>>, length: int, limit: int)
    ensures
        forall|i: int|
            0 <= i < names.len() && gap(length, (#[trigger] names[i]).len() as int) <= limit
                ==> exists|k: int|
                0 <= k < near(names, length, limit).len() && near(names, length, limit)[k]
                    == names[i],
    decreases names.len(),
{
    if names.len() > 0 {
        let rest = names.drop_last();
        lemma_near_all(rest, length, limit);
        let before = near(rest, length, limit);
        let all = near(names, length, limit);
        assert forall|i: int|
            0 <= i < names.len() && gap(length, (#[trigger] names[i]).len() as int)
                <= limit implies exists|k: int| 0 <= k < all.len() && all[k] == names[i] by {
            if i < rest.len() {
                assert(rest[i] == names[i]);
                let k = choose|k: int| 0 <= k < before.len() && before[k] == rest[i];
                assert(all[k] == names[i]);
            } else {
                assert(all[all.len() - 1] == names[i]);
            }
        }
    }
}

/// Of two candidates for one query the one of the stronger match comes first; then the one
/// with the higher score; then a verified one; then the one of the manager that comes first.
pub proof fn law_better_match_comes_first(a: CandidateView, b: CandidateView)
    ensures
        crate::order::text_order(a.query, b.query) == Ordering::Less ==> !candidate_leq(b, a),
        a.query == b.query ==> {
            &&& match_rank(a.match_kind) > match_rank(b.match_kind) ==> !candidate_leq(b, a)
            &&& a.match_kind == b.match_kind && a.score > b.score ==> !candidate_leq(b, a)
            &&& a.match_kind == b.match_kind && a.score == b.score && a.verified && !b.verified
                ==> !candidate_leq(b, a)
            &&& a.match_kind == b.match_kind && a.score == b.score && a.verified == b.verified
                && manager_rank(a.manager) < manager_rank(b.manager) ==> !candidate_leq(b, a)
            &&& a.match_kind == b.match_kind && a.score == b.score && a.verified == b.verified
                && a.manager == b.manager && crate::order::text_order(
                a.manager_instance_id,
                b.manager_instance_id,
            ) == Ordering::Less ==> !candidate_leq(b, a)
        },
{
    lemma_candidate_key(b, a);
    reveal_with_fuel(word_order, 2);
    crate::order::lemma_text_order(a.query, b.query);
    crate::order::lemma_text_order(a.manager_instance_id, b.manager_instance_id);
}

/// A candidate may be taken without asking if and only if it is verified and the query
/// names it, by its own name or by the rules of its manager.
pub proof fn law_taken_without_asking(query: Seq<char>, c: CandidateView)
    ensures
        c.match_kind == assessment(query, c).kind ==> (unattended_exact(c) <==> c.verified && (
        same_identity(query, c.package) || same_identity(query, c.match_name) || ((c.manager
            == ManagerKind::Pip || c.manager == ManagerKind::Uv) && python_identity(query).len() > 0
            && python_identity(query) == python_identity(c.match_name)))),
{
    law_exact_means_identity(query, c);
}

/// Whether two texts are of ASCII characters and differ in the case of letters only.
pub open spec fn same_letters(a: Seq<char>, b: Seq<char>) -> bool {
    &&& a.len() == b.len()
    &&& forall|i: int| 0 <= i < a.len() ==> #[trigger] a[i] <= '\u{7f}'
    &&& forall|i: int| 0 <= i < b.len() ==> #[trigger] b[i] <= '\u{7f}'
    &&& forall|i: int|
        0 <= i < a.len() ==> ascii_lower(#[trigger] a[i]) == ascii_lower(#[trigger] b[i])
}

/// Names are the same if they are letter for letter, or if both are ASCII and differ in the
/// case of letters only.
pub proof fn law_same_names(a: Seq<char>, b: Seq<char>)
    ensures
        same_identity(a, b) <==> a == b || same_letters(a, b),
        same_identity(a, b) == same_identity(b, a),
{
    let low_a = lower(a);
    let low_b = lower(b);
    assert(low_a.len() == a.len() && low_b.len() == b.len());
    if all_ascii(a) && all_ascii(b) && low_a == low_b {
        assert forall|i: int| 0 <= i < a.len() implies ascii_lower(#[trigger] a[i]) == ascii_lower(
            #[trigger] b[i],
        ) by {
            assert(low_a[i] == low_b[i]);
        }
        assert forall|i: int| 0 <= i < a.len() implies #[trigger] a[i] <= '\u{7f}' by {
            assert(is_ascii_char(a[i]));
        }
        assert forall|i: int| 0 <= i < b.len() implies #[trigger] b[i] <= '\u{7f}' by {
            assert(is_ascii_char(b[i]));
        }
        assert(same_letters(a, b));
    }
    if same_letters(a, b) {
        assert forall|i: int| 0 <= i < a.len() implies #[trigger] low_a[i] == low_b[i] by {
            assert(ascii_lower(a[i]) == ascii_lower(b[i]));
        }
        assert(low_a =~= low_b);
        assert(all_ascii(a) && all_ascii(b));
    }
}

/// A query of several tokens falls back on those of three characters and more, the longest
/// first, and then on pieces from the beginning, the middle and the end of its letters.
pub proof fn law_fallback_takes_the_longest_first(q: NormalizedView, k: int)
    ensures
        ({
            let terms = fallback(q);
            let n = q.compact.len() as int;
            let size: int = if n >= 9 {
                4
            } else {
                3
            };
            &&& q.tokens.len() > 1 && 0 <= k < q.tokens.len() && q.tokens[k].len() >= 3
                && q.tokens[k] != q.compact && (forall|j: int|
                0 <= j < k ==> (#[trigger] q.tokens[j]).len() < q.tokens[k].len()) && (forall|j: int|
                k < j < q.tokens.len() ==> (#[trigger] q.tokens[j]).len() <= q.tokens[k].len())
                ==> terms.len() > 0 && terms[0] == q.tokens[k]
            &&& q.tokens.len() <= 1 && n > size ==> terms.len() > 0 && terms[0]
                == q.compact.subrange(0, size)
            &&& q.tokens.len() <= 1 && n > size ==> terms.contains(
                q.compact.subrange(n - size, n),
            ) && terms.contains(q.compact.subrange((n - size) / 2, (n - size) / 2 + size))
        }),
{
    let n = q.compact.len() as int;
    let size: int = if n >= 9 {
        4
    } else {
        3
    };
    let none: Seq<Seq<char>> = Seq::empty();
    let first = with_terms(none, token_terms(q), q.compact);
    if q.tokens.len() > 1 && 0 <= k < q.tokens.len() && q.tokens[k].len() >= 3 && q.tokens[k]
        != q.compact && (forall|j: int|
        0 <= j < k ==> (#[trigger] q.tokens[j]).len() < q.tokens[k].len()) && (forall|j: int|
        k < j < q.tokens.len() ==> (#[trigger] q.tokens[j]).len() <= q.tokens[k].len()) {
        lemma_longest_first(q.tokens, k);
        let list = token_terms(q);
        assert(list[0] == q.tokens[k]);
        let start = with_term(none, list[0], q.compact);
        assert(start =~= seq![q.tokens[k]]);
        lemma_terms_stay(start, list.drop_first(), q.compact);
        lemma_terms_stay(first, grams(q.compact), q.compact);
    }
    if q.tokens.len() <= 1 && n > size {
        assert(first =~= none);
        let pieces = grams(q.compact);
        let a = pieces[0];
        let b = pieces[1];
        let c = pieces[2];
        assert(a.len() == size && b.len() == size && c.len() == size);
        let one = with_term(none, a, q.compact);
        assert(one =~= seq![a]);
        let two = with_term(one, b, q.compact);
        let three = with_term(two, c, q.compact);
        let rest = pieces.drop_first();
        let last = rest.drop_first();
        reveal_with_fuel(with_terms, 4);
        assert(rest[0] == b);
        assert(last[0] == c);
        assert(last.drop_first().len() == 0);
        assert(one.contains(one[0]));
        if two.len() == 2 {
            assert(two[1] == b);
            assert(two[0] == a);
        }
        assert(two.contains(b));
        assert(two.len() <= 2);
        assert(fallback(q) == three);
        if three.len() > two.len() {
            assert(three[two.len() as int] == c);
        }
        let m = choose|m: int| 0 <= m < two.len() && two[m] == b;
        assert(three[m] == b);
        assert(three[0] == a);
        if two.contains(c) {
            let m = choose|m: int| 0 <= m < two.len() && two[m] == c;
            assert(three[m] == c);
        }
    }
}

proof fn lemma_terms_stay(terms: Seq<Seq<char>>, more: Seq<Seq<char>>, original: Seq<char>)
    ensures
        with_terms(terms, more, original).len() >= terms.len(),
        forall|i: int|
            0 <= i < terms.len() ==> #[trigger] with_terms(terms, more, original)[i] == terms[i],
    decreases more.len(),
{
    if more.len() > 0 && terms.len() < MAX_FALLBACK_QUERIES {
        let next = with_term(terms, more[0], original);
        lemma_terms_stay(next, more.drop_first(), original);
        assert forall|i: int| 0 <= i < terms.len() implies #[trigger] with_terms(
            terms,
            more,
            original,
        )[i] == terms[i] by {
            assert(with_terms(next, more.drop_first(), original)[i] == next[i]);
        }
    }
}

/// Whether `list` holds `token` with only shorter ones before it and no longer one behind.
spec fn longest_at(list: Seq<Seq<char>>, token: Seq<char>, m: int) -> bool {
    &&& 0 <= m < list.len()
    &&& list[m] == token
    &&& forall|j: int| 0 <= j < m ==> (#[trigger] list[j]).len() < token.len()
    &&& forall|j: int| m < j < list.len() ==> (#[trigger] list[j]).len() <= token.len()
}

proof fn lemma_long_tokens_below(tokens: Seq<Seq<char>>, bound: nat)
    requires
        forall|j: int| 0 <= j < tokens.len() ==> (#[trigger] tokens[j]).len() < bound,
    ensures
        forall|j: int|
            0 <= j < long_tokens(tokens).len() ==> (#[trigger] long_tokens(tokens)[j]).len()
                < bound,
    decreases tokens.len(),
{
    if tokens.len() > 0 {
        let rest = tokens.drop_last();
        assert forall|j: int| 0 <= j < rest.len() implies (#[trigger] rest[j]).len() < bound by {
            assert(rest[j] == tokens[j]);
        }
        lemma_long_tokens_below(rest, bound);
        let below = long_tokens(rest);
        let list = long_tokens(tokens);
        assert forall|j: int| 0 <= j < list.len() implies (#[trigger] list[j]).len() < bound by {
            if j < below.len() {
                assert(list[j] == below[j]);
            } else {
                assert(list[j] == tokens[tokens.len() - 1]);
            }
        }
    }
}

proof fn lemma_longest_is_kept(tokens: Seq<Seq<char>>, k: int)
    requires
        longest_at(tokens, tokens[k], k),
        tokens[k].len() >= 3,
    ensures
        exists|m: int| #[trigger] longest_at(long_tokens(tokens), tokens[k], m),
    decreases tokens.len(),
{
    let rest = tokens.drop_last();
    let list = long_tokens(tokens);
    if k == tokens.len() - 1 {
        assert forall|j: int| 0 <= j < rest.len() implies (#[trigger] rest[j]).len()
            < tokens[k].len() by {
            assert(rest[j] == tokens[j]);
        }
        lemma_long_tokens_below(rest, tokens[k].len());
        let below = long_tokens(rest);
        assert forall|j: int| 0 <= j < below.len() implies (#[trigger] list[j]).len()
            < tokens[k].len() by {
            assert(list[j] == below[j]);
        }
        assert(longest_at(list, tokens[k], list.len() - 1));
    } else {
        assert forall|j: int| 0 <= j < k implies (#[trigger] rest[j]).len() < rest[k].len() by {
            assert(rest[j] == tokens[j]);
        }
        assert forall|j: int| k < j < rest.len() implies (#[trigger] rest[j]).len()
            <= rest[k].len() by {
            assert(rest[j] == tokens[j]);
        }
        assert(longest_at(rest, rest[k], k));
        lemma_longest_is_kept(rest, k);
        let below = long_tokens(rest);
        let m = choose|m: int| #[trigger] longest_at(below, rest[k], m);
        assert forall|j: int| 0 <= j < m implies (#[trigger] list[j]).len() < tokens[k].len() by {
            assert(list[j] == below[j]);
        }
        assert forall|j: int| m < j < list.len() implies (#[trigger] list[j]).len()
            <= tokens[k].len() by {
            if j < below.len() {
                assert(list[j] == below[j]);
            } else {
                assert(list[j] == tokens[tokens.len() - 1]);
            }
        }
        assert(list[m] == below[m]);
        assert(longest_at(list, tokens[k], m));
    }
}

proof fn lemma_sorted_heads(
    list: Seq<Seq<char>>,
    longer: spec_fn(Seq<char>, Seq<char>) -> bool,
    bound: nat,
)
    requires
        forall|j: int| 0 <= j < list.len() ==> (#[trigger] list[j]).len() <= bound,
    ensures
        stable_sort(list, longer).len() == list.len(),
        list.len() > 0 ==> stable_sort(list, longer)[0].len() <= bound,
    decreases list.len(),
{
    if list.len() > 0 {
        let rest = list.drop_first();
        assert forall|j: int| 0 <= j < rest.len() implies (#[trigger] rest[j]).len() <= bound by {
            assert(rest[j] == list[j + 1]);
        }
        lemma_sorted_heads(rest, longer, bound);
        lemma_place_len(list[0], stable_sort(rest, longer), longer);
    }
}

proof fn lemma_place_len(
    x: Seq<char>,
    t: Seq<Seq<char>>,
    longer: spec_fn(Seq<char>, Seq<char>) -> bool,
)
    ensures
        place(x, t, longer).len() == t.len() + 1,
        t.len() == 0 || longer(x, t[0]) ==> place(x, t, longer)[0] == x,
        t.len() > 0 && !longer(x, t[0]) ==> place(x, t, longer)[0] == t[0],
    decreases t.len(),
{
    if t.len() > 0 && !longer(x, t[0]) {
        lemma_place_len(x, t.drop_first(), longer);
    }
}

proof fn lemma_longest_leads(list: Seq<Seq<char>>, m: int)
    requires
        longest_at(list, list[m], m),
    ensures
        stable_sort(list, |a: Seq<char>, b: Seq<char>| a.len() >= b.len()).len() == list.len(),
        stable_sort(list, |a: Seq<char>, b: Seq<char>| a.len() >= b.len())[0] == list[m],
    decreases list.len(),
{
    let longer = |a: Seq<char>, b: Seq<char>| a.len() >= b.len();
    let rest = list.drop_first();
    let t = stable_sort(rest, longer);
    lemma_place_len(list[0], t, longer);
    if m == 0 {
        assert forall|j: int| 0 <= j < rest.len() implies (#[trigger] rest[j]).len()
            <= list[0].len() by {
            assert(rest[j] == list[j + 1]);
        }
        lemma_sorted_heads(rest, longer, list[0].len());
    } else {
        assert forall|j: int| 0 <= j < m - 1 implies (#[trigger] rest[j]).len()
            < rest[m - 1].len() by {
            assert(rest[j] == list[j + 1]);
        }
        assert forall|j: int| m - 1 < j < rest.len() implies (#[trigger] rest[j]).len()
            <= rest[m - 1].len() by {
            assert(rest[j] == list[j + 1]);
        }
        assert(longest_at(rest, rest[m - 1], m - 1));
        lemma_longest_leads(rest, m - 1);
        assert(t[0] == list[m]);
        assert(list[0].len() < list[m].len());
    }
}

proof fn lemma_longest_first(tokens: Seq<Seq<char>>, k: int)
    requires
        longest_at(tokens, tokens[k], k),
        tokens[k].len() >= 3,
    ensures
        ({
            let sorted = stable_sort(
                long_tokens(tokens),
                |a: Seq<char>, b: Seq<char>| a.len() >= b.len(),
            );
            sorted.len() > 0 && sorted[0] == tokens[k]
        }),
{
    lemma_longest_is_kept(tokens, k);
    let m = choose|m: int| #[trigger] longest_at(long_tokens(tokens), tokens[k], m);
    lemma_longest_leads(long_tokens(tokens), m);
}

/// Without identity, a candidate is assessed by the first 128 characters of the query, the
/// first 256 of its name, the fewest edits between them, and the first 1024 characters of
/// its description. Where no letter of the query or of the name counts, the description
/// alone does.
pub proof fn law_likeness_is_of_name_and_description(query: Seq<char>, c: CandidateView)
    requires
        !exact_match(query, c),
        !canonical_match(query, c),
    ensures
        ({
            let q = normalize(query, 128);
            let p = normalize(c.match_name, 256);
            let d = if c.description is Some {
                Some(normalize(c.description->0, 1024))
            } else {
                None
            };
            &&& assessment(query, c) == similarity(q, p, d, edits(q, p))
            &&& q.compact.len() == 0 || p.compact.len() == 0 ==> assessment(query, c)
                == description_match(q, d)
        }),
{
}

} // verus!
