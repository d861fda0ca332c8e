//! Text primitives over Unicode scalar values.
//!
//! A text is viewed as the sequence of its characters. Every executable
//! function here states its result over that view.

use vstd::prelude::*;

verus! {

/// `String::push` of std: appends one character to the end.
pub assume_specification[ String::push ](s: &mut String, c: char)
    ensures
        final(s)@ == old(s)@.push(c),
;

/// The views of a sequence of values.
pub open spec fn views<T: View>(s: Seq<T>) -> Seq<T::V> {
    s.map_values(|t: T| t@)
}

pub broadcast proof fn lemma_views_push<T: View>(s: Seq<T>, t: T)
    ensures
        #[trigger] views(s.push(t)) == views(s).push(t@),
{
    assert(views(s.push(t)) =~= views(s).push(t@));
}

pub broadcast proof fn lemma_views_add<T: View>(s: Seq<T>, t: Seq<T>)
    ensures
        #[trigger] views(s + t) == views(s) + views(t),
{
    assert(views(s + t) =~= views(s) + views(t));
}

pub broadcast proof fn lemma_views_empty<T: View>()
    ensures
        #[trigger] views(Seq::<T>::empty()) == Seq::<T::V>::empty(),
{
    assert(views(Seq::<T>::empty()) =~= Seq::<T::V>::empty());
}

pub broadcast group group_views {
    lemma_views_push,
    lemma_views_add,
    lemma_views_empty,
}

// ---------------------------------------------------------------------------
// Characters
// ---------------------------------------------------------------------------

/// The control characters: general category `Cc`.
pub open spec fn is_control(c: char) -> bool {
    c <= '\u{1f}' || ('\u{7f}' <= c && c <= '\u{9f}')
}

/// The characters with the Unicode `White_Space` property.
pub open spec fn is_whitespace(c: char) -> bool {
    ||| ('\u{9}' <= c && c <= '\u{d}')
    ||| c == ' '
    ||| c == '\u{85}'
    ||| c == '\u{a0}'
    ||| c == '\u{1680}'
    ||| ('\u{2000}' <= c && c <= '\u{200a}')
    ||| c == '\u{2028}'
    ||| c == '\u{2029}'
    ||| c == '\u{202f}'
    ||| c == '\u{205f}'
    ||| c == '\u{3000}'
}

pub open spec fn is_ascii_char(c: char) -> bool {
    c <= '\u{7f}'
}

pub open spec fn is_ascii_upper(c: char) -> bool {
    'A' <= c && c <= 'Z'
}

pub open spec fn is_ascii_lower(c: char) -> bool {
    'a' <= c && c <= 'z'
}

pub open spec fn is_ascii_digit(c: char) -> bool {
    '0' <= c && c <= '9'
}

pub open spec fn is_ascii_alphanumeric(c: char) -> bool {
    is_ascii_upper(c) || is_ascii_lower(c) || is_ascii_digit(c)
}

/// ASCII lower case: `A` to `Z` become `a` to `z`, all else stays.
pub open spec fn ascii_lower(c: char) -> char {
    if is_ascii_upper(c) {
        (c as int + 32) as char
    } else {
        c
    }
}

pub fn control_char(c: char) -> (r: bool)
    ensures
        r == is_control(c),
{
    c <= '\u{1f}' || ('\u{7f}' <= c && c <= '\u{9f}')
}

pub fn whitespace_char(c: char) -> (r: bool)
    ensures
        r == is_whitespace(c),
{
    ('\u{9}' <= c && c <= '\u{d}') || c == ' ' || c == '\u{85}' || c == '\u{a0}' || c == '\u{1680}'
        || ('\u{2000}' <= c && c <= '\u{200a}') || c == '\u{2028}' || c == '\u{2029}' || c
        == '\u{202f}' || c == '\u{205f}' || c == '\u{3000}'
}

pub fn ascii_alphanumeric_char(c: char) -> (r: bool)
    ensures
        r == is_ascii_alphanumeric(c),
{
    ('A' <= c && c <= 'Z') || ('a' <= c && c <= 'z') || ('0' <= c && c <= '9')
}

pub fn ascii_lower_char(c: char) -> (r: char)
    ensures
        r == ascii_lower(c),
{
    if 'A' <= c && c <= 'Z' {
        ((c as u8) + 32) as char
    } else {
        c
    }
}

// ---------------------------------------------------------------------------
// Conversions
// ---------------------------------------------------------------------------

/// The characters of `s`, in order.
pub fn chars_of(s: &str) -> (v: Vec<char>)
    ensures
        v@ == s@,
{
    let mut v: Vec<char> = Vec::new();
    for c in it: s.chars()
        invariant
            v@ == it.seq().take(it.index() as int),
            it.seq() == s@,
    {
        v.push(c);
    }
    v
}

/// The text spelled by the characters `from..to` of `v`.
pub fn text_between(v: &Vec<char>, from: usize, to: usize) -> (s: String)
    requires
        from <= to <= v@.len(),
    ensures
        s@ == v@.subrange(from as int, to as int),
{
    let mut s = String::new();
    for i in from..to
        invariant
            from <= to <= v@.len(),
            s@ == v@.subrange(from as int, i as int),
    {
        s.push(v[i]);
    }
    s
}

/// Whether two texts are the same.
pub fn same(a: &str, b: &str) -> (r: bool)
    ensures
        r == (a@ == b@),
{
    a.to_owned() == b.to_owned()
}

/// Whether two optional texts are the same.
pub fn same_option(a: &Option<String>, b: &Option<String>) -> (r: bool)
    ensures
        r == (option_view(*a) == option_view(*b)),
{
    match (a, b) {
        (Some(x), Some(y)) => same(x.as_str(), y.as_str()),
        (None, None) => true,
        _ => false,
    }
}

/// The view of an optional text.
pub open spec fn option_view<T: View>(o: Option<T>) -> Option<T::V> {
    match o {
        Some(t) => Some(t@),
        None => None,
    }
}

/// An owned copy of an optional text.
pub fn clone_option(o: &Option<String>) -> (r: Option<String>)
    ensures
        option_view(r) == option_view(*o),
{
    match o {
        Some(t) => Some(t.clone()),
        None => None,
    }
}

/// An owned copy of a list of texts.
pub fn clone_texts(v: &Vec<String>) -> (r: Vec<String>)
    ensures
        views(r@) == views(v@),
{
    let mut r: Vec<String> = Vec::new();
    let n: usize = v.len();
    for i in 0..n
        invariant
            n == v@.len(),
            views(r@) == views(v@.take(i as int)),
    {
        r.push(v[i].clone());
        proof {
            lemma_views_push(r@.drop_last(), r@.last());
            lemma_views_push(v@.take(i as int), v@[i as int]);
            assert(r@.drop_last().push(r@.last()) =~= r@);
            assert(v@.take(i as int).push(v@[i as int]) =~= v@.take(i + 1));
        }
    }
    assert(v@.take(n as int) =~= v@);
    r
}

/// Whether a clone always has the view of the original.
pub open spec fn clones_by_view<T: View + Clone>() -> bool {
    forall|a: T, b: T| #[trigger] call_ensures(T::clone, (&a,), b) ==> a@ == b@
}

/// An owned copy of a list.
pub fn clone_list<T: View + Clone>(v: &Vec<T>) -> (r: Vec<T>)
    requires
        clones_by_view::<T>(),
        forall|a: T| call_requires(T::clone, (&a,)),
    ensures
        views(r@) == views(v@),
{
    let mut r: Vec<T> = Vec::new();
    let n: usize = v.len();
    for i in 0..n
        invariant
            n == v@.len(),
            clones_by_view::<T>(),
            forall|a: T| call_requires(T::clone, (&a,)),
            views(r@) == views(v@.take(i as int)),
    {
        let ghost before = r@;
        let item = v[i].clone();
        r.push(item);
        proof {
            lemma_views_push(before, item);
            lemma_views_push(v@.take(i as int), v@[i as int]);
            assert(v@.take(i as int).push(v@[i as int]) =~= v@.take(i + 1));
        }
    }
    assert(v@.take(n as int) =~= v@);
    r
}

/// The texts of a list of literals.
pub open spec fn literals(items: Seq<&str>) -> Seq<Seq<char>> {
    items.map_values(|item: &str| item@)
}

/// An owned list of literals.
pub fn list_of(items: &[&str]) -> (r: Vec<String>)
    ensures
        views(r@) == literals(items@),
{
    let mut r: Vec<String> = Vec::new();
    let n: usize = items.len();
    assert(views(r@) =~= literals(items@).take(0));
    for i in 0..n
        invariant
            n == items@.len(),
            views(r@) == literals(items@).take(i as int),
    {
        let ghost before = r@;
        let item = items[i].to_owned();
        r.push(item);
        proof {
            lemma_views_push(before, item);
            assert(literals(items@)[i as int] == item@);
            assert(views(r@) =~= literals(items@).take(i + 1));
        }
    }
    assert(literals(items@).take(n as int) =~= literals(items@));
    r
}

/// Whether a list of texts holds `t`.
pub fn has_text(v: &Vec<String>, t: &str) -> (r: bool)
    ensures
        r == views(v@).contains(t@),
{
    let n: usize = v.len();
    for i in 0..n
        invariant
            n == v@.len(),
            forall|j: int| 0 <= j < i ==> #[trigger] views(v@)[j] != t@,
    {
        if same(v[i].as_str(), t) {
            assert(views(v@)[i as int] == t@);
            return true;
        }
    }
    false
}

/// Appends copies of `more` to `v`.
pub fn extend_texts(v: &mut Vec<String>, more: &Vec<String>)
    ensures
        views(final(v)@) == views(old(v)@) + views(more@),
{
    let ghost before = views(v@);
    let n: usize = more.len();
    assert(before + views(more@.take(0)) =~= before);
    for i in 0..n
        invariant
            n == more@.len(),
            views(v@) == before + views(more@.take(i as int)),
    {
        let ghost mid = v@;
        v.push(more[i].clone());
        proof {
            lemma_views_push(mid, v@.last());
            lemma_views_push(more@.take(i as int), more@[i as int]);
            assert(more@.take(i as int).push(more@[i as int]) =~= more@.take(i + 1));
            assert(views(v@) =~= before + views(more@.take(i + 1)));
        }
    }
    assert(more@.take(n as int) =~= more@);
}

// ---------------------------------------------------------------------------
// Concatenation
// ---------------------------------------------------------------------------

pub fn cat2(a: &str, b: &str) -> (r: String)
    ensures
        r@ == a@ + b@,
{
    let mut r = a.to_owned();
    r.append(b);
    r
}

pub fn cat3(a: &str, b: &str, c: &str) -> (r: String)
    ensures
        r@ == a@ + b@ + c@,
{
    let mut r = cat2(a, b);
    r.append(c);
    r
}

pub fn cat4(a: &str, b: &str, c: &str, d: &str) -> (r: String)
    ensures
        r@ == a@ + b@ + c@ + d@,
{
    let mut r = cat3(a, b, c);
    r.append(d);
    r
}

pub fn cat5(a: &str, b: &str, c: &str, d: &str, e: &str) -> (r: String)
    ensures
        r@ == a@ + b@ + c@ + d@ + e@,
{
    let mut r = cat4(a, b, c, d);
    r.append(e);
    r
}

/// The texts of `parts`, with `sep` between neighbours.
pub open spec fn join(parts: Seq<Seq<char>>, sep: Seq<char>) -> Seq<char>
    decreases parts.len(),
{
    if parts.len() == 0 {
        Seq::empty()
    } else if parts.len() == 1 {
        parts[0]
    } else {
        join(parts.drop_last(), sep) + sep + parts.last()
    }
}

pub fn join_texts(parts: &Vec<String>, sep: &str) -> (r: String)
    ensures
        r@ == join(views(parts@), sep@),
{
    let mut r = String::new();
    let n: usize = parts.len();
    let ghost all = views(parts@);
    for i in 0..n
        invariant
            n == parts@.len(),
            all == views(parts@),
            r@ == join(all.take(i as int), sep@),
    {
        if i > 0 {
            r.append(sep);
        }
        r.append(parts[i].as_str());
        proof {
            assert(all.take(i + 1).drop_last() =~= all.take(i as int));
            assert(all.take(i + 1).last() == parts@[i as int]@);
            if i == 0 {
                assert(r@ =~= all.take(1)[0]);
            }
        }
    }
    assert(all.take(n as int) =~= all);
    r
}

/// The texts of `parts`, end to end.
pub open spec fn concat(parts: Seq<Seq<char>>) -> Seq<char>
    decreases parts.len(),
{
    if parts.len() == 0 {
        Seq::empty()
    } else {
        concat(parts.drop_last()) + parts.last()
    }
}

pub fn concat_texts(parts: &Vec<String>) -> (r: String)
    ensures
        r@ == concat(views(parts@)),
{
    let mut r = String::new();
    let n: usize = parts.len();
    let ghost all = views(parts@);
    for i in 0..n
        invariant
            n == parts@.len(),
            all == views(parts@),
            r@ == concat(all.take(i as int)),
    {
        r.append(parts[i].as_str());
        proof {
            assert(all.take(i + 1).drop_last() =~= all.take(i as int));
            assert(all.take(i + 1).last() == parts@[i as int]@);
        }
    }
    assert(all.take(n as int) =~= all);
    r
}

// ---------------------------------------------------------------------------
// Searching
// ---------------------------------------------------------------------------

/// Whether `s` begins with `p`.
pub open spec fn starts_with(s: Seq<char>, p: Seq<char>) -> bool {
    p.len() <= s.len() && s.take(p.len() as int) == p
}

/// Whether `p` stands in `s` at position `i`.
pub open spec fn occurs_at(s: Seq<char>, p: Seq<char>, i: int) -> bool {
    0 <= i && i + p.len() <= s.len() && s.subrange(i, i + p.len()) == p
}

/// Whether `p` stands somewhere in `s`.
pub open spec fn contains(s: Seq<char>, p: Seq<char>) -> bool {
    exists|i: int| occurs_at(s, p, i)
}

/// The first position of `p` in `s`, at or after `from`.
pub open spec fn find_from(s: Seq<char>, p: Seq<char>, from: int) -> Option<int>
    decreases s.len() - from + 1,
{
    if from < 0 || from + p.len() > s.len() {
        None
    } else if occurs_at(s, p, from) {
        Some(from)
    } else {
        find_from(s, p, from + 1)
    }
}

/// The last position of the character `c` in `s`.
pub open spec fn find_last(s: Seq<char>, c: char) -> Option<int>
    decreases s.len(),
{
    if s.len() == 0 {
        None
    } else if s.last() == c {
        Some(s.len() - 1)
    } else {
        find_last(s.drop_last(), c)
    }
}

/// What stands before and behind the first `sep` in `s`.
pub open spec fn split_once(s: Seq<char>, sep: Seq<char>) -> Option<(Seq<char>, Seq<char>)> {
    match find_from(s, sep, 0) {
        Some(i) => Some((s.take(i), s.skip(i + sep.len()))),
        None => None,
    }
}

/// What stands before and behind the last `c` in `s`.
pub open spec fn rsplit_once(s: Seq<char>, c: char) -> Option<(Seq<char>, Seq<char>)> {
    match find_last(s, c) {
        Some(i) => Some((s.take(i), s.skip(i + 1))),
        None => None,
    }
}

/// `find_from` gives the least position at which `p` occurs, if there is one.
pub proof fn lemma_find_from(s: Seq<char>, p: Seq<char>, from: int)
    requires
        0 <= from,
    ensures
        match find_from(s, p, from) {
            Some(i) => from <= i && occurs_at(s, p, i) && forall|j: int|
                from <= j < i ==> !#[trigger] occurs_at(s, p, j),
            None => forall|j: int| from <= j ==> !#[trigger] occurs_at(s, p, j),
        },
    decreases s.len() - from + 1,
{
    if from + p.len() <= s.len() && !occurs_at(s, p, from) {
        lemma_find_from(s, p, from + 1);
    }
}

/// `find_last` gives the greatest position at which `c` stands, if there is one.
pub proof fn lemma_find_last(s: Seq<char>, c: char)
    ensures
        match find_last(s, c) {
            Some(i) => 0 <= i < s.len() && s[i] == c && forall|j: int| i < j < s.len() ==> s[j] != c,
            None => forall|j: int| 0 <= j < s.len() ==> s[j] != c,
        },
    decreases s.len(),
{
    if s.len() > 0 && s.last() != c {
        lemma_find_last(s.drop_last(), c);
        assert forall|j: int| 0 <= j < s.len() - 1 implies s[j] == s.drop_last()[j] by {}
    }
}

fn occurs_here(s: &Vec<char>, p: &Vec<char>, at: usize) -> (r: bool)
    requires
        at + p@.len() <= s@.len(),
    ensures
        r == occurs_at(s@, p@, at as int),
{
    let n: usize = p.len();
    let total: usize = s.len();
    for i in 0..n
        invariant
            n == p@.len(),
            total == s@.len(),
            at + n <= total,
            forall|j: int| 0 <= j < i ==> s@[at + j] == p@[j],
    {
        if s[at + i] != p[i] {
            assert(s@.subrange(at as int, at + p@.len())[i as int] != p@[i as int]);
            return false;
        }
    }
    assert(s@.subrange(at as int, at + p@.len()) =~= p@);
    true
}

fn find(s: &Vec<char>, p: &Vec<char>) -> (r: Option<usize>)
    ensures
        match r {
            Some(i) => find_from(s@, p@, 0) == Some(i as int) && i + p@.len() <= s@.len(),
            None => find_from(s@, p@, 0) is None,
        },
{
    let n: usize = s.len();
    let m: usize = p.len();
    if m > n {
        return None;
    }
    let mut i: usize = 0;
    while i <= n - m
        invariant
            n == s@.len(),
            m == p@.len(),
            m <= n,
            i <= n - m,
            find_from(s@, p@, 0) == find_from(s@, p@, i as int),
        decreases n - i,
    {
        if occurs_here(s, p, i) {
            return Some(i);
        }
        if i == n - m {
            assert(find_from(s@, p@, i + 1) is None);
            return None;
        }
        i = i + 1;
    }
    None
}

pub fn text_starts_with(s: &str, p: &str) -> (r: bool)
    ensures
        r == starts_with(s@, p@),
{
    let sv = chars_of(s);
    let pv = chars_of(p);
    if pv.len() > sv.len() {
        return false;
    }
    assert(s@.subrange(0, p@.len() as int) =~= s@.take(p@.len() as int));
    occurs_here(&sv, &pv, 0)
}

pub fn starts_with_char(s: &str, c: char) -> (r: bool)
    ensures
        r == (s@.len() > 0 && s@[0] == c),
{
    let sv = chars_of(s);
    sv.len() > 0 && sv[0] == c
}

pub fn text_contains(s: &str, p: &str) -> (r: bool)
    ensures
        r == contains(s@, p@),
{
    let sv = chars_of(s);
    let pv = chars_of(p);
    proof {
        lemma_find_from(s@, p@, 0);
    }
    match find(&sv, &pv) {
        Some(i) => {
            assert(occurs_at(s@, p@, i as int));
            true
        },
        None => false,
    }
}

pub fn text_split_once(s: &str, sep: &str) -> (r: Option<(String, String)>)
    ensures
        match r {
            Some(pair) => split_once(s@, sep@) == Some((pair.0@, pair.1@)),
            None => split_once(s@, sep@) is None,
        },
{
    let sv = chars_of(s);
    let pv = chars_of(sep);
    match find(&sv, &pv) {
        Some(i) => {
            let head = text_between(&sv, 0, i);
            let total: usize = sv.len();
            let behind: usize = i + pv.len();
            let tail = text_between(&sv, behind, total);
            assert(head@ =~= s@.take(i as int));
            assert(tail@ =~= s@.skip(i + sep@.len()));
            Some((head, tail))
        },
        None => None,
    }
}

pub fn text_rsplit_once(s: &str, c: char) -> (r: Option<(String, String)>)
    ensures
        match r {
            Some(pair) => rsplit_once(s@, c) == Some((pair.0@, pair.1@)),
            None => rsplit_once(s@, c) is None,
        },
{
    let sv = chars_of(s);
    let mut i: usize = sv.len();
    assert(s@.take(i as int) =~= s@);
    while i > 0
        invariant
            i <= s@.len(),
            sv@ == s@,
            find_last(s@, c) == find_last(s@.take(i as int), c),
        decreases i,
    {
        assert(s@.take(i as int).last() == s@[i - 1]);
        assert(s@.take(i as int).drop_last() =~= s@.take(i - 1));
        i = i - 1;
        if sv[i] == c {
            let head = text_between(&sv, 0, i);
            let tail = text_between(&sv, i + 1, sv.len());
            assert(head@ =~= s@.take(i as int));
            assert(tail@ =~= s@.skip(i + 1));
            return Some((head, tail));
        }
    }
    None
}

// ---------------------------------------------------------------------------
// Case
// ---------------------------------------------------------------------------

/// `s` with its ASCII letters in lower case.
pub open spec fn lower(s: Seq<char>) -> Seq<char> {
    s.map_values(|c: char| ascii_lower(c))
}

pub fn text_lower(s: &str) -> (r: String)
    ensures
        r@ == lower(s@),
{
    let sv = chars_of(s);
    let mut r = String::new();
    let n: usize = sv.len();
    for i in 0..n
        invariant
            n == sv@.len(),
            sv@ == s@,
            r@ == lower(s@.take(i as int)),
    {
        r.push(ascii_lower_char(sv[i]));
        assert(r@ =~= lower(s@.take(i + 1)));
    }
    assert(s@.take(n as int) =~= s@);
    r
}

pub fn same_ignoring_case(a: &str, b: &str) -> (r: bool)
    ensures
        r == (lower(a@) == lower(b@)),
{
    text_lower(a) == text_lower(b)
}

// ---------------------------------------------------------------------------
// Trimming, lines, words
// ---------------------------------------------------------------------------

/// `s` without its leading whitespace.
pub open spec fn trim_start(s: Seq<char>) -> Seq<char>
    decreases s.len(),
{
    if s.len() > 0 && is_whitespace(s[0]) {
        trim_start(s.drop_first())
    } else {
        s
    }
}

/// `s` without its trailing whitespace.
pub open spec fn trim_end(s: Seq<char>) -> Seq<char>
    decreases s.len(),
{
    if s.len() > 0 && is_whitespace(s.last()) {
        trim_end(s.drop_last())
    } else {
        s
    }
}

/// `s` without its leading and trailing whitespace.
pub open spec fn trim(s: Seq<char>) -> Seq<char> {
    trim_end(trim_start(s))
}

pub fn text_trim(s: &str) -> (r: String)
    ensures
        r@ == trim(s@),
{
    let sv = chars_of(s);
    let n: usize = sv.len();
    let mut a: usize = 0;
    assert(s@.skip(0) =~= s@);
    while a < n && whitespace_char(sv[a])
        invariant
            n == s@.len(),
            sv@ == s@,
            a <= n,
            trim_start(s@) == trim_start(s@.skip(a as int)),
        decreases n - a,
    {
        assert(s@.skip(a as int).drop_first() =~= s@.skip(a + 1));
        a = a + 1;
    }
    let ghost t = s@.skip(a as int);
    let mut b: usize = n;
    assert(s@.subrange(a as int, b as int) =~= t);
    while b > a && whitespace_char(sv[b - 1])
        invariant
            n == s@.len(),
            sv@ == s@,
            a <= b <= n,
            trim_end(t) == trim_end(s@.subrange(a as int, b as int)),
        decreases b,
    {
        assert(s@.subrange(a as int, b as int).drop_last() =~= s@.subrange(a as int, b - 1));
        b = b - 1;
    }
    text_between(&sv, a, b)
}

/// Whether nothing but whitespace stands in `s`.
pub open spec fn is_blank(s: Seq<char>) -> bool {
    forall|i: int| 0 <= i < s.len() ==> is_whitespace(#[trigger] s[i])
}

/// A blank text is one of which trimming leaves nothing.
pub proof fn lemma_blank_trim(s: Seq<char>)
    ensures
        is_blank(s) <==> trim(s).len() == 0,
    decreases s.len(),
{
    if s.len() > 0 && is_whitespace(s[0]) {
        lemma_blank_trim(s.drop_first());
        assert(s.drop_first().len() == s.len() - 1);
        if is_blank(s.drop_first()) {
            assert forall|i: int| 0 <= i < s.len() implies is_whitespace(#[trigger] s[i]) by {
                if i > 0 {
                    assert(s[i] == s.drop_first()[i - 1]);
                }
            }
        } else {
            let j = choose|j: int| 0 <= j < s.drop_first().len() && !is_whitespace(s.drop_first()[j]);
            assert(!is_whitespace(s[j + 1]));
        }
    } else if s.len() > 0 {
        lemma_trim_end_keeps_head(s);
        assert(!is_blank(s));
    }
}

proof fn lemma_trim_end_keeps_head(s: Seq<char>)
    requires
        s.len() > 0,
        !is_whitespace(s[0]),
    ensures
        trim_end(s).len() > 0,
    decreases s.len(),
{
    if is_whitespace(s.last()) {
        lemma_trim_end_keeps_head(s.drop_last());
    }
}

pub fn text_is_blank(s: &str) -> (r: bool)
    ensures
        r == is_blank(s@),
{
    let sv = chars_of(s);
    let n: usize = sv.len();
    for i in 0..n
        invariant
            n == s@.len(),
            sv@ == s@,
            forall|j: int| 0 <= j < i ==> is_whitespace(#[trigger] s@[j]),
    {
        if !whitespace_char(sv[i]) {
            return false;
        }
    }
    true
}

/// Whether a control character stands in `s`.
pub open spec fn has_control(s: Seq<char>) -> bool {
    exists|i: int| 0 <= i < s.len() && is_control(#[trigger] s[i])
}

pub fn text_has_control(s: &str) -> (r: bool)
    ensures
        r == has_control(s@),
{
    let sv = chars_of(s);
    let n: usize = sv.len();
    for i in 0..n
        invariant
            n == s@.len(),
            sv@ == s@,
            forall|j: int| 0 <= j < i ==> !is_control(#[trigger] s@[j]),
    {
        if control_char(sv[i]) {
            return true;
        }
    }
    false
}

/// `line` without a final carriage return.
pub open spec fn strip_carriage_return(line: Seq<char>) -> Seq<char> {
    if line.len() > 0 && line.last() == '\r' {
        line.drop_last()
    } else {
        line
    }
}

/// The lines of `s`: a line ends at `\n` or `\r\n`, the last ending is optional.
pub open spec fn lines(s: Seq<char>) -> Seq<Seq<char>>
    decreases s.len(),
{
    if s.len() == 0 {
        Seq::empty()
    } else {
        match find_from(s, seq!['\n'], 0) {
            Some(i) => if 0 <= i < s.len() {
                seq![strip_carriage_return(s.take(i))] + lines(s.skip(i + 1))
            } else {
                seq![s]
            },
            None => seq![s],
        }
    }
}

proof fn lemma_newline_found(s: Seq<char>, i: int)
    requires
        0 <= i < s.len(),
        s[i] == '\n',
        forall|j: int| 0 <= j < i ==> s[j] != '\n',
    ensures
        find_from(s, seq!['\n'], 0) == Some(i),
{
    lemma_find_from(s, seq!['\n'], 0);
    assert(s.subrange(i, i + 1) =~= seq!['\n']);
    assert(occurs_at(s, seq!['\n'], i));
    let k = find_from(s, seq!['\n'], 0)->0;
    assert(s.subrange(k, k + 1)[0] == s[k]);
}

proof fn lemma_newline_missing(s: Seq<char>)
    requires
        forall|j: int| 0 <= j < s.len() ==> s[j] != '\n',
    ensures
        find_from(s, seq!['\n'], 0) is None,
{
    lemma_find_from(s, seq!['\n'], 0);
    if let Some(k) = find_from(s, seq!['\n'], 0) {
        assert(s.subrange(k, k + 1)[0] == s[k]);
    }
}

pub fn text_lines(s: &str) -> (r: Vec<String>)
    ensures
        views(r@) == lines(s@),
{
    let sv = chars_of(s);
    let n: usize = sv.len();
    let mut r: Vec<String> = Vec::new();
    let mut a: usize = 0;
    proof {
        assert(s@.skip(0) =~= s@);
        assert(views(r@) + lines(s@) =~= lines(s@));
    }
    while a < n
        invariant
            n == s@.len(),
            sv@ == s@,
            a <= n,
            views(r@) + lines(s@.skip(a as int)) == lines(s@),
        decreases n - a,
    {
        let mut b: usize = a;
        while b < n && sv[b] != '\n'
            invariant
                n == s@.len(),
                sv@ == s@,
                a <= b <= n,
                forall|j: int| a <= j < b ==> s@[j] != '\n',
            decreases n - b,
        {
            b = b + 1;
        }
        let ghost rest = s@.skip(a as int);
        let ghost before = r@;
        if b < n {
            let end: usize = if b > a && sv[b - 1] == '\r' {
                b - 1
            } else {
                b
            };
            let line = text_between(&sv, a, end);
            r.push(line);
            proof {
                lemma_newline_found(rest, b - a);
                assert(rest.take(b - a) =~= s@.subrange(a as int, b as int));
                assert(rest.skip(b - a + 1) =~= s@.skip(b + 1));
                assert(line@ =~= strip_carriage_return(rest.take(b - a)));
                lemma_views_push(before, line);
                assert(views(r@) + lines(s@.skip(b + 1)) =~= views(before) + (seq![line@] + lines(
                    s@.skip(b + 1),
                )));
            }
            a = b + 1;
        } else {
            let line = text_between(&sv, a, n);
            r.push(line);
            proof {
                lemma_newline_missing(rest);
                assert(line@ =~= rest);
                lemma_views_push(before, line);
                assert(lines(s@.skip(n as int)) =~= Seq::<Seq<char>>::empty());
                assert(views(r@) + lines(s@.skip(n as int)) =~= views(before) + seq![rest]);
            }
            a = n;
        }
    }
    assert(lines(s@.skip(n as int)) =~= Seq::<Seq<char>>::empty());
    assert(views(r@) =~= views(r@) + lines(s@.skip(a as int)));
    r
}

/// The length of the leading run of characters of `s` that are not whitespace.
pub open spec fn word_length(s: Seq<char>) -> nat
    decreases s.len(),
{
    if s.len() > 0 && !is_whitespace(s[0]) {
        1 + word_length(s.drop_first())
    } else {
        0
    }
}

pub proof fn lemma_word_length(s: Seq<char>)
    ensures
        word_length(s) <= s.len(),
        s.len() > 0 && !is_whitespace(s[0]) ==> word_length(s) > 0,
    decreases s.len(),
{
    if s.len() > 0 && !is_whitespace(s[0]) {
        lemma_word_length(s.drop_first());
    }
}

/// The runs of characters of `s` that whitespace separates.
pub open spec fn words(s: Seq<char>) -> Seq<Seq<char>>
    decreases s.len(),
{
    if s.len() == 0 {
        Seq::empty()
    } else if is_whitespace(s[0]) {
        words(s.drop_first())
    } else {
        let k = word_length(s) as int;
        if 0 < k <= s.len() {
            seq![s.take(k)] + words(s.skip(k))
        } else {
            Seq::empty()
        }
    }
}

pub fn text_words(s: &str) -> (r: Vec<String>)
    ensures
        views(r@) == words(s@),
{
    let sv = chars_of(s);
    let n: usize = sv.len();
    let mut r: Vec<String> = Vec::new();
    let mut a: usize = 0;
    proof {
        assert(s@.skip(0) =~= s@);
        assert(views(r@) + words(s@) =~= words(s@));
    }
    while a < n
        invariant
            n == s@.len(),
            sv@ == s@,
            a <= n,
            views(r@) + words(s@.skip(a as int)) == words(s@),
        decreases n - a,
    {
        let ghost rest = s@.skip(a as int);
        if whitespace_char(sv[a]) {
            assert(rest.drop_first() =~= s@.skip(a + 1));
            a = a + 1;
        } else {
            let mut b: usize = a;
            while b < n && !whitespace_char(sv[b])
                invariant
                    n == s@.len(),
                    sv@ == s@,
                    a <= b <= n,
                    word_length(s@.skip(a as int)) == (b - a) + word_length(s@.skip(b as int)),
                decreases n - b,
            {
                assert(s@.skip(b as int).drop_first() =~= s@.skip(b + 1));
                b = b + 1;
            }
            let ghost before = r@;
            let word = text_between(&sv, a, b);
            r.push(word);
            proof {
                lemma_word_length(rest);
                assert(word_length(s@.skip(b as int)) == 0);
                assert(rest.take(b - a) =~= word@);
                assert(rest.skip(b - a) =~= s@.skip(b as int));
                lemma_views_push(before, word);
                assert(views(r@) + words(s@.skip(b as int)) =~= views(before) + (seq![word@]
                    + words(s@.skip(b as int))));
            }
            a = b;
        }
    }
    assert(words(s@.skip(n as int)) =~= Seq::<Seq<char>>::empty());
    assert(views(r@) =~= views(r@) + words(s@.skip(a as int)));
    r
}

// ---------------------------------------------------------------------------
// Numbers, padding, escapes
// ---------------------------------------------------------------------------

pub open spec fn digit_char(d: nat) -> char {
    (48 + d) as char
}

/// The decimal spelling of a number.
pub open spec fn decimal(n: nat) -> Seq<char>
    decreases n,
{
    if n < 10 {
        seq![digit_char(n)]
    } else {
        decimal(n / 10).push(digit_char(n % 10))
    }
}

pub fn decimal_text(n: usize) -> (r: String)
    ensures
        r@ == decimal(n as nat),
{
    decimal_number(n as u64)
}

pub fn decimal_number(n: u64) -> (r: String)
    ensures
        r@ == decimal(n as nat),
    decreases n,
{
    let c = (48 + (n % 10) as u8) as char;
    if n < 10 {
        let mut r = String::new();
        r.push(c);
        assert(r@ =~= seq![digit_char(n as nat)]);
        r
    } else {
        let mut r = decimal_number(n / 10);
        r.push(c);
        r
    }
}

/// `n` spaces.
pub open spec fn spaces(n: nat) -> Seq<char> {
    Seq::new(n, |i: int| ' ')
}

/// `s`, filled up with spaces to at least `width` characters.
pub open spec fn pad_right(s: Seq<char>, width: nat) -> Seq<char> {
    if s.len() < width {
        s + spaces((width - s.len()) as nat)
    } else {
        s
    }
}

pub fn pad_text(s: &str, width: usize) -> (r: String)
    ensures
        r@ == pad_right(s@, width as nat),
{
    let count: usize = chars_of(s).len();
    let mut r = s.to_owned();
    let mut i: usize = count;
    while i < width
        invariant
            count == s@.len(),
            count <= i,
            i <= width || i == count,
            r@ == s@ + spaces((i - count) as nat),
        decreases width - i,
    {
        r.push(' ');
        i = i + 1;
        assert(r@ =~= s@ + spaces((i - count) as nat));
    }
    assert(s@ + spaces(0) =~= s@);
    r
}

pub open spec fn hex_digit(d: nat) -> char {
    if d < 10 {
        (48 + d) as char
    } else {
        (87 + d) as char
    }
}

/// The hexadecimal spelling of a number, in lower case and without leading zeros.
pub open spec fn hexadecimal(n: nat) -> Seq<char>
    decreases n,
{
    if n < 16 {
        seq![hex_digit(n)]
    } else {
        hexadecimal(n / 16).push(hex_digit(n % 16))
    }
}

fn hexadecimal_text(n: u32) -> (r: String)
    ensures
        r@ == hexadecimal(n as nat),
    decreases n,
{
    let d: u8 = (n % 16) as u8;
    let c = if d < 10 {
        (48 + d) as char
    } else {
        (87 + d) as char
    };
    if n < 16 {
        let mut r = String::new();
        r.push(c);
        assert(r@ =~= seq![hex_digit(n as nat)]);
        r
    } else {
        let mut r = hexadecimal_text(n / 16);
        r.push(c);
        r
    }
}

/// How a control character is shown: `\t`, `\r`, `\n`, or its code point.
pub open spec fn escape_control(c: char) -> Seq<char> {
    if c == '\t' {
        "\\t"@
    } else if c == '\r' {
        "\\r"@
    } else if c == '\n' {
        "\\n"@
    } else {
        "\\u{"@ + hexadecimal(c as nat) + "}"@
    }
}

pub fn escape_control_char(c: char) -> (r: String)
    ensures
        r@ == escape_control(c),
{
    if c == '\t' {
        "\\t".to_owned()
    } else if c == '\r' {
        "\\r".to_owned()
    } else if c == '\n' {
        "\\n".to_owned()
    } else {
        cat3("\\u{", hexadecimal_text(c as u32).as_str(), "}")
    }
}

/// `s` with every control character escaped.
pub open spec fn escape_controls(s: Seq<char>) -> Seq<char>
    decreases s.len(),
{
    if s.len() == 0 {
        Seq::empty()
    } else if is_control(s.last()) {
        escape_controls(s.drop_last()) + escape_control(s.last())
    } else {
        escape_controls(s.drop_last()).push(s.last())
    }
}

/// The first `limit` characters of `s`, or all of them if there are fewer.
pub open spec fn take_at_most<T>(s: Seq<T>, limit: nat) -> Seq<T> {
    if limit < s.len() {
        s.take(limit as int)
    } else {
        s
    }
}

/// Escapes the control characters among the first `limit` characters.
pub fn escape_prefix(s: &str, limit: usize) -> (r: String)
    ensures
        r@ == escape_controls(take_at_most(s@, limit as nat)),
{
    let sv = chars_of(s);
    let n: usize = if limit < sv.len() {
        limit
    } else {
        sv.len()
    };
    let mut r = String::new();
    assert(s@.take(0) =~= Seq::<char>::empty());
    for i in 0..n
        invariant
            n <= s@.len(),
            sv@ == s@,
            r@ == escape_controls(s@.take(i as int)),
    {
        proof {
            assert(s@.take(i + 1).drop_last() =~= s@.take(i as int));
            assert(s@.take(i + 1).last() == s@[i as int]);
        }
        if control_char(sv[i]) {
            r.append(escape_control_char(sv[i]).as_str());
        } else {
            r.push(sv[i]);
        }
    }
    assert(n == s@.len() ==> s@.take(n as int) =~= s@);
    r
}

pub fn escape_text(s: &str) -> (r: String)
    ensures
        r@ == escape_controls(s@),
{
    let n: usize = chars_of(s).len();
    escape_prefix(s, n)
}

/// A list that keeps the first of equal items and the order of first occurrences.
pub open spec fn distinct<T>(s: Seq<T>) -> Seq<T>
    decreases s.len(),
{
    if s.len() == 0 {
        Seq::empty()
    } else {
        let d = distinct(s.drop_last());
        if d.contains(s.last()) {
            d
        } else {
            d.push(s.last())
        }
    }
}

/// The items that are kept are those that there are, each once.
pub proof fn lemma_distinct<T>(s: Seq<T>)
    ensures
        distinct(s).no_duplicates(),
        forall|x: T| #[trigger] distinct(s).contains(x) <==> s.contains(x),
        distinct(s).len() <= s.len(),
    decreases s.len(),
{
    if s.len() > 0 {
        let rest = s.drop_last();
        lemma_distinct(rest);
        assert forall|x: T| #[trigger] distinct(s).contains(x) <==> s.contains(x) by {
            if s.contains(x) {
                let k = choose|k: int| 0 <= k < s.len() && s[k] == x;
                if k < rest.len() {
                    assert(rest[k] == x);
                    assert(rest.contains(x));
                    assert(distinct(rest).contains(x));
                    let m = choose|m: int| 0 <= m < distinct(rest).len() && distinct(rest)[m] == x;
                    assert(distinct(s)[m] == x);
                } else if !distinct(rest).contains(x) {
                    assert(distinct(s)[distinct(s).len() - 1] == x);
                }
            }
            if distinct(s).contains(x) {
                if distinct(rest).contains(x) {
                    assert(rest.contains(x));
                    let k = choose|k: int| 0 <= k < rest.len() && rest[k] == x;
                    assert(s[k] == x);
                } else {
                    let m = choose|m: int| 0 <= m < distinct(s).len() && distinct(s)[m] == x;
                    if m < distinct(rest).len() {
                        assert(distinct(rest)[m] == x);
                    }
                    assert(s[s.len() - 1] == x);
                }
            }
        }
    }
}

// ---------------------------------------------------------------------------
// Laws
// ---------------------------------------------------------------------------

proof fn lemma_hexadecimal_has_no_controls(n: nat)
    ensures
        !has_control(hexadecimal(n)),
    decreases n,
{
    if n >= 16 {
        lemma_hexadecimal_has_no_controls(n / 16);
    }
}

/// Texts without control characters, end to end.
pub proof fn lemma_add_has_no_controls(a: Seq<char>, b: Seq<char>)
    requires
        !has_control(a),
        !has_control(b),
    ensures
        !has_control(a + b),
{
    assert forall|i: int| 0 <= i < (a + b).len() implies !is_control(#[trigger] (a + b)[i]) by {
        if i < a.len() {
            assert((a + b)[i] == a[i]);
        } else {
            assert((a + b)[i] == b[i - a.len()]);
        }
    }
}

/// No control character is left in a text that is escaped, whatever it holds.
pub proof fn law_escaped_text_has_no_controls(s: Seq<char>)
    ensures
        !has_control(escape_controls(s)),
    decreases s.len(),
{
    if s.len() > 0 {
        let rest = escape_controls(s.drop_last());
        let c = s.last();
        law_escaped_text_has_no_controls(s.drop_last());
        if is_control(c) {
            reveal_strlit("\\t");
            reveal_strlit("\\r");
            reveal_strlit("\\n");
            reveal_strlit("\\u{");
            reveal_strlit("}");
            lemma_hexadecimal_has_no_controls(c as nat);
            lemma_add_has_no_controls("\\u{"@, hexadecimal(c as nat));
            lemma_add_has_no_controls("\\u{"@ + hexadecimal(c as nat), "}"@);
            lemma_add_has_no_controls(rest, escape_control(c));
        } else {
            assert forall|i: int| 0 <= i < rest.push(c).len() implies !is_control(
                #[trigger] rest.push(c)[i],
            ) by {
                if i < rest.len() {
                    assert(rest.push(c)[i] == rest[i]);
                }
            }
        }
    }
}

/// A text without control characters is not changed when it is escaped; in
/// particular, escaping twice is escaping once.
pub proof fn law_text_without_controls_is_kept(s: Seq<char>)
    ensures
        !has_control(s) ==> escape_controls(s) == s,
        escape_controls(escape_controls(s)) == escape_controls(s),
{
    if !has_control(s) {
        lemma_kept(s);
    }
    law_escaped_text_has_no_controls(s);
    lemma_kept(escape_controls(s));
}

proof fn lemma_kept(s: Seq<char>)
    requires
        !has_control(s),
    ensures
        escape_controls(s) == s,
    decreases s.len(),
{
    if s.len() > 0 {
        let rest = s.drop_last();
        assert forall|i: int| 0 <= i < rest.len() implies !is_control(#[trigger] rest[i]) by {
            assert(rest[i] == s[i]);
        }
        assert(!is_control(s[s.len() - 1]));
        lemma_kept(rest);
        assert(rest.push(s.last()) =~= s);
    } else {
        assert(escape_controls(s) =~= s);
    }
}

/// A text is split where its separator first stands, and into what stands before and
/// behind it; it is not split if the separator stands nowhere.
pub proof fn law_split_at_the_first(before: Seq<char>, sep: Seq<char>, behind: Seq<char>)
    ensures
        (forall|j: int|
            0 <= j < before.len() ==> !#[trigger] occurs_at(before + sep + behind, sep, j))
            ==> split_once(before + sep + behind, sep) == Some((before, behind)),
        (forall|j: int| 0 <= j ==> !#[trigger] occurs_at(before, sep, j)) ==> split_once(
            before,
            sep,
        ) is None,
{
    let s = before + sep + behind;
    lemma_find_from(s, sep, 0);
    lemma_find_from(before, sep, 0);
    assert(s.subrange(before.len() as int, before.len() as int + sep.len()) =~= sep);
    assert(occurs_at(s, sep, before.len() as int));
    assert(s.take(before.len() as int) =~= before);
    assert(s.skip((before.len() + sep.len()) as int) =~= behind);
}

/// A text is split at the last of a character, into what stands before and behind it;
/// it is not split if the character stands nowhere.
pub proof fn law_split_at_the_last(before: Seq<char>, c: char, behind: Seq<char>)
    requires
        forall|j: int| 0 <= j < behind.len() ==> behind[j] != c,
    ensures
        rsplit_once(before.push(c) + behind, c) == Some((before, behind)),
        rsplit_once(behind, c) is None,
{
    let s = before.push(c) + behind;
    lemma_find_last(s, c);
    lemma_find_last(behind, c);
    assert(s[before.len() as int] == c);
    assert forall|j: int| before.len() < j < s.len() implies s[j] != c by {
        assert(s[j] == behind[j - before.len() - 1]);
    }
    assert(s.take(before.len() as int) =~= before);
    assert(s.skip(before.len() + 1int) =~= behind);
}

/// A text is read line by line: a line ends at a line break, with which a carriage
/// return before it goes; what follows the last break is a line unless it is empty.
pub proof fn law_lines_are_read_one_by_one(line: Seq<char>, rest: Seq<char>)
    requires
        forall|j: int| 0 <= j < line.len() ==> line[j] != '\n',
    ensures
        lines(Seq::<char>::empty()) == Seq::<Seq<char>>::empty(),
        line.len() > 0 ==> lines(line) == seq![line],
        line.len() == 0 || line.last() != '\r' ==> lines(line.push('\n') + rest) == seq![line]
            + lines(rest),
        lines(line.push('\r').push('\n') + rest) == seq![line] + lines(rest),
{
    lemma_newline_missing(line);
    let plain = line.push('\n') + rest;
    lemma_newline_found(plain, line.len() as int);
    assert(plain.take(line.len() as int) =~= line);
    assert(plain.skip(line.len() + 1int) =~= rest);
    let marked = line.push('\r').push('\n') + rest;
    assert forall|j: int| 0 <= j < line.len() + 1 implies marked[j] != '\n' by {
        if j < line.len() {
            assert(marked[j] == line[j]);
        }
    }
    lemma_newline_found(marked, line.len() + 1int);
    assert(marked.take(line.len() + 1int) =~= line.push('\r'));
    assert(line.push('\r').drop_last() =~= line);
    assert(marked.skip(line.len() + 2int) =~= rest);
}

/// A text is read word by word: whitespace before a word is passed over, and a word
/// ends at whitespace or with the text.
pub proof fn law_words_are_read_one_by_one(word: Seq<char>, space: char, rest: Seq<char>)
    requires
        forall|j: int| 0 <= j < word.len() ==> !is_whitespace(#[trigger] word[j]),
        is_whitespace(space),
    ensures
        words(Seq::<char>::empty()) == Seq::<Seq<char>>::empty(),
        words(seq![space] + rest) == words(rest),
        word.len() > 0 ==> words(word) == seq![word],
        word.len() > 0 ==> words(word.push(space) + rest) == seq![word] + words(rest),
{
    assert((seq![space] + rest).drop_first() =~= rest);
    if word.len() > 0 {
        lemma_run_length(word, Seq::empty());
        assert(word + Seq::<char>::empty() =~= word);
        assert(word.take(word.len() as int) =~= word);
        assert(!is_whitespace(word[0]));
        assert(word.skip(word.len() as int) =~= Seq::<char>::empty());
        let s = word.push(space) + rest;
        let tail = seq![space] + rest;
        assert(s =~= word + tail);
        lemma_run_length(word, tail);
        assert(s.take(word.len() as int) =~= word);
        assert(s.skip(word.len() as int) =~= tail);
        assert(!is_whitespace(s[0]));
        assert(tail.drop_first() =~= rest);
    }
}

proof fn lemma_run_length(word: Seq<char>, tail: Seq<char>)
    requires
        forall|j: int| 0 <= j < word.len() ==> !is_whitespace(#[trigger] word[j]),
        tail.len() > 0 ==> is_whitespace(tail[0]),
    ensures
        word_length(word + tail) == word.len(),
    decreases word.len(),
{
    if word.len() > 0 {
        assert((word + tail)[0] == word[0]);
        assert((word + tail).drop_first() =~= word.drop_first() + tail);
        lemma_run_length(word.drop_first(), tail);
    } else {
        assert(word + tail =~= tail);
    }
}

/// Trimming takes away the whitespace around a text and nothing else.
pub proof fn law_trimming_takes_the_whitespace_around(
    before: Seq<char>,
    s: Seq<char>,
    behind: Seq<char>,
)
    requires
        is_blank(before),
        is_blank(behind),
        s.len() > 0 ==> !is_whitespace(s[0]) && !is_whitespace(s.last()),
    ensures
        trim(before + s + behind) == s,
    decreases before.len() + behind.len(),
{
    let all = before + s + behind;
    if before.len() > 0 {
        assert(is_whitespace(before[0]));
        assert(all[0] == before[0]);
        let rest = before.drop_first();
        assert forall|i: int| 0 <= i < rest.len() implies is_whitespace(#[trigger] rest[i]) by {
            assert(rest[i] == before[i + 1]);
        }
        assert(all.drop_first() =~= rest + s + behind);
        law_trimming_takes_the_whitespace_around(rest, s, behind);
    } else if s.len() > 0 {
        assert(all =~= s + behind);
        assert(all[0] == s[0]);
        lemma_trimmed_end(s, behind);
    } else {
        assert(all =~= behind);
        lemma_blank_trim(behind);
        assert(trim(behind) =~= s);
    }
}

proof fn lemma_trimmed_end(s: Seq<char>, behind: Seq<char>)
    requires
        is_blank(behind),
        s.len() > 0,
        !is_whitespace(s.last()),
    ensures
        trim_end(s + behind) == s,
    decreases behind.len(),
{
    if behind.len() > 0 {
        let rest = behind.drop_last();
        assert forall|i: int| 0 <= i < rest.len() implies is_whitespace(#[trigger] rest[i]) by {
            assert(rest[i] == behind[i]);
        }
        assert(is_whitespace(behind[behind.len() - 1]));
        assert((s + behind).last() == behind.last());
        assert((s + behind).drop_last() =~= s + rest);
        lemma_trimmed_end(s, rest);
    } else {
        assert(s + behind =~= s);
    }
}

/// Letters `A` to `Z` become the small letters, one by one, and no other character
/// changes.
pub proof fn law_lower_changes_capitals_only(s: Seq<char>, i: int)
    requires
        0 <= i < s.len(),
    ensures
        lower(s).len() == s.len(),
        'A' <= s[i] <= 'Z' ==> lower(s)[i] as int == s[i] as int + 32,
        !('A' <= s[i] <= 'Z') ==> lower(s)[i] == s[i],
        lower(lower(s)) == lower(s),
{
    assert(lower(lower(s)) =~= lower(s));
}

/// The number that a text of decimal digits writes.
pub open spec fn number_written(digits: Seq<char>) -> int
    decreases digits.len(),
{
    if digits.len() == 0 {
        0
    } else {
        number_written(digits.drop_last()) * 10 + (digits.last() as int - '0' as int)
    }
}

/// The spelling of a number reads back as the number, has digits only, and no zero in
/// front of another digit.
pub proof fn law_decimal_reads_back(n: nat)
    ensures
        number_written(decimal(n)) == n,
        decimal(n).len() > 0,
        forall|i: int| 0 <= i < decimal(n).len() ==> '0' <= #[trigger] decimal(n)[i] <= '9',
        decimal(n).len() > 1 ==> decimal(n)[0] != '0',
    decreases n,
{
    reveal_with_fuel(number_written, 2);
    if n < 10 {
        assert(decimal(n).drop_last() =~= Seq::<char>::empty());
    } else {
        law_decimal_reads_back(n / 10);
        let front = decimal(n / 10);
        let all = decimal(n);
        assert(all.drop_last() =~= front);
        assert forall|i: int| 0 <= i < all.len() implies '0' <= #[trigger] all[i] <= '9' by {
            if i < front.len() {
                assert(all[i] == front[i]);
            }
        }
        assert(all[0] == front[0]);
        if front.len() == 1 {
            assert(front.drop_last() =~= Seq::<char>::empty());
        }
    }
}

/// Padding adds spaces behind a text until it has the width, and none if it has it.
pub proof fn law_padding_adds_spaces_behind(s: Seq<char>, width: nat)
    ensures
        pad_right(s, width).len() == if s.len() < width {
            width
        } else {
            s.len()
        },
        starts_with(pad_right(s, width), s),
        forall|i: int| s.len() <= i < pad_right(s, width).len() ==> #[trigger] pad_right(s, width)[i]
            == ' ',
{
    assert(pad_right(s, width).take(s.len() as int) =~= s);
}

/// Texts are escaped character by character: what is no control character stays, a
/// tabulator, a carriage return and a line break are written as in a program, and any
/// other by its code point.
pub proof fn law_escaping_goes_character_by_character(a: Seq<char>, b: Seq<char>, c: char)
    ensures
        escape_controls(a + b) == escape_controls(a) + escape_controls(b),
        !is_control(c) ==> escape_controls(seq![c]) == seq![c],
        escape_controls(seq!['\t']) == seq!['\\', 't'],
        escape_controls(seq!['\r']) == seq!['\\', 'r'],
        escape_controls(seq!['\n']) == seq!['\\', 'n'],
        is_control(c) && c != '\t' && c != '\r' && c != '\n' ==> escape_controls(seq![c])
            == seq!['\\', 'u', '{'] + hexadecimal(c as nat) + seq!['}'],
{
    lemma_escaped_in_turn(a, b);
    reveal_with_fuel(escape_controls, 2);
    assert(seq![c].drop_last() =~= Seq::<char>::empty());
    assert(seq!['\t'].drop_last() =~= Seq::<char>::empty());
    assert(seq!['\r'].drop_last() =~= Seq::<char>::empty());
    assert(seq!['\n'].drop_last() =~= Seq::<char>::empty());
    reveal_strlit("\\t");
    reveal_strlit("\\r");
    reveal_strlit("\\n");
    reveal_strlit("\\u{");
    reveal_strlit("}");
    assert(escape_controls(seq!['\t']) =~= seq!['\\', 't']);
    assert(escape_controls(seq!['\r']) =~= seq!['\\', 'r']);
    assert(escape_controls(seq!['\n']) =~= seq!['\\', 'n']);
    assert("\\u{"@ =~= seq!['\\', 'u', '{']);
    assert("}"@ =~= seq!['}']);
    assert(is_control(c) && c != '\t' && c != '\r' && c != '\n' ==> escape_controls(seq![c]) =~= seq![
        '\\',
        'u',
        '{',
    ] + hexadecimal(c as nat) + seq!['}']);
    assert(!is_control(c) ==> escape_controls(seq![c]) =~= seq![c]);
}

proof fn lemma_escaped_in_turn(a: Seq<char>, b: Seq<char>)
    ensures
        escape_controls(a + b) == escape_controls(a) + escape_controls(b),
    decreases b.len(),
{
    if b.len() == 0 {
        assert(a + b =~= a);
        assert(escape_controls(a) + escape_controls(b) =~= escape_controls(a));
    } else {
        let rest = b.drop_last();
        lemma_escaped_in_turn(a, rest);
        assert((a + b).drop_last() =~= a + rest);
        if is_control(b.last()) {
            assert(escape_controls(a) + (escape_controls(rest) + escape_control(b.last()))
                =~= escape_controls(a) + escape_controls(rest) + escape_control(b.last()));
        } else {
            assert(escape_controls(a) + escape_controls(rest).push(b.last()) =~= (escape_controls(
                a,
            ) + escape_controls(rest)).push(b.last()));
        }
    }
}

/// A list of distinct items begins with those that came first, and more items add at
/// its end those that are new.
pub proof fn law_first_occurrences_stay_in_order<T>(s: Seq<T>, x: T)
    ensures
        s.contains(x) ==> distinct(s.push(x)) == distinct(s),
        !s.contains(x) ==> distinct(s.push(x)) == distinct(s).push(x),
        s.no_duplicates() ==> distinct(s) == s,
    decreases s.len(),
{
    lemma_distinct(s);
    assert(s.push(x).drop_last() =~= s);
    if s.no_duplicates() && s.len() > 0 {
        let rest = s.drop_last();
        assert(rest.no_duplicates());
        law_first_occurrences_stay_in_order(rest, s.last());
        if rest.contains(s.last()) {
            let k = choose|k: int| 0 <= k < rest.len() && rest[k] == s.last();
            assert(s[k] == s[s.len() - 1]);
        }
        lemma_distinct(rest);
        assert(rest.push(s.last()) =~= s);
    } else if s.len() == 0 {
        assert(distinct(s) =~= s);
    }
}

} // verus!
