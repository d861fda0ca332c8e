//! File paths as a root and a list of names.
//!
//! Two paths are the same when their roots and names are, but for the case of the
//! letter of a drive, and one lies under another when the names of the second begin
//! those of the first.

use std::cmp::Ordering;

use vstd::prelude::*;

use crate::order::{
    codes, compare_text, key_order, lemma_key_order_equal, lemma_key_order_flip,
    lemma_key_order_step, lemma_key_order_transitive,
};

use crate::text::{
    ascii_lower, ascii_lower_char, cat2, chars_of, clone_texts, find_from, join, join_texts,
    lemma_find_from, occurs_at, option_view, same, split_once, starts_with_char, text_between,
    text_split_once, views,
};

verus! {

/// The family of operating systems that a path or a rule belongs to.
#[derive(Debug, Clone, Copy, PartialEq, Eq, Structural)]
pub enum Platform {
    Unix,
    Windows,
}

/// A path: what it starts from (`/`, a drive, or nothing) and the names below.
///
/// A name that is not Unicode is spelled: a slash, its closest rendering, another
/// slash, and what it is made of, one character for each byte. No name holds a
/// slash, so a spelled name is like no other.
#[derive(Debug, PartialEq, Eq)]
pub struct FilePath {
    pub platform: Platform,
    pub root: String,
    pub parts: Vec<String>,
}

#[verifier::ext_equal]
pub struct PathView {
    pub platform: Platform,
    pub root: Seq<char>,
    pub parts: Seq<Seq<char>>,
}

impl View for FilePath {
    type V = PathView;

    open spec fn view(&self) -> PathView {
        PathView {
            platform: self.platform,
            root: self.root@,
            parts: views(self.parts@),
        }
    }
}

impl Clone for FilePath {
    fn clone(&self) -> (r: Self)
        ensures
            r@ == self@,
    {
        FilePath {
            platform: self.platform,
            root: self.root.clone(),
            parts: clone_texts(&self.parts),
        }
    }
}

/// The mark between two names of a path.
pub open spec fn separator(platform: Platform) -> Seq<char> {
    match platform {
        Platform::Unix => "/"@,
        Platform::Windows => "\\"@,
    }
}

/// Whether a name is spelled, because it is not Unicode.
pub open spec fn is_spelled(name: Seq<char>) -> bool {
    name.len() > 0 && name[0] == '/'
}

/// The spelling of a name that is made of `raw` and rendered as `shown`.
pub open spec fn spelled(shown: Seq<char>, raw: Seq<u8>) -> Seq<char> {
    "/"@ + shown + "/"@ + raw.map_values(|b: u8| b as char)
}

/// What is shown of a name.
pub open spec fn shown_name(name: Seq<char>) -> Seq<char> {
    if is_spelled(name) {
        match split_once(name.skip(1), "/"@) {
            Some((shown, _)) => shown,
            None => name.skip(1),
        }
    } else {
        name
    }
}

/// What a name that is not Unicode is made of.
pub open spec fn raw_name(name: Seq<char>) -> Option<Seq<u8>> {
    if is_spelled(name) {
        match split_once(name.skip(1), "/"@) {
            Some((_, raw)) => Some(raw.map_values(|c: char| c as u8)),
            None => None,
        }
    } else {
        None
    }
}

pub open spec fn shown_names(names: Seq<Seq<char>>) -> Seq<Seq<char>> {
    names.map_values(|name: Seq<char>| shown_name(name))
}

/// Whether all names of a path are Unicode.
pub open spec fn path_exact(p: PathView) -> bool {
    forall|i: int| 0 <= i < p.parts.len() ==> !is_spelled(#[trigger] p.parts[i])
}

/// How a path is written, with names that are not Unicode by their rendering.
pub open spec fn path_text(p: PathView) -> Seq<char> {
    p.root + join(shown_names(p.parts), separator(p.platform))
}

/// Where the letter of the drive stands that a root names, if it names one.
pub open spec fn drive_position(root: Seq<char>) -> Option<int> {
    if root.len() > 1 && root[1] == ':' {
        Some(0)
    } else if root.len() > 5 && root[5] == ':' && root.take(4) == "\\\\?\\"@ {
        Some(4)
    } else {
        None
    }
}

/// A root as it is told from others: the case of the letter of a drive does not
/// matter.
pub open spec fn root_key(root: Seq<char>) -> Seq<char> {
    match drive_position(root) {
        Some(i) => root.update(i, ascii_lower(root[i])),
        None => root,
    }
}

/// The path to the entry `name` of the directory `p`.
pub open spec fn path_child(p: PathView, name: Seq<char>) -> PathView {
    PathView { parts: p.parts.push(name), ..p }
}

/// `p` with those names spelled of which it is known what they are made of.
pub open spec fn path_of_raw(p: PathView, raw: Seq<Option<Seq<u8>>>) -> PathView {
    PathView {
        parts: Seq::new(
            p.parts.len(),
            |i: int|
                match raw[i] {
                    Some(bytes) => spelled(p.parts[i], bytes),
                    None => p.parts[i],
                },
        ),
        ..p
    }
}

/// Whether `p` is `base` or lies below it.
pub open spec fn path_under(p: PathView, base: PathView) -> bool {
    &&& root_key(p.root) == root_key(base.root)
    &&& base.parts.len() <= p.parts.len()
    &&& p.parts.take(base.parts.len() as int) == base.parts
}

/// Whether two paths have the same root and names.
pub open spec fn path_same(a: PathView, b: PathView) -> bool {
    root_key(a.root) == root_key(b.root) && a.parts == b.parts
}

/// Whether a path starts from a fixed place.
pub open spec fn path_absolute(p: PathView) -> bool {
    match p.platform {
        Platform::Unix => p.root.len() > 0,
        Platform::Windows => p.root.len() > 1 && p.root.last() == '\\',
    }
}

/// What a root says besides that the path starts at the top: a drive or a
/// share, if it names one.
pub open spec fn root_prefix(root: Seq<char>) -> Seq<char> {
    if root.len() > 0 && root.last() == '\\' {
        root.drop_last()
    } else {
        root
    }
}

/// What `p` means when it is read in the directory `base`. On Windows a path
/// from the top that names no drive stays on the drive of `base`.
pub open spec fn path_in(base: PathView, p: PathView) -> PathView {
    if p.root.len() == 0 {
        PathView { parts: base.parts + p.parts, ..base }
    } else if p.platform == Platform::Windows && p.root == "\\"@ {
        PathView { root: root_prefix(base.root).push('\\'), ..p }
    } else {
        p
    }
}

/// `p` without its last `n` names.
pub open spec fn path_ancestor(p: PathView, n: int) -> PathView {
    PathView { parts: p.parts.take(p.parts.len() - n), ..p }
}

/// What is shown of a name.
pub(crate) fn show_name(name: &str) -> (r: String)
    ensures
        r@ == shown_name(name@),
{
    if !starts_with_char(name, '/') {
        return name.to_owned();
    }
    let chars = chars_of(name);
    let rest = text_between(&chars, 1, chars.len());
    assert(rest@ =~= name@.skip(1));
    match text_split_once(rest.as_str(), "/") {
        Some((shown, _)) => shown,
        None => rest,
    }
}

fn show_names(names: &Vec<String>) -> (r: Vec<String>)
    ensures
        views(r@) == shown_names(views(names@)),
{
    let ghost all = shown_names(views(names@));
    let mut r: Vec<String> = Vec::new();
    let n: usize = names.len();
    assert(views(r@) =~= all.take(0));
    for i in 0..n
        invariant
            n == names@.len(),
            all == shown_names(views(names@)),
            views(r@) == all.take(i as int),
    {
        let ghost before = r@;
        let shown = show_name(names[i].as_str());
        r.push(shown);
        proof {
            crate::text::lemma_views_push(before, shown);
        }
        assert(all[i as int] == shown@);
        assert(views(r@) =~= all.take(i + 1));
    }
    assert(all.take(n as int) =~= all);
    r
}

/// The spelling of a name that is made of `raw` and rendered as `shown`.
pub fn spell_name(shown: &str, raw: &Vec<u8>) -> (r: String)
    ensures
        r@ == spelled(shown@, raw@),
{
    let ghost all = raw@.map_values(|b: u8| b as char);
    let mut bytes = String::new();
    let n: usize = raw.len();
    assert(bytes@ =~= all.take(0));
    for i in 0..n
        invariant
            n == raw@.len(),
            all == raw@.map_values(|b: u8| b as char),
            bytes@ == all.take(i as int),
    {
        bytes.push(raw[i] as char);
        assert(bytes@ =~= all.take(i + 1));
    }
    assert(all.take(n as int) =~= all);
    crate::text::cat4("/", shown, "/", bytes.as_str())
}

/// What a name that is not Unicode is made of.
pub fn raw_bytes(name: &str) -> (r: Option<Vec<u8>>)
    ensures
        option_view(r) == raw_name(name@),
{
    if !starts_with_char(name, '/') {
        return None;
    }
    let chars = chars_of(name);
    let rest = text_between(&chars, 1, chars.len());
    assert(rest@ =~= name@.skip(1));
    let spelling = match text_split_once(rest.as_str(), "/") {
        Some((_, spelling)) => spelling,
        None => {
            return None;
        },
    };
    let ghost all = spelling@.map_values(|c: char| c as u8);
    let letters = chars_of(spelling.as_str());
    let mut r: Vec<u8> = Vec::new();
    let n: usize = letters.len();
    assert(r@ =~= all.take(0));
    for i in 0..n
        invariant
            n == letters@.len(),
            letters@ == spelling@,
            all == spelling@.map_values(|c: char| c as u8),
            r@ == all.take(i as int),
    {
        r.push(letters[i] as u8);
        assert(r@ =~= all.take(i + 1));
    }
    assert(all.take(n as int) =~= all);
    Some(r)
}

/// A root as it is told from others.
fn fold_root(root: &str) -> (r: String)
    ensures
        r@ == root_key(root@),
{
    let chars = chars_of(root);
    let n: usize = chars.len();
    proof {
        reveal_strlit("\\\\?\\");
    }
    let at: usize = if n > 1 && chars[1] == ':' {
        0
    } else if n > 5 && chars[5] == ':' && chars[0] == '\\' && chars[1] == '\\' && chars[2] == '?'
        && chars[3] == '\\' {
        assert(root@.take(4) =~= "\\\\?\\"@);
        4
    } else {
        assert(drive_position(root@) is None) by {
            if n > 5 {
                assert(root@.take(4)[0] == root@[0]);
                assert(root@.take(4)[1] == root@[1]);
                assert(root@.take(4)[2] == root@[2]);
                assert(root@.take(4)[3] == root@[3]);
            }
        }
        return root.to_owned();
    };
    let mut r = text_between(&chars, 0, at);
    r.push(ascii_lower_char(chars[at]));
    let rest = text_between(&chars, at + 1, n);
    let r = cat2(r.as_str(), rest.as_str());
    assert(r@ =~= root_key(root@));
    r
}

impl FilePath {
    /// The path with those names spelled of which it is known what they are made of.
    pub fn with_raw_names(&self, raw: &Vec<Option<Vec<u8>>>) -> (r: FilePath)
        requires
            raw@.len() == self.parts@.len(),
        ensures
            r@ == path_of_raw(self@, raw@.map_values(|o: Option<Vec<u8>>| option_view(o))),
    {
        let ghost made = raw@.map_values(|o: Option<Vec<u8>>| option_view(o));
        let ghost all = path_of_raw(self@, made).parts;
        let mut parts: Vec<String> = Vec::new();
        let n: usize = self.parts.len();
        assert(views(parts@) =~= all.take(0));
        for i in 0..n
            invariant
                n == self.parts@.len(),
                n == raw@.len(),
                made == raw@.map_values(|o: Option<Vec<u8>>| option_view(o)),
                all == path_of_raw(self@, made).parts,
                views(parts@) == all.take(i as int),
        {
            assert(made[i as int] == option_view(raw@[i as int]));
            let name = match &raw[i] {
                Some(bytes) => spell_name(self.parts[i].as_str(), bytes),
                None => self.parts[i].clone(),
            };
            let ghost before = parts@;
            parts.push(name);
            proof {
                crate::text::lemma_views_push(before, name);
            }
            assert(all[i as int] == name@);
            assert(views(parts@) =~= all.take(i + 1));
        }
        assert(all.take(n as int) =~= all);
        FilePath { platform: self.platform, root: self.root.clone(), parts }
    }

    pub fn text(&self) -> (r: String)
        ensures
            r@ == path_text(self@),
    {
        let mut r = self.root.clone();
        let sep = match self.platform {
            Platform::Unix => "/",
            Platform::Windows => "\\",
        };
        let names = join_texts(&show_names(&self.parts), sep);
        r.append(names.as_str());
        r
    }

    /// Whether all names are Unicode.
    pub fn is_exact(&self) -> (r: bool)
        ensures
            r == path_exact(self@),
    {
        let n: usize = self.parts.len();
        for i in 0..n
            invariant
                n == self.parts@.len(),
                forall|j: int| 0 <= j < i ==> !is_spelled(#[trigger] self@.parts[j]),
        {
            if starts_with_char(self.parts[i].as_str(), '/') {
                assert(is_spelled(self@.parts[i as int]));
                return false;
            }
        }
        true
    }

    pub fn child(&self, name: &str) -> (r: FilePath)
        ensures
            r@ == path_child(self@, name@),
    {
        let mut parts = clone_texts(&self.parts);
        let ghost before = parts@;
        parts.push(name.to_owned());
        proof {
            crate::text::lemma_views_push(before, parts@.last());
        }
        FilePath { platform: self.platform, root: self.root.clone(), parts }
    }

    /// Whether `self` is `base` or lies below it.
    pub fn starts_with(&self, base: &FilePath) -> (r: bool)
        ensures
            r == path_under(self@, base@),
    {
        let n: usize = base.parts.len();
        if !same(
            fold_root(self.root.as_str()).as_str(),
            fold_root(base.root.as_str()).as_str(),
        ) || n > self.parts.len() {
            return false;
        }
        for i in 0..n
            invariant
                n == base.parts@.len(),
                n <= self.parts@.len(),
                forall|j: int| 0 <= j < i ==> self.parts@[j]@ == base.parts@[j]@,
        {
            if self.parts[i] != base.parts[i] {
                assert(self@.parts.take(n as int)[i as int] != base@.parts[i as int]);
                return false;
            }
        }
        assert(self@.parts.take(n as int) =~= base@.parts);
        true
    }

    pub fn same(&self, other: &FilePath) -> (r: bool)
        ensures
            r == path_same(self@, other@),
    {
        assert(self@.parts.len() == self.parts@.len());
        assert(other@.parts.len() == other.parts@.len());
        if self.parts.len() != other.parts.len() {
            return false;
        }
        assert(self@.parts.take(self@.parts.len() as int) =~= self@.parts);
        self.starts_with(other)
    }

    pub fn is_absolute(&self) -> (r: bool)
        ensures
            r == path_absolute(self@),
    {
        let v = chars_of(self.root.as_str());
        match self.platform {
            Platform::Unix => v.len() > 0,
            Platform::Windows => v.len() > 1 && v[v.len() - 1] == '\\',
        }
    }

    /// What `path` means when it is read in the directory `self`.
    pub fn resolve(&self, path: &FilePath) -> (r: FilePath)
        ensures
            r@ == path_in(self@, path@),
    {
        if path.root.as_str().is_empty() {
            let mut parts = clone_texts(&self.parts);
            crate::text::extend_texts(&mut parts, &path.parts);
            return FilePath {
                platform: self.platform,
                root: self.root.clone(),
                parts,
            };
        }
        if path.platform == Platform::Windows && same(path.root.as_str(), "\\") {
            let v = chars_of(self.root.as_str());
            let n: usize = if v.len() > 0 && v[v.len() - 1] == '\\' {
                v.len() - 1
            } else {
                v.len()
            };
            let mut root = text_between(&v, 0, n);
            assert(root@ =~= root_prefix(self.root@));
            root.push('\\');
            return FilePath {
                platform: path.platform,
                root,
                parts: clone_texts(&path.parts),
            };
        }
        path.clone()
    }

    /// `self` without its last `n` names.
    pub fn ancestor(&self, n: usize) -> (r: FilePath)
        requires
            n <= self.parts@.len(),
        ensures
            r@ == path_ancestor(self@, n as int),
    {
        let mut parts = clone_texts(&self.parts);
        proof {
            assert(parts@.len() == views(parts@).len());
        }
        let keep: usize = self.parts.len() - n;
        let ghost before = parts@;
        parts.truncate(keep);
        proof {
            assert(views(parts@) =~= views(before).take(keep as int));
        }
        FilePath { platform: self.platform, root: self.root.clone(), parts }
    }
}

/// Whether two optional paths are both absent, or the same.
pub open spec fn option_path_same(a: Option<PathView>, b: Option<PathView>) -> bool {
    match (a, b) {
        (Some(x), Some(y)) => path_same(x, y),
        (None, None) => true,
        _ => false,
    }
}

pub fn same_option_path(a: &Option<FilePath>, b: &Option<FilePath>) -> (r: bool)
    ensures
        r == option_path_same(crate::text::option_view(*a), crate::text::option_view(*b)),
{
    match (a, b) {
        (Some(x), Some(y)) => x.same(y),
        (None, None) => true,
        _ => false,
    }
}

pub fn clone_option_path(o: &Option<FilePath>) -> (r: Option<FilePath>)
    ensures
        crate::text::option_view(r) == crate::text::option_view(*o),
{
    match o {
        Some(p) => Some(p.clone()),
        None => None,
    }
}

/// Whether a list of paths holds `p`.
pub open spec fn has_path(list: Seq<PathView>, p: PathView) -> bool {
    exists|i: int| 0 <= i < list.len() && path_same(#[trigger] list[i], p)
}

pub fn list_has_path(list: &Vec<FilePath>, p: &FilePath) -> (r: bool)
    ensures
        r == has_path(views(list@), p@),
{
    let n: usize = list.len();
    for i in 0..n
        invariant
            n == list@.len(),
            forall|j: int| 0 <= j < i ==> !path_same(#[trigger] views(list@)[j], p@),
    {
        if list[i].same(p) {
            assert(path_same(views(list@)[i as int], p@));
            return true;
        }
    }
    false
}

// ---------------------------------------------------------------------------
// Reading a Unix path
// ---------------------------------------------------------------------------

/// The pieces of `s` between the marks `c`.
pub open spec fn split_at_char(s: Seq<char>, c: char) -> Seq<Seq<char>>
    decreases s.len(),
{
    if s.len() == 0 {
        seq![Seq::<char>::empty()]
    } else if s[0] == c {
        seq![Seq::<char>::empty()] + split_at_char(s.drop_first(), c)
    } else {
        let rest = split_at_char(s.drop_first(), c);
        rest.update(0, seq![s[0]] + rest[0])
    }
}

/// Whether a piece of a written path is a name: not empty and not `.`.
pub open spec fn is_name(piece: Seq<char>) -> bool {
    piece.len() > 0 && piece != "."@
}

/// The path that `s` writes on Unix. Empty pieces and `.` say nothing, but for
/// a `.` that begins a relative path.
pub open spec fn unix_path(s: Seq<char>) -> PathView {
    let pieces = split_at_char(s, '/');
    let names = pieces.filter(|piece: Seq<char>| is_name(piece));
    PathView {
        platform: Platform::Unix,
        root: if s.len() > 0 && s[0] == '/' {
            "/"@
        } else {
            Seq::empty()
        },
        parts: if pieces[0] == "."@ {
            seq!["."@] + names
        } else {
            names
        },
    }
}

proof fn lemma_split_run(s: Seq<char>, c: char, k: int)
    requires
        0 <= k <= s.len(),
        forall|j: int| 0 <= j < k ==> s[j] != c,
        k == s.len() || s[k] == c,
    ensures
        split_at_char(s, c) == (if k == s.len() {
            seq![s]
        } else {
            seq![s.take(k)] + split_at_char(s.skip(k + 1), c)
        }),
    decreases k,
{
    if k == 0 {
        if s.len() == 0 {
            assert(s =~= Seq::<char>::empty());
        } else {
            assert(s.take(0) =~= Seq::<char>::empty());
            assert(s.skip(1) =~= s.drop_first());
        }
    } else {
        let t = s.drop_first();
        assert forall|j: int| 0 <= j < k - 1 implies t[j] != c by {
            assert(t[j] == s[j + 1]);
        }
        lemma_split_run(t, c, k - 1);
        let rest = split_at_char(t, c);
        if k == s.len() {
            assert(rest.update(0, seq![s[0]] + rest[0]) =~= seq![s]) by {
                assert(seq![s[0]] + t =~= s);
            }
        } else {
            assert(t.skip(k) =~= s.skip(k + 1));
            assert(seq![s[0]] + t.take(k - 1) =~= s.take(k));
            assert(rest.update(0, seq![s[0]] + rest[0]) =~= seq![s.take(k)] + split_at_char(
                s.skip(k + 1),
                c,
            ));
        }
    }
}

pub fn split_text_at_char(s: &str, c: char) -> (r: Vec<String>)
    ensures
        views(r@) == split_at_char(s@, c),
        r@.len() > 0,
{
    let sv = chars_of(s);
    let n: usize = sv.len();
    let mut r: Vec<String> = Vec::new();
    let mut a: usize = 0;
    proof {
        assert(s@.skip(0) =~= s@);
        assert(views(r@) + split_at_char(s@, c) =~= split_at_char(s@, c));
    }
    loop
        invariant
            n == s@.len(),
            sv@ == s@,
            a <= n,
            views(r@) + split_at_char(s@.skip(a as int), c) == split_at_char(s@, c),
        decreases n - a,
    {
        let mut b: usize = a;
        while b < n && sv[b] != c
            invariant
                n == s@.len(),
                sv@ == s@,
                a <= b <= n,
                forall|j: int| a <= j < b ==> s@[j] != c,
            decreases n - b,
        {
            b = b + 1;
        }
        let ghost rest = s@.skip(a as int);
        let ghost before = r@;
        let piece = text_between(&sv, a, b);
        r.push(piece);
        proof {
            assert forall|j: int| 0 <= j < b - a implies rest[j] != c by {
                assert(rest[j] == s@[a + j]);
            }
            lemma_split_run(rest, c, b - a);
            crate::text::lemma_views_push(before, piece);
        }
        if b == n {
            proof {
                assert(piece@ =~= rest);
                assert(views(r@) =~= views(before) + seq![rest]);
            }
            return r;
        }
        proof {
            assert(piece@ =~= rest.take(b - a));
            assert(rest.skip(b - a + 1) =~= s@.skip(b + 1));
            assert(views(r@) + split_at_char(s@.skip(b + 1), c) =~= views(before) + (seq![piece@]
                + split_at_char(s@.skip(b + 1), c)));
        }
        a = b + 1;
    }
}

impl FilePath {
    /// Reads a path as it is written on Unix.
    pub fn unix(s: &str) -> (r: FilePath)
        ensures
            r@ == unix_path(s@),
    {
        let pieces = split_text_at_char(s, '/');
        let ghost pv = views(pieces@);
        let mut parts: Vec<String> = Vec::new();
        let n: usize = pieces.len();
        let ghost keep = |piece: Seq<char>| is_name(piece);
        let leading = same(pieces[0].as_str(), ".");
        let ghost lead: Seq<Seq<char>> = if leading {
            seq!["."@]
        } else {
            Seq::empty()
        };
        assert(pv[0] == pieces@[0]@);
        if leading {
            parts.push(".".to_owned());
        }
        assert(views(parts@) =~= lead + pv.take(0).filter(keep)) by {
            reveal(Seq::filter);
        }
        for i in 0..n
            invariant
                n == pieces@.len(),
                pv == views(pieces@),
                keep == (|piece: Seq<char>| is_name(piece)),
                views(parts@) == lead + pv.take(i as int).filter(keep),
        {
            let ghost before = parts@;
            proof {
                reveal(Seq::filter);
                assert(pv.take(i + 1).drop_last() =~= pv.take(i as int));
                assert(pv.take(i + 1).last() == pieces@[i as int]@);
            }
            if !pieces[i].as_str().is_empty() && !same(pieces[i].as_str(), ".") {
                let piece = pieces[i].clone();
                parts.push(piece);
                proof {
                    crate::text::lemma_views_push(before, piece);
                    assert(views(parts@) =~= lead + pv.take(i + 1).filter(keep));
                }
            }
        }
        assert(pv.take(n as int) =~= pv);
        let root = if starts_with_char(s, '/') {
            "/".to_owned()
        } else {
            String::new()
        };
        let r = FilePath { platform: Platform::Unix, root, parts };
        assert(r@ =~= unix_path(s@));
        r
    }
}

// ---------------------------------------------------------------------------
// Reading a Windows path
// ---------------------------------------------------------------------------

/// `s` with every slash as a backslash.
pub open spec fn backslashed(s: Seq<char>) -> Seq<char> {
    s.map_values(
        |c: char|
            if c == '/' {
                '\\'
            } else {
                c
            },
    )
}

/// The names among the pieces of a written path.
pub open spec fn names_of(pieces: Seq<Seq<char>>) -> Seq<Seq<char>> {
    pieces.filter(|piece: Seq<char>| is_name(piece))
}

/// Whether a piece begins with a drive.
pub open spec fn has_drive(piece: Seq<char>) -> bool {
    piece.len() >= 2 && piece[1] == ':' && ('a' <= piece[0] <= 'z' || 'A' <= piece[0] <= 'Z')
}

pub open spec fn windows_parts(root: Seq<char>, parts: Seq<Seq<char>>) -> PathView {
    PathView { platform: Platform::Windows, root, parts }
}

/// The path that `s` writes on Windows: on a share, on a drive, from the top, or
/// relative.
pub open spec fn windows_path(s: Seq<char>) -> PathView {
    let pieces = split_at_char(backslashed(s), '\\');
    if pieces.len() >= 4 && pieces[0].len() == 0 && pieces[1].len() == 0 && pieces[2].len() > 0
        && pieces[3].len() > 0 {
        windows_parts(
            "\\\\"@ + pieces[2] + "\\"@ + pieces[3] + "\\"@,
            names_of(pieces.skip(4)),
        )
    } else if has_drive(pieces[0]) && pieces[0].len() > 2 {
        windows_parts(
            pieces[0].take(2),
            names_of(seq![pieces[0].skip(2)] + pieces.skip(1)),
        )
    } else if has_drive(pieces[0]) && pieces.len() > 1 {
        windows_parts(pieces[0] + "\\"@, names_of(pieces.skip(1)))
    } else if has_drive(pieces[0]) {
        windows_parts(pieces[0], Seq::empty())
    } else if pieces[0].len() == 0 && pieces.len() > 1 {
        windows_parts("\\"@, names_of(pieces.skip(1)))
    } else if pieces[0] == "."@ {
        windows_parts(Seq::empty(), seq!["."@] + names_of(pieces))
    } else {
        windows_parts(Seq::empty(), names_of(pieces))
    }
}

/// The path that `s` writes.
pub open spec fn written_path(platform: Platform, s: Seq<char>) -> PathView {
    match platform {
        Platform::Unix => unix_path(s),
        Platform::Windows => windows_path(s),
    }
}

fn backslash_text(s: &str) -> (r: String)
    ensures
        r@ == backslashed(s@),
{
    let v = chars_of(s);
    let n: usize = v.len();
    let mut r = String::new();
    assert(r@ =~= backslashed(s@).take(0));
    for i in 0..n
        invariant
            n == v@.len(),
            v@ == s@,
            r@ == backslashed(s@).take(i as int),
    {
        if v[i] == '/' {
            r.push('\\');
        } else {
            r.push(v[i]);
        }
        assert(r@ =~= backslashed(s@).take(i + 1));
    }
    assert(backslashed(s@).take(n as int) =~= backslashed(s@));
    r
}

fn names_from(pieces: &Vec<String>, from: usize) -> (r: Vec<String>)
    requires
        from <= pieces@.len(),
    ensures
        views(r@) == names_of(views(pieces@).skip(from as int)),
{
    let ghost pv = views(pieces@).skip(from as int);
    let ghost keep = |piece: Seq<char>| is_name(piece);
    let mut r: Vec<String> = Vec::new();
    let n: usize = pieces.len();
    assert(views(r@) =~= pv.take(0).filter(keep)) by {
        reveal(Seq::filter);
    }
    for i in from..n
        invariant
            from <= n,
            n == pieces@.len(),
            pv == views(pieces@).skip(from as int),
            keep == (|piece: Seq<char>| is_name(piece)),
            views(r@) == pv.take(i - from).filter(keep),
    {
        let ghost before = r@;
        proof {
            reveal(Seq::filter);
            assert(pv.take(i - from + 1).drop_last() =~= pv.take(i - from));
            assert(pv.take(i - from + 1).last() == pieces@[i as int]@);
        }
        if !pieces[i].as_str().is_empty() && !same(pieces[i].as_str(), ".") {
            let piece = pieces[i].clone();
            r.push(piece);
            proof {
                crate::text::lemma_views_push(before, piece);
            }
        }
    }
    assert(pv.take(n - from) =~= pv);
    r
}

impl FilePath {
    /// Reads a path as it is written on Windows.
    pub fn windows(s: &str) -> (r: FilePath)
        ensures
            r@ == windows_path(s@),
    {
        let pieces = split_text_at_char(backslash_text(s).as_str(), '\\');
        let ghost pv = views(pieces@);
        assert(pv.len() == pieces@.len());
        assert(forall|i: int| 0 <= i < pieces@.len() ==> pv[i] == (#[trigger] pieces@[i])@);
        let n: usize = pieces.len();
        if n >= 4 && pieces[0].as_str().is_empty() && pieces[1].as_str().is_empty()
            && !pieces[2].as_str().is_empty() && !pieces[3].as_str().is_empty() {
            return FilePath {
                platform: Platform::Windows,
                root: crate::text::cat5(
                    "\\\\",
                    pieces[2].as_str(),
                    "\\",
                    pieces[3].as_str(),
                    "\\",
                ),
                parts: names_from(&pieces, 4),
            };
        }
        let first = chars_of(pieces[0].as_str());
        let drive = first.len() >= 2 && first[1] == ':' && (('a' <= first[0] && first[0] <= 'z') || (
        'A' <= first[0] && first[0] <= 'Z'));
        if drive && first.len() > 2 {
            let mut rest: Vec<String> = Vec::new();
            rest.push(text_between(&first, 2, first.len()));
            let mut i: usize = 1;
            assert(views(rest@) =~= seq![pv[0].skip(2)] + pv.subrange(1, 1));
            while i < n
                invariant
                    n == pieces@.len(),
                    pv == views(pieces@),
                    1 <= i <= n,
                    views(rest@) == seq![pv[0].skip(2)] + pv.subrange(1, i as int),
                decreases n - i,
            {
                let ghost before = rest@;
                let piece = pieces[i].clone();
                rest.push(piece);
                proof {
                    crate::text::lemma_views_push(before, piece);
                    assert(views(rest@) =~= seq![pv[0].skip(2)] + pv.subrange(1, i + 1));
                }
                i = i + 1;
            }
            proof {
                assert(pv.subrange(1, n as int) =~= pv.skip(1));
                assert(views(rest@).skip(0) =~= views(rest@));
            }
            let root = text_between(&first, 0, 2);
            assert(root@ =~= pv[0].take(2));
            return FilePath {
                platform: Platform::Windows,
                root,
                parts: names_from(&rest, 0),
            };
        }
        if drive && n > 1 {
            return FilePath {
                platform: Platform::Windows,
                root: crate::text::cat2(pieces[0].as_str(), "\\"),
                parts: names_from(&pieces, 1),
            };
        }
        if drive {
            let parts: Vec<String> = Vec::new();
            assert(views(parts@) =~= Seq::<Seq<char>>::empty());
            return FilePath {
                platform: Platform::Windows,
                root: pieces[0].clone(),
                parts,
            };
        }
        if pieces[0].as_str().is_empty() && n > 1 {
            return FilePath {
                platform: Platform::Windows,
                root: "\\".to_owned(),
                parts: names_from(&pieces, 1),
            };
        }
        let mut parts: Vec<String> = Vec::new();
        let names = names_from(&pieces, 0);
        proof {
            assert(pv.skip(0) =~= pv);
        }
        if same(pieces[0].as_str(), ".") {
            parts.push(".".to_owned());
            assert(views(parts@) =~= seq!["."@]);
        } else {
            assert(views(parts@) + names_of(pv) =~= names_of(pv));
        }
        crate::text::extend_texts(&mut parts, &names);
        let root = String::new();
        assert(root@ =~= Seq::<char>::empty());
        FilePath { platform: Platform::Windows, root, parts }
    }

    /// Reads a path as it is written on `platform`.
    pub fn parse(platform: Platform, s: &str) -> (r: FilePath)
        ensures
            r@ == written_path(platform, s@),
    {
        match platform {
            Platform::Unix => FilePath::unix(s),
            Platform::Windows => FilePath::windows(s),
        }
    }
}

// ---------------------------------------------------------------------------
// The order of paths
// ---------------------------------------------------------------------------

/// What paths are ordered by: the root, then name by name.
pub open spec fn path_key(p: PathView) -> Seq<Seq<int>> {
    seq![codes(root_key(p.root))] + p.parts.map_values(|part: Seq<char>| codes(part))
}

pub open spec fn path_order(a: PathView, b: PathView) -> Ordering {
    key_order(path_key(a), path_key(b))
}

pub fn compare_path(a: &FilePath, b: &FilePath) -> (r: Ordering)
    ensures
        r == path_order(a@, b@),
{
    let ghost x = a@.parts.map_values(|part: Seq<char>| codes(part));
    let ghost y = b@.parts.map_values(|part: Seq<char>| codes(part));
    proof {
        lemma_key_order_step(codes(root_key(a@.root)), x, codes(root_key(b@.root)), y);
    }
    match compare_text(
        fold_root(a.root.as_str()).as_str(),
        fold_root(b.root.as_str()).as_str(),
    ) {
        Ordering::Equal => {},
        order => {
            return order;
        },
    }
    let n: usize = a.parts.len();
    let m: usize = b.parts.len();
    let mut i: usize = 0;
    assert(x.skip(0) =~= x);
    assert(y.skip(0) =~= y);
    while i < n && i < m
        invariant
            n == a.parts@.len(),
            m == b.parts@.len(),
            i <= n,
            i <= m,
            x == a@.parts.map_values(|part: Seq<char>| codes(part)),
            y == b@.parts.map_values(|part: Seq<char>| codes(part)),
            path_order(a@, b@) == key_order(x.skip(i + 0), y.skip(i + 0)),
        decreases n - i,
    {
        assert(x.skip(i + 0)[0] == codes(a.parts@[i + 0]@));
        assert(y.skip(i + 0)[0] == codes(b.parts@[i + 0]@));
        assert(x.skip(i + 0).drop_first() =~= x.skip(i + 1));
        assert(y.skip(i + 0).drop_first() =~= y.skip(i + 1));
        match compare_text(a.parts[i].as_str(), b.parts[i].as_str()) {
            Ordering::Equal => {},
            order => {
                return order;
            },
        }
        i = i + 1;
    }
    if i < m {
        Ordering::Less
    } else if i < n {
        Ordering::Greater
    } else {
        Ordering::Equal
    }
}

/// `list` with `p` in its place, unless it is there.
pub open spec fn sorted_path_insert(list: Seq<PathView>, p: PathView) -> Seq<PathView>
    decreases list.len(),
{
    if list.len() == 0 {
        seq![p]
    } else {
        match path_order(p, list[0]) {
            Ordering::Less => seq![p] + list,
            Ordering::Equal => list,
            Ordering::Greater => seq![list[0]] + sorted_path_insert(list.drop_first(), p),
        }
    }
}

/// `list` with each of `more` in its place.
pub open spec fn sorted_path_union(list: Seq<PathView>, more: Seq<PathView>) -> Seq<PathView>
    decreases more.len(),
{
    if more.len() == 0 {
        list
    } else {
        sorted_path_insert(sorted_path_union(list, more.drop_last()), more.last())
    }
}

fn insert_path(list: &mut Vec<FilePath>, p: FilePath)
    ensures
        views(final(list)@) == sorted_path_insert(views(old(list)@), p@),
{
    let ghost all = views(list@);
    let n: usize = list.len();
    let mut i: usize = 0;
    assert(all.take(0) + sorted_path_insert(all.skip(0), p@) =~= sorted_path_insert(all, p@)) by {
        assert(all.skip(0) =~= all);
    }
    while i < n
        invariant
            n == list@.len(),
            all == views(list@),
            all == views(old(list)@),
            i <= n,
            all.take(i + 0) + sorted_path_insert(all.skip(i + 0), p@) == sorted_path_insert(
                all,
                p@,
            ),
        decreases n - i,
    {
        let ghost rest = all.skip(i + 0);
        assert(rest[0] == list@[i + 0]@);
        match compare_path(&p, &list[i]) {
            Ordering::Less => {
                list.insert(i, p);
                assert(views(list@) =~= all.take(i + 0) + (seq![p@] + rest));
                return ;
            },
            Ordering::Equal => {
                assert(all =~= all.take(i + 0) + rest);
                return ;
            },
            Ordering::Greater => {
                assert(all.skip(i + 1) =~= rest.drop_first());
                assert(all.take(i + 1) + sorted_path_insert(all.skip(i + 1), p@) =~= all.take(i + 0)
                    + (seq![rest[0]] + sorted_path_insert(rest.drop_first(), p@)));
                i = i + 1;
            },
        }
    }
    list.push(p);
    assert(all.skip(i + 0) =~= Seq::<PathView>::empty());
    assert(views(list@) =~= all.take(i + 0) + seq![p@]);
}

/// Puts each of `more` into its place in `list`, unless it is there.
pub fn insert_paths(list: &mut Vec<FilePath>, more: &Vec<FilePath>)
    ensures
        views(final(list)@) == sorted_path_union(views(old(list)@), views(more@)),
{
    let ghost start = views(list@);
    let ghost all = views(more@);
    let n: usize = more.len();
    assert(sorted_path_union(start, all.take(0)) =~= start);
    for i in 0..n
        invariant
            n == more@.len(),
            all == views(more@),
            views(list@) == sorted_path_union(start, all.take(i + 0)),
    {
        proof {
            assert(all.take(i + 1).drop_last() =~= all.take(i + 0));
            assert(all.take(i + 1).last() == more@[i + 0]@);
        }
        insert_path(list, more[i].clone());
    }
    assert(all.take(n + 0) =~= all);
}

// ---------------------------------------------------------------------------
// Laws
// ---------------------------------------------------------------------------

proof fn lemma_join_first(parts: Seq<Seq<char>>, sep: Seq<char>)
    requires
        parts.len() > 1,
    ensures
        join(parts, sep) == parts[0] + sep + join(parts.drop_first(), sep),
    decreases parts.len(),
{
    let rest = parts.drop_last();
    if rest.len() == 1 {
        assert(join(rest, sep) == parts[0]);
        assert(parts.drop_first()[0] == parts.last());
        assert(join(parts.drop_first(), sep) == parts.last());
    } else {
        lemma_join_first(rest, sep);
        assert(rest.drop_first() =~= parts.drop_first().drop_last());
        assert(rest[0] == parts[0]);
        assert(parts.drop_first().last() == parts.last());
        assert(join(parts, sep) =~= parts[0] + sep + join(parts.drop_first(), sep));
    }
}

/// Whether a name can stand in a written path and be read back.
pub open spec fn readable(name: Seq<char>) -> bool {
    is_name(name) && forall|i: int| 0 <= i < name.len() ==> #[trigger] name[i] != '/'
}

#[verifier::spinoff_prover]
proof fn lemma_split_join(parts: Seq<Seq<char>>)
    requires
        parts.len() > 0,
        forall|i: int| 0 <= i < parts.len() ==> readable(#[trigger] parts[i]),
    ensures
        split_at_char(join(parts, "/"@), '/') == parts,
    decreases parts.len(),
{
    reveal_strlit("/");
    let s = join(parts, "/"@);
    let k = parts[0].len() as int;
    assert(readable(parts[0]));
    if parts.len() == 1 {
        lemma_split_run(s, '/', k);
        assert(seq![s] =~= parts);
    } else {
        let rest = parts.drop_first();
        lemma_join_first(parts, "/"@);
        assert forall|i: int| 0 <= i < rest.len() implies readable(#[trigger] rest[i]) by {
            assert(rest[i] == parts[i + 1]);
        }
        lemma_split_join(rest);
        assert forall|j: int| 0 <= j < k implies s[j] != '/' by {
            assert(s[j] == parts[0][j]);
        }
        assert(s[k] == '/');
        lemma_split_run(s, '/', k);
        assert(s =~= parts[0] + ("/"@ + join(rest, "/"@)));
        assert(s.take(k) =~= parts[0]);
        assert(s.skip(k + 1) =~= join(rest, "/"@));
        assert(seq![parts[0]] + rest =~= parts);
    }
}

proof fn lemma_filter_all(parts: Seq<Seq<char>>)
    requires
        forall|i: int| 0 <= i < parts.len() ==> is_name(#[trigger] parts[i]),
    ensures
        parts.filter(|piece: Seq<char>| is_name(piece)) == parts,
    decreases parts.len(),
{
    reveal(Seq::filter);
    if parts.len() > 0 {
        let rest = parts.drop_last();
        assert forall|i: int| 0 <= i < rest.len() implies is_name(#[trigger] rest[i]) by {
            assert(rest[i] == parts[i]);
        }
        lemma_filter_all(rest);
        assert(is_name(parts[parts.len() - 1]));
        assert(rest.push(parts.last()) =~= parts);
    }
}

/// A spelled name is unlike every name without a slash, shows its rendering, and
/// tells what it is made of; so names that are made of different bytes differ.
pub proof fn law_spelled_names_are_told_apart(shown: Seq<char>, raw: Seq<u8>, name: Seq<char>)
    requires
        !shown.contains('/'),
        !name.contains('/'),
    ensures
        is_spelled(spelled(shown, raw)),
        spelled(shown, raw) != name,
        shown_name(spelled(shown, raw)) == shown,
        raw_name(spelled(shown, raw)) == Some(raw),
        shown_name(name) == name,
{
    reveal_strlit("/");
    let word = spelled(shown, raw);
    let letters = raw.map_values(|b: u8| b as char);
    assert(word[0] == '/');
    if word == name {
        assert(name.contains(name[0]));
    }
    if name.len() > 0 && name[0] == '/' {
        assert(name.contains(name[0]));
    }
    let rest = word.skip(1);
    assert(rest =~= shown + "/"@ + letters);
    lemma_find_from(rest, "/"@, 0);
    assert(rest.subrange(shown.len() as int, shown.len() + 1int) =~= "/"@);
    assert(occurs_at(rest, "/"@, shown.len() as int));
    let at = find_from(rest, "/"@, 0)->0;
    assert(rest.subrange(at, at + 1)[0] == rest[at]);
    if at < shown.len() {
        assert(rest[at] == shown[at]);
        assert(shown.contains(shown[at]));
    }
    assert(rest.take(at) =~= shown);
    assert(rest.skip(at + 1) =~= letters);
    assert forall|i: int| 0 <= i < raw.len() implies (#[trigger] letters[i]) as u8 == raw[i] by {
        let b = raw[i];
        assert(letters[i] == b as char);
        assert((b as char) as u8 == b);
    }
    assert(letters.map_values(|c: char| c as u8) =~= raw);
}

/// Paths with the same names on two drives are the same if and only if the letters of
/// the drives are, whatever their case.
pub proof fn law_drive_letters_have_no_case(letter: char, other: char, parts: Seq<Seq<char>>)
    requires
        'a' <= ascii_lower(letter) <= 'z',
        'a' <= ascii_lower(other) <= 'z',
    ensures
        path_same(
            windows_parts(seq![letter, ':', '\\'], parts),
            windows_parts(seq![other, ':', '\\'], parts),
        ) <==> ascii_lower(letter) == ascii_lower(other),
{
    let a = seq![letter, ':', '\\'];
    let b = seq![other, ':', '\\'];
    assert(root_key(a)[0] == ascii_lower(letter));
    assert(root_key(b)[0] == ascii_lower(other));
    if ascii_lower(letter) == ascii_lower(other) {
        assert(root_key(a) =~= root_key(b));
    }
}

/// An absolute Unix path is read back from how it is written.
pub proof fn law_unix_path_reads_back(p: PathView)
    requires
        p.platform == Platform::Unix,
        p.root == "/"@,
        forall|i: int| 0 <= i < p.parts.len() ==> readable(#[trigger] p.parts[i]),
    ensures
        unix_path(path_text(p)) == p,
{
    reveal_strlit("/");
    reveal_strlit(".");
    let s = path_text(p);
    assert(shown_names(p.parts) =~= p.parts) by {
        assert forall|i: int| 0 <= i < p.parts.len() implies shown_name(#[trigger] p.parts[i])
            == p.parts[i] by {
            assert(readable(p.parts[i]));
        }
    }
    let names = join(p.parts, "/"@);
    assert(s[0] == '/');
    assert(s.drop_first() =~= names);
    let keep = |piece: Seq<char>| is_name(piece);
    let pieces = split_at_char(s, '/');
    let below = if p.parts.len() == 0 {
        seq![Seq::<char>::empty()]
    } else {
        p.parts
    };
    if p.parts.len() > 0 {
        lemma_split_join(p.parts);
    } else {
        assert(split_at_char(names, '/') =~= below);
    }
    assert(pieces =~= seq![Seq::<char>::empty()] + below);
    lemma_filter_all(p.parts);
    let blank = seq![Seq::<char>::empty()];
    assert(blank.filter(keep) =~= Seq::empty()) by {
        reveal(Seq::filter);
        let none = blank.drop_last();
        assert(none.len() == 0);
        assert(none.filter(keep) =~= Seq::empty());
        assert(!keep(blank.last()));
    }
    Seq::filter_distributes_over_add(blank, below, keep);
    assert(pieces.filter(keep) =~= p.parts);
    assert(pieces[0].len() == 0);
    assert(unix_path(s) =~= p);
}

/// What lies in a directory lies below it and one level under it, and a path lies below
/// itself.
pub proof fn law_child_lies_below(p: PathView, name: Seq<char>)
    ensures
        path_under(path_child(p, name), p),
        path_under(p, p),
        !path_under(p, path_child(p, name)),
        path_ancestor(path_child(p, name), 1) == p,
        path_ancestor(p, 0) == p,
        path_child(p, name).parts.last() == name,
        !path_same(path_child(p, name), p),
        path_same(p, p),
{
    assert(path_child(p, name).parts.take(p.parts.len() as int) =~= p.parts);
    assert(p.parts.take(p.parts.len() as int) =~= p.parts);
    assert(path_ancestor(path_child(p, name), 1) =~= p);
    assert(path_ancestor(p, 0) =~= p);
    assert(path_child(p, name).parts.len() != p.parts.len());
}

/// Lying below is handed on, and two paths that lie below each other are the same.
pub proof fn law_lying_below(a: PathView, b: PathView, c: PathView)
    ensures
        path_under(a, b) && path_under(b, c) ==> path_under(a, c),
        path_under(a, b) && path_under(b, a) <==> path_same(a, b),
        path_under(a, b) ==> b.parts.len() <= a.parts.len() && forall|i: int|
            0 <= i < b.parts.len() ==> #[trigger] a.parts[i] == b.parts[i],
{
    if path_under(a, b) && path_under(b, c) {
        assert(a.parts.take(c.parts.len() as int) =~= b.parts.take(c.parts.len() as int));
    }
    if path_under(a, b) && path_under(b, a) {
        assert(a.parts.take(b.parts.len() as int) =~= a.parts);
    }
    if path_same(a, b) {
        assert(a.parts.take(b.parts.len() as int) =~= b.parts);
        assert(b.parts.take(a.parts.len() as int) =~= a.parts);
    }
    if path_under(a, b) {
        assert forall|i: int| 0 <= i < b.parts.len() implies #[trigger] a.parts[i] == b.parts[i] by {
            assert(a.parts.take(b.parts.len() as int)[i] == a.parts[i]);
        }
    }
}

/// A path that starts at the top means the same in every directory, but for the drive on
/// Windows; any other is read below the directory. In a directory that starts at the top,
/// reading a path again leaves its names as they are.
pub proof fn law_relative_paths_are_read_below(base: PathView, p: PathView)
    ensures
        p.root.len() == 0 ==> path_in(base, p).root == base.root && path_in(base, p).platform
            == base.platform && path_in(base, p).parts == base.parts + p.parts && path_under(
            path_in(base, p),
            base,
        ),
        p.root.len() > 0 && p.platform == Platform::Unix ==> path_in(base, p) == p,
        p.root.len() > 0 && p.platform == Platform::Windows && p.root != "\\"@ ==> path_in(base, p)
            == p,
        p.platform == Platform::Windows && p.root == "\\"@ ==> path_in(base, p).parts == p.parts,
        path_in(base, path_in(base, p)).parts == path_in(base, p).parts || base.root.len() == 0,
{
    reveal_strlit("\\");
    if p.root.len() == 0 {
        assert((base.parts + p.parts).take(base.parts.len() as int) =~= base.parts);
    }
}

/// A path is written as its root and its names, with a slash between neighbours, on Windows
/// a backslash.
pub proof fn law_paths_are_written(p: PathView, name: Seq<char>)
    requires
        !is_spelled(name),
        path_exact(p),
    ensures
        p.parts.len() == 0 ==> path_text(p) == p.root && path_text(path_child(p, name)) == p.root
            + name,
        p.parts.len() > 0 && p.platform == Platform::Unix ==> path_text(path_child(p, name))
            == path_text(p) + seq!['/'] + name,
        p.parts.len() > 0 && p.platform == Platform::Windows ==> path_text(path_child(p, name))
            == path_text(p) + seq!['\\'] + name,
{
    reveal_strlit("/");
    reveal_strlit("\\");
    assert("/"@ =~= seq!['/']);
    assert("\\"@ =~= seq!['\\']);
    let child = path_child(p, name);
    let names = shown_names(p.parts);
    assert(shown_names(child.parts) =~= names.push(name));
    assert(names.push(name).drop_last() =~= names);
    if p.parts.len() == 0 {
        assert(path_text(p) =~= p.root);
        assert(path_text(child) =~= p.root + name);
    } else {
        let sep = separator(p.platform);
        assert(path_text(child) =~= path_text(p) + sep + name);
    }
}

/// Whether every path comes before those behind it.
pub open spec fn increasing_paths(list: Seq<PathView>) -> bool {
    forall|i: int, j: int|
        0 <= i < j < list.len() ==> path_order(#[trigger] list[i], #[trigger] list[j])
            == Ordering::Less
}

/// A path put into a list of paths in order leaves it in order, keeps all that was there,
/// and is there itself unless one that is level with it was.
pub proof fn law_paths_are_kept_in_order(list: Seq<PathView>, p: PathView)
    requires
        increasing_paths(list),
    ensures
        increasing_paths(sorted_path_insert(list, p)),
        forall|i: int| 0 <= i < list.len() ==> sorted_path_insert(list, p).contains(#[trigger] list[i]),
        forall|k: int|
            0 <= k < sorted_path_insert(list, p).len() ==> #[trigger] sorted_path_insert(list, p)[k]
                == p || list.contains(sorted_path_insert(list, p)[k]),
        exists|k: int|
            0 <= k < sorted_path_insert(list, p).len() && path_order(
                #[trigger] sorted_path_insert(list, p)[k],
                p,
            ) == Ordering::Equal,
{
    lemma_path_is_inserted(list, p);
    lemma_paths_stay(list, p);
    lemma_paths_come_from(list, p);
    lemma_paths_stay_in_order(list, p);
}

proof fn lemma_path_is_inserted(list: Seq<PathView>, p: PathView)
    ensures
        exists|k: int|
            0 <= k < sorted_path_insert(list, p).len() && path_order(
                #[trigger] sorted_path_insert(list, p)[k],
                p,
            ) == Ordering::Equal,
    decreases list.len(),
{
    let r = sorted_path_insert(list, p);
    lemma_key_order_equal(path_key(p), path_key(p));
    if list.len() == 0 || path_order(p, list[0]) == Ordering::Less {
        assert(r[0] == p);
    } else if path_order(p, list[0]) == Ordering::Equal {
        lemma_key_order_flip(path_key(p), path_key(list[0]));
        assert(path_order(r[0], p) == Ordering::Equal);
    } else {
        let below = sorted_path_insert(list.drop_first(), p);
        lemma_path_is_inserted(list.drop_first(), p);
        let m = choose|m: int|
            0 <= m < below.len() && path_order(#[trigger] below[m], p) == Ordering::Equal;
        assert(r[m + 1] == below[m]);
    }
}

proof fn lemma_paths_stay(list: Seq<PathView>, p: PathView)
    ensures
        forall|i: int| 0 <= i < list.len() ==> sorted_path_insert(list, p).contains(#[trigger] list[i]),
    decreases list.len(),
{
    let r = sorted_path_insert(list, p);
    if list.len() > 0 {
        let rest = list.drop_first();
        let below = sorted_path_insert(rest, p);
        lemma_paths_stay(rest, p);
        assert forall|i: int| 0 <= i < list.len() implies r.contains(#[trigger] list[i]) by {
            match path_order(p, list[0]) {
                Ordering::Less => {
                    assert(r[i + 1] == list[i]);
                },
                Ordering::Equal => {},
                Ordering::Greater => {
                    if i == 0 {
                        assert(r[0] == list[0]);
                    } else {
                        assert(below.contains(rest[i - 1]));
                        let m = choose|m: int| 0 <= m < below.len() && below[m] == rest[i - 1];
                        assert(r[m + 1] == list[i]);
                    }
                },
            }
        }
    }
}

proof fn lemma_paths_come_from(list: Seq<PathView>, p: PathView)
    ensures
        forall|k: int|
            0 <= k < sorted_path_insert(list, p).len() ==> #[trigger] sorted_path_insert(list, p)[k]
                == p || list.contains(sorted_path_insert(list, p)[k]),
    decreases list.len(),
{
    let r = sorted_path_insert(list, p);
    if list.len() > 0 {
        let rest = list.drop_first();
        let below = sorted_path_insert(rest, p);
        lemma_paths_come_from(rest, p);
        assert forall|k: int| 0 <= k < r.len() implies #[trigger] r[k] == p || list.contains(
            r[k],
        ) by {
            match path_order(p, list[0]) {
                Ordering::Less => {
                    if k > 0 {
                        assert(r[k] == list[k - 1]);
                    }
                },
                Ordering::Equal => {},
                Ordering::Greater => {
                    if k == 0 {
                        assert(r[0] == list[0]);
                    } else {
                        assert(r[k] == below[k - 1]);
                        if below[k - 1] != p {
                            assert(rest.contains(below[k - 1]));
                            let m = choose|m: int| 0 <= m < rest.len() && rest[m] == below[k - 1];
                            assert(list[m + 1] == r[k]);
                        }
                    }
                },
            }
        }
    }
}

proof fn lemma_first_path_leads(p: PathView, list: Seq<PathView>)
    requires
        increasing_paths(list),
        list.len() > 0 ==> path_order(p, list[0]) == Ordering::Less,
    ensures
        increasing_paths(seq![p] + list),
{
    let r = seq![p] + list;
    assert forall|i: int, j: int| 0 <= i < j < r.len() implies path_order(
        #[trigger] r[i],
        #[trigger] r[j],
    ) == Ordering::Less by {
        assert(r[j] == list[j - 1]);
        if i > 0 {
            assert(r[i] == list[i - 1]);
        } else if j > 1 {
            assert(path_order(list[0], list[j - 1]) == Ordering::Less);
            lemma_paths_follow(p, list[0], list[j - 1]);
        }
    }
}

proof fn lemma_paths_stay_in_order(list: Seq<PathView>, p: PathView)
    requires
        increasing_paths(list),
    ensures
        increasing_paths(sorted_path_insert(list, p)),
    decreases list.len(),
{
    if list.len() == 0 || path_order(p, list[0]) == Ordering::Less {
        lemma_first_path_leads(p, list);
        assert(seq![p] + list =~= sorted_path_insert(list, p));
    } else if path_order(p, list[0]) == Ordering::Greater {
        let rest = list.drop_first();
        let below = sorted_path_insert(rest, p);
        assert forall|i: int, j: int| 0 <= i < j < rest.len() implies path_order(
            #[trigger] rest[i],
            #[trigger] rest[j],
        ) == Ordering::Less by {
            assert(rest[i] == list[i + 1] && rest[j] == list[j + 1]);
        }
        lemma_paths_stay_in_order(rest, p);
        lemma_paths_come_from(rest, p);
        if below.len() > 0 {
            if below[0] == p {
                lemma_key_order_flip(path_key(p), path_key(list[0]));
            } else {
                assert(rest.contains(below[0]));
                let m = choose|m: int| 0 <= m < rest.len() && rest[m] == below[0];
                assert(path_order(list[0], list[m + 1]) == Ordering::Less);
            }
        }
        lemma_first_path_leads(list[0], below);
    }
}

proof fn lemma_paths_follow(a: PathView, b: PathView, c: PathView)
    requires
        path_order(a, b) == Ordering::Less,
        path_order(b, c) == Ordering::Less,
    ensures
        path_order(a, c) == Ordering::Less,
{
    lemma_key_order_transitive(path_key(a), path_key(b), path_key(c));
    lemma_key_order_equal(path_key(a), path_key(c));
    lemma_key_order_flip(path_key(a), path_key(b));
}

/// The first piece of a text ends at the first mark, and what follows is in pieces as if it
/// stood alone.
pub proof fn law_marks_part_pieces(piece: Seq<char>, mark: char, rest: Seq<char>)
    requires
        !piece.contains(mark),
    ensures
        split_at_char(piece, mark) == seq![piece],
        split_at_char(piece.push(mark) + rest, mark) == seq![piece] + split_at_char(rest, mark),
    decreases piece.len(),
{
    let all = piece.push(mark) + rest;
    if piece.len() == 0 {
        assert(all[0] == mark);
        assert(all.drop_first() =~= rest);
        assert(piece =~= Seq::empty());
    } else {
        let below = piece.drop_first();
        assert(!below.contains(mark)) by {
            if below.contains(mark) {
                let k = choose|k: int| 0 <= k < below.len() && below[k] == mark;
                assert(piece[k + 1] == mark);
            }
        }
        law_marks_part_pieces(below, mark, rest);
        assert(piece.contains(piece[0]));
        assert(all.drop_first() =~= below.push(mark) + rest);
        assert(all[0] == piece[0]);
        assert(seq![piece[0]] + below =~= piece);
        assert(seq![below].update(0, piece) =~= seq![piece]);
        assert((seq![below] + split_at_char(rest, mark)).update(0, piece) =~= seq![piece]
            + split_at_char(rest, mark));
    }
}

proof fn lemma_backslashed_kept(s: Seq<char>)
    requires
        !s.contains('/'),
    ensures
        backslashed(s) == s,
{
    assert forall|i: int| 0 <= i < s.len() implies #[trigger] backslashed(s)[i] == s[i] by {
        assert(s.contains(s[i]));
    }
    assert(backslashed(s) =~= s);
}

/// On Windows slashes and backslashes part names alike.
pub proof fn law_slashes_part_windows_names(s: Seq<char>)
    ensures
        windows_path(backslashed(s)) == windows_path(s),
{
    assert(backslashed(backslashed(s)) =~= backslashed(s));
}

/// On Windows two backslashes, a server and a share are the root of what follows.
pub proof fn law_shares_are_roots(server: Seq<char>, share: Seq<char>, rest: Seq<char>)
    requires
        server.len() > 0,
        share.len() > 0,
        !server.contains('/'),
        !server.contains('\\'),
        !share.contains('/'),
        !share.contains('\\'),
    ensures
        windows_path(
            seq!['\\', '\\'] + server + seq!['\\'] + share + seq!['\\'] + rest,
        ) == windows_parts(
            seq!['\\', '\\'] + server + seq!['\\'] + share + seq!['\\'],
            split_at_char(backslashed(rest), '\\').filter(
                |piece: Seq<char>| is_name(piece),
            ),
        ),
{
    reveal_strlit("\\\\");
    reveal_strlit("\\");
    assert("\\\\"@ =~= seq!['\\', '\\']);
    assert("\\"@ =~= seq!['\\']);
    let s = seq!['\\', '\\'] + server + seq!['\\'] + share + seq!['\\'] + rest;
    let none: Seq<char> = Seq::empty();
    let back = backslashed(rest);
    lemma_backslashed_kept(server);
    lemma_backslashed_kept(share);
    let third = share.push('\\') + back;
    let second = server.push('\\') + third;
    let first = none.push('\\') + second;
    assert forall|i: int| 0 <= i < s.len() implies #[trigger] backslashed(s)[i] == (none.push('\\')
        + first)[i] by {
        let n = server.len() as int;
        let m = share.len() as int;
        if 2 <= i < 2 + n {
            assert(s[i] == server[i - 2]);
            assert(backslashed(server)[i - 2] == server[i - 2]);
        } else if 3 + n <= i < 3 + n + m {
            assert(s[i] == share[i - 3 - n]);
            assert(backslashed(share)[i - 3 - n] == share[i - 3 - n]);
        } else if i >= 4 + n + m {
            assert(s[i] == rest[i - 4 - n - m]);
        }
    }
    assert(backslashed(s) =~= none.push('\\') + first);
    law_marks_part_pieces(none, '\\', first);
    law_marks_part_pieces(none, '\\', second);
    law_marks_part_pieces(server, '\\', third);
    law_marks_part_pieces(share, '\\', back);
    let pieces = split_at_char(backslashed(s), '\\');
    let below = split_at_char(back, '\\');
    assert(pieces =~= seq![none, none, server, share] + below);
    assert(pieces.skip(4) =~= below);
    assert(names_of(below) == below.filter(|piece: Seq<char>| is_name(piece)));
    assert("\\\\"@ + server + "\\"@ + share + "\\"@ =~= seq!['\\', '\\'] + server + seq!['\\']
        + share + seq!['\\']);
}

/// On Windows a letter, a colon and a backslash are the root of what follows; without the
/// backslash, the letter and the colon are.
pub proof fn law_drives_are_roots(drive: char, name: Seq<char>, rest: Seq<char>)
    requires
        'a' <= drive <= 'z' || 'A' <= drive <= 'Z',
        name.len() > 0,
        !name.contains('/'),
        !name.contains('\\'),
    ensures
        windows_path(seq![drive, ':', '\\'] + rest) == windows_parts(
            seq![drive, ':', '\\'],
            split_at_char(backslashed(rest), '\\').filter(|piece: Seq<char>| is_name(piece)),
        ),
        windows_path(seq![drive, ':'] + name) == windows_parts(
            seq![drive, ':'],
            seq![name].filter(|piece: Seq<char>| is_name(piece)),
        ),
        windows_path(seq![drive, ':']) == windows_parts(seq![drive, ':'], Seq::empty()),
{
    reveal_strlit("\\");
    assert("\\"@ =~= seq!['\\']);
    let head = seq![drive, ':'];
    assert(!head.contains('\\') && !head.contains('/'));
    let back = backslashed(rest);
    let s = seq![drive, ':', '\\'] + rest;
    assert(backslashed(s) =~= head.push('\\') + back);
    law_marks_part_pieces(head, '\\', back);
    let below = split_at_char(back, '\\');
    let pieces = split_at_char(backslashed(s), '\\');
    assert(pieces =~= seq![head] + below);
    assert(pieces.skip(1) =~= below);
    assert(below.len() > 0) by {
        lemma_some_piece(back, '\\');
    }
    assert(head + "\\"@ =~= seq![drive, ':', '\\']);
    let t = head + name;
    assert(!t.contains('/') && !t.contains('\\')) by {
        assert forall|i: int| 0 <= i < t.len() implies t[i] != '/' && t[i] != '\\' by {
            if i >= 2 {
                assert(t[i] == name[i - 2]);
                assert(name.contains(name[i - 2]));
            }
        }
    }
    lemma_backslashed_kept(t);
    law_marks_part_pieces(t, '\\', back);
    assert(t.take(2) =~= head);
    assert(t.skip(2) =~= name);
    assert(seq![t].skip(1) =~= Seq::empty());
    assert(seq![name] + Seq::<Seq<char>>::empty() =~= seq![name]);
    lemma_backslashed_kept(head);
    law_marks_part_pieces(head, '\\', back);
}

proof fn lemma_some_piece(s: Seq<char>, mark: char)
    ensures
        split_at_char(s, mark).len() > 0,
    decreases s.len(),
{
    if s.len() > 0 {
        lemma_some_piece(s.drop_first(), mark);
    }
}

} // verus!
