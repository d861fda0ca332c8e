//! Platform-specific names, prefixes and paths.

use vstd::prelude::*;

use crate::error::{Error, ErrorKind, ErrorView, failure, outcome};
use crate::host::{Host, HostView, variable};
use crate::path::{
    FilePath, has_path, list_has_path, path_absolute, path_ancestor, path_child, PathView, Platform,
    unix_path,
};
use crate::text::{
    ascii_lower, clone_texts, extend_texts, lemma_views_push, lower, option_view, same, starts_with,
    text_lower, text_starts_with, views,
};

verus! {

// ---------------------------------------------------------------------------
// Names
// ---------------------------------------------------------------------------

/// The file that swallows what is written to it.
pub open spec fn null_file(platform: Platform) -> Seq<char> {
    match platform {
        Platform::Windows => "NUL"@,
        Platform::Unix => "/dev/null"@,
    }
}

pub fn null_device(platform: Platform) -> (r: &'static str)
    ensures
        r@ == null_file(platform),
{
    match platform {
        Platform::Windows => "NUL",
        Platform::Unix => "/dev/null",
    }
}

/// Whether the name of an environment variable begins with `prefix`, which on
/// Windows is read without regard to case.
pub open spec fn key_has_prefix(platform: Platform, key: Seq<char>, prefix: Seq<char>) -> bool {
    match platform {
        Platform::Windows => starts_with(lower(key), lower(prefix)),
        Platform::Unix => starts_with(key, prefix),
    }
}

pub fn env_key_has_prefix(platform: Platform, key: &str, prefix: &str) -> (r: bool)
    ensures
        r == key_has_prefix(platform, key@, prefix@),
{
    match platform {
        Platform::Windows => text_starts_with(
            text_lower(key).as_str(),
            text_lower(prefix).as_str(),
        ),
        Platform::Unix => text_starts_with(key, prefix),
    }
}

/// Whether the name of an environment variable begins with one of `prefixes`.
pub open spec fn key_has_any_prefix(
    platform: Platform,
    key: Seq<char>,
    prefixes: Seq<Seq<char>>,
) -> bool {
    exists|i: int| 0 <= i < prefixes.len() && key_has_prefix(platform, key, #[trigger] prefixes[i])
}

pub fn env_key_has_any_prefix(platform: Platform, key: &str, prefixes: &Vec<String>) -> (r: bool)
    ensures
        r == key_has_any_prefix(platform, key@, views(prefixes@)),
{
    let n: usize = prefixes.len();
    for i in 0..n
        invariant
            n == prefixes@.len(),
            forall|j: int|
                0 <= j < i ==> !key_has_prefix(platform, key@, #[trigger] views(prefixes@)[j]),
    {
        if env_key_has_prefix(platform, key, prefixes[i].as_str()) {
            assert(key_has_prefix(platform, key@, views(prefixes@)[i as int]));
            return true;
        }
    }
    false
}

/// What a platform without regard to case finds, it finds in any spelling; and
/// what begins with a prefix letter for letter begins with it everywhere.
pub proof fn law_prefix_platforms(key: Seq<char>, prefix: Seq<char>)
    ensures
        key_has_prefix(Platform::Unix, key, prefix) ==> key_has_prefix(
            Platform::Windows,
            key,
            prefix,
        ),
        key_has_prefix(Platform::Windows, key, prefix) == key_has_prefix(
            Platform::Windows,
            lower(key),
            lower(prefix),
        ),
{
    if starts_with(key, prefix) {
        assert(lower(key).take(prefix.len() as int) =~= lower(prefix)) by {
            assert forall|i: int| 0 <= i < prefix.len() implies lower(key)[i] == lower(prefix)[i] by {
                assert(key.take(prefix.len() as int)[i] == key[i]);
            }
        }
    }
    assert(lower(lower(key)) =~= lower(key));
    assert(lower(lower(prefix)) =~= lower(prefix));
}

// ---------------------------------------------------------------------------
// Paths
// ---------------------------------------------------------------------------

pub fn canonicalize(host: &Host, path: &FilePath) -> (r: Option<FilePath>)
    ensures
        option_view(r) == host@.canonical(path@),
{
    host.canonical(path)
}

/// The canonical form of a path if it has one, else the path itself.
pub open spec fn canonical_or(host: HostView, path: PathView) -> PathView {
    match host.canonical(path) {
        Some(canonical) => canonical,
        None => path,
    }
}

pub fn canonicalize_or(host: &Host, path: &FilePath) -> (r: FilePath)
    ensures
        r@ == canonical_or(host@, path@),
{
    match canonicalize(host, path) {
        Some(canonical) => canonical,
        None => path.clone(),
    }
}

pub fn path_entry_exists(host: &Host, path: &FilePath) -> (r: bool)
    ensures
        r == host@.is_entry(path@),
{
    host.is_entry(path)
}

/// `base` with the names `more` below it.
pub open spec fn path_extended(base: PathView, more: Seq<Seq<char>>) -> PathView {
    PathView { parts: base.parts + more, ..base }
}

/// `path` with its last `k` names put below the canonical form of what is
/// before them, for the least `k` from `from` on that has one.
pub open spec fn nearest_resolved(host: HostView, path: PathView, from: int) -> Option<PathView>
    decreases path.parts.len() - from,
{
    if from < 0 || from > path.parts.len() {
        None
    } else {
        match host.canonical(path_ancestor(path, from)) {
            Some(found) => Some(
                path_extended(found, path.parts.skip(path.parts.len() - from)),
            ),
            None => if from == path.parts.len() || path.parts[path.parts.len() - from - 1]
                == ".."@ {
                None
            } else {
                nearest_resolved(host, path, from + 1)
            },
        }
    }
}

pub open spec fn not_absolute() -> ErrorView {
    failure(ErrorKind::PathNotAbsolute, "path to create must be absolute"@)
}

pub open spec fn unresolvable() -> ErrorView {
    failure(ErrorKind::PathUnresolvable, "path has no resolvable existing ancestor"@)
}

/// The canonical form that `path` has, or would have once it is created.
pub open spec fn creation_path(host: HostView, path: PathView) -> Result<PathView, ErrorView> {
    if !path_absolute(path) {
        Err(not_absolute())
    } else if host.is_entry(path) {
        match host.canonical(path) {
            Some(canonical) => Ok(canonical),
            None => Err(failure(ErrorKind::PathUnresolvable, host.canonical_failure(path))),
        }
    } else {
        match nearest_resolved(host, path, 0) {
            Some(found) => Ok(found),
            None => Err(unresolvable()),
        }
    }
}

/// Resolves the existing part of an absolute path and keeps the missing names
/// behind it.
pub fn resolve_for_creation(host: &Host, path: &FilePath) -> (r: Result<FilePath, Error>)
    ensures
        outcome(r) == creation_path(host@, path@),
{
    if !path.is_absolute() {
        return Err(Error::new(ErrorKind::PathNotAbsolute, "path to create must be absolute"));
    }
    if path_entry_exists(host, path) {
        return match canonicalize(host, path) {
            Some(found) => Ok(found),
            None => Err(
                Error::new(
                    ErrorKind::PathUnresolvable,
                    host.canonical_failure(path).as_str(),
                ),
            ),
        };
    }
    let n: usize = path.parts.len();
    let mut k: usize = 0;
    while k <= n
        invariant
            n == path.parts@.len(),
            k <= n,
            path_absolute(path@),
            !host@.is_entry(path@),
            nearest_resolved(host@, path@, 0) == nearest_resolved(host@, path@, k as int),
        decreases n + 1 - k,
    {
        assert(path@.parts.len() == n);
        if let Some(found) = canonicalize(host, &path.ancestor(k)) {
            let mut parts = clone_texts(&found.parts);
            let mut suffix = clone_texts(&path.parts);
            proof {
                assert(suffix@.len() == views(suffix@).len());
            }
            let missing = suffix.split_off(n - k);
            proof {
                assert(views(missing@) =~= path@.parts.skip(n - k));
            }
            extend_texts(&mut parts, &missing);
            return Ok(
                FilePath {
                    platform: found.platform,
                    root: found.root,
                    parts,
                },
            );
        }
        if k == n || same(path.parts[n - k - 1].as_str(), "..") {
            assert(nearest_resolved(host@, path@, k as int) is None);
            return Err(
                Error::new(ErrorKind::PathUnresolvable, "path has no resolvable existing ancestor"),
            );
        }
        k = k + 1;
    }
    Err(Error::new(ErrorKind::PathUnresolvable, "path has no resolvable existing ancestor"))
}

/// What is resolved for creation lies at or below the canonical form of an
/// existing ancestor, and keeps the names that were missing, in order.
pub proof fn law_creation_keeps_missing_names(host: HostView, path: PathView)
    ensures
        creation_path(host, path) matches Ok(found) ==> exists|k: int|
            0 <= k <= path.parts.len() && (#[trigger] host.canonical(path_ancestor(path, k))
                matches Some(ancestor) && found.root == ancestor.root && found.parts
                == ancestor.parts + path.parts.skip(path.parts.len() - k)),
{
    if host.is_entry(path) {
        assert(path_ancestor(path, 0) =~= path);
        match host.canonical(path_ancestor(path, 0)) {
            Some(found) => {
                assert(found.parts =~= found.parts + path.parts.skip(path.parts.len() as int));
            },
            None => {},
        }
    } else {
        lemma_nearest(host, path, 0);
    }
}

proof fn lemma_nearest(host: HostView, path: PathView, from: int)
    requires
        0 <= from,
    ensures
        nearest_resolved(host, path, from) matches Some(found) ==> exists|k: int|
            from <= k <= path.parts.len() && (#[trigger] host.canonical(path_ancestor(path, k))
                matches Some(ancestor) && found.root == ancestor.root && found.parts
                == ancestor.parts + path.parts.skip(path.parts.len() - k)),
    decreases path.parts.len() - from,
{
    if from <= path.parts.len() {
        if host.canonical(path_ancestor(path, from)) is None && from != path.parts.len()
            && path.parts[path.parts.len() - from - 1] != ".."@ {
            lemma_nearest(host, path, from + 1);
        }
    }
}

// ---------------------------------------------------------------------------
// Places
// ---------------------------------------------------------------------------

/// The variables that may name the home directory, in the order of preference.
pub open spec fn home_names(platform: Platform) -> Seq<Seq<char>> {
    match platform {
        Platform::Windows => seq!["USERPROFILE"@, "HOME"@],
        Platform::Unix => seq!["HOME"@],
    }
}

/// The canonical form of the first of the named variables' paths that has one.
pub open spec fn first_canonical(host: HostView, names: Seq<Seq<char>>) -> Option<PathView>
    decreases names.len(),
{
    if names.len() == 0 {
        None
    } else {
        match variable(host.env, names[0]) {
            Some(path) => match host.canonical(path) {
                Some(canonical) => Some(canonical),
                None => first_canonical(host, names.drop_first()),
            },
            None => first_canonical(host, names.drop_first()),
        }
    }
}

/// The home directory of the user.
pub open spec fn home(host: HostView) -> Option<PathView> {
    first_canonical(host, home_names(host.platform))
}

fn home_variables(platform: Platform) -> (r: Vec<String>)
    ensures
        views(r@) == home_names(platform),
{
    let mut r: Vec<String> = Vec::new();
    match platform {
        Platform::Windows => {
            r.push("USERPROFILE".to_owned());
            r.push("HOME".to_owned());
        },
        Platform::Unix => {
            r.push("HOME".to_owned());
        },
    }
    assert(views(r@) =~= home_names(platform));
    r
}

pub fn home_dir(host: &Host) -> (r: Option<FilePath>)
    ensures
        option_view(r) == home(host@),
{
    let names = home_variables(host.platform);
    let ghost all = views(names@);
    let n: usize = names.len();
    let mut i: usize = 0;
    assert(all.skip(0) =~= all);
    while i < n
        invariant
            n == names@.len(),
            i <= n,
            all == views(names@),
            all == home_names(host@.platform),
            first_canonical(host@, all) == first_canonical(host@, all.skip(i as int)),
        decreases n - i,
    {
        assert(all.skip(i as int)[0] == names@[i as int]@);
        assert(all.skip(i as int).drop_first() =~= all.skip(i + 1));
        if let Some(path) = host.variable(names[i].as_str()) {
            if let Some(canonical) = canonicalize(host, &path) {
                return Some(canonical);
            }
        }
        i = i + 1;
    }
    None
}

/// `list` with the path that `name` holds, and the names `below` under it.
pub open spec fn with_variable(
    list: Seq<PathView>,
    host: HostView,
    name: Seq<char>,
    below: Seq<Seq<char>>,
) -> Seq<PathView> {
    match variable(host.env, name) {
        Some(root) => list.push(path_extended(root, below)),
        None => list,
    }
}

/// `list` with `path`, if that is there.
pub open spec fn with_existing(list: Seq<PathView>, host: HostView, path: PathView) -> Seq<
    PathView,
> {
    if host.is_present(path) {
        list.push(path)
    } else {
        list
    }
}

/// Where temporary files may be.
pub open spec fn temporary_places(host: HostView) -> Seq<PathView> {
    let start = seq![host.temp_dir];
    match host.platform {
        Platform::Windows => {
            let a = with_variable(start, host, "TMP"@, Seq::empty());
            let b = with_variable(a, host, "TEMP"@, Seq::empty());
            let c = with_variable(b, host, "LOCALAPPDATA"@, seq!["Temp"@]);
            let d = with_variable(c, host, "USERPROFILE"@, seq!["AppData"@, "Local"@, "Temp"@]);
            let e = with_variable(d, host, "SystemRoot"@, seq!["Temp"@]);
            with_variable(e, host, "WINDIR"@, seq!["Temp"@])
        },
        Platform::Unix => {
            let a = with_existing(start, host, unix_path("/tmp"@));
            let b = with_existing(a, host, unix_path("/var/tmp"@));
            with_existing(b, host, unix_path("/dev/shm"@))
        },
    }
}

fn push_variable(list: &mut Vec<FilePath>, host: &Host, name: &str, below: &Vec<String>)
    ensures
        views(final(list)@) == with_variable(views(old(list)@), host@, name@, views(below@)),
{
    if let Some(root) = host.variable(name) {
        let ghost before = list@;
        let mut parts = clone_texts(&root.parts);
        extend_texts(&mut parts, below);
        let path = FilePath { platform: root.platform, root: root.root, parts };
        list.push(path);
        proof {
            lemma_views_push(before, path);
        }
    }
}

fn push_existing(list: &mut Vec<FilePath>, host: &Host, path: &str)
    ensures
        views(final(list)@) == with_existing(views(old(list)@), host@, unix_path(path@)),
{
    let path = FilePath::unix(path);
    if host.is_present(&path) {
        let ghost before = list@;
        list.push(path);
        proof {
            lemma_views_push(before, path);
        }
    }
}

/// Where temporary files may be.
pub fn temporary_candidates(host: &Host) -> (r: Vec<FilePath>)
    ensures
        views(r@) == temporary_places(host@),
{
    let mut r: Vec<FilePath> = Vec::new();
    r.push(host.temp_dir.clone());
    assert(views(r@) =~= seq![host@.temp_dir]);
    match host.platform {
        Platform::Windows => {
            let nothing: Vec<String> = Vec::new();
            let mut temp: Vec<String> = Vec::new();
            temp.push("Temp".to_owned());
            let mut local: Vec<String> = Vec::new();
            local.push("AppData".to_owned());
            local.push("Local".to_owned());
            local.push("Temp".to_owned());
            assert(views(nothing@) =~= Seq::<Seq<char>>::empty());
            assert(views(temp@) =~= seq!["Temp"@]);
            assert(views(local@) =~= seq!["AppData"@, "Local"@, "Temp"@]);
            push_variable(&mut r, host, "TMP", &nothing);
            push_variable(&mut r, host, "TEMP", &nothing);
            push_variable(&mut r, host, "LOCALAPPDATA", &temp);
            push_variable(&mut r, host, "USERPROFILE", &local);
            push_variable(&mut r, host, "SystemRoot", &temp);
            push_variable(&mut r, host, "WINDIR", &temp);
        },
        Platform::Unix => {
            push_existing(&mut r, host, "/tmp");
            push_existing(&mut r, host, "/var/tmp");
            push_existing(&mut r, host, "/dev/shm");
        },
    }
    r
}

/// The canonical forms of those of `list` that have one, each once.
pub open spec fn distinct_canonical(host: HostView, list: Seq<PathView>) -> Seq<PathView>
    decreases list.len(),
{
    if list.len() == 0 {
        Seq::empty()
    } else {
        let rest = distinct_canonical(host, list.drop_last());
        match host.canonical(list.last()) {
            Some(path) => if has_path(rest, path) {
                rest
            } else {
                rest.push(path)
            },
            None => rest,
        }
    }
}

/// The directories for temporary files, each once.
pub fn temporary_roots(host: &Host) -> (r: Vec<FilePath>)
    ensures
        views(r@) == distinct_canonical(host@, temporary_places(host@)),
{
    let candidates = temporary_candidates(host);
    let ghost all = views(candidates@);
    let mut r: Vec<FilePath> = Vec::new();
    let n: usize = candidates.len();
    assert(views(r@) =~= distinct_canonical(host@, all.take(0)));
    for i in 0..n
        invariant
            n == candidates@.len(),
            all == views(candidates@),
            views(r@) == distinct_canonical(host@, all.take(i as int)),
    {
        proof {
            assert(all.take(i + 1).drop_last() =~= all.take(i as int));
            assert(all.take(i + 1).last() == candidates@[i as int]@);
        }
        if let Some(path) = canonicalize(host, &candidates[i]) {
            if !list_has_path(&r, &path) {
                let ghost before = r@;
                r.push(path);
                proof {
                    lemma_views_push(before, path);
                }
            }
        }
    }
    assert(all.take(n as int) =~= all);
    r
}

/// What is thrown away goes to `/dev/null`, on Windows to `NUL`.
pub proof fn law_null_files(platform: Platform)
    ensures
        null_file(platform) == match platform {
            Platform::Unix => "/dev/null"@,
            Platform::Windows => "NUL"@,
        },
{
}

/// On Unix the name of a variable begins with a prefix if it is the prefix with something
/// behind it, letter for letter; on Windows the case of ASCII letters does not matter.
pub proof fn law_prefixes_are_literal(key: Seq<char>, prefix: Seq<char>, rest: Seq<char>)
    ensures
        key_has_prefix(Platform::Unix, prefix + rest, prefix),
        key_has_prefix(Platform::Windows, prefix + rest, prefix),
        key_has_prefix(Platform::Unix, key, prefix) ==> prefix.len() <= key.len() && key == prefix
            + key.skip(prefix.len() as int),
        key_has_prefix(Platform::Windows, key, prefix) ==> prefix.len() <= key.len() && forall|i: int|
            0 <= i < prefix.len() ==> ascii_lower(#[trigger] key[i]) == ascii_lower(prefix[i]),
{
    assert((prefix + rest).take(prefix.len() as int) =~= prefix);
    law_prefix_platforms(prefix + rest, prefix);
    if key_has_prefix(Platform::Unix, key, prefix) {
        assert(key =~= key.take(prefix.len() as int) + key.skip(prefix.len() as int));
    }
    if key_has_prefix(Platform::Windows, key, prefix) {
        assert forall|i: int| 0 <= i < prefix.len() implies ascii_lower(#[trigger] key[i])
            == ascii_lower(prefix[i]) by {
            assert(lower(key).take(lower(prefix).len() as int)[i] == lower(prefix)[i]);
            assert(lower(key)[i] == ascii_lower(key[i]));
        }
    }
}

/// A path to be created has to be absolute. If something is there, it is resolved as it
/// stands. If nothing is, the nearest part of it that resolves is resolved, and the names
/// behind that follow unchanged; a name `..` that does not resolve ends the search.
pub proof fn law_path_to_be_created(host: HostView, path: PathView, k: int)
    ensures
        !path_absolute(path) ==> (creation_path(host, path) matches Err(e) && e.kind
            == ErrorKind::PathNotAbsolute),
        path_absolute(path) && host.is_entry(path) ==> match host.canonical(path) {
            Some(found) => creation_path(host, path) == Ok::<PathView, ErrorView>(found),
            None => creation_path(host, path) matches Err(e) && e.kind
                == ErrorKind::PathUnresolvable && e.message == host.canonical_failure(path),
        },
        path_absolute(path) && !host.is_entry(path) && 0 <= k <= path.parts.len() && (forall|j: int|
            0 <= j < k ==> host.canonical(#[trigger] path_ancestor(path, j)) is None
                && path.parts[path.parts.len() - j - 1] != ".."@) ==> {
            &&& host.canonical(path_ancestor(path, k)) matches Some(found) ==> (creation_path(
                host,
                path,
            ) matches Ok(place) && place.platform == found.platform && place.root == found.root
                && place.parts == found.parts + path.parts.skip(path.parts.len() - k))
            &&& host.canonical(path_ancestor(path, k)) is None && (k == path.parts.len()
                || path.parts[path.parts.len() - k - 1] == ".."@) ==> (creation_path(
                host,
                path,
            ) matches Err(e) && e.kind == ErrorKind::PathUnresolvable)
        },
{
    if path_absolute(path) && !host.is_entry(path) && 0 <= k <= path.parts.len() && (forall|j: int|
        0 <= j < k ==> host.canonical(#[trigger] path_ancestor(path, j)) is None
            && path.parts[path.parts.len() - j - 1] != ".."@) {
        lemma_nearest_at(host, path, 0, k);
    }
}

proof fn lemma_nearest_at(host: HostView, path: PathView, from: int, k: int)
    requires
        0 <= from <= k <= path.parts.len(),
        forall|j: int|
            from <= j < k ==> host.canonical(#[trigger] path_ancestor(path, j)) is None
                && path.parts[path.parts.len() - j - 1] != ".."@,
    ensures
        nearest_resolved(host, path, from) == nearest_resolved(host, path, k),
    decreases k - from,
{
    if from < k {
        assert(host.canonical(path_ancestor(path, from)) is None);
        lemma_nearest_at(host, path, from + 1, k);
    }
}

/// The home directory is what `HOME` names, on Windows what `USERPROFILE` names or else
/// `HOME`, in its canonical form; a variable whose path has none is passed over.
pub proof fn law_home_is_named(host: HostView)
    ensures
        ({
            let by_home = match variable(host.env, "HOME"@) {
                Some(path) => host.canonical(path),
                None => None,
            };
            let by_profile = match variable(host.env, "USERPROFILE"@) {
                Some(path) => host.canonical(path),
                None => None,
            };
            home(host) == match host.platform {
                Platform::Unix => by_home,
                Platform::Windows => if by_profile is Some {
                    by_profile
                } else {
                    by_home
                },
            }
        }),
{
    reveal_with_fuel(first_canonical, 3);
    let names = home_names(host.platform);
    match host.platform {
        Platform::Unix => {
            assert(names.drop_first().len() == 0);
        },
        Platform::Windows => {
            assert(names.drop_first()[0] == "HOME"@);
            assert(names.drop_first().drop_first().len() == 0);
        },
    }
}

/// Temporary files may be where the system says; on Unix also in `/tmp`, `/var/tmp` and
/// `/dev/shm`, if they are there; on Windows also where `TMP` and `TEMP` say, and in the
/// usual directories below those that other variables name.
pub proof fn law_temporary_places(host: HostView)
    ensures
        temporary_places(host).contains(host.temp_dir),
        host.platform == Platform::Unix ==> {
            &&& host.is_present(unix_path("/tmp"@)) ==> temporary_places(host).contains(
                unix_path("/tmp"@),
            )
            &&& host.is_present(unix_path("/var/tmp"@)) ==> temporary_places(host).contains(
                unix_path("/var/tmp"@),
            )
            &&& host.is_present(unix_path("/dev/shm"@)) ==> temporary_places(host).contains(
                unix_path("/dev/shm"@),
            )
        },
        host.platform == Platform::Windows ==> {
            let places = temporary_places(host);
            &&& variable(host.env, "TMP"@) matches Some(path) ==> places.contains(
                path_extended(path, Seq::empty()),
            )
            &&& variable(host.env, "TEMP"@) matches Some(path) ==> places.contains(
                path_extended(path, Seq::empty()),
            )
            &&& variable(host.env, "LOCALAPPDATA"@) matches Some(path) ==> places.contains(
                path_child(path, "Temp"@),
            )
            &&& variable(host.env, "USERPROFILE"@) matches Some(path) ==> places.contains(
                path_child(path_child(path_child(path, "AppData"@), "Local"@), "Temp"@),
            )
            &&& variable(host.env, "SystemRoot"@) matches Some(path) ==> places.contains(
                path_child(path, "Temp"@),
            )
            &&& variable(host.env, "WINDIR"@) matches Some(path) ==> places.contains(
                path_child(path, "Temp"@),
            )
        },
{
    let start = seq![host.temp_dir];
    assert(start.contains(start[0]));
    match host.platform {
        Platform::Unix => {
            let a = with_existing(start, host, unix_path("/tmp"@));
            let b = with_existing(a, host, unix_path("/var/tmp"@));
            lemma_existing(start, host, unix_path("/tmp"@));
            lemma_existing(a, host, unix_path("/var/tmp"@));
            lemma_existing(b, host, unix_path("/dev/shm"@));
        },
        Platform::Windows => {
            let a = with_variable(start, host, "TMP"@, Seq::empty());
            let b = with_variable(a, host, "TEMP"@, Seq::empty());
            let c = with_variable(b, host, "LOCALAPPDATA"@, seq!["Temp"@]);
            let d = with_variable(c, host, "USERPROFILE"@, seq!["AppData"@, "Local"@, "Temp"@]);
            let e = with_variable(d, host, "SystemRoot"@, seq!["Temp"@]);
            lemma_variable(start, host, "TMP"@, Seq::empty());
            lemma_variable(a, host, "TEMP"@, Seq::empty());
            lemma_variable(b, host, "LOCALAPPDATA"@, seq!["Temp"@]);
            lemma_variable(c, host, "USERPROFILE"@, seq!["AppData"@, "Local"@, "Temp"@]);
            lemma_variable(d, host, "SystemRoot"@, seq!["Temp"@]);
            lemma_variable(e, host, "WINDIR"@, seq!["Temp"@]);
            assert forall|p: PathView| path_extended(p, seq!["Temp"@]) == #[trigger] path_child(
                p,
                "Temp"@,
            ) by {
                assert(p.parts + seq!["Temp"@] =~= p.parts.push("Temp"@));
            }
            if let Some(p) = variable(host.env, "USERPROFILE"@) {
                assert(p.parts + seq!["AppData"@, "Local"@, "Temp"@] =~= p.parts.push(
                    "AppData"@,
                ).push("Local"@).push("Temp"@));
            }
        },
    }
}

proof fn lemma_existing(list: Seq<PathView>, host: HostView, path: PathView)
    ensures
        forall|p: PathView| list.contains(p) ==> #[trigger] with_existing(list, host, path).contains(p),
        host.is_present(path) ==> with_existing(list, host, path).contains(path),
{
    let after = with_existing(list, host, path);
    assert forall|p: PathView| list.contains(p) implies #[trigger] after.contains(p) by {
        let k = choose|k: int| 0 <= k < list.len() && list[k] == p;
        assert(after[k] == p);
    }
    if host.is_present(path) {
        assert(after[list.len() as int] == path);
    }
}

proof fn lemma_variable(list: Seq<PathView>, host: HostView, name: Seq<char>, below: Seq<Seq<char>>)
    ensures
        forall|p: PathView|
            list.contains(p) ==> #[trigger] with_variable(list, host, name, below).contains(p),
        variable(host.env, name) matches Some(root) ==> with_variable(
            list,
            host,
            name,
            below,
        ).contains(path_extended(root, below)),
{
    let after = with_variable(list, host, name, below);
    assert forall|p: PathView| list.contains(p) implies #[trigger] after.contains(p) by {
        let k = choose|k: int| 0 <= k < list.len() && list[k] == p;
        assert(after[k] == p);
    }
    if let Some(root) = variable(host.env, name) {
        assert(after[list.len() as int] == path_extended(root, below));
    }
}

/// Places are taken in their canonical form, each form once, in the order of the places; a
/// place without one is left out.
pub proof fn law_places_are_taken_once(host: HostView, list: Seq<PathView>, more: PathView)
    ensures
        distinct_canonical(host, Seq::empty()).len() == 0,
        host.canonical(more) is None ==> distinct_canonical(host, list.push(more))
            == distinct_canonical(host, list),
        host.canonical(more) matches Some(path) ==> {
            &&& has_path(distinct_canonical(host, list), path) ==> distinct_canonical(
                host,
                list.push(more),
            ) == distinct_canonical(host, list)
            &&& !has_path(distinct_canonical(host, list), path) ==> distinct_canonical(
                host,
                list.push(more),
            ) == distinct_canonical(host, list).push(path)
        },
{
    assert(list.push(more).drop_last() =~= list);
}

} // verus!
