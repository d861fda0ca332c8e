//! What is known of the machine: its platform, the paths that environment
//! variables hold, and a snapshot of the part of the file system that matters.

use vstd::prelude::*;

use crate::path::{FilePath, path_same, Platform, PathView};
use crate::text::{option_view, same, views};

verus! {

/// What was found at a path.
#[derive(Debug)]
pub struct PathFacts {
    pub path: FilePath,
    /// Something is there, be it a link that leads nowhere.
    pub is_entry: bool,
    /// Something is there when links are followed.
    pub exists: bool,
    /// That is a regular file.
    pub is_file: bool,
    /// That is a directory.
    pub is_dir: bool,
    /// Who may do what with it, as Unix counts it.
    pub mode: u32,
    /// It belongs to the superuser.
    pub owned_by_root: bool,
    /// The canonical form of the path, or why it has none.
    pub canonical: Result<FilePath, String>,
    /// What the file holds, where that was read.
    pub content: Option<Vec<u8>>,
}

#[verifier::ext_equal]
pub struct FactsView {
    pub path: PathView,
    pub is_entry: bool,
    pub exists: bool,
    pub is_file: bool,
    pub is_dir: bool,
    pub mode: u32,
    pub owned_by_root: bool,
    pub canonical: Result<PathView, Seq<char>>,
    pub content: Option<Seq<u8>>,
}

impl View for PathFacts {
    type V = FactsView;

    open spec fn view(&self) -> FactsView {
        FactsView {
            path: self.path@,
            is_entry: self.is_entry,
            exists: self.exists,
            is_file: self.is_file,
            is_dir: self.is_dir,
            mode: self.mode,
            owned_by_root: self.owned_by_root,
            canonical: match self.canonical {
                Ok(path) => Ok(path@),
                Err(cause) => Err(cause@),
            },
            content: option_view(self.content),
        }
    }
}

/// A path that an environment variable holds.
#[derive(Debug)]
pub struct EnvPath {
    pub name: String,
    pub path: FilePath,
}

impl View for EnvPath {
    type V = (Seq<char>, PathView);

    open spec fn view(&self) -> (Seq<char>, PathView) {
        (self.name@, self.path@)
    }
}

/// What is known of the machine. A path that is not listed is taken for one at
/// which nothing was found.
#[derive(Debug)]
pub struct Host {
    pub platform: Platform,
    /// The directory that the process was started in, where it is known.
    pub current_dir: Option<FilePath>,
    /// The directory for temporary files.
    pub temp_dir: FilePath,
    /// The directories to look for commands in. A path without any name stands
    /// for the current directory.
    pub search_path: Vec<FilePath>,
    /// The variables that hold a path and are not empty.
    pub env: Vec<EnvPath>,
    pub paths: Vec<PathFacts>,
}

#[verifier::ext_equal]
pub struct HostView {
    pub platform: Platform,
    pub current_dir: Option<PathView>,
    pub temp_dir: PathView,
    pub search_path: Seq<PathView>,
    pub env: Seq<(Seq<char>, PathView)>,
    pub paths: Seq<FactsView>,
}

impl View for Host {
    type V = HostView;

    open spec fn view(&self) -> HostView {
        HostView {
            platform: self.platform,
            current_dir: option_view(self.current_dir),
            temp_dir: self.temp_dir@,
            search_path: views(self.search_path@),
            env: views(self.env@),
            paths: views(self.paths@),
        }
    }
}

/// The first entry for `path`, if there is one.
pub open spec fn find_facts(paths: Seq<FactsView>, path: PathView) -> Option<FactsView>
    decreases paths.len(),
{
    if paths.len() == 0 {
        None
    } else if path_same(paths[0].path, path) {
        Some(paths[0])
    } else {
        find_facts(paths.drop_first(), path)
    }
}

/// The path that the variable `name` holds.
pub open spec fn variable(env: Seq<(Seq<char>, PathView)>, name: Seq<char>) -> Option<PathView>
    decreases env.len(),
{
    if env.len() == 0 {
        None
    } else if env[0].0 == name {
        Some(env[0].1)
    } else {
        variable(env.drop_first(), name)
    }
}

impl HostView {
    pub open spec fn is_entry(self, path: PathView) -> bool {
        find_facts(self.paths, path) matches Some(facts) && facts.is_entry
    }

    pub open spec fn is_present(self, path: PathView) -> bool {
        find_facts(self.paths, path) matches Some(facts) && facts.exists
    }

    pub open spec fn is_file(self, path: PathView) -> bool {
        find_facts(self.paths, path) matches Some(facts) && facts.is_file
    }

    pub open spec fn is_dir(self, path: PathView) -> bool {
        find_facts(self.paths, path) matches Some(facts) && facts.is_dir
    }

    pub open spec fn canonical(self, path: PathView) -> Option<PathView> {
        match find_facts(self.paths, path) {
            Some(facts) => match facts.canonical {
                Ok(canonical) => Some(canonical),
                Err(_) => None,
            },
            None => None,
        }
    }

    /// Why `path` has no canonical form, where that was looked at.
    pub open spec fn canonical_failure(self, path: PathView) -> Seq<char> {
        match find_facts(self.paths, path) {
            Some(facts) => match facts.canonical {
                Ok(_) => Seq::empty(),
                Err(cause) => cause,
            },
            None => Seq::empty(),
        }
    }

    pub open spec fn content(self, path: PathView) -> Option<Seq<u8>> {
        match find_facts(self.paths, path) {
            Some(facts) => facts.content,
            None => None,
        }
    }
}

impl Host {
    /// What was found at `path`, if that was looked at.
    pub fn facts(&self, path: &FilePath) -> (r: Option<&PathFacts>)
        ensures
            match r {
                Some(facts) => find_facts(self@.paths, path@) == Some(facts@),
                None => find_facts(self@.paths, path@) is None,
            },
    {
        let ghost all = self@.paths;
        let n: usize = self.paths.len();
        let mut i: usize = 0;
        assert(all.skip(0) =~= all);
        while i < n
            invariant
                n == self.paths@.len(),
                all == views(self.paths@),
                i <= n,
                find_facts(all, path@) == find_facts(all.skip(i as int), path@),
            decreases n - i,
        {
            assert(all.skip(i as int)[0] == self.paths@[i as int]@);
            assert(all.skip(i as int).drop_first() =~= all.skip(i + 1));
            if self.paths[i].path.same(path) {
                return Some(&self.paths[i]);
            }
            i = i + 1;
        }
        None
    }

    pub fn is_entry(&self, path: &FilePath) -> (r: bool)
        ensures
            r == self@.is_entry(path@),
    {
        match self.facts(path) {
            Some(facts) => facts.is_entry,
            None => false,
        }
    }

    pub fn is_present(&self, path: &FilePath) -> (r: bool)
        ensures
            r == self@.is_present(path@),
    {
        match self.facts(path) {
            Some(facts) => facts.exists,
            None => false,
        }
    }

    pub fn is_file(&self, path: &FilePath) -> (r: bool)
        ensures
            r == self@.is_file(path@),
    {
        match self.facts(path) {
            Some(facts) => facts.is_file,
            None => false,
        }
    }

    pub fn is_dir(&self, path: &FilePath) -> (r: bool)
        ensures
            r == self@.is_dir(path@),
    {
        match self.facts(path) {
            Some(facts) => facts.is_dir,
            None => false,
        }
    }

    /// The canonical form of `path`, if it has one.
    pub fn canonical(&self, path: &FilePath) -> (r: Option<FilePath>)
        ensures
            option_view(r) == self@.canonical(path@),
    {
        match self.facts(path) {
            Some(facts) => match &facts.canonical {
                Ok(canonical) => Some(canonical.clone()),
                Err(_) => None,
            },
            None => None,
        }
    }

    /// Why `path` has no canonical form, where that was looked at.
    pub fn canonical_failure(&self, path: &FilePath) -> (r: String)
        ensures
            r@ == self@.canonical_failure(path@),
    {
        if let Some(facts) = self.facts(path) {
            if let Err(cause) = &facts.canonical {
                return cause.clone();
            }
        }
        let r = String::new();
        assert(r@ =~= Seq::<char>::empty());
        r
    }

    /// The path that the variable `name` holds.
    pub fn variable(&self, name: &str) -> (r: Option<FilePath>)
        ensures
            option_view(r) == variable(self@.env, name@),
    {
        let ghost all = self@.env;
        let n: usize = self.env.len();
        let mut i: usize = 0;
        assert(all.skip(0) =~= all);
        while i < n
            invariant
                n == self.env@.len(),
                i <= n,
                all == views(self.env@),
                variable(all, name@) == variable(all.skip(i as int), name@),
            decreases n - i,
        {
            assert(all.skip(i as int)[0] == self.env@[i as int]@);
            assert(all.skip(i as int).drop_first() =~= all.skip(i + 1));
            if same(self.env[i].name.as_str(), name) {
                return Some(self.env[i].path.clone());
            }
            i = i + 1;
        }
        None
    }
}

/// What is known of a path is what the first entry for it says.
pub proof fn law_first_entry_counts(paths: Seq<FactsView>, path: PathView, k: int)
    ensures
        0 <= k < paths.len() && path_same(paths[k].path, path) && (forall|j: int|
            0 <= j < k ==> !path_same((#[trigger] paths[j]).path, path)) ==> find_facts(paths, path)
            == Some(paths[k]),
        (forall|j: int| 0 <= j < paths.len() ==> !path_same((#[trigger] paths[j]).path, path))
            ==> find_facts(paths, path) is None,
    decreases paths.len(),
{
    if paths.len() > 0 {
        let rest = paths.drop_first();
        assert(forall|j: int| 0 <= j < rest.len() ==> #[trigger] rest[j] == paths[j + 1]);
        law_first_entry_counts(rest, path, k - 1);
        if 0 < k < paths.len() {
            assert(rest[k - 1] == paths[k]);
        }
    }
}

/// A variable holds what its first entry says.
pub proof fn law_first_value_counts(env: Seq<(Seq<char>, PathView)>, name: Seq<char>, k: int)
    ensures
        0 <= k < env.len() && env[k].0 == name && (forall|j: int|
            0 <= j < k ==> (#[trigger] env[j]).0 != name) ==> variable(env, name) == Some(env[k].1),
        (forall|j: int| 0 <= j < env.len() ==> (#[trigger] env[j]).0 != name) ==> variable(
            env,
            name,
        ) is None,
    decreases env.len(),
{
    if env.len() > 0 {
        let rest = env.drop_first();
        assert(forall|j: int| 0 <= j < rest.len() ==> #[trigger] rest[j] == env[j + 1]);
        law_first_value_counts(rest, name, k - 1);
        if 0 < k < env.len() {
            assert(rest[k - 1] == env[k]);
        }
    }
}

/// Nothing is known of a path for which there is no entry; of another, what is found
/// there, what it resolves to and what it holds is told by its entry alone.
pub proof fn law_facts_tell_all(host: HostView, path: PathView)
    ensures
        find_facts(host.paths, path) is None ==> !host.is_entry(path) && !host.is_present(path)
            && !host.is_file(path) && !host.is_dir(path) && host.canonical(path) is None
            && host.content(path) is None,
        find_facts(host.paths, path) matches Some(facts) ==> {
            &&& host.is_entry(path) == facts.is_entry
            &&& host.is_present(path) == facts.exists
            &&& host.is_file(path) == facts.is_file
            &&& host.is_dir(path) == facts.is_dir
            &&& host.content(path) == facts.content
            &&& facts.canonical matches Ok(found) ==> host.canonical(path) == Some(found)
            &&& facts.canonical matches Err(cause) ==> host.canonical(path) is None
                && host.canonical_failure(path) == cause
        },
{
}

} // verus!
