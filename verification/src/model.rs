//! Shared domain types.

use std::cmp::Ordering;

use vstd::prelude::*;

use crate::order::{compare_text, lemma_text_order, lemma_text_transitive, text_order};
use crate::path::{clone_option_path, FilePath, path_text, PathView};
use crate::text::{
    ascii_alphanumeric_char, chars_of, clone_option, clone_texts, escape_controls, escape_text,
    extend_texts, has_control, is_ascii_alphanumeric, is_control, join, join_texts,
    law_escaped_text_has_no_controls, law_text_without_controls_is_kept, lemma_add_has_no_controls,
    option_view, views,
};

verus! {

/// The supported package managers.
#[derive(Debug, Clone, Copy, PartialEq, Eq, PartialOrd, Ord, Hash, Structural)]
pub enum ManagerKind {
    Apt,
    Pacman,
    Brew,
    Cargo,
    Npm,
    Npx,
    Pip,
    Uv,
}

pub open spec fn manager_name(kind: ManagerKind) -> Seq<char> {
    match kind {
        ManagerKind::Apt => "apt"@,
        ManagerKind::Pacman => "pacman"@,
        ManagerKind::Brew => "brew"@,
        ManagerKind::Cargo => "cargo"@,
        ManagerKind::Npm => "npm"@,
        ManagerKind::Npx => "npx"@,
        ManagerKind::Pip => "pip"@,
        ManagerKind::Uv => "uv"@,
    }
}

/// The place of a manager in the order of the declaration.
pub open spec fn manager_rank(kind: ManagerKind) -> int {
    match kind {
        ManagerKind::Apt => 0,
        ManagerKind::Pacman => 1,
        ManagerKind::Brew => 2,
        ManagerKind::Cargo => 3,
        ManagerKind::Npm => 4,
        ManagerKind::Npx => 5,
        ManagerKind::Pip => 6,
        ManagerKind::Uv => 7,
    }
}

impl ManagerKind {
    pub fn name(self) -> (r: &'static str)
        ensures
            r@ == manager_name(self),
    {
        match self {
            ManagerKind::Apt => "apt",
            ManagerKind::Pacman => "pacman",
            ManagerKind::Brew => "brew",
            ManagerKind::Cargo => "cargo",
            ManagerKind::Npm => "npm",
            ManagerKind::Npx => "npx",
            ManagerKind::Pip => "pip",
            ManagerKind::Uv => "uv",
        }
    }

    pub fn rank(self) -> (r: u16)
        ensures
            r == manager_rank(self),
    {
        match self {
            ManagerKind::Apt => 0,
            ManagerKind::Pacman => 1,
            ManagerKind::Brew => 2,
            ManagerKind::Cargo => 3,
            ManagerKind::Npm => 4,
            ManagerKind::Npx => 5,
            ManagerKind::Pip => 6,
            ManagerKind::Uv => 7,
        }
    }
}

/// How a candidate answers a query, from the weakest evidence to the strongest.
#[derive(Debug, Clone, Copy, PartialEq, Eq, PartialOrd, Ord, Structural)]
pub enum MatchKind {
    Unmatched,
    Provider,
    Description,
    Edit,
    Contains,
    Tokens,
    Prefix,
    CompactExact,
    NormalizedExact,
    CanonicalExact,
    Exact,
}

pub open spec fn match_name_of(kind: MatchKind) -> Seq<char> {
    match kind {
        MatchKind::Unmatched => "none"@,
        MatchKind::Provider => "provider"@,
        MatchKind::Description => "description"@,
        MatchKind::Edit => "edit"@,
        MatchKind::Contains => "contains"@,
        MatchKind::Tokens => "tokens"@,
        MatchKind::Prefix => "prefix"@,
        MatchKind::CompactExact => "compact-exact"@,
        MatchKind::NormalizedExact => "normalized-exact"@,
        MatchKind::CanonicalExact => "canonical-exact"@,
        MatchKind::Exact => "exact"@,
    }
}

/// The strength of a kind of match.
pub open spec fn match_rank(kind: MatchKind) -> int {
    match kind {
        MatchKind::Unmatched => 0,
        MatchKind::Provider => 1,
        MatchKind::Description => 2,
        MatchKind::Edit => 3,
        MatchKind::Contains => 4,
        MatchKind::Tokens => 5,
        MatchKind::Prefix => 6,
        MatchKind::CompactExact => 7,
        MatchKind::NormalizedExact => 8,
        MatchKind::CanonicalExact => 9,
        MatchKind::Exact => 10,
    }
}

impl MatchKind {
    pub fn name(self) -> (r: &'static str)
        ensures
            r@ == match_name_of(self),
    {
        match self {
            MatchKind::Unmatched => "none",
            MatchKind::Provider => "provider",
            MatchKind::Description => "description",
            MatchKind::Edit => "edit",
            MatchKind::Contains => "contains",
            MatchKind::Tokens => "tokens",
            MatchKind::Prefix => "prefix",
            MatchKind::CompactExact => "compact-exact",
            MatchKind::NormalizedExact => "normalized-exact",
            MatchKind::CanonicalExact => "canonical-exact",
            MatchKind::Exact => "exact",
        }
    }

    pub fn rank(self) -> (r: u16)
        ensures
            r == match_rank(self),
    {
        match self {
            MatchKind::Unmatched => 0,
            MatchKind::Provider => 1,
            MatchKind::Description => 2,
            MatchKind::Edit => 3,
            MatchKind::Contains => 4,
            MatchKind::Tokens => 5,
            MatchKind::Prefix => 6,
            MatchKind::CompactExact => 7,
            MatchKind::NormalizedExact => 8,
            MatchKind::CanonicalExact => 9,
            MatchKind::Exact => 10,
        }
    }
}

/// What an instance of a manager is bound to.
#[derive(Debug, PartialEq, Eq)]
pub enum InstanceScope {
    Generic,
    PythonVenv(FilePath),
    NodeGlobal(FilePath),
}

pub enum ScopeView {
    Generic,
    PythonVenv(PathView),
    NodeGlobal(PathView),
}

impl View for InstanceScope {
    type V = ScopeView;

    open spec fn view(&self) -> ScopeView {
        match self {
            InstanceScope::Generic => ScopeView::Generic,
            InstanceScope::PythonVenv(path) => ScopeView::PythonVenv(path@),
            InstanceScope::NodeGlobal(path) => ScopeView::NodeGlobal(path@),
        }
    }
}

impl Clone for InstanceScope {
    fn clone(&self) -> (r: Self)
        ensures
            r@ == self@,
    {
        match self {
            InstanceScope::Generic => InstanceScope::Generic,
            InstanceScope::PythonVenv(path) => InstanceScope::PythonVenv(path.clone()),
            InstanceScope::NodeGlobal(path) => InstanceScope::NodeGlobal(path.clone()),
        }
    }
}

/// A concrete executable of a package manager.
#[derive(Debug)]
pub struct ManagerInstance {
    pub id: String,
    pub kind: ManagerKind,
    pub executable: FilePath,
    pub launcher_args: Vec<String>,
    pub version: String,
    pub scope: InstanceScope,
}

#[verifier::ext_equal]
pub struct InstanceView {
    pub id: Seq<char>,
    pub kind: ManagerKind,
    pub executable: PathView,
    pub launcher_args: Seq<Seq<char>>,
    pub version: Seq<char>,
    pub scope: ScopeView,
}

impl View for ManagerInstance {
    type V = InstanceView;

    open spec fn view(&self) -> InstanceView {
        InstanceView {
            id: self.id@,
            kind: self.kind,
            executable: self.executable@,
            launcher_args: views(self.launcher_args@),
            version: self.version@,
            scope: self.scope@,
        }
    }
}

impl Clone for ManagerInstance {
    fn clone(&self) -> (r: Self)
        ensures
            r@ == self@,
    {
        ManagerInstance {
            id: self.id.clone(),
            kind: self.kind,
            executable: self.executable.clone(),
            launcher_args: clone_texts(&self.launcher_args),
            version: self.version.clone(),
            scope: self.scope.clone(),
        }
    }
}

impl ManagerInstance {
    /// The arguments of the launcher, followed by `args`.
    pub fn prepend_launcher(&self, args: Vec<String>) -> (r: Vec<String>)
        ensures
            views(r@) == self@.launcher_args + views(args@),
    {
        let mut invocation = clone_texts(&self.launcher_args);
        extend_texts(&mut invocation, &args);
        invocation
    }
}

#[derive(Debug, Clone, Copy, PartialEq, Eq, Structural)]
pub enum TargetKind {
    System,
    User,
    CargoRoot,
    NodeGlobal,
    NodeProject,
    NodeWorkspace,
    PythonVenv,
}

/// A place that packages can be installed into.
#[derive(Debug, PartialEq, Eq)]
pub struct Target {
    pub id: String,
    pub kind: TargetKind,
    pub label: String,
    pub path: Option<FilePath>,
    pub exists: bool,
}

#[verifier::ext_equal]
pub struct TargetView {
    pub id: Seq<char>,
    pub kind: TargetKind,
    pub label: Seq<char>,
    pub path: Option<PathView>,
    pub exists: bool,
}

impl View for Target {
    type V = TargetView;

    open spec fn view(&self) -> TargetView {
        TargetView {
            id: self.id@,
            kind: self.kind,
            label: self.label@,
            path: option_view(self.path),
            exists: self.exists,
        }
    }
}

impl Clone for Target {
    fn clone(&self) -> (r: Self)
        ensures
            r@ == self@,
    {
        Target {
            id: self.id.clone(),
            kind: self.kind,
            label: self.label.clone(),
            path: clone_option_path(&self.path),
            exists: self.exists,
        }
    }
}

/// A package as one manager knows it, found for one query.
#[derive(Debug)]
pub struct Candidate {
    pub query: String,
    pub package: String,
    pub match_name: String,
    pub manager_instance_id: String,
    pub manager: ManagerKind,
    pub source: String,
    pub version: Option<String>,
    pub description: Option<String>,
    pub score: u16,
    pub match_kind: MatchKind,
    pub verified: bool,
}

#[verifier::ext_equal]
pub struct CandidateView {
    pub query: Seq<char>,
    pub package: Seq<char>,
    pub match_name: Seq<char>,
    pub manager_instance_id: Seq<char>,
    pub manager: ManagerKind,
    pub source: Seq<char>,
    pub version: Option<Seq<char>>,
    pub description: Option<Seq<char>>,
    pub score: u16,
    pub match_kind: MatchKind,
    pub verified: bool,
}

impl View for Candidate {
    type V = CandidateView;

    open spec fn view(&self) -> CandidateView {
        CandidateView {
            query: self.query@,
            package: self.package@,
            match_name: self.match_name@,
            manager_instance_id: self.manager_instance_id@,
            manager: self.manager,
            source: self.source@,
            version: option_view(self.version),
            description: option_view(self.description),
            score: self.score,
            match_kind: self.match_kind,
            verified: self.verified,
        }
    }
}

impl Clone for Candidate {
    fn clone(&self) -> (r: Self)
        ensures
            r@ == self@,
    {
        Candidate {
            query: self.query.clone(),
            package: self.package.clone(),
            match_name: self.match_name.clone(),
            manager_instance_id: self.manager_instance_id.clone(),
            manager: self.manager,
            source: self.source.clone(),
            version: clone_option(&self.version),
            description: clone_option(&self.description),
            score: self.score,
            match_kind: self.match_kind,
            verified: self.verified,
        }
    }
}

/// A candidate and the target that it shall be installed into.
#[derive(Debug)]
pub struct Selection {
    pub query: String,
    pub candidate: Candidate,
    pub target: Target,
}

#[verifier::ext_equal]
pub struct SelectionView {
    pub query: Seq<char>,
    pub candidate: CandidateView,
    pub target: TargetView,
}

impl View for Selection {
    type V = SelectionView;

    open spec fn view(&self) -> SelectionView {
        SelectionView { query: self.query@, candidate: self.candidate@, target: self.target@ }
    }
}

impl Clone for Selection {
    fn clone(&self) -> (r: Self)
        ensures
            r@ == self@,
    {
        Selection {
            query: self.query.clone(),
            candidate: self.candidate.clone(),
            target: self.target.clone(),
        }
    }
}

// ---------------------------------------------------------------------------
// Environments
// ---------------------------------------------------------------------------

/// A variable of a process environment.
#[derive(Debug, PartialEq, Eq)]
pub struct EnvVar {
    pub name: String,
    pub value: String,
}

impl View for EnvVar {
    type V = (Seq<char>, Seq<char>);

    open spec fn view(&self) -> (Seq<char>, Seq<char>) {
        (self.name@, self.value@)
    }
}

impl Clone for EnvVar {
    fn clone(&self) -> (r: Self)
        ensures
            r@ == self@,
    {
        EnvVar { name: self.name.clone(), value: self.value.clone() }
    }
}

/// Variables to set, one value for each name, in the order of names.
#[derive(Debug, PartialEq, Eq)]
pub struct EnvMap {
    entries: Vec<EnvVar>,
}

impl View for EnvMap {
    type V = Seq<(Seq<char>, Seq<char>)>;

    closed spec fn view(&self) -> Seq<(Seq<char>, Seq<char>)> {
        views(self.entries@)
    }
}

/// Whether the names strictly increase.
pub open spec fn env_ordered(e: Seq<(Seq<char>, Seq<char>)>) -> bool {
    forall|i: int, j: int|
        0 <= i < j < e.len() ==> text_order((#[trigger] e[i]).0, (#[trigger] e[j]).0)
            == Ordering::Less
}

/// `e` with `name` set to `value`.
pub open spec fn env_insert(
    e: Seq<(Seq<char>, Seq<char>)>,
    name: Seq<char>,
    value: Seq<char>,
) -> Seq<(Seq<char>, Seq<char>)>
    decreases e.len(),
{
    if e.len() == 0 {
        seq![(name, value)]
    } else {
        match text_order(name, e[0].0) {
            Ordering::Less => seq![(name, value)] + e,
            Ordering::Equal => seq![(name, value)] + e.drop_first(),
            Ordering::Greater => seq![e[0]] + env_insert(e.drop_first(), name, value),
        }
    }
}

/// The environment that the given pairs set, one after the other.
pub open spec fn env_of(pairs: Seq<(Seq<char>, Seq<char>)>) -> Seq<(Seq<char>, Seq<char>)>
    decreases pairs.len(),
{
    if pairs.len() == 0 {
        Seq::empty()
    } else {
        env_insert(env_of(pairs.drop_last()), pairs.last().0, pairs.last().1)
    }
}

/// What `e` sets `name` to.
pub open spec fn env_value(e: Seq<(Seq<char>, Seq<char>)>, name: Seq<char>) -> Option<Seq<char>>
    decreases e.len(),
{
    if e.len() == 0 {
        None
    } else if e[0].0 == name {
        Some(e[0].1)
    } else {
        env_value(e.drop_first(), name)
    }
}

/// Setting a name keeps the names in order, makes the value the one found under
/// that name, and leaves every other name as it was.
pub proof fn law_env_insert(
    e: Seq<(Seq<char>, Seq<char>)>,
    name: Seq<char>,
    value: Seq<char>,
    other: Seq<char>,
)
    requires
        env_ordered(e),
    ensures
        env_ordered(env_insert(e, name, value)),
        env_value(env_insert(e, name, value), name) == Some(value),
        other != name ==> env_value(env_insert(e, name, value), other) == env_value(e, other),
    decreases e.len(),
{
    lemma_env_insert(e, name, value, other);
}

proof fn lemma_env_insert(
    e: Seq<(Seq<char>, Seq<char>)>,
    name: Seq<char>,
    value: Seq<char>,
    other: Seq<char>,
)
    requires
        env_ordered(e),
    ensures
        env_ordered(env_insert(e, name, value)),
        env_value(env_insert(e, name, value), name) == Some(value),
        other != name ==> env_value(env_insert(e, name, value), other) == env_value(e, other),
        forall|k: int|
            0 <= k < env_insert(e, name, value).len() ==> (#[trigger] env_insert(e, name, value)[k]).0
                == name || exists|m: int| 0 <= m < e.len() && e[m].0 == env_insert(e, name, value)[k].0,
    decreases e.len(),
{
    reveal_with_fuel(env_value, 2);
    let r = env_insert(e, name, value);
    if e.len() == 0 {
        assert(r.drop_first() =~= Seq::<(Seq<char>, Seq<char>)>::empty());
    } else {
        let t = e.drop_first();
        assert(env_ordered(t)) by {
            assert forall|i: int, j: int| 0 <= i < j < t.len() implies text_order(
                (#[trigger] t[i]).0,
                (#[trigger] t[j]).0,
            ) == Ordering::Less by {
                assert(t[i] == e[i + 1] && t[j] == e[j + 1]);
            }
        }
        lemma_text_order(name, e[0].0);
        match text_order(name, e[0].0) {
            Ordering::Less => {
                assert(r.drop_first() =~= e);
                assert forall|i: int, j: int| 0 <= i < j < r.len() implies text_order(
                    (#[trigger] r[i]).0,
                    (#[trigger] r[j]).0,
                ) == Ordering::Less by {
                    assert(r[j] == e[j - 1]);
                    if i == 0 {
                        if j > 1 {
                            assert(text_order(e[0].0, e[j - 1].0) == Ordering::Less);
                            lemma_text_transitive(name, e[0].0, e[j - 1].0);
                        }
                    } else {
                        assert(r[i] == e[i - 1]);
                    }
                }
                assert forall|k: int| 0 <= k < r.len() implies (#[trigger] r[k]).0 == name || exists|
                    m: int,
                | 0 <= m < e.len() && e[m].0 == r[k].0 by {
                    if k > 0 {
                        assert(e[k - 1].0 == r[k].0);
                    }
                }
            },
            Ordering::Equal => {
                assert(r.drop_first() =~= t);
                assert forall|i: int, j: int| 0 <= i < j < r.len() implies text_order(
                    (#[trigger] r[i]).0,
                    (#[trigger] r[j]).0,
                ) == Ordering::Less by {
                    assert(r[j] == e[j]);
                    if i > 0 {
                        assert(r[i] == e[i]);
                    } else {
                        assert(text_order(e[0].0, e[j].0) == Ordering::Less);
                    }
                }
                assert forall|k: int| 0 <= k < r.len() implies (#[trigger] r[k]).0 == name || exists|
                    m: int,
                | 0 <= m < e.len() && e[m].0 == r[k].0 by {
                    if k > 0 {
                        assert(e[k].0 == r[k].0);
                    }
                }
            },
            Ordering::Greater => {
                lemma_env_insert(t, name, value, other);
                let q = env_insert(t, name, value);
                assert(r.drop_first() =~= q);
                assert forall|i: int, j: int| 0 <= i < j < r.len() implies text_order(
                    (#[trigger] r[i]).0,
                    (#[trigger] r[j]).0,
                ) == Ordering::Less by {
                    assert(r[j] == q[j - 1]);
                    if i > 0 {
                        assert(r[i] == q[i - 1]);
                    } else if q[j - 1].0 == name {
                    } else {
                        let m = choose|m: int| 0 <= m < t.len() && t[m].0 == q[j - 1].0;
                        assert(t[m] == e[m + 1]);
                        assert(text_order(e[0].0, e[m + 1].0) == Ordering::Less);
                    }
                }
                assert forall|k: int| 0 <= k < r.len() implies (#[trigger] r[k]).0 == name || exists|
                    m: int,
                | 0 <= m < e.len() && e[m].0 == r[k].0 by {
                    if k == 0 {
                        assert(e[0].0 == r[0].0);
                    } else {
                        assert(r[k] == q[k - 1]);
                        if q[k - 1].0 != name {
                            let m = choose|m: int| 0 <= m < t.len() && t[m].0 == q[k - 1].0;
                            assert(e[m + 1].0 == r[k].0);
                        }
                    }
                }
            },
        }
    }
}

/// Whatever pairs set an environment, its names are in order.
pub proof fn law_env_of_ordered(pairs: Seq<(Seq<char>, Seq<char>)>)
    ensures
        env_ordered(env_of(pairs)),
    decreases pairs.len(),
{
    if pairs.len() > 0 {
        law_env_of_ordered(pairs.drop_last());
        lemma_env_insert(
            env_of(pairs.drop_last()),
            pairs.last().0,
            pairs.last().1,
            pairs.last().0,
        );
    }
}

fn insert_variable(entries: &mut Vec<EnvVar>, name: &str, value: &str)
    ensures
        views(final(entries)@) == env_insert(views(old(entries)@), name@, value@),
{
    let ghost all = views(entries@);
    let n: usize = entries.len();
    let mut i: usize = 0;
    let var = EnvVar { name: name.to_owned(), value: value.to_owned() };
    assert(all.take(0) + env_insert(all.skip(0), name@, value@) =~= env_insert(
        all,
        name@,
        value@,
    )) by {
        assert(all.skip(0) =~= all);
    }
    while i < n
        invariant
            n == entries@.len(),
            all == views(entries@),
            all == views(old(entries)@),
            i <= n,
            var@ == (name@, value@),
            all.take(i + 0) + env_insert(all.skip(i + 0), name@, value@) == env_insert(
                all,
                name@,
                value@,
            ),
        decreases n - i,
    {
        let ghost rest = all.skip(i + 0);
        assert(rest[0] == entries@[i + 0]@);
        match compare_text(name, entries[i].name.as_str()) {
            Ordering::Less => {
                entries.insert(i, var);
                assert(views(entries@) =~= all.take(i + 0) + (seq![(name@, value@)] + rest));
                return ;
            },
            Ordering::Equal => {
                entries.set(i, var);
                assert(views(entries@) =~= all.take(i + 0) + (seq![(name@, value@)]
                    + rest.drop_first()));
                return ;
            },
            Ordering::Greater => {
                assert(all.skip(i + 1) =~= rest.drop_first());
                assert(all.take(i + 1) + env_insert(all.skip(i + 1), name@, value@) =~= all.take(
                    i + 0,
                ) + (seq![rest[0]] + env_insert(rest.drop_first(), name@, value@)));
                i = i + 1;
            },
        }
    }
    entries.push(var);
    assert(all.skip(i + 0) =~= Seq::<(Seq<char>, Seq<char>)>::empty());
    assert(views(entries@) =~= all.take(i + 0) + seq![(name@, value@)]);
}

impl EnvMap {
    #[verifier::type_invariant]
    spec fn in_order(self) -> bool {
        env_ordered(self@)
    }

    pub fn new() -> (r: EnvMap)
        ensures
            r@ == Seq::<(Seq<char>, Seq<char>)>::empty(),
    {
        let r = EnvMap { entries: Vec::new() };
        assert(r@ =~= Seq::<(Seq<char>, Seq<char>)>::empty());
        r
    }

    /// The variables, in the order of their names.
    pub fn entries(&self) -> (r: &Vec<EnvVar>)
        ensures
            views(r@) == self@,
            env_ordered(self@),
    {
        proof {
            use_type_invariant(self);
        }
        &self.entries
    }

    /// Sets `name` to `value`.
    pub fn insert(&mut self, name: &str, value: &str)
        ensures
            final(self)@ == env_insert(old(self)@, name@, value@),
    {
        proof {
            use_type_invariant(&*self);
            lemma_env_insert(self@, name@, value@, name@);
        }
        let mut entries: Vec<EnvVar> = Vec::new();
        std::mem::swap(&mut entries, &mut self.entries);
        insert_variable(&mut entries, name, value);
        self.entries = entries;
    }

    /// `self` with `name` set to `value`.
    pub fn with(self, name: &str, value: &str) -> (r: EnvMap)
        ensures
            r@ == env_insert(self@, name@, value@),
    {
        let mut r = self;
        r.insert(name, value);
        r
    }
}

impl Clone for EnvMap {
    fn clone(&self) -> (r: Self)
        ensures
            r@ == self@,
    {
        proof {
            use_type_invariant(self);
        }
        EnvMap { entries: crate::text::clone_list(&self.entries) }
    }
}

// ---------------------------------------------------------------------------
// Commands and plans
// ---------------------------------------------------------------------------

/// One command of a plan, with all that it needs to be run.
#[derive(Debug)]
pub struct CommandSpec {
    pub label: String,
    pub program: FilePath,
    pub args: Vec<String>,
    pub cwd: Option<FilePath>,
    pub env: EnvMap,
    pub env_remove_prefixes: Vec<String>,
    pub must_not_exist: Option<FilePath>,
    pub requires_admin: bool,
}

#[verifier::ext_equal]
pub struct CommandView {
    pub label: Seq<char>,
    pub program: PathView,
    pub args: Seq<Seq<char>>,
    pub cwd: Option<PathView>,
    pub env: Seq<(Seq<char>, Seq<char>)>,
    pub env_remove_prefixes: Seq<Seq<char>>,
    pub must_not_exist: Option<PathView>,
    pub requires_admin: bool,
}

impl View for CommandSpec {
    type V = CommandView;

    open spec fn view(&self) -> CommandView {
        CommandView {
            label: self.label@,
            program: self.program@,
            args: views(self.args@),
            cwd: option_view(self.cwd),
            env: self.env@,
            env_remove_prefixes: views(self.env_remove_prefixes@),
            must_not_exist: option_view(self.must_not_exist),
            requires_admin: self.requires_admin,
        }
    }
}

impl Clone for CommandSpec {
    fn clone(&self) -> (r: Self)
        ensures
            r@ == self@,
    {
        CommandSpec {
            label: self.label.clone(),
            program: self.program.clone(),
            args: clone_texts(&self.args),
            cwd: clone_option_path(&self.cwd),
            env: self.env.clone(),
            env_remove_prefixes: clone_texts(&self.env_remove_prefixes),
            must_not_exist: clone_option_path(&self.must_not_exist),
            requires_admin: self.requires_admin,
        }
    }
}

/// What was selected, and the commands that install it.
#[derive(Debug)]
pub struct InstallPlan {
    pub selections: Vec<Selection>,
    pub steps: Vec<CommandSpec>,
}

#[verifier::ext_equal]
pub struct PlanView {
    pub selections: Seq<SelectionView>,
    pub steps: Seq<CommandView>,
}

impl View for InstallPlan {
    type V = PlanView;

    open spec fn view(&self) -> PlanView {
        PlanView { selections: views(self.selections@), steps: views(self.steps@) }
    }
}

/// The characters that an argument is shown with as they are.
pub open spec fn is_plain_char(c: char) -> bool {
    is_ascii_alphanumeric(c) || c == '-' || c == '_' || c == '.' || c == '/' || c == ':' || c == '@'
        || c == '+' || c == '=' || c == ','
}

/// Whether an argument is shown without quotes.
pub open spec fn is_plain(s: Seq<char>) -> bool {
    s.len() > 0 && forall|i: int| 0 <= i < s.len() ==> is_plain_char(#[trigger] s[i])
}

/// `s` with every single quote closed, quoted and opened again.
pub open spec fn requote(s: Seq<char>) -> Seq<char>
    decreases s.len(),
{
    if s.len() == 0 {
        Seq::empty()
    } else if s.last() == '\'' {
        requote(s.drop_last()) + "'\"'\"'"@
    } else {
        requote(s.drop_last()).push(s.last())
    }
}

/// How one argument is shown: control characters escaped, and in single quotes
/// unless every character is plain.
pub open spec fn shown_arg(value: Seq<char>) -> Seq<char> {
    let escaped = escape_controls(value);
    if is_plain(escaped) {
        escaped
    } else {
        "'"@ + requote(escaped) + "'"@
    }
}

/// How a command is shown: the program and its arguments, with spaces between.
pub open spec fn shown_command(c: CommandView) -> Seq<char> {
    join(
        seq![shown_arg(path_text(c.program))] + c.args.map_values(|arg: Seq<char>| shown_arg(arg)),
        " "@,
    )
}

fn plain_char(c: char) -> (r: bool)
    ensures
        r == is_plain_char(c),
{
    ascii_alphanumeric_char(c) || c == '-' || c == '_' || c == '.' || c == '/' || c == ':' || c
        == '@' || c == '+' || c == '=' || c == ','
}

/// Shows one argument of a command.
pub fn display_arg(value: &str) -> (r: String)
    ensures
        r@ == shown_arg(value@),
{
    let escaped = escape_text(value);
    let chars = chars_of(escaped.as_str());
    let n: usize = chars.len();
    let mut plain = n > 0;
    for i in 0..n
        invariant
            n == chars@.len(),
            chars@ == escaped@,
            plain == (n > 0 && forall|j: int| 0 <= j < i ==> is_plain_char(#[trigger] chars@[j])),
    {
        if !plain_char(chars[i]) {
            plain = false;
        }
    }
    if plain {
        return escaped;
    }
    let mut r = "'".to_owned();
    let ghost start = r@;
    assert(start + requote(chars@.take(0)) =~= start);
    for i in 0..n
        invariant
            n == chars@.len(),
            chars@ == escaped@,
            start == "'"@,
            r@ == start + requote(chars@.take(i as int)),
    {
        proof {
            assert(chars@.take(i + 1).drop_last() =~= chars@.take(i as int));
            assert(chars@.take(i + 1).last() == chars@[i as int]);
        }
        if chars[i] == '\'' {
            r.append("'\"'\"'");
            assert(r@ =~= start + requote(chars@.take(i + 1)));
        } else {
            r.push(chars[i]);
            assert(r@ =~= start + requote(chars@.take(i + 1)));
        }
    }
    assert(chars@.take(n as int) =~= escaped@);
    r.append("'");
    r
}

impl CommandSpec {
    pub fn display_command(&self) -> (r: String)
        ensures
            r@ == shown_command(self@),
    {
        let mut parts: Vec<String> = Vec::new();
        parts.push(display_arg(self.program.text().as_str()));
        let n: usize = self.args.len();
        let ghost head = shown_arg(path_text(self@.program));
        let ghost shown = self@.args.map_values(|arg: Seq<char>| shown_arg(arg));
        assert(views(parts@) =~= seq![head] + shown.take(0));
        for i in 0..n
            invariant
                n == self.args@.len(),
                shown == self@.args.map_values(|arg: Seq<char>| shown_arg(arg)),
                views(parts@) == seq![head] + shown.take(i as int),
        {
            let ghost before = parts@;
            let arg = display_arg(self.args[i].as_str());
            parts.push(arg);
            proof {
                crate::text::lemma_views_push(before, arg);
                assert(arg@ == shown[i as int]);
                assert(views(parts@) =~= seq![head] + shown.take(i + 1));
            }
        }
        assert(shown.take(n as int) =~= shown);
        join_texts(&parts, " ")
    }
}

proof fn lemma_requote_has_no_controls(s: Seq<char>)
    requires
        !has_control(s),
    ensures
        !has_control(requote(s)),
    decreases s.len(),
{
    if s.len() > 0 {
        let rest = s.drop_last();
        assert forall|i: int| 0 <= i < rest.len() implies !is_control(#[trigger] rest[i]) by {
            assert(rest[i] == s[i]);
        }
        assert(!is_control(s[s.len() - 1]));
        lemma_requote_has_no_controls(rest);
        reveal_strlit("'\"'\"'");
        lemma_add_has_no_controls(requote(rest), "'\"'\"'"@);
        assert(!has_control(seq![s.last()]));
        lemma_add_has_no_controls(requote(rest), seq![s.last()]);
        assert(requote(rest).push(s.last()) =~= requote(rest) + seq![s.last()]);
    }
}

/// An argument is shown without control characters; a plain one as it is.
pub proof fn law_shown_argument_has_no_controls(value: Seq<char>)
    ensures
        !has_control(shown_arg(value)),
        is_plain(value) ==> shown_arg(value) == value,
{
    let escaped = escape_controls(value);
    law_escaped_text_has_no_controls(value);
    lemma_requote_has_no_controls(escaped);
    reveal_strlit("'");
    lemma_add_has_no_controls("'"@, requote(escaped));
    lemma_add_has_no_controls("'"@ + requote(escaped), "'"@);
    if is_plain(value) {
        assert forall|i: int| 0 <= i < value.len() implies !is_control(#[trigger] value[i]) by {
            assert(is_plain_char(value[i]));
        }
        law_text_without_controls_is_kept(value);
    }
}

proof fn lemma_requote_injective(a: Seq<char>, b: Seq<char>)
    requires
        requote(a) == requote(b),
    ensures
        a == b,
    decreases a.len(),
{
    reveal_strlit("'\"'\"'");
    let quote = "'\"'\"'"@;
    if a.len() == 0 {
        if b.len() > 0 {
            assert(requote(b).len() > 0);
        }
        assert(a =~= b);
    } else if b.len() == 0 {
        assert(requote(a).len() > 0);
    } else {
        let u = requote(a.drop_last());
        let v = requote(b.drop_last());
        assert(requote(a).last() == a.last());
        assert(requote(b).last() == b.last());
        if a.last() == '\'' {
            assert(u =~= requote(a).take(requote(a).len() - 5));
            assert(v =~= requote(b).take(requote(b).len() - 5));
        } else {
            assert(u =~= requote(a).drop_last());
            assert(v =~= requote(b).drop_last());
        }
        lemma_requote_injective(a.drop_last(), b.drop_last());
        assert(a =~= a.drop_last().push(a.last()));
        assert(b =~= b.drop_last().push(b.last()));
    }
}

/// Two arguments without control characters are shown alike only if they are one.
pub proof fn law_shown_arguments_differ(a: Seq<char>, b: Seq<char>)
    requires
        !has_control(a),
        !has_control(b),
        shown_arg(a) == shown_arg(b),
    ensures
        a == b,
{
    law_text_without_controls_is_kept(a);
    law_text_without_controls_is_kept(b);
    reveal_strlit("'");
    let s = shown_arg(a);
    if is_plain(a) && !is_plain(b) {
        assert(s[0] == '\'');
        assert(is_plain_char(a[0]));
    } else if is_plain(b) && !is_plain(a) {
        assert(s[0] == '\'');
        assert(is_plain_char(b[0]));
    } else if !is_plain(a) {
        assert(requote(a) =~= s.subrange(1, s.len() - 1));
        assert(requote(b) =~= s.subrange(1, s.len() - 1));
        lemma_requote_injective(a, b);
    }
}

/// The environment that pairs set holds, for each name, the value of the last pair with
/// that name, and no other name.
pub proof fn law_last_value_is_set(pairs: Seq<(Seq<char>, Seq<char>)>, i: int, name: Seq<char>)
    ensures
        0 <= i < pairs.len() && (forall|j: int|
            i < j < pairs.len() ==> (#[trigger] pairs[j]).0 != pairs[i].0) ==> env_value(
            env_of(pairs),
            pairs[i].0,
        ) == Some(pairs[i].1),
        (forall|j: int| 0 <= j < pairs.len() ==> (#[trigger] pairs[j]).0 != name) ==> env_value(
            env_of(pairs),
            name,
        ) is None,
    decreases pairs.len(),
{
    if pairs.len() > 0 {
        let rest = pairs.drop_last();
        let last = pairs[pairs.len() - 1];
        law_env_of_ordered(rest);
        law_env_insert(env_of(rest), last.0, last.1, name);
        if 0 <= i < pairs.len() {
            law_env_insert(env_of(rest), last.0, last.1, pairs[i].0);
        }
        if 0 <= i < pairs.len() - 1 && (forall|j: int|
            i < j < pairs.len() ==> (#[trigger] pairs[j]).0 != pairs[i].0) {
            assert(last.0 != pairs[i].0);
            assert(rest[i] == pairs[i]);
            assert forall|j: int| i < j < rest.len() implies (#[trigger] rest[j]).0 != rest[i].0 by {
                assert(rest[j] == pairs[j]);
            }
        }
        law_last_value_is_set(rest, i, name);
        if forall|j: int| 0 <= j < pairs.len() ==> (#[trigger] pairs[j]).0 != name {
            assert forall|j: int| 0 <= j < rest.len() implies (#[trigger] rest[j]).0 != name by {
                assert(rest[j] == pairs[j]);
            }
            assert(last.0 != name);
        }
    }
}

/// A command is shown with its program first and its arguments behind it, each behind a
/// space.
pub proof fn law_command_is_shown_whole(c: CommandView, more: Seq<char>)
    ensures
        c.args.len() == 0 ==> shown_command(c) == shown_arg(path_text(c.program)),
        shown_command(CommandView { args: c.args.push(more), ..c }) == shown_command(c) + seq![' ']
            + shown_arg(more),
{
    reveal_strlit(" ");
    assert(" "@ =~= seq![' ']);
    let quoted = |arg: Seq<char>| shown_arg(arg);
    let parts = seq![shown_arg(path_text(c.program))] + c.args.map_values(quoted);
    let all = seq![shown_arg(path_text(c.program))] + c.args.push(more).map_values(quoted);
    assert(all =~= parts.push(shown_arg(more)));
    assert(all.drop_last() =~= parts);
    if c.args.len() == 0 {
        assert(parts =~= seq![shown_arg(path_text(c.program))]);
    }
}

/// An argument of plain characters is shown as it is; any other stands between single
/// quotes, with each single quote in it closed, quoted and opened again.
pub proof fn law_arguments_are_quoted(value: Seq<char>, more: char)
    ensures
        ({
            let escaped = escape_controls(value);
            let plain = escaped.len() > 0 && forall|i: int|
                0 <= i < escaped.len() ==> is_ascii_alphanumeric(#[trigger] escaped[i])
                    || "-_./:@+=,"@.contains(escaped[i]);
            &&& plain ==> shown_arg(value) == escaped
            &&& !plain ==> shown_arg(value) == seq!['\''] + requote(escaped) + seq!['\'']
        }),
        requote(Seq::empty()).len() == 0,
        more != '\'' ==> requote(value.push(more)) == requote(value).push(more),
        more == '\'' ==> requote(value.push(more)) == requote(value) + "'\"'\"'"@,
{
    reveal_strlit("'");
    assert("'"@ =~= seq!['\'']);
    reveal_strlit("-_./:@+=,");
    let signs = "-_./:@+=,"@;
    let escaped = escape_controls(value);
    assert forall|i: int| 0 <= i < escaped.len() implies is_plain_char(#[trigger] escaped[i]) == (
    is_ascii_alphanumeric(escaped[i]) || signs.contains(escaped[i])) by {
        let c = escaped[i];
        if c == '-' {
            assert(signs[0] == c);
        } else if c == '_' {
            assert(signs[1] == c);
        } else if c == '.' {
            assert(signs[2] == c);
        } else if c == '/' {
            assert(signs[3] == c);
        } else if c == ':' {
            assert(signs[4] == c);
        } else if c == '@' {
            assert(signs[5] == c);
        } else if c == '+' {
            assert(signs[6] == c);
        } else if c == '=' {
            assert(signs[7] == c);
        } else if c == ',' {
            assert(signs[8] == c);
        }
    }
    assert(value.push(more).drop_last() =~= value);
}

/// The stronger a match is, the higher it ranks: no match lowest, then what the provider
/// alone found, the description, edits, a part of the name, its tokens, its beginning, its
/// letters, its tokens whole, and identity, by the rules of the manager and by the name.
pub proof fn law_matches_rank_by_strength(a: MatchKind, b: MatchKind)
    ensures
        match_rank(a) == match_rank(b) <==> a == b,
        match_rank(MatchKind::Unmatched) < match_rank(MatchKind::Provider) < match_rank(
            MatchKind::Description,
        ) < match_rank(MatchKind::Edit) < match_rank(MatchKind::Contains) < match_rank(
            MatchKind::Tokens,
        ) < match_rank(MatchKind::Prefix) < match_rank(MatchKind::CompactExact) < match_rank(
            MatchKind::NormalizedExact,
        ) < match_rank(MatchKind::CanonicalExact) < match_rank(MatchKind::Exact),
{
}

/// Managers come in the order apt, pacman, brew, cargo, npm, npx, pip, uv, and no two have
/// one name.
pub proof fn law_managers_come_in_order(a: ManagerKind, b: ManagerKind)
    ensures
        manager_rank(a) == manager_rank(b) <==> a == b,
        manager_rank(ManagerKind::Apt) < manager_rank(ManagerKind::Pacman) < manager_rank(
            ManagerKind::Brew,
        ) < manager_rank(ManagerKind::Cargo) < manager_rank(ManagerKind::Npm) < manager_rank(
            ManagerKind::Npx,
        ) < manager_rank(ManagerKind::Pip) < manager_rank(ManagerKind::Uv),
        manager_name(a) == match a {
            ManagerKind::Apt => seq!['a', 'p', 't'],
            ManagerKind::Pacman => seq!['p', 'a', 'c', 'm', 'a', 'n'],
            ManagerKind::Brew => seq!['b', 'r', 'e', 'w'],
            ManagerKind::Cargo => seq!['c', 'a', 'r', 'g', 'o'],
            ManagerKind::Npm => seq!['n', 'p', 'm'],
            ManagerKind::Npx => seq!['n', 'p', 'x'],
            ManagerKind::Pip => seq!['p', 'i', 'p'],
            ManagerKind::Uv => seq!['u', 'v'],
        },
        manager_name(a) == manager_name(b) ==> a == b,
{
    lemma_manager_letters(a);
    lemma_manager_letters(b);
    let x = manager_name(a);
    let y = manager_name(b);
    if x == y {
        assert(x.len() == y.len() && x[0] == y[0] && x[1] == y[1]);
        if x.len() > 2 {
            assert(x[2] == y[2]);
        }
    }
}

proof fn lemma_manager_letters(kind: ManagerKind)
    ensures
        manager_name(kind) == match kind {
            ManagerKind::Apt => seq!['a', 'p', 't'],
            ManagerKind::Pacman => seq!['p', 'a', 'c', 'm', 'a', 'n'],
            ManagerKind::Brew => seq!['b', 'r', 'e', 'w'],
            ManagerKind::Cargo => seq!['c', 'a', 'r', 'g', 'o'],
            ManagerKind::Npm => seq!['n', 'p', 'm'],
            ManagerKind::Npx => seq!['n', 'p', 'x'],
            ManagerKind::Pip => seq!['p', 'i', 'p'],
            ManagerKind::Uv => seq!['u', 'v'],
        },
{
    reveal_strlit("apt");
    reveal_strlit("pacman");
    reveal_strlit("brew");
    reveal_strlit("cargo");
    reveal_strlit("npm");
    reveal_strlit("npx");
    reveal_strlit("pip");
    reveal_strlit("uv");
    assert("apt"@ =~= seq!['a', 'p', 't']);
    assert("pacman"@ =~= seq!['p', 'a', 'c', 'm', 'a', 'n']);
    assert("brew"@ =~= seq!['b', 'r', 'e', 'w']);
    assert("cargo"@ =~= seq!['c', 'a', 'r', 'g', 'o']);
    assert("npm"@ =~= seq!['n', 'p', 'm']);
    assert("npx"@ =~= seq!['n', 'p', 'x']);
    assert("pip"@ =~= seq!['p', 'i', 'p']);
    assert("uv"@ =~= seq!['u', 'v']);
}

/// Every kind of match has its name, in small letters with hyphens.
pub proof fn law_matches_are_named(kind: MatchKind)
    ensures
        match_name_of(kind) == match kind {
            MatchKind::Exact => "exact"@,
            MatchKind::CanonicalExact => "canonical-exact"@,
            MatchKind::NormalizedExact => "normalized-exact"@,
            MatchKind::CompactExact => "compact-exact"@,
            MatchKind::Prefix => "prefix"@,
            MatchKind::Tokens => "tokens"@,
            MatchKind::Contains => "contains"@,
            MatchKind::Edit => "edit"@,
            MatchKind::Description => "description"@,
            MatchKind::Provider => "provider"@,
            MatchKind::Unmatched => "none"@,
        },
{
}

} // verus!
