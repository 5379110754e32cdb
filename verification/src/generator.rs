use vstd::prelude::*;
use vstd::string::StrSliceExecFns;
use vstd::string::StringExecFns;

use crate::config::DirectoryItem;
use crate::config::Entry;
use crate::config::EntryKind;
use crate::config::FileItem;
use crate::config::EntryModel;
use crate::config::GenerationStats;
use crate::config::ProjectConfig;
use crate::config::StepOutcome;
use crate::config::dir_model;
use crate::config::file_model;
use crate::evaluator::FeatureContext;
use crate::evaluator::assoc_map;
use crate::evaluator::build_context;
use crate::evaluator::evaluate_condition;
use crate::evaluator::lemma_assoc_map_prefix;
use crate::evaluator::spec_build_context;
use crate::evaluator::spec_eval;

verus! {

// ----------------------------------------------------------------------------
// Paths.
// ----------------------------------------------------------------------------

/// A relative path joined under a root, with the usual separator.
pub open spec fn spec_join(root: Seq<char>, rel: Seq<char>) -> Seq<char> {
    root + seq!['/'] + rel
}

/// Joins an entry's relative path under the output root.
pub fn join_path(root: &str, rel: &str) -> (r: String)
    ensures
        r@ == spec_join(root@, rel@),
{
    let mut r = String::from_str(root);
    r.append("/");
    r.append(rel);
    proof {
        reveal_strlit("/");
        assert("/"@ =~= seq!['/']);
        assert(r@ =~= spec_join(root@, rel@));
    }
    r
}

/// The position of the rightmost separator, or -1 if there is none.
pub open spec fn last_slash(p: Seq<char>) -> int
    decreases p.len(),
{
    if p.len() == 0 {
        -1
    } else if p[p.len() - 1] == '/' {
        p.len() - 1
    } else {
        last_slash(p.drop_last())
    }
}

proof fn lemma_last_slash_at(p: Seq<char>, j: int)
    requires
        0 <= j < p.len(),
        p[j] == '/',
        forall|k: int| j < k < p.len() ==> p[k] != '/',
    ensures
        last_slash(p) == j,
    decreases p.len(),
{
    if j == p.len() - 1 {
    } else {
        assert(p[p.len() - 1] != '/');
        lemma_last_slash_at(p.drop_last(), j);
    }
}

proof fn lemma_last_slash_none(p: Seq<char>)
    requires
        forall|k: int| 0 <= k < p.len() ==> p[k] != '/',
    ensures
        last_slash(p) == -1,
    decreases p.len(),
{
    if p.len() == 0 {
    } else {
        lemma_last_slash_none(p.drop_last());
    }
}

/// Everything before the rightmost separator, as a path's parent
/// directory; `None` for a path without a separator.
pub fn parent_dir(p: &str) -> (r: Option<String>)
    ensures
        last_slash(p@) >= 0 ==> (r matches Some(s) && s@ == p@.take(last_slash(p@))),
        last_slash(p@) < 0 ==> r is None,
{
    let n = p.unicode_len();
    let mut i: usize = n;
    while i > 0
        invariant
            i <= n,
            n == p@.len(),
            forall|k: int| i <= k < n ==> p@[k] != '/',
        decreases i,
    {
        i = i - 1;
        if p.get_char(i) == '/' {
            proof {
                lemma_last_slash_at(p@, i as int);
                assert(p@.subrange(0, i as int) =~= p@.take(i as int));
            }
            return Some(String::from_str(p.substring_char(0, i)));
        }
    }
    proof {
        lemma_last_slash_none(p@);
    }
    None
}

/// The prefixes of the path that end just before a separator, plus, once
/// m reaches the path's length, the path itself.
pub open spec fn prefixes_upto(p: Seq<char>, m: int) -> Set<Seq<char>>
    decreases m,
{
    if m < 1 {
        Set::empty()
    } else if m == p.len() || p[m] == '/' {
        prefixes_upto(p, m - 1).insert(p.take(m))
    } else {
        prefixes_upto(p, m - 1)
    }
}

/// The directories that creating a path with all its missing ancestors
/// brings into being: every prefix of the path that ends at a separator,
/// and the path itself.
pub open spec fn dir_prefixes(p: Seq<char>) -> Set<Seq<char>> {
    prefixes_upto(p, p.len() as int)
}

// ----------------------------------------------------------------------------
// The filesystem model.
// ----------------------------------------------------------------------------

/// Mathematical image of a directory tree: the set of directory paths that
/// exist and a map from file paths to their content.
#[verifier::ext_equal]
pub ghost struct TreeModel {
    pub dirs: Set<Seq<char>>,
    pub files: Map<Seq<char>, Seq<char>>,
}

/// Whether a path exists in the tree, as a directory or as a file.
pub open spec fn tree_contains(t: TreeModel, p: Seq<char>) -> bool {
    t.dirs.contains(p) || t.files.contains_key(p)
}

pub open spec fn dirs_set(s: Seq<String>) -> Set<Seq<char>> {
    Set::new(|q: Seq<char>| exists|i: int| 0 <= i < s.len() && s[i]@ == q)
}

proof fn lemma_dirs_set_push(s: Seq<String>, x: String)
    ensures
        dirs_set(s.push(x)) =~= dirs_set(s).insert(x@),
{
    assert forall|q: Seq<char>| dirs_set(s.push(x)).contains(q) implies dirs_set(s).insert(
        x@,
    ).contains(q) by {
        let i = choose|i: int| 0 <= i < s.push(x).len() && s.push(x)[i]@ == q;
        if i < s.len() {
            assert(s[i]@ == q);
        } else {
            assert(s.push(x)[i] == x);
        }
    }
    assert forall|q: Seq<char>| dirs_set(s).insert(x@).contains(q) implies dirs_set(
        s.push(x),
    ).contains(q) by {
        if q == x@ {
            assert(s.push(x)[s.len() as int]@ == q);
        } else {
            let i = choose|i: int| 0 <= i < s.len() && s[i]@ == q;
            assert(s.push(x)[i]@ == q);
        }
    }
}

/// A directory tree held as plain data, standing in for the disk: the
/// engine is verified against this model, and a shell around the library
/// mirrors each of its operations with one real filesystem call.
pub struct FsTree {
    dirs: Vec<String>,
    files: Vec<(String, String)>,
}

impl View for FsTree {
    type V = TreeModel;

    closed spec fn view(&self) -> TreeModel {
        TreeModel { dirs: dirs_set(self.dirs@), files: assoc_map(self.files@) }
    }
}

impl FsTree {
    /// An empty tree.
    pub fn new() -> (t: Self)
        ensures
            t@ == (TreeModel { dirs: Set::empty(), files: Map::empty() }),
    {
        let t = FsTree { dirs: Vec::new(), files: Vec::new() };
        proof {
            assert(dirs_set(t.dirs@) =~= Set::<Seq<char>>::empty());
            assert(t@ =~= (TreeModel { dirs: Set::empty(), files: Map::empty() }));
        }
        t
    }

    /// Whether the path exists as a directory.
    pub fn is_dir(&self, p: &String) -> (r: bool)
        ensures
            r == self@.dirs.contains(p@),
    {
        let n = self.dirs.len();
        let mut i: usize = 0;
        while i < n
            invariant
                i <= n,
                n == self.dirs@.len(),
                forall|j: int| 0 <= j < i ==> self.dirs@[j]@ != p@,
            decreases n - i,
        {
            if self.dirs[i].eq(p) {
                assert(self@.dirs.contains(p@));
                return true;
            }
            i = i + 1;
        }
        proof {
            if self@.dirs.contains(p@) {
                let j = choose|j: int| 0 <= j < self.dirs@.len() && self.dirs@[j]@ == p@;
                assert(false);
            }
        }
        false
    }

    /// The content of the file at the path, or `None` if no file is there.
    pub fn file_content<'a>(&'a self, p: &String) -> (r: Option<&'a String>)
        ensures
            match r {
                Some(c) => self@.files.contains_key(p@) && c@ == self@.files[p@],
                None => !self@.files.contains_key(p@),
            },
    {
        let n = self.files.len();
        let mut i: usize = n;
        while i > 0
            invariant
                i <= n,
                n == self.files@.len(),
                forall|j: int| i <= j < n ==> self.files@[j].0@ != p@,
            decreases i,
        {
            i = i - 1;
            let pair = &self.files[i];
            if pair.0.eq(p) {
                proof {
                    lemma_assoc_map_prefix(self.files@, p@, i + 1);
                    let pre = self.files@.take(i + 1);
                    assert(pre.drop_last() =~= self.files@.take(i as int));
                    assert(pre.last() == self.files@[i as int]);
                }
                return Some(&self.files[i].1);
            }
        }
        proof {
            lemma_assoc_map_prefix(self.files@, p@, 0);
            assert(self.files@.take(0) =~= Seq::<(String, String)>::empty());
        }
        None
    }

    /// Whether the path exists at all, as a directory or as a file.
    pub fn contains_path(&self, p: &String) -> (r: bool)
        ensures
            r == tree_contains(self@, p@),
    {
        if self.is_dir(p) {
            true
        } else {
            self.file_content(p).is_some()
        }
    }

    /// Creates the directory at the path together with every missing
    /// ancestor, as creating a directory recursively does on disk.
    pub fn mkdir_all(&mut self, path: &str)
        ensures
            final(self)@.files == old(self)@.files,
            final(self)@.dirs == old(self)@.dirs.union(dir_prefixes(path@)),
    {
        let n = path.unicode_len();
        let mut i: usize = 1;
        while i < n
            invariant
                1 <= i,
                n > 0 ==> i <= n,
                i as int <= n as int + 1,
                n == path@.len(),
                self.files@ == old(self).files@,
                dirs_set(self.dirs@) == dirs_set(old(self).dirs@).union(
                    prefixes_upto(path@, i - 1),
                ),
            decreases n - i,
        {
            if path.get_char(i) == '/' {
                let pre = String::from_str(path.substring_char(0, i));
                proof {
                    assert(path@.subrange(0, i as int) =~= path@.take(i as int));
                }
                let ghost before = self.dirs@;
                self.dirs.push(pre);
                proof {
                    lemma_dirs_set_push(before, pre);
                    assert(prefixes_upto(path@, i as int) == prefixes_upto(path@, i - 1).insert(
                        path@.take(i as int),
                    ));
                    assert(dirs_set(self.dirs@) =~= dirs_set(old(self).dirs@).union(
                        prefixes_upto(path@, i as int),
                    ));
                }
            } else {
                proof {
                    assert(prefixes_upto(path@, i as int) == prefixes_upto(path@, i - 1));
                }
            }
            i = i + 1;
        }
        if n > 0 {
            let whole = String::from_str(path.substring_char(0, n));
            proof {
                assert(path@.subrange(0, n as int) =~= path@);
            }
            let ghost before = self.dirs@;
            self.dirs.push(whole);
            proof {
                lemma_dirs_set_push(before, whole);
                assert(prefixes_upto(path@, n as int) == prefixes_upto(path@, n - 1).insert(
                    path@.take(n as int),
                ));
                assert(dirs_set(self.dirs@) =~= dirs_set(old(self).dirs@).union(
                    prefixes_upto(path@, n as int),
                ));
            }
        } else {
            proof {
                assert(dirs_set(self.dirs@) =~= dirs_set(old(self).dirs@).union(
                    dir_prefixes(path@),
                ));
            }
        }
    }

    /// Creates the file at the path with the given content; the path must
    /// not already hold a file.
    pub fn add_file(&mut self, path: &str, content: &str)
        ensures
            final(self)@.dirs == old(self)@.dirs,
            final(self)@.files == old(self)@.files.insert(path@, content@),
    {
        self.files.push((String::from_str(path), String::from_str(content)));
        proof {
            assert(self.files@.drop_last() =~= old(self).files@);
        }
    }
}

// ----------------------------------------------------------------------------
// Progress events.
// ----------------------------------------------------------------------------

/// Whether one progress line reports a creation or a skip.
#[derive(PartialEq, Eq, Structural, Clone, Copy, Debug)]
pub enum Status {
    Success,
    Skip,
}

/// One progress line: running index, total entry count, a verb label, the
/// entry's relative path, and whether the entry was created or skipped.
pub struct ProgressEvent {
    pub index: u32,
    pub total: u32,
    pub label: String,
    pub path: String,
    pub status: Status,
}

/// Mathematical image of one progress line.
#[verifier::ext_equal]
pub ghost struct EventModel {
    pub path: Seq<char>,
    pub label: Seq<char>,
    pub success: bool,
}

/// The verb label of one progress line. An existing path and a false
/// condition are both skips, but carry different labels for the operator.
pub open spec fn spec_label(kind: EntryKind, outcome: StepOutcome) -> Seq<char> {
    match kind {
        EntryKind::Dir => match outcome {
            StepOutcome::Created => "Create Dir"@,
            StepOutcome::Existed => "Exists Dir"@,
            StepOutcome::Gated => "Skip Dir"@,
        },
        EntryKind::File => match outcome {
            StepOutcome::Created => "Create File"@,
            StepOutcome::Existed => "Exists File"@,
            StepOutcome::Gated => "Skip File"@,
        },
    }
}

/// The verb label of one progress line.
pub fn action_label(kind: EntryKind, outcome: StepOutcome) -> (r: String)
    ensures
        r@ == spec_label(kind, outcome),
{
    match kind {
        EntryKind::Dir => match outcome {
            StepOutcome::Created => String::from_str("Create Dir"),
            StepOutcome::Existed => String::from_str("Exists Dir"),
            StepOutcome::Gated => String::from_str("Skip Dir"),
        },
        EntryKind::File => match outcome {
            StepOutcome::Created => String::from_str("Create File"),
            StepOutcome::Existed => String::from_str("Exists File"),
            StepOutcome::Gated => String::from_str("Skip File"),
        },
    }
}

pub open spec fn event_model(kind: EntryKind, outcome: StepOutcome, path: Seq<char>) -> EventModel {
    EventModel {
        path: path,
        label: spec_label(kind, outcome),
        success: outcome == StepOutcome::Created,
    }
}

// ----------------------------------------------------------------------------
// What one generation step does, as a function of the tree so far.
// ----------------------------------------------------------------------------

/// Whether the entry's condition is present and false against the context.
pub open spec fn entry_gated(e: EntryModel, ctx: Map<Seq<char>, Seq<char>>) -> bool {
    match e.condition {
        Some(c) => !spec_eval(c, ctx),
        None => false,
    }
}

/// A file entry's literal content; an absent content means an empty file.
pub open spec fn entry_content(e: EntryModel) -> Seq<char> {
    match e.content {
        Some(c) => c,
        None => Seq::empty(),
    }
}

/// The tree after making sure a file's parent directory chain exists,
/// which happens before the file itself is looked at.
pub open spec fn with_parent(t: TreeModel, fp: Seq<char>) -> TreeModel {
    if last_slash(fp) < 0 {
        t
    } else {
        let parent = fp.take(last_slash(fp));
        if tree_contains(t, parent) {
            t
        } else {
            TreeModel { dirs: t.dirs.union(dir_prefixes(parent)), files: t.files }
        }
    }
}

/// How one entry ends against a given tree: gated by its condition,
/// skipped because its target path already exists, or created.
pub open spec fn step_outcome(
    t: TreeModel,
    out: Seq<char>,
    ctx: Map<Seq<char>, Seq<char>>,
    e: EntryModel,
) -> StepOutcome {
    if entry_gated(e, ctx) {
        StepOutcome::Gated
    } else {
        let fp = spec_join(out, e.path);
        if e.kind == EntryKind::Dir {
            if tree_contains(t, fp) {
                StepOutcome::Existed
            } else {
                StepOutcome::Created
            }
        } else {
            if tree_contains(with_parent(t, fp), fp) {
                StepOutcome::Existed
            } else {
                StepOutcome::Created
            }
        }
    }
}

/// The tree after one entry is processed.
pub open spec fn step_tree(
    t: TreeModel,
    out: Seq<char>,
    ctx: Map<Seq<char>, Seq<char>>,
    e: EntryModel,
) -> TreeModel {
    if entry_gated(e, ctx) {
        t
    } else {
        let fp = spec_join(out, e.path);
        if e.kind == EntryKind::Dir {
            if tree_contains(t, fp) {
                t
            } else {
                TreeModel { dirs: t.dirs.union(dir_prefixes(fp)), files: t.files }
            }
        } else {
            let t1 = with_parent(t, fp);
            if tree_contains(t1, fp) {
                t1
            } else {
                TreeModel { dirs: t1.dirs, files: t1.files.insert(fp, entry_content(e)) }
            }
        }
    }
}

/// The aggregate of a generation pass: the resulting tree, the three
/// counters, and the progress events in order.
#[verifier::ext_equal]
pub ghost struct RunModel {
    pub tree: TreeModel,
    pub dirs: nat,
    pub files: nat,
    pub skipped: nat,
    pub events: Seq<EventModel>,
}

/// One entry's contribution to the aggregate.
pub open spec fn step_model(
    t: TreeModel,
    out: Seq<char>,
    ctx: Map<Seq<char>, Seq<char>>,
    e: EntryModel,
) -> RunModel {
    let oc = step_outcome(t, out, ctx, e);
    RunModel {
        tree: step_tree(t, out, ctx, e),
        dirs: if oc == StepOutcome::Created && e.kind == EntryKind::Dir {
            1nat
        } else {
            0nat
        },
        files: if oc == StepOutcome::Created && e.kind == EntryKind::File {
            1nat
        } else {
            0nat
        },
        skipped: if oc != StepOutcome::Created {
            1nat
        } else {
            0nat
        },
        events: seq![event_model(e.kind, oc, e.path)],
    }
}

/// A whole pass over the entries, in declaration order.
pub open spec fn run_model(
    t: TreeModel,
    out: Seq<char>,
    ctx: Map<Seq<char>, Seq<char>>,
    es: Seq<EntryModel>,
) -> RunModel
    decreases es.len(),
{
    if es.len() == 0 {
        RunModel { tree: t, dirs: 0nat, files: 0nat, skipped: 0nat, events: Seq::empty() }
    } else {
        let s = step_model(t, out, ctx, es[0]);
        let r = run_model(s.tree, out, ctx, es.skip(1));
        RunModel {
            tree: r.tree,
            dirs: s.dirs + r.dirs,
            files: s.files + r.files,
            skipped: s.skipped + r.skipped,
            events: s.events + r.events,
        }
    }
}

/// The output root is created first, with all missing ancestors, unless a
/// path with that name already exists.
pub open spec fn root_step(t: TreeModel, out: Seq<char>) -> TreeModel {
    if tree_contains(t, out) {
        t
    } else {
        TreeModel { dirs: t.dirs.union(dir_prefixes(out)), files: t.files }
    }
}

/// A whole generation pass: root creation, then every entry in order.
pub open spec fn generate_model(
    t: TreeModel,
    out: Seq<char>,
    ctx: Map<Seq<char>, Seq<char>>,
    es: Seq<EntryModel>,
) -> RunModel {
    run_model(root_step(t, out), out, ctx, es)
}

proof fn lemma_run_snoc(
    t: TreeModel,
    out: Seq<char>,
    ctx: Map<Seq<char>, Seq<char>>,
    es: Seq<EntryModel>,
    e: EntryModel,
)
    ensures
        ({
            let r = run_model(t, out, ctx, es);
            let s = step_model(r.tree, out, ctx, e);
            let w = run_model(t, out, ctx, es.push(e));
            &&& w.tree == s.tree
            &&& w.dirs == r.dirs + s.dirs
            &&& w.files == r.files + s.files
            &&& w.skipped == r.skipped + s.skipped
            &&& w.events == r.events + s.events
        }),
    decreases es.len(),
{
    reveal_with_fuel(run_model, 3);
    if es.len() == 0 {
        assert(es.push(e)[0] == e);
        assert(es.push(e).skip(1) =~= Seq::<EntryModel>::empty());
        let s = step_model(t, out, ctx, e);
        assert(run_model(t, out, ctx, es.push(e)).events =~= run_model(
            t,
            out,
            ctx,
            es,
        ).events + s.events);
    } else {
        let s0 = step_model(t, out, ctx, es[0]);
        assert(es.push(e)[0] == es[0]);
        assert(es.push(e).skip(1) =~= es.skip(1).push(e));
        lemma_run_snoc(s0.tree, out, ctx, es.skip(1), e);
        let r1 = run_model(s0.tree, out, ctx, es.skip(1));
        let s = step_model(run_model(t, out, ctx, es).tree, out, ctx, e);
        assert(run_model(t, out, ctx, es.push(e)).events =~= run_model(
            t,
            out,
            ctx,
            es,
        ).events + s.events);
    }
}

// ----------------------------------------------------------------------------
// The generation engine.
// ----------------------------------------------------------------------------

/// Processes one normalized entry against the tree: applies the condition
/// gate, creates the directory or the file (with its parent chain) when
/// the target path does not exist yet, and reports how the entry ended.
fn process_entry(e: &Entry, ctx: &FeatureContext, out: &String, tree: &mut FsTree) -> (oc:
    StepOutcome)
    ensures
        oc == step_outcome(old(tree)@, out@, ctx@, e@),
        final(tree)@ == step_tree(old(tree)@, out@, ctx@, e@),
{
    let gated = match &e.condition {
        Some(c) => !evaluate_condition(c.as_str(), ctx),
        None => false,
    };
    if gated {
        return StepOutcome::Gated;
    }
    let fp = join_path(out.as_str(), e.path.as_str());
    match e.kind {
        EntryKind::Dir => {
            if tree.contains_path(&fp) {
                StepOutcome::Existed
            } else {
                tree.mkdir_all(fp.as_str());
                proof {
                    assert(tree@ =~= step_tree(old(tree)@, out@, ctx@, e@));
                }
                StepOutcome::Created
            }
        },
        EntryKind::File => {
            match parent_dir(fp.as_str()) {
                Some(parent) => {
                    if !tree.contains_path(&parent) {
                        tree.mkdir_all(parent.as_str());
                    }
                },
                None => {},
            }
            proof {
                assert(tree@ =~= with_parent(old(tree)@, fp@));
            }
            if tree.contains_path(&fp) {
                StepOutcome::Existed
            } else {
                match &e.content {
                    Some(c) => {
                        tree.add_file(fp.as_str(), c.as_str());
                    },
                    None => {
                        tree.add_file(fp.as_str(), "");
                        proof {
                            reveal_strlit("");
                            assert(""@ =~= Seq::<char>::empty());
                        }
                    },
                }
                proof {
                    assert(tree@ =~= step_tree(old(tree)@, out@, ctx@, e@));
                }
                StepOutcome::Created
            }
        },
    }
}

/// The entries of a configuration in processing order: every directory,
/// in declaration order, then every file, in declaration order.
pub open spec fn entry_models(c: ProjectConfig) -> Seq<EntryModel> {
    c.directories@.map_values(|d: DirectoryItem| dir_model(d)) + c.files@.map_values(
        |f: FileItem| file_model(f),
    )
}

pub open spec fn event_matches(ev: ProgressEvent, m: EventModel, k: int, total: u32) -> bool {
    &&& ev.path@ == m.path
    &&& ev.label@ == m.label
    &&& (ev.status == Status::Success <==> m.success)
    &&& ev.index as int == k + 1
    &&& ev.total == total
}

fn clone_strings(v: &Vec<String>) -> (r: Vec<String>)
    ensures
        r@ == v@,
{
    let mut r: Vec<String> = Vec::new();
    let n = v.len();
    let mut i: usize = 0;
    while i < n
        invariant
            i <= n,
            n == v@.len(),
            r@ == v@.take(i as int),
        decreases n - i,
    {
        let s = v[i].clone();
        r.push(s);
        proof {
            assert(r@ =~= v@.take(i + 1));
        }
        i = i + 1;
    }
    proof {
        assert(v@.take(n as int) =~= v@);
    }
    r
}

/// The generation engine: the loaded configuration, the context built from
/// its feature flags, and the resolved output root.
pub struct ProjectGenerator {
    pub config: ProjectConfig,
    pub context: FeatureContext,
    pub output_dir: String,
}

impl ProjectGenerator {
    /// Takes a loaded configuration, builds the feature context from its
    /// flags, and defaults the output root to the project name.
    pub fn new(config: ProjectConfig) -> (g: Self)
        ensures
            g.config == config,
            g.context@ == spec_build_context(config.features@),
            g.output_dir@ == config.project.name@,
    {
        let context = build_context(&config.features);
        let output_dir = config.project.name.clone();
        ProjectGenerator { config, context, output_dir }
    }

    /// One generation pass over the tree: resolves the output root
    /// (explicit override if given), creates the root, processes every
    /// directory entry and then every file entry in declaration order, and
    /// returns the final statistics with one progress event per entry.
    pub fn generate(&mut self, output_arg: Option<&String>, tree: &mut FsTree) -> (r: (
        GenerationStats,
        Vec<ProgressEvent>,
    ))
        requires
            old(self).config.directories@.len() + old(self).config.files@.len() <= u32::MAX,
        ensures
            ({
                let out = match output_arg {
                    Some(o) => o@,
                    None => old(self).output_dir@,
                };
                let res = generate_model(
                    old(tree)@,
                    out,
                    old(self).context@,
                    entry_models(old(self).config),
                );
                &&& final(self).config == old(self).config
                &&& final(self).context == old(self).context
                &&& final(self).output_dir@ == out
                &&& final(tree)@ == res.tree
                &&& r.0.dirs_count as nat == res.dirs
                &&& r.0.files_count as nat == res.files
                &&& r.0.skipped_count as nat == res.skipped
                &&& r.0.project_name@ == old(self).config.project.name@
                &&& r.0.output_dir@ == out
                &&& (old(self).config.custom_scripts.post_create@.len() == 0
                    ==> r.0.scripts_to_run is None)
                &&& (old(self).config.custom_scripts.post_create@.len() > 0 ==> (
                r.0.scripts_to_run matches Some(sc) && sc@ == old(
                    self,
                ).config.custom_scripts.post_create@))
                &&& r.1@.len() == res.events.len()
                &&& forall|k: int|
                    0 <= k < r.1@.len() ==> event_matches(
                        r.1@[k],
                        res.events[k],
                        k,
                        entry_models(old(self).config).len() as u32,
                    )
            }),
    {
        match output_arg {
            Some(o) => {
                self.output_dir = o.clone();
            },
            None => {},
        }
        let ghost out = self.output_dir@;
        let ghost ctx = self.context@;
        let ghost models = entry_models(self.config);
        if !tree.contains_path(&self.output_dir) {
            tree.mkdir_all(self.output_dir.as_str());
        }
        let ghost t0 = tree@;
        proof {
            assert(t0 =~= root_step(old(tree)@, out));
        }
        let dlen = self.config.directories.len();
        let flen = self.config.files.len();
        let total_count = dlen + flen;
        let total: u32 = total_count as u32;
        let project_name = self.config.project.name.clone();
        let output_str = self.output_dir.clone();
        let mut stats = GenerationStats {
            project_name,
            output_dir: output_str,
            dirs_count: 0,
            files_count: 0,
            skipped_count: 0,
            scripts_to_run: None,
        };
        let mut events: Vec<ProgressEvent> = Vec::new();
        proof {
            assert(models.take(0) =~= Seq::<EntryModel>::empty());
        }
        let mut i: usize = 0;
        while i < dlen
            invariant
                i <= dlen,
                dlen == self.config.directories@.len(),
                flen == self.config.files@.len(),
                dlen + flen <= u32::MAX,
                total as int == dlen + flen,
                self.config == old(self).config,
                self.context == old(self).context,
                self.output_dir@ == out,
                ctx == self.context@,
                models == entry_models(self.config),
                models.len() == dlen + flen,
                ({
                    let r = run_model(t0, out, ctx, models.take(i as int));
                    &&& tree@ == r.tree
                    &&& stats.dirs_count as nat == r.dirs
                    &&& stats.files_count as nat == r.files
                    &&& stats.skipped_count as nat == r.skipped
                    &&& events@.len() == r.events.len()
                    &&& forall|k: int|
                        0 <= k < events@.len() ==> event_matches(events@[k], r.events[k], k, total)
                }),
                events@.len() == i,
                stats.dirs_count as int + stats.files_count as int + stats.skipped_count as int
                    == i as int,
                stats.project_name@ == old(self).config.project.name@,
                stats.output_dir@ == out,
                stats.scripts_to_run is None,
            decreases dlen - i,
        {
            let entry = self.config.directories[i].normalize();
            proof {
                assert(models[i as int] == dir_model(self.config.directories@[i as int]));
            }
            let oc = process_entry(&entry, &self.context, &self.output_dir, tree);
            stats.record(entry.kind, oc);
            let label = action_label(entry.kind, oc);
            let status = match oc {
                StepOutcome::Created => Status::Success,
                _ => Status::Skip,
            };
            let idx: u32 = (i as u32) + 1;
            events.push(
                ProgressEvent { index: idx, total, label, path: entry.path.clone(), status },
            );
            proof {
                lemma_run_snoc(t0, out, ctx, models.take(i as int), models[i as int]);
                assert(models.take(i as int).push(models[i as int]) =~= models.take(i + 1));
            }
            i = i + 1;
        }
        let mut j: usize = 0;
        while j < flen
            invariant
                j <= flen,
                dlen == self.config.directories@.len(),
                flen == self.config.files@.len(),
                dlen + flen <= u32::MAX,
                total as int == dlen + flen,
                self.config == old(self).config,
                self.context == old(self).context,
                self.output_dir@ == out,
                ctx == self.context@,
                models == entry_models(self.config),
                models.len() == dlen + flen,
                ({
                    let r = run_model(t0, out, ctx, models.take(dlen + j as int));
                    &&& tree@ == r.tree
                    &&& stats.dirs_count as nat == r.dirs
                    &&& stats.files_count as nat == r.files
                    &&& stats.skipped_count as nat == r.skipped
                    &&& events@.len() == r.events.len()
                    &&& forall|k: int|
                        0 <= k < events@.len() ==> event_matches(events@[k], r.events[k], k, total)
                }),
                events@.len() == dlen + j,
                stats.dirs_count as int + stats.files_count as int + stats.skipped_count as int
                    == dlen + j as int,
                stats.project_name@ == old(self).config.project.name@,
                stats.output_dir@ == out,
                stats.scripts_to_run is None,
            decreases flen - j,
        {
            let entry = self.config.files[j].normalize();
            proof {
                assert(models[dlen + j as int] == file_model(self.config.files@[j as int]));
            }
            let oc = process_entry(&entry, &self.context, &self.output_dir, tree);
            stats.record(entry.kind, oc);
            let label = action_label(entry.kind, oc);
            let status = match oc {
                StepOutcome::Created => Status::Success,
                _ => Status::Skip,
            };
            let g = dlen + j;
            let idx: u32 = (g as u32) + 1;
            events.push(
                ProgressEvent { index: idx, total, label, path: entry.path.clone(), status },
            );
            proof {
                lemma_run_snoc(t0, out, ctx, models.take(dlen + j as int), models[dlen + j as int]);
                assert(models.take(dlen + j as int).push(models[dlen + j as int]) =~= models.take(
                    dlen + j + 1,
                ));
            }
            j = j + 1;
        }
        proof {
            assert(models.take(dlen + flen as int) =~= models);
        }
        if self.config.custom_scripts.post_create.len() > 0 {
            stats.scripts_to_run = Some(clone_strings(&self.config.custom_scripts.post_create));
        }
        (stats, events)
    }
}

// ----------------------------------------------------------------------------
// Laws of a generation pass.
// ----------------------------------------------------------------------------

/// The parent of a file either exists in the tree or its whole ancestor
/// chain is already among the directories.
pub open spec fn parent_covered(t: TreeModel, fp: Seq<char>) -> bool {
    last_slash(fp) >= 0 ==> (tree_contains(t, fp.take(last_slash(fp))) || (forall|q: Seq<char>|
        #[trigger] dir_prefixes(fp.take(last_slash(fp))).contains(q) ==> t.dirs.contains(q)))
}

/// What a finished pass guarantees for one processed entry: its target
/// path exists, and for a file entry its parent chain is accounted for.
pub open spec fn step_covered(t: TreeModel, out: Seq<char>, e: EntryModel) -> bool {
    let fp = spec_join(out, e.path);
    &&& tree_contains(t, fp)
    &&& (e.kind == EntryKind::File ==> parent_covered(t, fp))
}

/// Trees only grow: nothing the smaller tree holds is removed, and no
/// file's content is changed.
pub open spec fn tree_extends(t2: TreeModel, t1: TreeModel) -> bool {
    &&& forall|p: Seq<char>| #[trigger] t1.dirs.contains(p) ==> t2.dirs.contains(p)
    &&& forall|p: Seq<char>|
        #[trigger] t1.files.contains_key(p) ==> t2.files.contains_key(p) && t2.files[p]
            == t1.files[p]
}

proof fn lemma_step_extends(
    t: TreeModel,
    out: Seq<char>,
    ctx: Map<Seq<char>, Seq<char>>,
    e: EntryModel,
)
    ensures
        tree_extends(step_tree(t, out, ctx, e), t),
{
}

proof fn lemma_extends_trans(t3: TreeModel, t2: TreeModel, t1: TreeModel)
    requires
        tree_extends(t3, t2),
        tree_extends(t2, t1),
    ensures
        tree_extends(t3, t1),
{
    assert forall|p: Seq<char>| #[trigger] t1.dirs.contains(p) implies t3.dirs.contains(p) by {
        assert(t2.dirs.contains(p));
    }
    assert forall|p: Seq<char>| #[trigger]
    t1.files.contains_key(p) implies t3.files.contains_key(p) && t3.files[p] == t1.files[p] by {
        assert(t2.files.contains_key(p));
    }
}

proof fn lemma_covered_extends(t2: TreeModel, t1: TreeModel, out: Seq<char>, e: EntryModel)
    requires
        tree_extends(t2, t1),
        step_covered(t1, out, e),
    ensures
        step_covered(t2, out, e),
{
    let fp = spec_join(out, e.path);
    assert(tree_contains(t2, fp)) by {
        if t1.dirs.contains(fp) {
            assert(t2.dirs.contains(fp));
        } else {
            assert(t1.files.contains_key(fp));
            assert(t2.files.contains_key(fp));
        }
    }
    if e.kind == EntryKind::File && last_slash(fp) >= 0 {
        let par = fp.take(last_slash(fp));
        if tree_contains(t1, par) {
            assert(tree_contains(t2, par)) by {
                if t1.dirs.contains(par) {
                    assert(t2.dirs.contains(par));
                } else {
                    assert(t1.files.contains_key(par));
                }
            }
        } else {
            assert forall|q: Seq<char>| #[trigger]
            dir_prefixes(par).contains(q) implies t2.dirs.contains(q) by {
                assert(t1.dirs.contains(q));
            }
        }
    }
}

/// A pass only adds to the tree, and afterwards every entry that its
/// condition let through has its target path present, with a file's
/// parent chain accounted for.
pub proof fn lemma_run_covers(
    t: TreeModel,
    out: Seq<char>,
    ctx: Map<Seq<char>, Seq<char>>,
    es: Seq<EntryModel>,
)
    ensures
        tree_extends(run_model(t, out, ctx, es).tree, t),
        forall|i: int|
            0 <= i < es.len() && !entry_gated(es[i], ctx) ==> step_covered(
                run_model(t, out, ctx, es).tree,
                out,
                es[i],
            ),
    decreases es.len(),
{
    if es.len() == 0 {
    } else {
        let e0 = es[0];
        let t1 = step_tree(t, out, ctx, e0);
        lemma_step_extends(t, out, ctx, e0);
        lemma_run_covers(t1, out, ctx, es.skip(1));
        let r = run_model(t1, out, ctx, es.skip(1));
        assert(run_model(t, out, ctx, es).tree == r.tree);
        lemma_extends_trans(r.tree, t1, t);
        if !entry_gated(e0, ctx) {
            let fp = spec_join(out, e0.path);
            assert(fp.len() > 0);
            if e0.kind == EntryKind::Dir {
                if !tree_contains(t, fp) {
                    assert(fp.take(fp.len() as int) =~= fp);
                    assert(dir_prefixes(fp).contains(fp));
                    assert(t1.dirs.contains(fp));
                }
                assert(tree_contains(t1, fp));
            } else {
                let tp = with_parent(t, fp);
                if tree_contains(tp, fp) {
                    assert(t1 == tp);
                } else {
                    assert(t1.files.contains_key(fp));
                }
                assert(tree_contains(t1, fp));
                if last_slash(fp) >= 0 {
                    let par = fp.take(last_slash(fp));
                    if tree_contains(t, par) {
                        assert(tree_contains(t1, par));
                    } else {
                        assert forall|q: Seq<char>| dir_prefixes(par).contains(
                            q,
                        ) implies t1.dirs.contains(q) by {
                            assert(tp.dirs.contains(q));
                        }
                    }
                    assert(parent_covered(t1, fp));
                }
            }
            assert(step_covered(t1, out, e0));
            lemma_covered_extends(r.tree, t1, out, e0);
        }
        assert forall|i: int|
            0 <= i < es.len() && !entry_gated(es[i], ctx) implies step_covered(
            run_model(t, out, ctx, es).tree,
            out,
            es[i],
        ) by {
            if i > 0 {
                assert(es.skip(1)[i - 1] == es[i]);
            }
        }
    }
}

/// Against a tree that already covers every entry, a pass changes nothing
/// and skips every entry.
pub proof fn lemma_run_noop(
    t: TreeModel,
    out: Seq<char>,
    ctx: Map<Seq<char>, Seq<char>>,
    es: Seq<EntryModel>,
)
    requires
        forall|i: int|
            0 <= i < es.len() && !entry_gated(es[i], ctx) ==> step_covered(t, out, es[i]),
    ensures
        ({
            let r = run_model(t, out, ctx, es);
            &&& r.tree == t
            &&& r.dirs == 0
            &&& r.files == 0
            &&& r.skipped == es.len()
        }),
    decreases es.len(),
{
    if es.len() == 0 {
    } else {
        let e0 = es[0];
        if !entry_gated(e0, ctx) {
            assert(step_covered(t, out, e0));
            let fp = spec_join(out, e0.path);
            if e0.kind == EntryKind::File {
                let tp = with_parent(t, fp);
                if last_slash(fp) >= 0 {
                    let par = fp.take(last_slash(fp));
                    if !tree_contains(t, par) {
                        assert(t.dirs.union(dir_prefixes(par)) =~= t.dirs);
                        assert(tp =~= t);
                    }
                }
                assert(tp == t);
                assert(tree_contains(tp, fp));
            }
            assert(step_tree(t, out, ctx, e0) == t);
            assert(step_outcome(t, out, ctx, e0) != StepOutcome::Created);
        }
        assert forall|i: int|
            0 <= i < es.skip(1).len() && !entry_gated(es.skip(1)[i], ctx) implies step_covered(
            t,
            out,
            es.skip(1)[i],
        ) by {
            assert(es.skip(1)[i] == es[i + 1]);
        }
        lemma_run_noop(t, out, ctx, es.skip(1));
    }
}

/// Every entry is accounted exactly once: the directory, file and skip
/// counts of a pass always add up to the number of entries.
pub proof fn lemma_run_total(
    t: TreeModel,
    out: Seq<char>,
    ctx: Map<Seq<char>, Seq<char>>,
    es: Seq<EntryModel>,
)
    ensures
        ({
            let r = run_model(t, out, ctx, es);
            r.dirs + r.files + r.skipped == es.len()
        }),
    decreases es.len(),
{
    if es.len() == 0 {
    } else {
        lemma_run_total(step_model(t, out, ctx, es[0]).tree, out, ctx, es.skip(1));
    }
}

/// Generation is idempotent: a second pass over the tree a first pass
/// produced, with the same configuration and context and a non-empty
/// output root, creates nothing, skips every entry, and leaves the tree
/// exactly as the first pass left it.
pub proof fn lemma_generation_idempotent(
    t: TreeModel,
    out: Seq<char>,
    ctx: Map<Seq<char>, Seq<char>>,
    es: Seq<EntryModel>,
)
    requires
        out.len() > 0,
    ensures
        ({
            let r1 = generate_model(t, out, ctx, es);
            let r2 = generate_model(r1.tree, out, ctx, es);
            &&& r2.tree == r1.tree
            &&& r2.dirs == 0
            &&& r2.files == 0
            &&& r2.skipped == es.len()
        }),
{
    let t0 = root_step(t, out);
    assert(tree_contains(t0, out)) by {
        if !tree_contains(t, out) {
            assert(out.take(out.len() as int) =~= out);
            assert(dir_prefixes(out).contains(out));
        }
    }
    lemma_run_covers(t0, out, ctx, es);
    let r1 = run_model(t0, out, ctx, es);
    assert(tree_contains(r1.tree, out)) by {
        if t0.dirs.contains(out) {
            assert(r1.tree.dirs.contains(out));
        } else {
            assert(t0.files.contains_key(out));
            assert(r1.tree.files.contains_key(out));
        }
    }
    assert(root_step(r1.tree, out) == r1.tree);
    lemma_run_noop(r1.tree, out, ctx, es);
}

} // verus!

