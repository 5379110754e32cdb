use vstd::prelude::*;

verus! {

/// One feature flag value as read from the configuration document: a scalar
/// (string, boolean, integer) that the context builder renders as text, or
/// anything else (a list, a nested object, null), which it drops.
pub enum FeatureValue {
    Str(String),
    Bool(bool),
    Int(i64),
    Other,
}

/// Project metadata from the configuration document.
pub struct ProjectMeta {
    pub name: String,
    pub project_type: Option<String>,
    pub description: Option<String>,
}

/// Shell commands to run inside the generated tree once it exists.
pub struct CustomScripts {
    pub post_create: Vec<String>,
}

/// Structured form of a directory entry: a relative path with an optional
/// gating condition.
pub struct ComplexItem {
    pub path: String,
    pub condition: Option<String>,
}

/// Structured form of a file entry: a relative path with optional literal
/// content and an optional gating condition.
pub struct ComplexFile {
    pub path: String,
    pub content: Option<String>,
    pub condition: Option<String>,
}

/// A declared directory: either a bare relative path or the structured form.
pub enum DirectoryItem {
    Simple(String),
    Complex(ComplexItem),
}

/// A declared file: either a bare relative path or the structured form.
pub enum FileItem {
    Simple(String),
    Complex(ComplexFile),
}

/// The root configuration document.
pub struct ProjectConfig {
    pub project: ProjectMeta,
    pub features: Vec<(String, FeatureValue)>,
    pub directories: Vec<DirectoryItem>,
    pub files: Vec<FileItem>,
    pub custom_scripts: CustomScripts,
}

#[derive(PartialEq, Eq, Structural, Clone, Copy, Debug)]
pub enum EntryKind {
    Dir,
    File,
}

/// The single internal shape every declared entry is normalized into on
/// load: a kind, a relative path, an optional gating condition and, for
/// files, optional literal content.
pub struct Entry {
    pub kind: EntryKind,
    pub path: String,
    pub condition: Option<String>,
    pub content: Option<String>,
}

/// Mathematical image of one normalized entry.
pub ghost struct EntryModel {
    pub kind: EntryKind,
    pub path: Seq<char>,
    pub condition: Option<Seq<char>>,
    pub content: Option<Seq<char>>,
}

pub open spec fn opt_view(o: Option<String>) -> Option<Seq<char>> {
    match o {
        Some(s) => Some(s@),
        None => None,
    }
}

impl View for Entry {
    type V = EntryModel;

    open spec fn view(&self) -> EntryModel {
        EntryModel {
            kind: self.kind,
            path: self.path@,
            condition: opt_view(self.condition),
            content: opt_view(self.content),
        }
    }
}

/// The normalized image of a declared directory.
pub open spec fn dir_model(d: DirectoryItem) -> EntryModel {
    match d {
        DirectoryItem::Simple(p) => EntryModel {
            kind: EntryKind::Dir,
            path: p@,
            condition: None,
            content: None,
        },
        DirectoryItem::Complex(c) => EntryModel {
            kind: EntryKind::Dir,
            path: c.path@,
            condition: opt_view(c.condition),
            content: None,
        },
    }
}

/// The normalized image of a declared file.
pub open spec fn file_model(f: FileItem) -> EntryModel {
    match f {
        FileItem::Simple(p) => EntryModel {
            kind: EntryKind::File,
            path: p@,
            condition: None,
            content: None,
        },
        FileItem::Complex(c) => EntryModel {
            kind: EntryKind::File,
            path: c.path@,
            condition: opt_view(c.condition),
            content: opt_view(c.content),
        },
    }
}

fn clone_opt(o: &Option<String>) -> (r: Option<String>)
    ensures
        opt_view(r) == opt_view(*o),
{
    match o {
        Some(s) => Some(s.clone()),
        None => None,
    }
}

impl DirectoryItem {
    /// Normalizes either declared shape into the single internal `Entry` form.
    pub fn normalize(&self) -> (e: Entry)
        ensures
            e@ == dir_model(*self),
    {
        match self {
            DirectoryItem::Simple(p) => Entry {
                kind: EntryKind::Dir,
                path: p.clone(),
                condition: None,
                content: None,
            },
            DirectoryItem::Complex(c) => Entry {
                kind: EntryKind::Dir,
                path: c.path.clone(),
                condition: clone_opt(&c.condition),
                content: None,
            },
        }
    }
}

impl FileItem {
    /// Normalizes either declared shape into the single internal `Entry` form.
    pub fn normalize(&self) -> (e: Entry)
        ensures
            e@ == file_model(*self),
    {
        match self {
            FileItem::Simple(p) => Entry {
                kind: EntryKind::File,
                path: p.clone(),
                condition: None,
                content: None,
            },
            FileItem::Complex(c) => Entry {
                kind: EntryKind::File,
                path: c.path.clone(),
                condition: clone_opt(&c.condition),
                content: clone_opt(&c.content),
            },
        }
    }
}

/// How one processed entry ended: created on disk, left alone because the
/// path already existed, or skipped because its condition was false.
#[derive(PartialEq, Eq, Structural, Clone, Copy, Debug)]
pub enum StepOutcome {
    Created,
    Existed,
    Gated,
}

/// The accumulator record returned by one generation pass.
pub struct GenerationStats {
    pub project_name: String,
    pub output_dir: String,
    pub dirs_count: u32,
    pub files_count: u32,
    pub skipped_count: u32,
    pub scripts_to_run: Option<Vec<String>>,
}

impl GenerationStats {
    /// Accounts one processed entry: a created directory or file bumps its
    /// own counter; an existing path and a false condition both count as
    /// skips, with no kind-level breakdown.
    pub fn record(&mut self, kind: EntryKind, outcome: StepOutcome)
        requires
            old(self).dirs_count < u32::MAX,
            old(self).files_count < u32::MAX,
            old(self).skipped_count < u32::MAX,
        ensures
            final(self).project_name == old(self).project_name,
            final(self).output_dir == old(self).output_dir,
            final(self).scripts_to_run == old(self).scripts_to_run,
            outcome == StepOutcome::Created && kind == EntryKind::Dir ==> final(self).dirs_count
                == old(self).dirs_count + 1 && final(self).files_count == old(self).files_count
                && final(self).skipped_count == old(self).skipped_count,
            outcome == StepOutcome::Created && kind == EntryKind::File ==> final(self).files_count
                == old(self).files_count + 1 && final(self).dirs_count == old(self).dirs_count
                && final(self).skipped_count == old(self).skipped_count,
            outcome != StepOutcome::Created ==> final(self).skipped_count
                == old(self).skipped_count + 1 && final(self).dirs_count == old(self).dirs_count
                && final(self).files_count == old(self).files_count,
    {
        match outcome {
            StepOutcome::Created => {
                match kind {
                    EntryKind::Dir => {
                        self.dirs_count = self.dirs_count + 1;
                    },
                    EntryKind::File => {
                        self.files_count = self.files_count + 1;
                    },
                }
            },
            _ => {
                self.skipped_count = self.skipped_count + 1;
            },
        }
    }
}

} // verus!
