use vstd::prelude::*;

verus! {

/// How a deletion is requested in the edited listing: either an empty line,
/// or a line beginning with a chosen marker symbol.
#[derive(Clone, Copy, PartialEq, Eq, Structural, Debug)]
pub enum DeletionMarker {
    EmptyLine,
    PrefixSymbol(char),
}

/// Holds for a listing line that requests deletion under the given marker.
pub open spec fn spec_is_deletion(line: Seq<char>, marker: DeletionMarker) -> bool {
    match marker {
        DeletionMarker::EmptyLine => line.len() == 0,
        DeletionMarker::PrefixSymbol(c) => line.len() > 0 && line[0] == c,
    }
}

/// The desired fate of one input entry, in positional correspondence with it.
#[derive(Clone, Debug)]
pub enum OutputSpec {
    Unchanged,
    Delete,
    Target(String),
}

/// Mathematical image of an `OutputSpec`.
pub enum OutputSpecV {
    Unchanged,
    Delete,
    Target(Seq<char>),
}

impl View for OutputSpec {
    type V = OutputSpecV;

    open spec fn view(&self) -> OutputSpecV {
        match self {
            OutputSpec::Unchanged => OutputSpecV::Unchanged,
            OutputSpec::Delete => OutputSpecV::Delete,
            OutputSpec::Target(s) => OutputSpecV::Target(s@),
        }
    }
}

impl DeepView for OutputSpec {
    type V = OutputSpecV;

    open spec fn deep_view(&self) -> OutputSpecV {
        self.view()
    }
}

/// What the filesystem currently holds at a path: nothing, a regular file,
/// or a directory.
#[derive(Clone, Copy, PartialEq, Eq, Structural, Debug)]
pub enum PathState {
    Missing,
    IsFile,
    IsDir,
}

/// A single scheduled move from `src` to `dst`.
#[derive(Clone, Debug)]
pub struct RenameOp {
    pub src: String,
    pub dst: String,
}

impl View for RenameOp {
    type V = (Seq<char>, Seq<char>);

    open spec fn view(&self) -> (Seq<char>, Seq<char>) {
        (self.src@, self.dst@)
    }
}

impl DeepView for RenameOp {
    type V = (Seq<char>, Seq<char>);

    open spec fn deep_view(&self) -> (Seq<char>, Seq<char>) {
        self.view()
    }
}

/// The ordered outcome of planning: all deletions, then all renames.
/// Executing the deletions first and then the renames in order is safe.
#[derive(Clone, Debug)]
pub struct Plan {
    pub deletes: Vec<String>,
    pub renames: Vec<RenameOp>,
}

/// Everything that can go wrong while building a plan. Each variant carries
/// the offending name so the caller can report it.
#[derive(Clone, Debug)]
pub enum PlanError {
    /// The listing has a different number of lines than there are inputs:
    /// carries the two counts.
    CountMismatch(usize, usize),
    DuplicateInput(String),
    MissingInput(String),
    DuplicateOutput(String),
    CaseCollision(String),
    DirectoryOverwrite(String),
    DeleteNotEnabled(String),
    OverwriteNotForced(String),
    TempNameExhausted(String),
}

} // verus!
