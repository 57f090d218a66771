//! Decisions of factory-module generation: which files to read, how the
//! generated code of a file is put together, and which directories and files
//! to write.

use vstd::prelude::*;
use crate::path::{
    spec_extension, spec_file_name, spec_join, spec_parent, spec_strip_prefix, spec_with_extension,
    PathView, PyPath,
};
use crate::imports::init_py;
use crate::path::ComponentView;

verus! {

/// The imports that every generated factory module starts with.
pub const IMPORT_HEADER: &'static str = "import datetime\nfrom typing import Any, TypedDict\n\nimport fauxgen as f\n\n\n";

/// `parts` joined by blank lines.
pub open spec fn join_blank(parts: Seq<Seq<char>>) -> Seq<char>
    decreases parts.len(),
{
    if parts.len() == 0 {
        Seq::empty()
    } else if parts.len() == 1 {
        parts[0]
    } else {
        join_blank(parts.drop_last()) + seq!['\n', '\n'] + parts.last()
    }
}

/// The codes that are present, in order.
pub open spec fn present_codes(codes: Seq<Option<String>>) -> Seq<Seq<char>>
    decreases codes.len(),
{
    if codes.len() == 0 {
        Seq::empty()
    } else {
        let rest = present_codes(codes.drop_last());
        match codes.last() {
            Some(c) => rest.push(c@),
            None => rest,
        }
    }
}

/// The factory code of a file from the codes generated for its classes: the
/// present ones joined by blank lines, or none when that leaves no text.
pub open spec fn spec_combined_code(codes: Seq<Option<String>>) -> Option<Seq<char>> {
    let joined = join_blank(present_codes(codes));
    if joined.len() == 0 {
        None
    } else {
        Some(joined)
    }
}

/// Joins the present codes generated for the classes of one file by blank
/// lines; `None` when the result would be empty.
pub fn combine_factory_codes(codes: &Vec<Option<String>>) -> (r: Option<String>)
    ensures
        match r {
            Some(s) => spec_combined_code(codes@) == Some(s@),
            None => spec_combined_code(codes@) is None,
        },
{
    let mut combined = String::new();
    let mut count: usize = 0;
    let n = codes.len();
    let mut i: usize = 0;
    assert(codes@.take(0) =~= Seq::<Option<String>>::empty());
    while i < n
        invariant
            n == codes@.len(),
            i <= n,
            count == present_codes(codes@.take(i as int)).len(),
            count <= i,
            combined@ == join_blank(present_codes(codes@.take(i as int))),
        decreases n - i,
    {
        assert(codes@.take(i + 1).drop_last() =~= codes@.take(i as int));
        assert(codes@.take(i + 1).last() == codes@[i as int]);
        match &codes[i] {
            Some(code) => {
                let ghost prev = present_codes(codes@.take(i as int));
                assert(present_codes(codes@.take(i + 1)) == prev.push(code@));
                assert(prev.push(code@).drop_last() =~= prev);
                if count > 0 {
                    combined.append("\n\n");
                    proof {
                        reveal_strlit("\n\n");
                        assert("\n\n"@ =~= seq!['\n', '\n']);
                    }
                }
                combined.append(code.as_str());
                proof {
                    if count == 0 {
                        assert(combined@ =~= code@);
                    }
                }
                count = count + 1;
            },
            None => {
                assert(present_codes(codes@.take(i + 1)) == present_codes(codes@.take(i as int)));
            },
        }
        i = i + 1;
    }
    assert(codes@.take(n as int) =~= codes@);
    if combined.unicode_len() == 0 {
        None
    } else {
        Some(combined)
    }
}

/// The source of a factory module: the import header followed by the factory
/// code of the file, when there is any.
pub fn factory_module_source(code: Option<String>) -> (r: Option<String>)
    ensures
        match r {
            Some(s) => code is Some && s@ == IMPORT_HEADER@ + code.unwrap()@,
            None => code is None,
        },
{
    match code {
        Some(c) => {
            let mut s = String::from_str(IMPORT_HEADER);
            s.append(c.as_str());
            Some(s)
        },
        None => None,
    }
}

/// What to do with an entry met while collecting files.
#[derive(Debug, PartialEq, Eq, Structural)]
pub enum EntryAction {
    /// Leave it.
    Skip,
    /// Handle it as a file.
    Take,
    /// Look into it as a directory.
    Descend,
}

/// While collecting the files with extension `suffix`: descend into
/// directories, take files with that extension, skip the rest.
pub open spec fn spec_walk_action(path: PathView, is_dir: bool, suffix: Seq<char>) -> EntryAction {
    if is_dir {
        EntryAction::Descend
    } else if spec_extension(path) == Some(suffix) {
        EntryAction::Take
    } else {
        EntryAction::Skip
    }
}

/// The action for an entry met while collecting the files with extension `suffix`.
pub fn walk_entry_action(path: &PyPath, is_dir: bool, suffix: &str) -> (a: EntryAction)
    ensures
        a == spec_walk_action(path@, is_dir, suffix@),
{
    if is_dir {
        EntryAction::Descend
    } else if path.has_extension(suffix) {
        EntryAction::Take
    } else {
        EntryAction::Skip
    }
}

/// While reading the files of a package directory: `__init__.py` is skipped
/// (it is read first, on its own), Python files are read, directories are
/// read as sub-packages, and everything else is skipped.
pub open spec fn spec_module_action(path: PathView, is_file: bool, is_dir: bool) -> EntryAction {
    if spec_file_name(path) == Some(init_py()) {
        EntryAction::Skip
    } else if is_file && spec_extension(path) == Some(seq!['p', 'y']) {
        EntryAction::Take
    } else if is_dir {
        EntryAction::Descend
    } else {
        EntryAction::Skip
    }
}

/// The action for an entry of a package directory.
pub fn module_entry_action(path: &PyPath, is_file: bool, is_dir: bool) -> (a: EntryAction)
    ensures
        a == spec_module_action(path@, is_file, is_dir),
{
    let is_init = match path.file_name() {
        Some(n) => {
            let r = n == String::from_str("__init__.py");
            proof {
                reveal_strlit("__init__.py");
                assert("__init__.py"@ =~= init_py());
            }
            r
        },
        None => false,
    };
    proof {
        reveal_strlit("py");
        assert("py"@ =~= seq!['p', 'y']);
    }
    if is_init {
        EntryAction::Skip
    } else if is_file && path.has_extension("py") {
        EntryAction::Take
    } else if is_dir {
        EntryAction::Descend
    } else {
        EntryAction::Skip
    }
}

/// The `__init__.py` file of the directory `dir`.
pub fn init_file(dir: &PyPath) -> (p: PyPath)
    ensures
        p@ == dir@.push(crate::path::ComponentView::Normal(init_py())),
{
    let p = dir.join_name("__init__.py");
    proof {
        reveal_strlit("__init__.py");
        assert("__init__.py"@ =~= init_py());
    }
    p
}

/// What rendering the factory code of one file gave.
#[derive(Debug)]
pub enum RenderOutcome {
    /// The source of the factory module.
    Code(String),
    /// The file defines no class to make factories for.
    NoCode,
    /// Rendering failed.
    Failed,
}

/// A file of the package with the outcome of rendering its factory code.
#[derive(Debug)]
pub struct RenderedFile {
    pub path: PyPath,
    pub outcome: RenderOutcome,
}

/// A step of writing the factory modules.
#[derive(Debug)]
pub enum WriteAction {
    /// Report that rendering the file failed, and go on.
    ReportFailure(PyPath),
    /// Make sure the directory exists (creating its missing parents too when
    /// the flag is set) and holds an `__init__.py`, creating an empty one if not.
    PrepareDir(PyPath, bool),
    /// Write the file with these contents.
    WriteFile(PyPath, String),
    /// Stop with an error: the file does not lie under the package directory.
    Abort(PyPath),
}

/// The abstract value of a write step.
pub enum WriteActionView {
    ReportFailure(PathView),
    PrepareDir(PathView, bool),
    WriteFile(PathView, Seq<char>),
    Abort(PathView),
}

impl View for WriteAction {
    type V = WriteActionView;

    open spec fn view(&self) -> WriteActionView {
        match self {
            WriteAction::ReportFailure(p) => WriteActionView::ReportFailure(p@),
            WriteAction::PrepareDir(p, b) => WriteActionView::PrepareDir(p@, *b),
            WriteAction::WriteFile(p, c) => WriteActionView::WriteFile(p@, c@),
            WriteAction::Abort(p) => WriteActionView::Abort(p@),
        }
    }
}

/// The views of a list of write steps.
pub open spec fn action_views(v: Seq<WriteAction>) -> Seq<WriteActionView> {
    v.map_values(|a: WriteAction| a@)
}

/// The directories to prepare so that `target` exists with an `__init__.py`
/// in it and in each directory between `from` and it: from the outermost
/// down to `target`.  At `from` itself every missing parent is created too;
/// when `target` does not lie under `from`, the chain goes up to the first
/// directory that has no parent.
pub open spec fn spec_prepare_dirs(from: PathView, target: PathView) -> Seq<WriteActionView>
    decreases target.len(),
{
    if target == from {
        seq![WriteActionView::PrepareDir(target, true)]
    } else {
        (if target.len() > 0 && target.last() != ComponentView::RootDir {
            spec_prepare_dirs(from, target.drop_last())
        } else {
            Seq::empty()
        }) + seq![WriteActionView::PrepareDir(target, false)]
    }
}

/// The directories to prepare before writing into `target` (see `spec_prepare_dirs`).
pub fn prepare_dirs(from: &PyPath, target: &PyPath) -> (r: Vec<WriteAction>)
    ensures
        action_views(r@) == spec_prepare_dirs(from@, target@),
    decreases target@.len(),
{
    if target.same(from) {
        let r = vec![WriteAction::PrepareDir(target.duplicate(), true)];
        assert(action_views(r@) =~= spec_prepare_dirs(from@, target@));
        return r;
    }
    let mut r = match target.parent() {
        Some(p) => prepare_dirs(from, &p),
        None => Vec::new(),
    };
    let ghost before = action_views(r@);
    r.push(WriteAction::PrepareDir(target.duplicate(), false));
    assert(action_views(r@) =~= before.push(WriteActionView::PrepareDir(target@, false)));
    r
}

/// Where the factory module of `file` goes: its place under `output_dir`
/// matches its place under `module_dir`, with extension `.py`.
pub open spec fn spec_factory_file(module_dir: PathView, output_dir: PathView, file: PathView) -> Option<
    PathView,
> {
    match spec_strip_prefix(file, module_dir) {
        Some(rel) => Some(spec_with_extension(spec_join(output_dir, rel), seq!['p', 'y'])),
        None => None,
    }
}

/// The steps for one file.
pub open spec fn spec_file_actions(
    module_dir: PathView,
    output_dir: PathView,
    f: RenderedFile,
) -> Seq<WriteActionView> {
    match f.outcome {
        RenderOutcome::Failed => seq![WriteActionView::ReportFailure(f.path@)],
        RenderOutcome::NoCode => Seq::empty(),
        RenderOutcome::Code(c) => match spec_factory_file(module_dir, output_dir, f.path@) {
            None => seq![WriteActionView::Abort(f.path@)],
            Some(target) => (match spec_parent(target) {
                Some(dir) => spec_prepare_dirs(output_dir, dir),
                None => Seq::empty(),
            }) + seq![WriteActionView::WriteFile(target, c@)],
        },
    }
}

/// Whether writing stops at this file.
pub open spec fn spec_aborts(module_dir: PathView, f: RenderedFile) -> bool {
    f.outcome is Code && spec_strip_prefix(f.path@, module_dir) is None
}

/// The steps for `files`, in order, up to and including the first that stops.
pub open spec fn spec_write_plan(
    module_dir: PathView,
    output_dir: PathView,
    files: Seq<RenderedFile>,
) -> Seq<WriteActionView>
    decreases files.len(),
{
    if files.len() == 0 {
        Seq::empty()
    } else if spec_aborts(module_dir, files[0]) {
        spec_file_actions(module_dir, output_dir, files[0])
    } else {
        spec_file_actions(module_dir, output_dir, files[0]) + spec_write_plan(
            module_dir,
            output_dir,
            files.drop_first(),
        )
    }
}

/// The steps for one file, given the outcome of rendering its factory code.
pub fn file_actions(module_dir: &PyPath, output_dir: &PyPath, f: &RenderedFile) -> (r: Vec<WriteAction>)
    ensures
        action_views(r@) == spec_file_actions(module_dir@, output_dir@, *f),
{
    match &f.outcome {
        RenderOutcome::Failed => {
            let r = vec![WriteAction::ReportFailure(f.path.duplicate())];
            assert(action_views(r@) =~= spec_file_actions(module_dir@, output_dir@, *f));
            r
        },
        RenderOutcome::NoCode => {
            let r: Vec<WriteAction> = Vec::new();
            assert(action_views(r@) =~= spec_file_actions(module_dir@, output_dir@, *f));
            r
        },
        RenderOutcome::Code(code) => match f.path.strip_prefix(module_dir) {
            None => {
                let r = vec![WriteAction::Abort(f.path.duplicate())];
                assert(action_views(r@) =~= spec_file_actions(module_dir@, output_dir@, *f));
                r
            },
            Some(relative_path) => {
                let factory_file = output_dir.join(&relative_path).with_extension("py");
                proof {
                    reveal_strlit("py");
                    assert("py"@ =~= seq!['p', 'y']);
                }
                let mut r = match factory_file.parent() {
                    Some(parent) => prepare_dirs(output_dir, &parent),
                    None => Vec::new(),
                };
                let ghost before = action_views(r@);
                r.push(WriteAction::WriteFile(factory_file, code.clone()));
                assert(action_views(r@) =~= before.push(
                    WriteActionView::WriteFile(factory_file@, code@),
                ));
                assert(action_views(r@) =~= spec_file_actions(module_dir@, output_dir@, *f));
                r
            },
        },
    }
}

/// The steps that write the factory modules of a package from
/// `module_dir` into `output_dir`, given each file of the package with the
/// outcome of rendering its factory code: files that failed are reported
/// and passed over, files without code are passed over, and each module is
/// written under its place relative to `module_dir`, after its directory
/// and the directories above it up to `output_dir` have been prepared.  The
/// steps end with an `Abort` at the first file with code that does not lie
/// under `module_dir`.
pub fn write_factory_codes(
    module_dir: &PyPath,
    output_dir: &PyPath,
    files: &Vec<RenderedFile>,
) -> (r: Vec<WriteAction>)
    ensures
        action_views(r@) == spec_write_plan(module_dir@, output_dir@, files@),
{
    let mut r: Vec<WriteAction> = Vec::new();
    let n = files.len();
    let mut i: usize = 0;
    assert(files@.skip(0) =~= files@);
    while i < n
        invariant
            n == files@.len(),
            i <= n,
            action_views(r@) + spec_write_plan(module_dir@, output_dir@, files@.skip(i as int))
                == spec_write_plan(module_dir@, output_dir@, files@),
        decreases n - i,
    {
        let f = &files[i];
        let ghost rest = files@.skip(i as int);
        assert(rest[0] == *f);
        assert(rest.drop_first() =~= files@.skip(i + 1));
        let mut actions = file_actions(module_dir, output_dir, f);
        let ghost before = action_views(r@);
        let ghost added = action_views(actions@);
        let stops = match &f.outcome {
            RenderOutcome::Code(_) => f.path.strip_prefix(module_dir).is_none(),
            _ => false,
        };
        r.append(&mut actions);
        assert(action_views(r@) =~= before + added);
        if stops {
            assert(spec_write_plan(module_dir@, output_dir@, rest) == added);
            assert(action_views(r@) == spec_write_plan(module_dir@, output_dir@, files@));
            return r;
        }
        assert(before + added + spec_write_plan(module_dir@, output_dir@, files@.skip(i + 1)) =~= before
            + spec_write_plan(module_dir@, output_dir@, rest));
        i = i + 1;
    }
    assert(files@.skip(n as int) =~= Seq::<RenderedFile>::empty());
    assert(action_views(r@) + Seq::<WriteActionView>::empty() =~= action_views(r@));
    r
}

} // verus!
