//! A copy-on-write view of the whole file system: an upper directory takes the
//! changes, the file system below is read where the upper directory has nothing,
//! and whiteouts hide what was removed.

use crate::bind;
use crate::bytes;
use crate::directory;
use crate::directory::{entries_of, lists, DirEntry, Entry, FileKind};
use crate::linux::platform::{opening_bits, separate, Flags};
use crate::mapping::{reserved, reserved_path};
use crate::path;
use crate::path::{
    absolute, components_of, joined, names_of, normalized, relative_text, render, tail, SEPARATOR,
};
use crate::whiteout;
use crate::whiteout::{
    complete, covered, hiding_log, is_revealing_log, replayed, unshadowed, Whiteouts,
};
use vstd::prelude::*;

verus! {

/// No such entry.
pub const ENOENT: i32 = 2;

/// The entry exists.
pub const EEXIST: i32 = 17;

/// Not a directory.
pub const ENOTDIR: i32 = 20;

/// A directory.
pub const EISDIR: i32 = 21;

/// The mode of directories that are created on the way.
pub const DIRECTORY_MODE: u32 = 0o755;

/// `.pathshim`, the directory of the upper layer that is not part of the view.
pub open spec fn meta_name() -> Seq<u8> {
    seq![46u8, 112, 97, 116, 104, 115, 104, 105, 109]
}

/// `whiteouts`.
pub open spec fn log_name() -> Seq<u8> {
    seq![119u8, 104, 105, 116, 101, 111, 117, 116, 115]
}

/// What a path is in each layer, links not followed; nothing where it is
/// missing.
#[derive(Clone, Copy, PartialEq, Eq, Structural, Debug)]
pub struct Layers {
    pub upper: Option<FileKind>,
    pub lower: Option<FileKind>,
}

/// A copy-on-write view as a value: the upper directory and the hidden paths.
pub ghost struct Root {
    pub upper: Seq<u8>,
    pub hidden: Set<Seq<u8>>,
}

/// A copy-on-write view.
#[derive(Debug)]
pub struct RootView {
    upper: Vec<u8>,
    whiteouts: Whiteouts,
}

impl View for RootView {
    type V = Root;

    closed spec fn view(&self) -> Root {
        Root { upper: self.upper@, hidden: self.whiteouts@ }
    }
}

/// The place of `names` in the upper directory.
pub open spec fn above(root: Root, names: Seq<Seq<u8>>) -> Seq<u8> {
    joined(root.upper, relative_text(names))
}

/// `names` are hidden.
pub open spec fn hides(root: Root, names: Seq<Seq<u8>>) -> bool {
    covered(root.hidden, relative_text(names))
}

/// `names` are part of the view.
pub open spec fn present(root: Root, names: Seq<Seq<u8>>, layers: Layers) -> bool {
    !hides(root, names) && (layers.upper is Some || layers.lower is Some)
}

/// Where a read of `names` goes.
pub open spec fn reading(root: Root, names: Seq<Seq<u8>>, in_upper: bool) -> Result<
    Seq<u8>,
    i32,
> {
    if reserved(names) {
        Ok(render(names))
    } else if hides(root, names) {
        Err(ENOENT)
    } else if in_upper {
        Ok(above(root, names))
    } else {
        Ok(render(names))
    }
}

/// The directory of the upper layer to create so that an entry can be made:
/// none for the root, an error where the parent is not part of the view.
pub open spec fn parent_directory(root: Root, names: Seq<Seq<u8>>, parent: Layers) -> Result<
    Option<Seq<u8>>,
    i32,
> {
    if names.len() == 0 {
        Ok(None)
    } else if present(root, names.drop_last(), parent) {
        Ok(Some(above(root, names.drop_last())))
    } else {
        Err(ENOENT)
    }
}

/// The path relative to the root, as it is spelled.
pub open spec fn relative_path(path: Seq<u8>) -> Seq<u8> {
    if absolute(path) {
        tail(path, 0)
    } else {
        path
    }
}

/// The path relative to the root; a relative path stays as it is.
pub fn relative(path: &[u8]) -> (rest: Vec<u8>)
    ensures
        rest@ == relative_path(path@),
{
    if path::is_absolute(path) {
        path::tail_from(path, 0)
    } else {
        bytes::copy(path)
    }
}

/// Whether a path keeps host semantics.
pub fn is_passthrough(path: &[u8]) -> (found: bool)
    ensures
        found == reserved_path(path@),
{
    bind::is_reserved(path)
}

/// The flags ask for a change.
pub open spec fn asks_change(flags: i32, known: Flags) -> bool {
    flags & (known.o_wronly | known.o_rdwr | known.o_creat | known.o_trunc | known.o_append) != 0
}

/// The flags ask for an entry that is not there yet.
pub open spec fn asks_new(flags: i32, known: Flags) -> bool {
    flags & known.o_creat != 0 && flags & known.o_excl != 0
}

/// The opening flags that ask for a change.
pub fn write_flags(flags: &Flags) -> (mask: i32)
    ensures
        mask == flags.o_wronly | flags.o_rdwr | flags.o_creat | flags.o_trunc | flags.o_append,
{
    flags.o_wronly | flags.o_rdwr | flags.o_creat | flags.o_trunc | flags.o_append
}

/// How a file is made ready for opening.
#[derive(Debug, PartialEq, Eq)]
pub enum OpenPlan<P> {
    /// It is opened as it is.
    Use(P),
    /// The directory `parent` is created, the entry is copied from `lower` if
    /// `copy` is set, and `upper` is opened.
    Prepare { parent: Option<P>, copy: bool, lower: P, upper: P },
    Fail(i32),
}

impl View for OpenPlan<Vec<u8>> {
    type V = OpenPlan<Seq<u8>>;

    open spec fn view(&self) -> OpenPlan<Seq<u8>> {
        match *self {
            OpenPlan::Use(path) => OpenPlan::Use(path@),
            OpenPlan::Prepare { parent, copy, lower, upper } => OpenPlan::Prepare {
                parent: bytes::seen(parent),
                copy,
                lower: lower@,
                upper: upper@,
            },
            OpenPlan::Fail(error) => OpenPlan::Fail(error),
        }
    }
}

/// How a file is made ready for opening.
pub open spec fn opening(
    root: Root,
    names: Seq<Seq<u8>>,
    write: bool,
    exclusive: bool,
    layers: Layers,
    parent: Layers,
) -> OpenPlan<Seq<u8>> {
    if reserved(names) || !write {
        match reading(root, names, layers.upper is Some) {
            Ok(path) => OpenPlan::Use(path),
            Err(error) => OpenPlan::Fail(error),
        }
    } else if exclusive && present(root, names, layers) {
        OpenPlan::Fail(EEXIST)
    } else {
        match parent_directory(root, names, parent) {
            Err(error) => OpenPlan::Fail(error),
            Ok(parent) => OpenPlan::Prepare {
                parent,
                copy: layers.upper is None && !hides(root, names),
                lower: render(names),
                upper: above(root, names),
            },
        }
    }
}

/// How an entry of the lower layer is brought up.
#[derive(Clone, Copy, PartialEq, Eq, Structural, Debug)]
pub enum CopyPlan {
    Nothing,
    File,
    Directory,
    Link,
}

/// How an entry of the lower layer is brought up.
pub open spec fn copying(kind: Option<FileKind>, target: Option<FileKind>) -> CopyPlan {
    match kind {
        None => CopyPlan::Nothing,
        Some(FileKind::Symlink) => match target {
            Some(FileKind::File) => CopyPlan::File,
            Some(FileKind::Directory) => CopyPlan::Directory,
            _ => CopyPlan::Link,
        },
        Some(FileKind::File) => CopyPlan::File,
        Some(FileKind::Directory) => CopyPlan::Directory,
        Some(FileKind::Other) => CopyPlan::Nothing,
    }
}

/// How an entry of the lower layer is brought up: `kind` is what it is, and
/// `target` what it leads to where it is a link. Devices and their like stay
/// where they are.
pub fn copy_lower_entry(kind: Option<FileKind>, target: Option<FileKind>) -> (plan: CopyPlan)
    ensures
        plan == copying(kind, target),
{
    match kind {
        None => CopyPlan::Nothing,
        Some(FileKind::Symlink) => match target {
            Some(FileKind::File) => CopyPlan::File,
            Some(FileKind::Directory) => CopyPlan::Directory,
            _ => CopyPlan::Link,
        },
        Some(FileKind::File) => CopyPlan::File,
        Some(FileKind::Directory) => CopyPlan::Directory,
        Some(FileKind::Other) => CopyPlan::Nothing,
    }
}

/// Whether an entry is brought up together with everything below it.
pub fn copy_lower_entry_recursive(kind: FileKind) -> (descend: bool)
    ensures
        descend == (kind == FileKind::Directory),
{
    kind == FileKind::Directory
}

/// What an entry is made of: the directory to create first and the place in the
/// upper layer.
#[derive(Debug, PartialEq, Eq)]
pub struct MakePlan {
    pub parent: Option<Vec<u8>>,
    pub upper: Vec<u8>,
}

/// How a new entry is made.
pub open spec fn making(root: Root, names: Seq<Seq<u8>>, layers: Layers, parent: Layers) -> Result<
    (Option<Seq<u8>>, Seq<u8>),
    i32,
> {
    if present(root, names, layers) {
        Err(EEXIST)
    } else {
        match parent_directory(root, names, parent) {
            Err(error) => Err(error),
            Ok(parent) => Ok((parent, above(root, names))),
        }
    }
}

/// A plan to make an entry as a value.
pub open spec fn make_of(answer: Result<MakePlan, i32>) -> Result<(Option<Seq<u8>>, Seq<u8>), i32> {
    match answer {
        Ok(plan) => Ok((bytes::seen(plan.parent), plan.upper@)),
        Err(error) => Err(error),
    }
}

/// How an entry is removed from the upper layer.
#[derive(Debug, PartialEq, Eq)]
pub enum UnlinkPlan<P> {
    /// The upper layer does not hold it.
    Nothing,
    Directory(P),
    File(P),
    Fail(i32),
}

impl View for UnlinkPlan<Vec<u8>> {
    type V = UnlinkPlan<Seq<u8>>;

    open spec fn view(&self) -> UnlinkPlan<Seq<u8>> {
        match *self {
            UnlinkPlan::Nothing => UnlinkPlan::Nothing,
            UnlinkPlan::Directory(path) => UnlinkPlan::Directory(path@),
            UnlinkPlan::File(path) => UnlinkPlan::File(path@),
            UnlinkPlan::Fail(error) => UnlinkPlan::Fail(error),
        }
    }
}

/// How an entry is removed from the upper layer.
pub open spec fn removing(root: Root, names: Seq<Seq<u8>>, remove_dir: bool, layers: Layers) -> UnlinkPlan<
    Seq<u8>,
> {
    match layers.upper {
        None => if layers.lower is None || hides(root, names) {
            UnlinkPlan::Fail(ENOENT)
        } else {
            UnlinkPlan::Nothing
        },
        Some(kind) => if remove_dir {
            if kind != FileKind::Directory {
                UnlinkPlan::Fail(ENOTDIR)
            } else {
                UnlinkPlan::Directory(above(root, names))
            }
        } else if kind == FileKind::Directory {
            UnlinkPlan::Fail(EISDIR)
        } else {
            UnlinkPlan::File(above(root, names))
        },
    }
}

/// The view after an entry was removed: what is left of it in the lower layer is
/// hidden.
pub open spec fn after_removal(root: Root, names: Seq<Seq<u8>>, in_lower: bool) -> Root {
    let rel = relative_text(names);
    Root {
        hidden: if in_lower {
            root.hidden.insert(rel)
        } else {
            unshadowed(root.hidden, rel)
        },
        ..root
    }
}

/// The view after an entry was made or opened for a change.
pub open spec fn after_making(root: Root, names: Seq<Seq<u8>>) -> Root {
    Root { hidden: unshadowed(root.hidden, relative_text(names)), ..root }
}

/// `log` is what making the entry `names` adds to the log.
pub open spec fn is_making_log(root: Root, names: Seq<Seq<u8>>, log: Seq<u8>) -> bool {
    is_revealing_log(root.hidden, relative_text(names), log)
}

/// `log` is what removing the entry `names` adds to the log.
pub open spec fn is_removal_log(
    root: Root,
    names: Seq<Seq<u8>>,
    in_lower: bool,
    log: Seq<u8>,
) -> bool {
    if in_lower {
        log == hiding_log(root.hidden, relative_text(names))
    } else {
        is_revealing_log(root.hidden, relative_text(names), log)
    }
}

/// `log` is what renaming the entry `from` to `to` adds to the log: what removing
/// the one adds, then what making the other adds.
pub open spec fn is_renaming_log(
    root: Root,
    from: Seq<Seq<u8>>,
    to: Seq<Seq<u8>>,
    in_lower: bool,
    log: Seq<u8>,
) -> bool {
    exists|cut: int|
        0 <= cut <= log.len() && is_removal_log(root, from, in_lower, #[trigger] log.take(cut))
            && is_making_log(after_removal(root, from, in_lower), to, log.skip(cut))
}

/// How an entry is renamed in the upper layer.
#[derive(Debug, PartialEq, Eq)]
pub struct MovePlan {
    /// The directory to create first.
    pub parent: Option<Vec<u8>>,
    /// The entry is brought up from the lower layer first.
    pub copy: bool,
    pub lower: Vec<u8>,
    /// What stands at the new place is removed first.
    pub replace: Option<FileKind>,
    pub from: Vec<u8>,
    pub to: Vec<u8>,
}

/// A plan to rename an entry as a value.
pub ghost struct Move {
    pub parent: Option<Seq<u8>>,
    pub copy: bool,
    pub lower: Seq<u8>,
    pub replace: Option<FileKind>,
    pub from: Seq<u8>,
    pub to: Seq<u8>,
}

/// The plan of an answer as a value.
pub open spec fn move_of(answer: Result<MovePlan, i32>) -> Result<Move, i32> {
    match answer {
        Ok(plan) => Ok(
            Move {
                parent: bytes::seen(plan.parent),
                copy: plan.copy,
                lower: plan.lower@,
                replace: plan.replace,
                from: plan.from@,
                to: plan.to@,
            },
        ),
        Err(error) => Err(error),
    }
}

/// How an entry is renamed.
pub open spec fn moving(
    root: Root,
    old_path: Seq<u8>,
    new_path: Seq<u8>,
    from: Layers,
    to: Layers,
    parent: Layers,
) -> Result<Move, i32> {
    if !present(root, names_of(old_path), from) {
        Err(ENOENT)
    } else {
        match parent_directory(root, names_of(new_path), parent) {
            Err(error) => Err(error),
            Ok(directory) => Ok(
                Move {
                    parent: directory,
                    copy: from.upper is None,
                    lower: normalized(old_path),
                    replace: to.upper,
                    from: above(root, names_of(old_path)),
                    to: above(root, names_of(new_path)),
                },
            ),
        }
    }
}

/// The step on the way to a directory at `names`.
pub open spec fn stepping(
    root: Root,
    names: Seq<Seq<u8>>,
    layers: Layers,
    found: Result<bool, i32>,
) -> DirectoryStep {
    if present(root, names, layers) {
        match found {
            Ok(true) => DirectoryStep::Present,
            Ok(false) => DirectoryStep::Fail(ENOTDIR),
            Err(error) => DirectoryStep::Fail(error),
        }
    } else {
        DirectoryStep::Make
    }
}

/// The directory that a path names.
pub open spec fn directory_at(
    root: Root,
    path: Seq<u8>,
    in_upper: bool,
    found: Result<bool, i32>,
) -> Result<Seq<u8>, i32> {
    match (reading(root, names_of(path), in_upper), found) {
        (Err(error), _) => Err(error),
        (Ok(_), Ok(true)) => Ok(normalized(path)),
        (Ok(_), Ok(false)) => Err(ENOTDIR),
        (Ok(_), Err(error)) => Err(error),
    }
}

/// A step on the way to a directory.
#[derive(Clone, Copy, PartialEq, Eq, Structural, Debug)]
pub enum DirectoryStep {
    /// The directory is there.
    Present,
    /// It is made.
    Make,
    Fail(i32),
}

impl RootView {
    /// The view of an upper directory, given by its canonical path and its log
    /// of whiteouts.
    pub fn open(upper: Vec<u8>, log: &[u8]) -> (view: RootView)
        ensures
            view@ == (Root { upper: upper@, hidden: replayed(Set::empty(), log@) }),
    {
        RootView { upper, whiteouts: Whiteouts::load(log) }
    }

    /// The upper directory.
    pub fn upper(&self) -> (upper: &[u8])
        ensures
            upper@ == self@.upper,
    {
        self.upper.as_slice()
    }

    /// The directory of the upper layer that holds the log of whiteouts.
    pub fn metadata_directory(upper: &[u8]) -> (place: Vec<u8>)
        ensures
            place@ == joined(upper@, meta_name()),
    {
        let name: [u8; 9] = [46, 112, 97, 116, 104, 115, 104, 105, 109];
        assert(name@ =~= meta_name());
        path::join(upper, name.as_slice())
    }

    /// The log of whiteouts.
    pub fn whiteout_log(upper: &[u8]) -> (place: Vec<u8>)
        ensures
            place@ == joined(joined(upper@, meta_name()), log_name()),
    {
        let name: [u8; 9] = [119, 104, 105, 116, 101, 111, 117, 116, 115];
        assert(name@ =~= log_name());
        let directory = RootView::metadata_directory(upper);
        path::join(directory.as_slice(), name.as_slice())
    }

    /// The names of a path as text.
    fn relative_names(names: &Vec<Vec<u8>>) -> (rel: Vec<u8>)
        ensures
            rel@ == relative_text(bytes::rows(names@)),
    {
        let rel = path::relative_from(names, 0);
        assert(bytes::rows(names@).skip(0) =~= bytes::rows(names@));
        rel
    }

    /// The place of names in the upper directory.
    fn place(&self, names: &Vec<Vec<u8>>) -> (place: Vec<u8>)
        ensures
            place@ == above(self@, bytes::rows(names@)),
    {
        let rel = RootView::relative_names(names);
        path::join(self.upper.as_slice(), rel.as_slice())
    }

    /// Whether names are hidden.
    fn is_hidden(&self, names: &Vec<Vec<u8>>) -> (found: bool)
        ensures
            found == hides(self@, bytes::rows(names@)),
    {
        let rel = RootView::relative_names(names);
        self.whiteouts.covers(rel.as_slice())
    }

    /// Whether names are part of the view.
    fn holds(&self, names: &Vec<Vec<u8>>, layers: Layers) -> (found: bool)
        ensures
            found == present(self@, bytes::rows(names@), layers),
    {
        !self.is_hidden(names) && (layers.upper.is_some() || layers.lower.is_some())
    }

    /// Where a read of names goes.
    fn read_place(&self, names: &Vec<Vec<u8>>, in_upper: bool) -> (answer: Result<Vec<u8>, i32>)
        ensures
            bytes::got(answer) == reading(self@, bytes::rows(names@), in_upper),
    {
        if bind::are_reserved(names) {
            return Ok(path::render_names(names));
        }
        if self.is_hidden(names) {
            return Err(ENOENT);
        }
        if in_upper {
            Ok(self.place(names))
        } else {
            Ok(path::render_names(names))
        }
    }

    /// The directory of the upper layer to create so that names can be made.
    fn parent_place(&self, names: &Vec<Vec<u8>>, parent: Layers) -> (answer: Result<
        Option<Vec<u8>>,
        i32,
    >)
        ensures
            match answer {
                Ok(place) => parent_directory(self@, bytes::rows(names@), parent) == Ok::<
                    Option<Seq<u8>>,
                    i32,
                >(bytes::seen(place)),
                Err(error) => parent_directory(self@, bytes::rows(names@), parent) == Err::<
                    Option<Seq<u8>>,
                    i32,
                >(error),
            },
    {
        let mut above_names: Vec<Vec<u8>> = Vec::new();
        if names.len() == 0 {
            return Ok(None);
        }
        let ghost all = bytes::rows(names@);
        let mut i: usize = 0;
        while i + 1 < names.len()
            invariant
                i + 1 <= names.len(),
                above_names@.len() == i,
                forall|j: int| 0 <= j < i ==> (#[trigger] above_names@[j])@ == names@[j]@,
            decreases names.len() - i,
        {
            above_names.push(bytes::copy(names[i].as_slice()));
            i += 1;
        }
        assert(bytes::rows(above_names@) =~= all.drop_last());
        if self.holds(&above_names, parent) {
            Ok(Some(self.place(&above_names)))
        } else {
            Err(ENOENT)
        }
    }

    /// The place of a path in the upper directory.
    pub fn upper_place(&self, virtual_path: &[u8]) -> (place: Vec<u8>)
        ensures
            place@ == above(self@, names_of(virtual_path@)),
    {
        self.place(&path::names(virtual_path))
    }

    /// Where a read of a path goes: to the upper layer if it holds the path, else
    /// to the path itself. `in_upper` tells whether the upper layer holds it.
    pub fn resolve_read(&self, virtual_path: &[u8], in_upper: bool) -> (answer: Result<
        Vec<u8>,
        i32,
    >)
        ensures
            bytes::got(answer) == reading(self@, names_of(virtual_path@), in_upper),
    {
        self.read_place(&path::names(virtual_path), in_upper)
    }

    /// The directory that a path names, given what a look at the place that it is
    /// read from found.
    pub fn resolve_directory(
        &self,
        virtual_path: &[u8],
        in_upper: bool,
        found: Result<bool, i32>,
    ) -> (answer: Result<Vec<u8>, i32>)
        ensures
            bytes::got(answer) == directory_at(self@, virtual_path@, in_upper, found),
    {
        match self.resolve_read(virtual_path, in_upper) {
            Err(error) => Err(error),
            Ok(_) => match found {
                Ok(true) => Ok(path::normalize_virtual(virtual_path)),
                Ok(false) => Err(ENOTDIR),
                Err(error) => Err(error),
            },
        }
    }

    /// Whether a path is part of the view.
    pub fn entry_exists(&self, virtual_path: &[u8], layers: Layers) -> (found: bool)
        ensures
            found == present(self@, names_of(virtual_path@), layers),
    {
        self.holds(&path::names(virtual_path), layers)
    }

    /// The directory of the upper layer to create so that a path can be made.
    pub fn ensure_parent(&self, virtual_path: &[u8], parent: Layers) -> (answer: Result<
        Option<Vec<u8>>,
        i32,
    >)
        ensures
            match answer {
                Ok(place) => parent_directory(self@, names_of(virtual_path@), parent) == Ok::<
                    Option<Seq<u8>>,
                    i32,
                >(bytes::seen(place)),
                Err(error) => parent_directory(self@, names_of(virtual_path@), parent) == Err::<
                    Option<Seq<u8>>,
                    i32,
                >(error),
            },
    {
        self.parent_place(&path::names(virtual_path), parent)
    }

    /// The directories on the way to a path, the nearest to the root first.
    pub fn directories_to(virtual_path: &[u8]) -> (list: Vec<Vec<u8>>)
        ensures
            list@.len() == names_of(virtual_path@).len(),
            forall|i: int|
                0 <= i < list@.len() ==> (#[trigger] list@[i])@ == render(
                    names_of(virtual_path@).take(i + 1),
                ),
    {
        let names = path::names(virtual_path);
        let ghost all = names_of(virtual_path@);
        let mut list: Vec<Vec<u8>> = Vec::new();
        let mut taken: Vec<Vec<u8>> = Vec::new();
        let mut i: usize = 0;
        assert(bytes::rows(taken@) =~= all.take(0));
        while i < names.len()
            invariant
                i <= names.len(),
                bytes::rows(names@) == all,
                all == names_of(virtual_path@),
                bytes::rows(taken@) == all.take(i as int),
                list@.len() == i,
                forall|j: int| 0 <= j < i ==> (#[trigger] list@[j])@ == render(all.take(j + 1)),
            decreases names.len() - i,
        {
            assert(all[i as int] == names@[i as int]@);
            let ghost before = bytes::rows(taken@);
            taken.push(bytes::copy(names[i].as_slice()));
            assert(bytes::rows(taken@) =~= before.push(all[i as int]));
            assert(before.push(all[i as int]) =~= all.take(i + 1));
            list.push(path::render_names(&taken));
            i += 1;
        }
        list
    }

    /// A step on the way to a directory: one that is there must be a directory,
    /// according to a look at the place that it is read from, and one that is not
    /// is made.
    pub fn create_directory_all(
        &self,
        current: &[u8],
        layers: Layers,
        found: Result<bool, i32>,
    ) -> (step: DirectoryStep)
        ensures
            step == stepping(self@, names_of(current@), layers, found),
    {
        if self.entry_exists(current, layers) {
            match found {
                Ok(true) => DirectoryStep::Present,
                Ok(false) => DirectoryStep::Fail(ENOTDIR),
                Err(error) => DirectoryStep::Fail(error),
            }
        } else {
            DirectoryStep::Make
        }
    }

    /// The directory of the upper layer that stands for a path, made or not.
    pub fn materialize_directory(&self, virtual_path: &[u8]) -> (place: Vec<u8>)
        ensures
            place@ == above(self@, names_of(virtual_path@)),
    {
        self.upper_place(virtual_path)
    }

    /// How a file is made ready for opening.
    pub fn prepare_open(
        &self,
        virtual_path: &[u8],
        flags: i32,
        layers: Layers,
        parent: Layers,
        known: &Flags,
    ) -> (plan: OpenPlan<Vec<u8>>)
        ensures
            plan@ == opening(
                self@,
                names_of(virtual_path@),
                asks_change(flags, *known),
                asks_new(flags, *known),
                layers,
                parent,
            ),
            plan@ == opening(
                self@,
                names_of(virtual_path@),
                flags & (known.o_wronly | known.o_rdwr | known.o_creat | known.o_trunc
                    | known.o_append) != 0,
                flags & known.o_creat != 0 && flags & known.o_excl != 0,
                layers,
                parent,
            ),
    {
        let names = path::names(virtual_path);
        let write = flags & write_flags(known) != 0;
        if bind::are_reserved(&names) || !write {
            return match self.read_place(&names, layers.upper.is_some()) {
                Ok(path) => OpenPlan::Use(path),
                Err(error) => OpenPlan::Fail(error),
            };
        }
        if flags & known.o_creat != 0 && flags & known.o_excl != 0 && self.holds(&names, layers) {
            return OpenPlan::Fail(EEXIST);
        }
        match self.parent_place(&names, parent) {
            Err(error) => OpenPlan::Fail(error),
            Ok(parent) => OpenPlan::Prepare {
                parent,
                copy: layers.upper.is_none() && !self.is_hidden(&names),
                lower: path::render_names(&names),
                upper: self.place(&names),
            },
        }
    }

    /// How a file is made ready for a change other than through opening it: where
    /// the flags of opening are separate bits, as for writing to what is there or
    /// not.
    pub fn prepare_mutation(
        &self,
        virtual_path: &[u8],
        layers: Layers,
        parent: Layers,
        known: &Flags,
    ) -> (plan: OpenPlan<Vec<u8>>)
        ensures
            plan@ == opening(
                self@,
                names_of(virtual_path@),
                known.o_wronly & (known.o_wronly | known.o_rdwr | known.o_creat | known.o_trunc
                    | known.o_append) != 0,
                known.o_wronly & known.o_creat != 0 && known.o_wronly & known.o_excl != 0,
                layers,
                parent,
            ),
            separate(opening_bits(*known)) ==> plan@ == opening(
                self@,
                names_of(virtual_path@),
                true,
                false,
                layers,
                parent,
            ),
    {
        proof {
            if separate(opening_bits(*known)) {
                let bits = opening_bits(*known);
                assert(bits[0] & bits[2] == 0);
                lemma_bit_is_among(
                    known.o_wronly,
                    known.o_rdwr,
                    known.o_creat,
                    known.o_trunc,
                    known.o_append,
                );
            }
        }
        self.prepare_open(virtual_path, known.o_wronly, layers, parent, known)
    }

    /// How a directory is made.
    pub fn mkdir(&self, virtual_path: &[u8], layers: Layers, parent: Layers) -> (answer: Result<
        MakePlan,
        i32,
    >)
        ensures
            make_of(answer) == making(self@, names_of(virtual_path@), layers, parent),
    {
        let names = path::names(virtual_path);
        if self.holds(&names, layers) {
            return Err(EEXIST);
        }
        match self.parent_place(&names, parent) {
            Err(error) => Err(error),
            Ok(parent) => Ok(MakePlan { parent, upper: self.place(&names) }),
        }
    }

    /// How a link is made.
    pub fn symlink(&self, link: &[u8], layers: Layers, parent: Layers) -> (answer: Result<
        MakePlan,
        i32,
    >)
        ensures
            make_of(answer) == making(self@, names_of(link@), layers, parent),
    {
        self.mkdir(link, layers, parent)
    }

    /// Takes note that an entry was made, or opened for a change: it is hidden no
    /// more. Returns what to append to the log.
    pub fn made(&mut self, virtual_path: &[u8]) -> (log: Vec<u8>)
        ensures
            final(self)@ == after_making(old(self)@, names_of(virtual_path@)),
            is_making_log(old(self)@, names_of(virtual_path@), log@),
            replayed(old(self)@.hidden, log@) == final(self)@.hidden,
            complete(log@),
    {
        let names = path::names(virtual_path);
        let rel = RootView::relative_names(&names);
        self.whiteouts.reveal_path(rel.as_slice())
    }

    /// How an entry is removed from the upper layer.
    pub fn unlink(&self, virtual_path: &[u8], remove_dir: bool, layers: Layers) -> (plan: UnlinkPlan<
        Vec<u8>,
    >)
        ensures
            plan@ == removing(self@, names_of(virtual_path@), remove_dir, layers),
    {
        let names = path::names(virtual_path);
        match layers.upper {
            None => if layers.lower.is_none() || self.is_hidden(&names) {
                UnlinkPlan::Fail(ENOENT)
            } else {
                UnlinkPlan::Nothing
            },
            Some(kind) => if remove_dir {
                if kind != FileKind::Directory {
                    UnlinkPlan::Fail(ENOTDIR)
                } else {
                    UnlinkPlan::Directory(self.place(&names))
                }
            } else if kind == FileKind::Directory {
                UnlinkPlan::Fail(EISDIR)
            } else {
                UnlinkPlan::File(self.place(&names))
            },
        }
    }

    /// Takes note that an entry was removed from the upper layer. Returns what to
    /// append to the log.
    pub fn removed(&mut self, virtual_path: &[u8], in_lower: bool) -> (log: Vec<u8>)
        ensures
            final(self)@ == after_removal(old(self)@, names_of(virtual_path@), in_lower),
            is_removal_log(old(self)@, names_of(virtual_path@), in_lower, log@),
            replayed(old(self)@.hidden, log@) == final(self)@.hidden,
            complete(log@),
    {
        let names = path::names(virtual_path);
        let rel = RootView::relative_names(&names);
        if in_lower {
            self.whiteouts.hide_path(rel.as_slice())
        } else {
            self.whiteouts.reveal_path(rel.as_slice())
        }
    }

    /// How an entry is renamed. `from` and `to` tell what is at either place, and
    /// `parent` what is at the directory of the new place.
    pub fn rename(
        &self,
        old_path: &[u8],
        new_path: &[u8],
        from: Layers,
        to: Layers,
        parent: Layers,
    ) -> (answer: Result<MovePlan, i32>)
        ensures
            move_of(answer) == moving(self@, old_path@, new_path@, from, to, parent),
            match answer {
                Ok(plan) => {
                    &&& present(self@, names_of(old_path@), from)
                    &&& parent_directory(self@, names_of(new_path@), parent) == Ok::<
                        Option<Seq<u8>>,
                        i32,
                    >(bytes::seen(plan.parent))
                    &&& plan.copy == (from.upper is None)
                    &&& plan.lower@ == normalized(old_path@)
                    &&& plan.replace == to.upper
                    &&& plan.from@ == above(self@, names_of(old_path@))
                    &&& plan.to@ == above(self@, names_of(new_path@))
                },
                Err(error) => if !present(self@, names_of(old_path@), from) {
                    error == ENOENT
                } else {
                    parent_directory(self@, names_of(new_path@), parent) == Err::<
                        Option<Seq<u8>>,
                        i32,
                    >(error)
                },
            },
    {
        let old_names = path::names(old_path);
        let new_names = path::names(new_path);
        if !self.holds(&old_names, from) {
            return Err(ENOENT);
        }
        match self.parent_place(&new_names, parent) {
            Err(error) => Err(error),
            Ok(parent) => Ok(
                MovePlan {
                    parent,
                    copy: from.upper.is_none(),
                    lower: path::render_names(&old_names),
                    replace: to.upper,
                    from: self.place(&old_names),
                    to: self.place(&new_names),
                },
            ),
        }
    }

    /// Takes note that an entry was renamed in the upper layer. Returns what to
    /// append to the log.
    pub fn renamed(&mut self, old_path: &[u8], new_path: &[u8], old_in_lower: bool) -> (log: Vec<u8>)
        ensures
            final(self)@ == after_making(
                after_removal(old(self)@, names_of(old_path@), old_in_lower),
                names_of(new_path@),
            ),
            is_renaming_log(
                old(self)@,
                names_of(old_path@),
                names_of(new_path@),
                old_in_lower,
                log@,
            ),
            replayed(old(self)@.hidden, log@) == final(self)@.hidden,
            complete(log@),
    {
        let mut log = self.removed(old_path, old_in_lower);
        let ghost first = log@;
        let more = self.made(new_path);
        bytes::append(&mut log, more.as_slice());
        proof {
            whiteout::law_log_is_carried_on(old(self)@.hidden, first, more@);
            whiteout::lemma_complete_sum(first, more@);
            assert(log@.take(first.len() as int) =~= first);
            assert(log@.skip(first.len() as int) =~= more@);
        }
        log
    }
}

/// The path of an entry below the directory `names`.
pub open spec fn child(names: Seq<Seq<u8>>, name: Seq<u8>) -> Seq<u8> {
    joined(relative_text(names), name)
}

/// The entries that `list` leaves of a listing of the directory `names` that has
/// `named` so far: hidden entries are taken out, others take the place of those
/// with the same name, and the layer's own directory at the root does not count.
pub open spec fn layered(
    root: Root,
    names: Seq<Seq<u8>>,
    named: Map<Seq<u8>, Entry>,
    list: Seq<Entry>,
) -> Map<Seq<u8>, Entry>
    decreases list.len(),
{
    if list.len() == 0 {
        named
    } else {
        let so_far = layered(root, names, named, list.drop_last());
        let entry = list.last();
        if names.len() == 0 && entry.name == meta_name() {
            so_far
        } else if covered(root.hidden, child(names, entry.name)) {
            so_far.remove(entry.name)
        } else {
            so_far.insert(entry.name, entry)
        }
    }
}

/// The entries of the directory `names`: those of the upper layer over those of
/// the lower one.
pub open spec fn merged(
    root: Root,
    names: Seq<Seq<u8>>,
    lower: Seq<Entry>,
    upper: Seq<Entry>,
) -> Map<Seq<u8>, Entry> {
    layered(root, names, layered(root, names, Map::empty(), lower), upper)
}

impl RootView {
    /// Lays one layer over a listing.
    fn lay(&self, names: &Vec<Vec<u8>>, entries: &mut Vec<DirEntry>, list: &Vec<DirEntry>)
        ensures
            forall|named: Map<Seq<u8>, Entry>|
                lists(entries_of(old(entries)@), named) ==> #[trigger] lists(
                    entries_of(final(entries)@),
                    layered(self@, bytes::rows(names@), named, entries_of(list@)),
                ),
    {
        let ghost all = entries_of(list@);
        let ghost where_at = bytes::rows(names@);
        let ghost given = entries_of(entries@);
        let rel = RootView::relative_names(names);
        let meta: [u8; 9] = [46, 112, 97, 116, 104, 115, 104, 105, 109];
        assert(meta@ =~= meta_name());
        let mut i: usize = 0;
        assert(all.take(0) =~= seq![]);
        while i < list.len()
            invariant
                i <= list.len(),
                all == entries_of(list@),
                where_at == bytes::rows(names@),
                rel@ == relative_text(where_at),
                meta@ == meta_name(),
                forall|named: Map<Seq<u8>, Entry>|
                    lists(given, named) ==> #[trigger] lists(
                        entries_of(entries@),
                        layered(self@, where_at, named, all.take(i as int)),
                    ),
            decreases list.len() - i,
        {
            let name = list[i].name.as_slice();
            let ghost next = all.take(i + 1);
            let ghost before_step = entries_of(entries@);
            proof {
                assert(next.drop_last() =~= all.take(i as int));
                assert(next.last() == list@[i as int]@);
            }
            if names.len() == 0 && bytes::equal(name, meta.as_slice()) {
                assert forall|named: Map<Seq<u8>, Entry>| lists(given, named) implies #[trigger] lists(
                    entries_of(entries@),
                    layered(self@, where_at, named, next),
                ) by {
                    assert(lists(
                        before_step,
                        layered(self@, where_at, named, all.take(i as int)),
                    ));
                }
            } else {
                let below = path::join(rel.as_slice(), name);
                if self.whiteouts.covers(below.as_slice()) {
                    directory::drop_entry(entries, name);
                } else {
                    directory::put_entry(entries, list[i].duplicate());
                }
                assert forall|named: Map<Seq<u8>, Entry>| lists(given, named) implies #[trigger] lists(
                    entries_of(entries@),
                    layered(self@, where_at, named, next),
                ) by {
                    let so_far = layered(self@, where_at, named, all.take(i as int));
                    assert(lists(before_step, so_far));
                    assert(lists(entries_of(entries@), so_far.remove(name@)) || lists(
                        entries_of(entries@),
                        so_far.insert(name@, list@[i as int]@),
                    ));
                }
            }
            i += 1;
        }
        assert(all.take(all.len() as int) =~= all);
    }

    /// The entries of a directory, given those of each layer: in the order of
    /// their names, each name once.
    pub fn list_dir(&self, virtual_path: &[u8], lower: &Vec<DirEntry>, upper: &Vec<DirEntry>) -> (answer:
        Result<Vec<DirEntry>, i32>)
        ensures
            match answer {
                Ok(entries) => !hides(self@, names_of(virtual_path@)) && lists(
                    entries_of(entries@),
                    merged(self@, names_of(virtual_path@), entries_of(lower@), entries_of(upper@)),
                ),
                Err(error) => hides(self@, names_of(virtual_path@)) && error == ENOENT,
            },
    {
        let names = path::names(virtual_path);
        if self.is_hidden(&names) {
            return Err(ENOENT);
        }
        let ghost where_at = names_of(virtual_path@);
        let mut entries: Vec<DirEntry> = Vec::new();
        assert(lists(entries_of(entries@), Map::empty()));
        let ghost first = layered(self@, where_at, Map::empty(), entries_of(lower@));
        self.lay(&names, &mut entries, lower);
        assert(lists(entries_of(entries@), first));
        self.lay(&names, &mut entries, upper);
        assert(lists(
            entries_of(entries@),
            layered(self@, where_at, first, entries_of(upper@)),
        ));
        Ok(entries)
    }
}

/// The last entry of `list` with `name`.
pub open spec fn last_named(list: Seq<Entry>, name: Seq<u8>) -> Option<Entry>
    decreases list.len(),
{
    if list.len() == 0 {
        None
    } else if list.last().name == name {
        Some(list.last())
    } else {
        last_named(list.drop_last(), name)
    }
}

proof fn lemma_layered(
    root: Root,
    names: Seq<Seq<u8>>,
    named: Map<Seq<u8>, Entry>,
    list: Seq<Entry>,
    name: Seq<u8>,
)
    requires
        !(names.len() == 0 && name == meta_name()),
    ensures
        ({
            let now = layered(root, names, named, list);
            match last_named(list, name) {
                None => now.contains_key(name) == named.contains_key(name) && (now.contains_key(
                    name,
                ) ==> now[name] == named[name]),
                Some(entry) => if covered(root.hidden, child(names, name)) {
                    !now.contains_key(name)
                } else {
                    now.contains_key(name) && now[name] == entry
                },
            }
        }),
    decreases list.len(),
{
    if list.len() > 0 {
        lemma_layered(root, names, named, list.drop_last(), name);
    }
}

/// A directory shows both layers as one: a hidden entry is not there, an entry of
/// the upper layer is shown as it is there, any other as it is in the lower
/// layer, and nothing else is shown.
pub proof fn law_upper_entries_come_first(
    root: Root,
    names: Seq<Seq<u8>>,
    lower: Seq<Entry>,
    upper: Seq<Entry>,
    name: Seq<u8>,
)
    requires
        !(names.len() == 0 && name == meta_name()),
    ensures
        ({
            let shown = merged(root, names, lower, upper);
            if covered(root.hidden, child(names, name)) {
                !shown.contains_key(name)
            } else {
                match (last_named(upper, name), last_named(lower, name)) {
                    (Some(entry), _) | (None, Some(entry)) => shown.contains_key(name)
                        && shown[name] == entry,
                    (None, None) => !shown.contains_key(name),
                }
            }
        }),
{
    lemma_layered(root, names, Map::empty(), lower, name);
    lemma_layered(root, names, layered(root, names, Map::empty(), lower), upper, name);
}

/// The layer's own directory is never shown at the root.
pub proof fn law_metadata_is_not_shown(root: Root, lower: Seq<Entry>, upper: Seq<Entry>)
    ensures
        !merged(root, seq![], lower, upper).contains_key(meta_name()),
{
    lemma_metadata(root, Map::empty(), lower);
    lemma_metadata(root, layered(root, seq![], Map::empty(), lower), upper);
}

proof fn lemma_metadata(root: Root, named: Map<Seq<u8>, Entry>, list: Seq<Entry>)
    requires
        !named.contains_key(meta_name()),
    ensures
        !layered(root, seq![], named, list).contains_key(meta_name()),
    decreases list.len(),
{
    if list.len() > 0 {
        lemma_metadata(root, named, list.drop_last());
    }
}

/// What was removed stays out of sight: after the removal of an entry that the
/// lower layer holds, neither it nor anything below it can be read, whatever the
/// layers hold there.
pub proof fn law_removed_entry_is_out_of_sight(
    root: Root,
    names: Seq<Seq<u8>>,
    deeper: Seq<Seq<u8>>,
    in_upper: bool,
)
    requires
        path::all_plain(names + deeper),
        names.len() > 0,
        !reserved(names),
    ensures
        reading(after_removal(root, names, true), names + deeper, in_upper) == Err::<Seq<u8>, i32>(
            ENOENT,
        ),
{
    let after = after_removal(root, names, true);
    let all = names + deeper;
    assert(all[0] == names[0]);
    let hidden = relative_text(names);
    assert(after.hidden.contains(hidden));
    if deeper.len() == 0 {
        assert(all =~= names);
        assert(whiteout::shadowed(hidden, relative_text(all)));
    } else {
        lemma_relative_prefix(names, deeper);
        assert(whiteout::shadowed(hidden, relative_text(all)));
    }
}

proof fn lemma_relative_prefix(names: Seq<Seq<u8>>, deeper: Seq<Seq<u8>>)
    requires
        names.len() > 0,
        deeper.len() > 0,
    ensures
        ({
            let head = relative_text(names);
            let whole = relative_text(names + deeper);
            &&& bytes::has_prefix(whole, head)
            &&& head.len() < whole.len()
            &&& whole[head.len() as int] == SEPARATOR
        }),
    decreases deeper.len(),
{
    let head = relative_text(names);
    let all = names + deeper;
    let whole = relative_text(all);
    assert(all.drop_last() =~= names + deeper.drop_last());
    if deeper.len() == 1 {
        assert(all.drop_last() =~= names);
        assert(whole.take(head.len() as int) =~= head);
    } else {
        lemma_relative_prefix(names, deeper.drop_last());
        let shorter = relative_text(names + deeper.drop_last());
        assert(whole.take(head.len() as int) =~= shorter.take(head.len() as int));
    }
}

/// What is made is seen: after an entry was made in the upper layer, a read of it
/// goes there.
pub proof fn law_made_entry_is_read_from_upper(root: Root, names: Seq<Seq<u8>>)
    requires
        !reserved(names),
    ensures
        reading(after_making(root, names), names, true) == Ok::<Seq<u8>, i32>(above(root, names)),
        present(
            after_making(root, names),
            names,
            Layers { upper: Some(FileKind::File), lower: None },
        ),
{
    let after = after_making(root, names);
    let rel = relative_text(names);
    assert(!covered(after.hidden, rel)) by {
        if covered(after.hidden, rel) {
            let h = choose|h: Seq<u8>| after.hidden.contains(h) && whiteout::shadowed(h, rel);
            assert(unshadowed(root.hidden, rel).contains(h));
        }
    }
}

/// The lower layer is never written to: whatever is opened for a change outside
/// of `/dev`, `/proc` and `/sys` is opened in the upper layer.
pub proof fn law_changes_go_to_upper(
    root: Root,
    names: Seq<Seq<u8>>,
    exclusive: bool,
    layers: Layers,
    parent: Layers,
)
    requires
        !reserved(names),
    ensures
        match opening(root, names, true, exclusive, layers, parent) {
            OpenPlan::Prepare { parent, copy, lower, upper } => upper == above(root, names),
            OpenPlan::Use(_) => false,
            OpenPlan::Fail(_) => true,
        },
{
}

/// A view that is opened again from its log hides what it hid: a log that grew by
/// whole records leaves, read from the start, what they left.
pub proof fn law_view_persists(log: Seq<u8>, more: Seq<u8>, hidden: Set<Seq<u8>>)
    requires
        complete(log),
        replayed(replayed(Set::empty(), log), more) == hidden,
    ensures
        replayed(Set::empty(), log + more) == hidden,
{
    whiteout::law_log_is_carried_on(Set::empty(), log, more);
}

proof fn lemma_bit_is_among(bit: i32, b: i32, c: i32, d: i32, e: i32)
    requires
        bit != 0,
    ensures
        bit & (bit | b | c | d | e) != 0,
{
    assert(bit != 0 ==> bit & (bit | b | c | d | e) != 0) by (bit_vector);
}

/// A read goes to the upper layer where it holds the path, and to the path itself
/// where it does not; what is hidden is not found in either, and `/dev`, `/proc` and
/// `/sys` are read as they are.
pub proof fn law_reads_prefer_the_upper_layer(root: Root, names: Seq<Seq<u8>>, in_upper: bool)
    ensures
        reserved(names) ==> reading(root, names, in_upper) == Ok::<Seq<u8>, i32>(render(names)),
        !reserved(names) && hides(root, names) ==> reading(root, names, in_upper) == Err::<
            Seq<u8>,
            i32,
        >(2),
        !reserved(names) && !hides(root, names) && in_upper ==> reading(root, names, in_upper)
            == Ok::<Seq<u8>, i32>(joined(root.upper, relative_text(names))),
        !reserved(names) && !hides(root, names) && !in_upper ==> reading(root, names, in_upper)
            == Ok::<Seq<u8>, i32>(render(names)),
{
}

/// A file that is opened only for reading is used where it is read from, and nothing
/// is copied or made for it.
pub proof fn law_opening_for_reading_makes_nothing(
    root: Root,
    names: Seq<Seq<u8>>,
    exclusive: bool,
    layers: Layers,
    parent: Layers,
)
    ensures
        ({
            let plan = opening(root, names, false, exclusive, layers, parent);
            match reading(root, names, layers.upper is Some) {
                Ok(path) => plan == OpenPlan::Use(path),
                Err(error) => plan == OpenPlan::<Seq<u8>>::Fail(error),
            }
        }),
{
}

/// A file that is opened for a change is copied up first exactly where only the lower
/// layer shows it, from the path itself to its place in the upper layer; its
/// directory is made there first. An entry that must be new may not be part of the
/// view, and a directory to make it in must be.
pub proof fn law_opening_for_a_change_copies_up(
    root: Root,
    names: Seq<Seq<u8>>,
    exclusive: bool,
    layers: Layers,
    parent: Layers,
)
    requires
        !reserved(names),
    ensures
        ({
            let plan = opening(root, names, true, exclusive, layers, parent);
            let there = !hides(root, names) && (layers.upper is Some || layers.lower is Some);
            let homeless = names.len() > 0 && (hides(root, names.drop_last()) || (parent.upper is None
                && parent.lower is None));
            &&& exclusive && there ==> plan == OpenPlan::<Seq<u8>>::Fail(17)
            &&& !(exclusive && there) && homeless ==> plan == OpenPlan::<Seq<u8>>::Fail(2)
            &&& !(exclusive && there) && !homeless ==> (plan matches OpenPlan::Prepare {
                parent: directory,
                copy,
                lower,
                upper,
            } && {
                &&& copy <==> layers.upper is None && !hides(root, names)
                &&& lower == render(names)
                &&& upper == joined(root.upper, relative_text(names))
                &&& directory == (if names.len() == 0 {
                    None
                } else {
                    Some(joined(root.upper, relative_text(names.drop_last())))
                })
            })
        }),
{
}

/// An entry is made in the upper layer exactly where the view does not show it yet
/// and shows the directory that it is made in.
pub proof fn law_entries_are_made_in_the_upper_layer(
    root: Root,
    names: Seq<Seq<u8>>,
    layers: Layers,
    parent: Layers,
)
    ensures
        ({
            let there = !hides(root, names) && (layers.upper is Some || layers.lower is Some);
            let homeless = names.len() > 0 && (hides(root, names.drop_last()) || (parent.upper is None
                && parent.lower is None));
            match making(root, names, layers, parent) {
                Ok((directory, upper)) => !there && !homeless && upper == joined(
                    root.upper,
                    relative_text(names),
                ) && directory == (if names.len() == 0 {
                    None
                } else {
                    Some(joined(root.upper, relative_text(names.drop_last())))
                }),
                Err(error) => (there && error == 17) || (!there && homeless && error == 2),
            }
        }),
{
}

/// What the upper layer holds is removed there, a directory as a directory and
/// anything else as a file, and only as the call asks; what only the lower layer
/// shows needs nothing removed, and what is not shown is not found.
pub proof fn law_removal_tells_directories_from_files(
    root: Root,
    names: Seq<Seq<u8>>,
    remove_dir: bool,
    layers: Layers,
)
    ensures
        ({
            let plan = removing(root, names, remove_dir, layers);
            let place = joined(root.upper, relative_text(names));
            let directory = layers.upper == Some(FileKind::Directory);
            &&& layers.upper is Some && remove_dir && directory ==> plan == UnlinkPlan::Directory(
                place,
            )
            &&& layers.upper is Some && !remove_dir && !directory ==> plan == UnlinkPlan::File(place)
            &&& layers.upper is Some && remove_dir && !directory ==> plan == UnlinkPlan::<
                Seq<u8>,
            >::Fail(20)
            &&& layers.upper is Some && !remove_dir && directory ==> plan == UnlinkPlan::<
                Seq<u8>,
            >::Fail(21)
            &&& layers.upper is None && layers.lower is Some && !hides(root, names) ==> plan
                is Nothing
            &&& layers.upper is None && (layers.lower is None || hides(root, names)) ==> plan
                == UnlinkPlan::<Seq<u8>>::Fail(2)
        }),
{
}

/// What one entry's removal or making does leaves every path that is not at or below
/// it, nor above it, as hidden or as visible as it was.
pub proof fn law_changes_stay_local(
    root: Root,
    names: Seq<Seq<u8>>,
    in_lower: bool,
    hidden: Seq<u8>,
)
    ensures
        after_removal(root, names, in_lower).upper == root.upper,
        after_making(root, names).upper == root.upper,
        hidden != relative_text(names) && !whiteout::shadowed(hidden, relative_text(names)) ==> (
        after_removal(root, names, in_lower).hidden.contains(hidden) <==> root.hidden.contains(
            hidden,
        )) && (after_making(root, names).hidden.contains(hidden) <==> root.hidden.contains(hidden)),
        after_removal(root, names, true).hidden.contains(relative_text(names)),
        !after_making(root, names).hidden.contains(relative_text(names)),
        !after_removal(root, names, false).hidden.contains(relative_text(names)),
{
}

/// A rename moves the entry from its place in the upper layer to its new place there,
/// copies it up first exactly where the upper layer lacks it, and replaces what the
/// upper layer holds at the new place. It needs the entry and the new directory to be
/// part of the view.
pub proof fn law_renames_move_in_the_upper_layer(
    root: Root,
    old: Seq<u8>,
    new: Seq<u8>,
    from: Layers,
    to: Layers,
    parent: Layers,
)
    ensures
        ({
            let names = names_of(new);
            let there = !hides(root, names_of(old)) && (from.upper is Some || from.lower is Some);
            let homeless = names.len() > 0 && (hides(root, names.drop_last()) || (parent.upper is None
                && parent.lower is None));
            match moving(root, old, new, from, to, parent) {
                Ok(plan) => {
                    &&& there && !homeless
                    &&& plan.copy <==> from.upper is None
                    &&& plan.lower == normalized(old)
                    &&& plan.replace == to.upper
                    &&& plan.from == joined(root.upper, relative_text(names_of(old)))
                    &&& plan.to == joined(root.upper, relative_text(names))
                    &&& plan.parent == (if names.len() == 0 {
                        None
                    } else {
                        Some(joined(root.upper, relative_text(names.drop_last())))
                    })
                },
                Err(error) => error == 2 && (!there || homeless),
            }
        }),
{
}

/// Files and directories are copied up as what they are, a link as what it leads to
/// where that is a file or a directory and as a link elsewhere; devices and their
/// like, and what is not there, are not copied.
pub proof fn law_entries_are_copied_as_what_they_are(target: Option<FileKind>)
    ensures
        copying(Some(FileKind::File), target) is File,
        copying(Some(FileKind::Directory), target) is Directory,
        copying(Some(FileKind::Other), target) is Nothing,
        copying(None, target) is Nothing,
        copying(Some(FileKind::Symlink), Some(FileKind::File)) is File,
        copying(Some(FileKind::Symlink), Some(FileKind::Directory)) is Directory,
        target != Some(FileKind::File) && target != Some(FileKind::Directory) ==> copying(
            Some(FileKind::Symlink),
            target,
        ) is Link,
{
}

/// On the way to a directory, what the view shows must be one, and what it does not
/// show is made.
pub proof fn law_directories_are_made_on_the_way(
    root: Root,
    names: Seq<Seq<u8>>,
    layers: Layers,
    found: Result<bool, i32>,
)
    ensures
        ({
            let there = !hides(root, names) && (layers.upper is Some || layers.lower is Some);
            let step = stepping(root, names, layers, found);
            &&& step is Make <==> !there
            &&& step is Present <==> there && found == Ok::<bool, i32>(true)
            &&& there && found == Ok::<bool, i32>(false) ==> step == DirectoryStep::Fail(20)
            &&& found matches Err(error) ==> (there ==> step == DirectoryStep::Fail(error))
        }),
{
}

/// A path names a directory of the view exactly where it is read from a directory.
pub proof fn law_directories_are_found_where_they_are_read(
    root: Root,
    path: Seq<u8>,
    in_upper: bool,
    found: Result<bool, i32>,
)
    ensures
        ({
            let answer = directory_at(root, path, in_upper, found);
            let read = reading(root, names_of(path), in_upper);
            &&& answer is Ok <==> read is Ok && found == Ok::<bool, i32>(true)
            &&& answer matches Ok(guest) ==> guest == normalized(path)
            &&& read matches Err(error) ==> answer == Err::<Seq<u8>, i32>(error)
            &&& read is Ok && found == Ok::<bool, i32>(false) ==> answer == Err::<Seq<u8>, i32>(20)
            &&& read is Ok ==> (found matches Err(error) ==> answer == Err::<Seq<u8>, i32>(error))
        }),
{
}

/// Each flag that writes, creates, cuts off or appends asks for a change by itself,
/// and no other flag does; an entry must be new exactly where creating and exclusive
/// come together.
pub proof fn law_flags_ask_for_changes(flags: i32, known: Flags)
    ensures
        flags & known.o_wronly != 0 ==> asks_change(flags, known),
        flags & known.o_rdwr != 0 ==> asks_change(flags, known),
        flags & known.o_creat != 0 ==> asks_change(flags, known),
        flags & known.o_trunc != 0 ==> asks_change(flags, known),
        flags & known.o_append != 0 ==> asks_change(flags, known),
        asks_change(flags, known) ==> flags & known.o_wronly != 0 || flags & known.o_rdwr != 0
            || flags & known.o_creat != 0 || flags & known.o_trunc != 0 || flags & known.o_append
            != 0,
        asks_new(flags, known) <==> flags & known.o_creat != 0 && flags & known.o_excl != 0,
{
    lemma_any_bit(
        flags,
        known.o_wronly,
        known.o_rdwr,
        known.o_creat,
        known.o_trunc,
        known.o_append,
    );
}

proof fn lemma_any_bit(flags: i32, a: i32, b: i32, c: i32, d: i32, e: i32)
    ensures
        flags & (a | b | c | d | e) != 0 <==> flags & a != 0 || flags & b != 0 || flags & c != 0
            || flags & d != 0 || flags & e != 0,
{
    assert(flags & (a | b | c | d | e) != 0 <==> flags & a != 0 || flags & b != 0 || flags & c != 0
        || flags & d != 0 || flags & e != 0) by (bit_vector);
}

/// A hidden path hides itself and what lies below it, and nothing else: not its
/// siblings, however their names begin.
pub proof fn law_hiding_reaches_down_only(hidden: Seq<Seq<u8>>, names: Seq<Seq<u8>>)
    requires
        path::all_names(hidden),
        path::all_names(names),
        hidden.len() > 0,
    ensures
        whiteout::shadowed(relative_text(hidden), relative_text(names)) <==> path::begins_with(
            names,
            hidden,
        ),
{
    let head = relative_text(hidden);
    let whole = relative_text(names);
    path::law_components_of_relative_text(hidden);
    path::law_components_of_relative_text(names);
    if path::begins_with(names, hidden) {
        let deeper = names.skip(hidden.len() as int);
        assert(hidden + deeper =~= names);
        if deeper.len() == 0 {
            assert(names =~= hidden);
        } else {
            lemma_relative_prefix(hidden, deeper);
        }
    }
    if whiteout::shadowed(head, whole) && whole != head {
        let rest = whole.skip(head.len() as int + 1);
        let open = head.push(SEPARATOR);
        assert(whole =~= open + rest) by {
            assert forall|i: int| 0 <= i < whole.len() implies whole[i] == (open + rest)[i] by {
                if i < head.len() {
                    assert(whole.take(head.len() as int)[i] == head[i]);
                }
            }
        }
        path::lemma_components_below(head, rest);
        assert(names.take(hidden.len() as int) =~= hidden);
    }
    if whole == head {
        assert(names == hidden);
        assert(names.take(hidden.len() as int) =~= hidden);
    }
}

/// What a change adds to the log does, when it is read, what the change did to the
/// view: nothing is hidden or revealed that was not, also by a rename.
pub proof fn law_logs_do_what_changes_did(
    root: Root,
    from: Seq<Seq<u8>>,
    to: Seq<Seq<u8>>,
    in_lower: bool,
    log: Seq<u8>,
)
    ensures
        is_making_log(root, to, log) ==> replayed(root.hidden, log) == after_making(root, to).hidden,
        is_removal_log(root, from, in_lower, log) ==> replayed(root.hidden, log) == after_removal(
            root,
            from,
            in_lower,
        ).hidden,
        is_renaming_log(root, from, to, in_lower, log) ==> replayed(root.hidden, log)
            == after_making(after_removal(root, from, in_lower), to).hidden && complete(log),
{
    whiteout::law_logs_do_what_was_done(root.hidden, relative_text(to), log);
    whiteout::law_logs_do_what_was_done(root.hidden, relative_text(from), log);
    if is_renaming_log(root, from, to, in_lower, log) {
        let cut = choose|cut: int|
            0 <= cut <= log.len() && is_removal_log(root, from, in_lower, #[trigger] log.take(cut))
                && is_making_log(after_removal(root, from, in_lower), to, log.skip(cut));
        let first = log.take(cut);
        let more = log.skip(cut);
        let between = after_removal(root, from, in_lower);
        whiteout::law_logs_do_what_was_done(root.hidden, relative_text(from), first);
        whiteout::law_logs_do_what_was_done(between.hidden, relative_text(to), more);
        whiteout::law_log_is_carried_on(root.hidden, first, more);
        whiteout::lemma_complete_sum(first, more);
        assert(first + more =~= log);
    }
}

} // verus!
