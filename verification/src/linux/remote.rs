//! Reading the arguments of a call and turning them into guest paths.

use crate::bind::BindView;
use crate::bytes;
use crate::bytes::{got, seen};
use crate::linux::platform::Platform;
use crate::mapping;
use crate::mapping::{guest_path, leads_back, resolved, valid, Binding};
use crate::number;
use crate::number::{memory_number, ByteOrder};
use crate::path;
use crate::path::{absolute, joined, normalized, SEPARATOR};
use vstd::prelude::*;

verus! {

/// The longest path that is read, its closing zero included.
pub const MAX_PATH: usize = 4096;

/// How many bytes of a path are read at a time.
pub const CHUNK: usize = 256;

/// The part of a path that has been read, and where the path stands.
#[derive(Debug)]
pub struct PathReader {
    address: u64,
    collected: Vec<u8>,
}

/// A partly read path as a value.
pub ghost struct Reading {
    pub address: u64,
    pub collected: Seq<u8>,
}

impl View for PathReader {
    type V = Reading;

    closed spec fn view(&self) -> Reading {
        Reading { address: self.address, collected: self.collected@ }
    }
}

/// How reading a path goes on.
#[derive(Debug)]
pub enum Progress {
    Done(Vec<u8>),
    More(PathReader),
    Failed(i32),
}

/// The index of the first zero, or the length.
pub open spec fn first_zero(text: Seq<u8>) -> int
    decreases text.len(),
{
    if text.len() == 0 || text[0] == 0 {
        0
    } else {
        1 + first_zero(text.skip(1))
    }
}

/// How many bytes to read next.
pub open spec fn wanted(reading: Reading) -> int {
    if MAX_PATH - reading.collected.len() < CHUNK {
        MAX_PATH - reading.collected.len()
    } else {
        CHUNK as int
    }
}

/// How reading a path goes on, as a value.
pub ghost enum Taken {
    Done(Seq<u8>),
    More(Reading),
    Failed(i32),
}

impl View for Progress {
    type V = Taken;

    open spec fn view(&self) -> Taken {
        match self {
            Progress::Done(path) => Taken::Done(path@),
            Progress::More(reader) => Taken::More(reader@),
            Progress::Failed(error) => Taken::Failed(*error),
        }
    }
}

/// How reading a path goes on once `chunk` has been read: the path ends before the
/// first zero, and is too long if none comes.
pub open spec fn taken_in(reading: Reading, chunk: Seq<u8>, too_long: i32) -> Taken {
    let end = first_zero(chunk);
    if end < chunk.len() {
        Taken::Done(reading.collected + chunk.take(end))
    } else if reading.collected.len() + chunk.len() == MAX_PATH {
        Taken::Failed(too_long)
    } else {
        Taken::More(Reading { address: reading.address, collected: reading.collected + chunk })
    }
}

/// The part of memory to read next; addresses go round at their upper end.
pub open spec fn next_piece(reading: Reading) -> Piece {
    let address = reading.address + reading.collected.len();
    Piece {
        address: if address <= u64::MAX {
            address as u64
        } else {
            (address - 0x1_0000_0000_0000_0000) as u64
        },
        length: wanted(reading) as usize,
    }
}

/// A part of memory to read.
#[derive(Clone, Copy, PartialEq, Eq, Structural, Debug)]
pub struct Piece {
    pub address: u64,
    pub length: usize,
}

proof fn lemma_first_zero(text: Seq<u8>, end: int)
    requires
        0 <= end <= text.len(),
        forall|i: int| 0 <= i < end ==> text[i] != 0,
        end < text.len() ==> text[end] == 0,
    ensures
        first_zero(text) == end,
    decreases text.len(),
{
    if end > 0 {
        let rest = text.skip(1);
        assert forall|i: int| 0 <= i < end - 1 implies rest[i] != 0 by {
            assert(rest[i] == text[i + 1]);
        }
        assert(text[0] != 0);
        lemma_first_zero(rest, end - 1);
    }
}

proof fn lemma_before_zero(text: Seq<u8>)
    ensures
        0 <= first_zero(text) <= text.len(),
        forall|i: int| 0 <= i < first_zero(text) ==> text[i] != 0,
        first_zero(text) < text.len() ==> text[first_zero(text)] == 0,
    decreases text.len(),
{
    if text.len() > 0 && text[0] != 0 {
        let rest = text.skip(1);
        lemma_before_zero(rest);
        assert forall|i: int| 0 <= i < first_zero(text) implies text[i] != 0 by {
            if i > 0 {
                assert(rest[i - 1] == text[i]);
            }
        }
    }
}

/// How reading the path at `address` begins; none stands at the null address.
pub open spec fn begun(address: u64, fault: i32) -> Result<Reading, i32> {
    if address == 0 {
        Err(fault)
    } else {
        Ok(Reading { address, collected: seq![] })
    }
}

impl PathReader {
    #[verifier::type_invariant]
    spec fn well_formed(self) -> bool {
        self.collected@.len() < MAX_PATH
    }

    /// Starts to read the path at `address`; none stands at the null address.
    pub fn read_path(address: u64, platform: &Platform) -> (answer: Result<PathReader, i32>)
        ensures
            match answer {
                Ok(reader) => begun(address, platform.errors.efault) == Ok::<Reading, i32>(reader@),
                Err(error) => begun(address, platform.errors.efault) == Err::<Reading, i32>(error),
            },
            match answer {
                Ok(reader) => address != 0 && reader@ == (Reading { address, collected: seq![] }),
                Err(error) => address == 0 && error == platform.errors.efault,
            },
    {
        if address == 0 {
            return Err(platform.errors.efault);
        }
        let collected: Vec<u8> = Vec::new();
        assert(collected@ =~= seq![]);
        Ok(PathReader { address, collected })
    }

    /// The part of memory to read next.
    pub fn piece(&self) -> (piece: Piece)
        ensures
            piece == next_piece(self@),
            piece.length == wanted(self@),
            0 < piece.length <= CHUNK,
            self@.address + self@.collected.len() <= u64::MAX ==> piece.address == self@.address
                + self@.collected.len(),
            self@.address + self@.collected.len() > u64::MAX ==> piece.address == self@.address
                + self@.collected.len() - 0x1_0000_0000_0000_0000,
    {
        proof {
            use_type_invariant(self);
        }
        let left: usize = MAX_PATH - self.collected.len();
        let length: usize = if left < CHUNK {
            left
        } else {
            CHUNK
        };
        Piece { address: self.address.wrapping_add(self.collected.len() as u64), length }
    }

    /// Takes in what was read: the path ends before the first zero.
    pub fn accept(self, chunk: &[u8], platform: &Platform) -> (progress: Progress)
        requires
            chunk@.len() <= wanted(self@),
        ensures
            progress@ == taken_in(self@, chunk@, platform.errors.enametoolong),
            match progress {
                Progress::Done(path) => first_zero(chunk@) < chunk@.len() && path@
                    == self@.collected + chunk@.take(first_zero(chunk@)),
                Progress::More(reader) => first_zero(chunk@) == chunk@.len() && reader@ == (
                Reading { address: self@.address, collected: self@.collected + chunk@ })
                    && self@.collected.len() + chunk@.len() < MAX_PATH,
                Progress::Failed(error) => first_zero(chunk@) == chunk@.len()
                    && self@.collected.len() + chunk@.len() == MAX_PATH && error
                    == platform.errors.enametoolong,
            },
    {
        proof {
            use_type_invariant(&self);
        }
        let address = self.address;
        let mut collected = self.collected;
        let mut end: usize = 0;
        while end < chunk.len() && chunk[end] != 0
            invariant
                end <= chunk.len(),
                forall|i: int| 0 <= i < end ==> chunk@[i] != 0,
            decreases chunk.len() - end,
        {
            end += 1;
        }
        proof {
            lemma_first_zero(chunk@, end as int);
        }
        bytes::append_range(&mut collected, chunk, 0, end);
        assert(chunk@.subrange(0, end as int) =~= chunk@.take(end as int));
        if end < chunk.len() {
            return Progress::Done(collected);
        }
        assert(chunk@.take(end as int) =~= chunk@);
        if collected.len() == MAX_PATH {
            return Progress::Failed(platform.errors.enametoolong);
        }
        Progress::More(PathReader { address, collected })
    }
}

/// A path is read as it stands in memory, up to its first zero: if what has been
/// read so far is the head of `memory` without a zero in it, and the next chunk
/// is what follows there, then the path that is handed out is `memory` up to its
/// first zero, and otherwise what has been read is again a head of `memory`
/// without a zero.
pub proof fn law_path_is_read_from_memory(memory: Seq<u8>, collected: Seq<u8>, chunk: Seq<u8>)
    requires
        collected.len() + chunk.len() <= memory.len(),
        collected == memory.take(collected.len() as int),
        !collected.contains(0),
        chunk == memory.subrange(
            collected.len() as int,
            (collected.len() + chunk.len()) as int,
        ),
    ensures
        first_zero(chunk) < chunk.len() ==> collected + chunk.take(first_zero(chunk))
            == memory.take(first_zero(memory)),
        first_zero(chunk) == chunk.len() ==> collected + chunk == memory.take(
            (collected.len() + chunk.len()) as int,
        ) && !(collected + chunk).contains(0),
        !(collected + chunk.take(first_zero(chunk))).contains(0),
{
    lemma_before_zero(chunk);
    let end = first_zero(chunk);
    let base = collected.len() as int;
    assert forall|i: int| 0 <= i < base + end implies memory[i] != 0 by {
        if i < base {
            assert(collected[i] == memory[i]);
            assert(collected.contains(collected[i]));
        } else {
            assert(chunk[i - base] == memory[i]);
        }
    }
    let read = collected + chunk.take(end);
    assert(read =~= memory.take(base + end));
    assert(!read.contains(0)) by {
        if read.contains(0) {
            let k = choose|k: int| 0 <= k < read.len() && read[k] == 0;
            assert(memory[k] == 0);
        }
    }
    if end < chunk.len() {
        assert(memory[base + end] == chunk[end]);
        lemma_first_zero(memory, base + end);
    } else {
        assert(chunk.take(end) =~= chunk);
    }
}

/// The bytes that put `replacement` in the place of the path `original`: they
/// may not reach beyond its closing zero.
pub fn rewrite_path(original: &[u8], replacement: &[u8], platform: &Platform) -> (answer: Result<
    Vec<u8>,
    i32,
>)
    ensures
        match answer {
            Ok(bytes) => replacement@.len() <= original@.len() && bytes@ == replacement@.push(0)
                && bytes@.len() <= original@.len() + 1,
            Err(error) => replacement@.len() > original@.len() && error
                == platform.errors.enametoolong,
        },
{
    if replacement.len() > original.len() {
        return Err(platform.errors.enametoolong);
    }
    let mut bytes = bytes::copy(replacement);
    bytes.push(0);
    Ok(bytes)
}

/// What a write of `length` bytes to the memory of a process amounts to.
pub open spec fn write_outcome(written: Result<usize, i32>, length: usize, broken: i32) -> Result<
    (),
    i32,
> {
    match written {
        Err(error) => Err(error),
        Ok(count) => if count == length {
            Ok(())
        } else {
            Err(broken)
        },
    }
}

/// Whether a write to the memory of a process went through: it must not fail,
/// and none of its `length` bytes may be left out.
pub fn write_memory(written: Result<usize, i32>, length: usize, platform: &Platform) -> (answer:
    Result<(), i32>)
    ensures
        answer == write_outcome(written, length, platform.errors.eio),
{
    match written {
        Err(error) => Err(error),
        Ok(count) => if count == length {
            Ok(())
        } else {
            Err(platform.errors.eio)
        },
    }
}

/// The length of the structure that `openat2` takes.
pub const OPEN_HOW_SIZE: usize = 24;

/// How a file is to be opened, from the structure that `openat2` takes: flags
/// and mode are its first two 64-bit numbers, of which the low halves count.
pub open spec fn opening_of(order: ByteOrder, how: Seq<u8>) -> (i32, u32) {
    (
        (memory_number(order, how.subrange(0, 8)) as u64) as i32,
        (memory_number(order, how.subrange(8, 16)) as u64) as u32,
    )
}

/// How a file is to be opened, from the structure that `openat2` takes.
pub fn open_how(order: ByteOrder, how: &[u8]) -> (flags_and_mode: (i32, u32))
    requires
        how.len() == OPEN_HOW_SIZE,
    ensures
        flags_and_mode == opening_of(order, how@),
        flags_and_mode.0 == (memory_number(order, how@.subrange(0, 8)) as u64) as i32,
        flags_and_mode.1 == (memory_number(order, how@.subrange(8, 16)) as u64) as u32,
{
    let flags = number::from_memory(order, bytes::range(how, 0, 8).as_slice());
    let mode = number::from_memory(order, bytes::range(how, 8, 16).as_slice());
    (flags as i32, mode as u32)
}

/// Where a path argument starts from.
#[derive(Clone, Copy, PartialEq, Eq, Structural, Debug)]
pub enum Anchor {
    Root,
    WorkingDirectory,
    Descriptor,
}

/// Where the path argument `path` of a call with the descriptor `dirfd` starts
/// from; `here` is the descriptor that stands for the working directory.
pub open spec fn anchored(path: Seq<u8>, dirfd: i32, here: i32) -> Anchor {
    if path.len() == 0 || absolute(path) {
        Anchor::Root
    } else if dirfd == here {
        Anchor::WorkingDirectory
    } else {
        Anchor::Descriptor
    }
}

/// Where the path argument `path` of a call with the descriptor `dirfd` starts
/// from.
pub fn anchor(path: &[u8], dirfd: i32, platform: &Platform) -> (start: Anchor)
    ensures
        start == anchored(path@, dirfd, platform.flags.at_fdcwd),
{
    if path.len() == 0 || path::is_absolute(path) {
        Anchor::Root
    } else if dirfd == platform.flags.at_fdcwd {
        Anchor::WorkingDirectory
    } else {
        Anchor::Descriptor
    }
}

/// The directory that a relative path starts from: a guest path, a physical
/// path, or none because the descriptor cannot be looked up.
#[derive(Debug)]
pub enum Base<P> {
    Guest(P),
    Host(P),
    Missing(i32),
}

impl View for Base<Vec<u8>> {
    type V = Base<Seq<u8>>;

    open spec fn view(&self) -> Base<Seq<u8>> {
        match self {
            Base::Guest(path) => Base::Guest(path@),
            Base::Host(path) => Base::Host(path@),
            Base::Missing(error) => Base::Missing(*error),
        }
    }
}

/// The directory that paths relative to the working directory start from: the
/// guest working directory where one is known, else the physical one, or `/`
/// where that cannot be read.
pub open spec fn working_base(known: Option<Seq<u8>>, host: Result<Seq<u8>, i32>) -> Base<Seq<u8>> {
    match (known, host) {
        (Some(path), _) => Base::Guest(path),
        (None, Ok(path)) => Base::Host(path),
        (None, Err(_)) => Base::Host(seq![SEPARATOR]),
    }
}

/// The directory that paths relative to a descriptor start from: the guest path
/// of the directory where the descriptor is known to stand for one, else what
/// the descriptor is linked to.
pub open spec fn descriptor_start(known: Option<Seq<u8>>, link: Result<Seq<u8>, i32>) -> Base<
    Seq<u8>,
> {
    match (known, link) {
        (Some(path), _) => Base::Guest(path),
        (None, Ok(path)) => Base::Host(path),
        (None, Err(error)) => Base::Missing(error),
    }
}

/// The directory that paths relative to the working directory start from.
pub fn process_cwd(known: Option<Vec<u8>>, host: Result<Vec<u8>, i32>) -> (base: Base<Vec<u8>>)
    ensures
        base@ == working_base(seen(known), got(host)),
{
    match known {
        Some(path) => Base::Guest(path),
        None => match host {
            Ok(path) => Base::Host(path),
            Err(_) => {
                let mut root: Vec<u8> = Vec::new();
                root.push(SEPARATOR);
                assert(root@ =~= seq![SEPARATOR]);
                Base::Host(root)
            },
        },
    }
}

/// The directory that paths relative to a descriptor start from.
pub fn descriptor_base(known: Option<Vec<u8>>, link: Result<Vec<u8>, i32>) -> (base: Base<Vec<u8>>)
    ensures
        base@ == descriptor_start(seen(known), got(link)),
{
    match known {
        Some(path) => Base::Guest(path),
        None => match link {
            Ok(path) => Base::Host(path),
            Err(error) => Base::Missing(error),
        },
    }
}

/// A descriptor that is linked to `actual` stands for the directory at `expected`.
pub open spec fn stands_for(actual: Option<Seq<u8>>, expected: Seq<u8>) -> bool {
    actual matches Some(actual) && path::parts_of(actual) == path::parts_of(expected)
}

/// Whether a descriptor still stands for a directory: it is linked to the
/// directory's physical path.
pub fn directory_fd_matches(actual: Option<&[u8]>, expected: &[u8]) -> (same: bool)
    ensures
        same == stands_for(
            match actual {
                Some(actual) => Some(actual@),
                None => None,
            },
            expected@,
        ),
{
    match actual {
        Some(actual) => path::same_path(actual, expected),
        None => false,
    }
}

/// The guest path that `path` stands for when it starts from `base`.
pub open spec fn located(
    binds: Seq<Binding>,
    path: Seq<u8>,
    base: Base<Seq<u8>>,
    missing: i32,
) -> Result<Seq<u8>, i32> {
    if path.len() == 0 {
        Err(missing)
    } else if absolute(path) {
        Ok(normalized(path))
    } else {
        match base {
            Base::Guest(base) => Ok(normalized(joined(base, path))),
            Base::Host(base) => Ok(normalized(joined(guest_path(binds, base), path))),
            Base::Missing(error) => Err(error),
        }
    }
}

/// Turns a path argument into a guest path. An empty path is no spelling of the
/// working directory; it names nothing.
pub fn resolve_path(view: &BindView, path: &[u8], base: &Base<Vec<u8>>, platform: &Platform) -> (
    answer: Result<Vec<u8>, i32>)
    ensures
        got(answer) == located(view@, path@, base@, platform.errors.enoent),
{
    if path.len() == 0 {
        return Err(platform.errors.enoent);
    }
    if path::is_absolute(path) {
        return Ok(normalize(path));
    }
    match base {
        Base::Guest(base) => Ok(normalize(path::join(base.as_slice(), path).as_slice())),
        Base::Host(base) => {
            let guest = view.virtual_for_host(base.as_slice());
            Ok(normalize(path::join(guest.as_slice(), path).as_slice()))
        },
        Base::Missing(error) => Err(*error),
    }
}

/// The normalized absolute spelling of a path.
pub fn normalize(path: &[u8]) -> (normal: Vec<u8>)
    ensures
        normal@ == normalized(path@),
{
    path::normalize_virtual(path)
}

/// A relative path stands for what it stands for from the directory that it
/// starts from: joined to an absolute guest directory, it is the same guest path
/// from everywhere.
pub proof fn law_relative_paths_follow_directory(
    binds: Seq<Binding>,
    directory: Seq<u8>,
    path: Seq<u8>,
    base: Base<Seq<u8>>,
    missing: i32,
)
    requires
        absolute(directory),
        path.len() > 0,
        !absolute(path),
    ensures
        located(binds, path, Base::Guest(directory), missing) == located(
            binds,
            joined(directory, path),
            base,
            missing,
        ),
{
    let whole = joined(directory, path);
    assert(whole[0] == directory[0]);
}

/// A directory and its normalized spelling are the same place to start from.
pub proof fn law_directory_may_be_normalized(
    binds: Seq<Binding>,
    directory: Seq<u8>,
    path: Seq<u8>,
    missing: i32,
)
    ensures
        located(binds, path, Base::Guest(normalized(directory)), missing) == located(
            binds,
            path,
            Base::Guest(directory),
            missing,
        ),
{
    path::law_base_may_be_normalized(directory, path);
}

/// A path that is relative to a descriptor or to the kernel's working directory
/// means the same as one that is relative to the guest directory behind it,
/// wherever the physical directory leads back.
pub proof fn law_descriptor_paths_map_back(
    binds: Seq<Binding>,
    directory: Seq<u8>,
    path: Seq<u8>,
    missing: i32,
)
    requires
        valid(binds),
        leads_back(binds, directory),
    ensures
        located(binds, path, Base::Host(resolved(binds, directory)), missing) == located(
            binds,
            path,
            Base::Guest(normalized(directory)),
            missing,
        ),
{
    mapping::law_physical_paths_map_back(binds, directory);
}

/// Every guest path that a path argument stands for is absolute and normalized.
pub proof fn law_guest_paths_are_normalized(
    binds: Seq<Binding>,
    path: Seq<u8>,
    base: Base<Seq<u8>>,
    missing: i32,
)
    ensures
        located(binds, path, base, missing) matches Ok(guest) ==> normalized(guest) == guest
            && absolute(guest),
{
    path::law_normalize_is_idempotent(path);
    if let Base::Guest(base) = base {
        path::law_normalize_is_idempotent(joined(base, path));
    }
    if let Base::Host(base) = base {
        path::law_normalize_is_idempotent(joined(guest_path(binds, base), path));
    }
}

/// A path starts where it says: an absolute one at the root, any other at the
/// descriptor of the call, which stands for the working directory where it is the
/// number for that. An empty path starts nowhere and names nothing.
pub proof fn law_paths_start_where_they_say(path: Seq<u8>, dirfd: i32, here: i32)
    ensures
        path.len() > 0 && path[0] == 47 ==> anchored(path, dirfd, here) == Anchor::Root,
        path.len() > 0 && path[0] != 47 && dirfd == here ==> anchored(path, dirfd, here)
            == Anchor::WorkingDirectory,
        path.len() > 0 && path[0] != 47 && dirfd != here ==> anchored(path, dirfd, here)
            == Anchor::Descriptor,
        path.len() == 0 ==> anchored(path, dirfd, here) == Anchor::Root,
{
}

/// What is known of a directory as a guest path goes before what the kernel tells.
/// A working directory that neither tells is the root; a descriptor that neither
/// tells fails the call with the kernel's error.
pub proof fn law_guest_directories_come_first(
    known: Option<Seq<u8>>,
    told: Result<Seq<u8>, i32>,
)
    ensures
        known matches Some(path) ==> working_base(known, told) == Base::Guest(path)
            && descriptor_start(known, told) == Base::Guest(path),
        known is None ==> (told matches Ok(path) ==> working_base(known, told) == Base::Host(path)
            && descriptor_start(known, told) == Base::Host(path)),
        known is None ==> (told matches Err(error) ==> working_base(known, told) == Base::Host(
            seq![47u8],
        ) && descriptor_start(known, told) == Base::<Seq<u8>>::Missing(error)),
{
}

/// An absolute path is the guest path that it spells, wherever it is used; an empty
/// one names nothing, and a relative one without a directory to start from fails as
/// the look-up of the directory did.
pub proof fn law_absolute_paths_stand_for_themselves(
    binds: Seq<Binding>,
    path: Seq<u8>,
    base: Base<Seq<u8>>,
    missing: i32,
)
    ensures
        path.len() == 0 ==> located(binds, path, base, missing) == Err::<Seq<u8>, i32>(missing),
        absolute(path) ==> (located(binds, path, base, missing) matches Ok(guest)
            && path::names_of(guest) == path::names_of(path)),
        path.len() > 0 && !absolute(path) ==> (base matches Base::Missing(error) ==> located(
            binds,
            path,
            base,
            missing,
        ) == Err::<Seq<u8>, i32>(error)),
{
    path::law_normalize_is_idempotent(path);
}

/// A relative path leads on from the names of its directory: a plain name one step
/// down, `..` one step up.
pub proof fn law_relative_paths_lead_on(
    binds: Seq<Binding>,
    directory: Seq<u8>,
    name: Seq<u8>,
    missing: i32,
)
    requires
        path::is_plain(name),
    ensures
        located(binds, name, Base::Guest(directory), missing) matches Ok(guest)
            && path::names_of(guest) == path::names_of(directory).push(name),
        located(binds, seq![46u8, 46], Base::Guest(directory), missing) matches Ok(guest)
            && path::names_of(guest) == if path::names_of(directory).len() == 0 {
            path::names_of(directory)
        } else {
            path::names_of(directory).drop_last()
        },
{
    path::law_path_is_walked_segment_by_segment(directory, name);
    path::law_normalize_is_idempotent(joined(directory, name));
    path::law_normalize_is_idempotent(joined(directory, seq![46u8, 46]));
    assert(name[0] != SEPARATOR) by {
        assert(name.contains(name[0]));
    }
    assert(seq![46u8, 46].len() == 2 && seq![46u8, 46][0] == 46);
}

/// A physical directory below no source is where a relative path starts from as it
/// stands.
pub proof fn law_host_directories_outside_binds_are_kept(
    binds: Seq<Binding>,
    directory: Seq<u8>,
    path: Seq<u8>,
    missing: i32,
)
    requires
        forall|i: int|
            0 <= i < binds.len() ==> !path::begins_with(
                path::parts_of(directory),
                path::parts_of((#[trigger] binds[i]).source),
            ),
    ensures
        located(binds, path, Base::Host(directory), missing) == located(
            binds,
            path,
            Base::Guest(directory),
            missing,
        ),
{
    mapping::law_longest_source_wins(binds, directory);
}

/// A path is read piece by piece from where it stands: each piece begins behind
/// what has been read, is not empty, and reaches neither beyond a chunk nor beyond
/// the longest path; it is no shorter than both allow.
pub proof fn law_pieces_follow_each_other(reading: Reading)
    requires
        reading.collected.len() < 4096,
        reading.address + reading.collected.len() <= u64::MAX,
    ensures
        ({
            let piece = next_piece(reading);
            &&& piece.address == reading.address + reading.collected.len()
            &&& 0 < piece.length <= 256
            &&& reading.collected.len() + piece.length <= 4096
            &&& piece.length == 256 || reading.collected.len() + piece.length == 4096
        }),
{
}

/// Reading ends at the first zero and nowhere else: with what stands before it, if
/// one comes within the longest path, and with the error for a path that is too
/// long, if none does.
pub proof fn law_reading_ends_at_the_first_zero(reading: Reading, chunk: Seq<u8>, too_long: i32)
    requires
        !reading.collected.contains(0),
    ensures
        match taken_in(reading, chunk, too_long) {
            Taken::Done(path) => chunk.contains(0) && !path.contains(0) && path.len()
                >= reading.collected.len() && path.take(reading.collected.len() as int)
                == reading.collected && path.push(0) == (reading.collected + chunk).take(
                path.len() as int + 1,
            ),
            Taken::More(next) => !chunk.contains(0) && next.address == reading.address
                && next.collected == reading.collected + chunk && next.collected.len() != 4096,
            Taken::Failed(error) => !chunk.contains(0) && error == too_long
                && reading.collected.len() + chunk.len() == 4096,
        },
{
    lemma_before_zero(chunk);
    let end = first_zero(chunk);
    if end < chunk.len() {
        assert(chunk.contains(chunk[end]));
        let path = reading.collected + chunk.take(end);
        assert(path.take(reading.collected.len() as int) =~= reading.collected);
        assert(path.push(0) =~= (reading.collected + chunk).take(path.len() as int + 1));
        assert(!path.contains(0)) by {
            if path.contains(0) {
                let k = choose|k: int| 0 <= k < path.len() && path[k] == 0;
                if k < reading.collected.len() {
                    assert(reading.collected.contains(reading.collected[k]));
                } else {
                    assert(chunk[k - reading.collected.len()] == 0);
                }
            }
        }
    }
}

/// A write counts as done exactly if all of its bytes were written.
pub proof fn law_short_writes_are_failures(written: Result<usize, i32>, length: usize, broken: i32)
    ensures
        write_outcome(written, length, broken) is Ok <==> written == Ok::<usize, i32>(length),
        written matches Err(error) ==> write_outcome(written, length, broken) == Err::<(), i32>(
            error,
        ),
        written matches Ok(count) ==> (count != length ==> write_outcome(written, length, broken)
            == Err::<(), i32>(broken)),
{
}

/// Flags and mode are read back from the structure that they were laid down in, cut
/// to the width that opening takes, whatever follows them there.
pub proof fn law_opening_structure_is_read_back(
    order: ByteOrder,
    flags: u64,
    mode: u64,
    rest: Seq<u8>,
)
    requires
        rest.len() == 8,
    ensures
        ({
            let how = number::memory_bytes(order, flags as nat, 8) + number::memory_bytes(
                order,
                mode as nat,
                8,
            ) + rest;
            how.len() == OPEN_HOW_SIZE && opening_of(order, how) == (flags as i32, mode as u32)
        }),
{
    reveal_with_fuel(number::capacity, 9);
    number::law_memory_is_read_back(order, flags as nat, 8);
    number::law_memory_is_read_back(order, mode as nat, 8);
    let first = number::memory_bytes(order, flags as nat, 8);
    let second = number::memory_bytes(order, mode as nat, 8);
    let how = first + second + rest;
    assert(how.subrange(0, 8) =~= first);
    assert(how.subrange(8, 16) =~= second);
}

/// A path is read from its address on, with nothing read yet; the null address holds
/// none.
pub proof fn law_reading_begins_at_the_address(address: u64, fault: i32)
    ensures
        address == 0 ==> begun(address, fault) == Err::<Reading, i32>(fault),
        address != 0 ==> (begun(address, fault) matches Ok(reading) && reading.address == address
            && reading.collected.len() == 0),
{
}

/// A descriptor stands for a directory where it is linked to the same path, however
/// that is spelled, and for none where its link cannot be read.
pub proof fn law_descriptor_stands_for_its_link(one: Seq<Seq<u8>>, other: Seq<Seq<u8>>)
    requires
        path::all_names(one),
        path::all_names(other),
    ensures
        stands_for(Some(path::render(one)), path::render(other)) <==> one == other,
        !stands_for(None, path::render(other)),
{
    path::law_components_of_render(one);
    path::law_components_of_render(other);
    let left = path::parts_of(path::render(one));
    let right = path::parts_of(path::render(other));
    assert(left.skip(1) =~= one);
    assert(right.skip(1) =~= other);
}

} // verus!
