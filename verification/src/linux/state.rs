//! What the supervisor remembers between calls: open directories and guest
//! working directories.

use crate::bind::BindView;
use crate::bytes;
use crate::bytes::seen;
use crate::directory::{entries_of, DirEntry};
use crate::linux::listing::{advanced, delivered, Listing, OpenDirectory};
use crate::mapping::Binding;
use crate::number::ByteOrder;
use std::collections::HashMap;
use vstd::prelude::*;

verus! {

/// What the supervisor remembers, as a value: the mappings, the directories that
/// processes have open under a descriptor, and the guest working directories of
/// processes.
pub ghost struct Held {
    pub binds: Seq<Binding>,
    pub directories: Map<(u32, i32), Listing>,
    pub cwds: Map<u32, Seq<u8>>,
}

/// The guest path of the directory that a process has open as `fd`, where it is
/// remembered.
pub open spec fn remembered_path(held: Held, key: u32, fd: i32) -> Option<Seq<u8>> {
    if held.directories.contains_key((key, fd)) {
        Some(held.directories[(key, fd)].path)
    } else {
        None
    }
}

/// What the supervisor remembers between calls.
pub struct State {
    view: BindView,
    directories: HashMap<u64, OpenDirectory>,
    virtual_cwds: HashMap<u32, Vec<u8>>,
}

/// A number for a process and a descriptor of it.
spec fn slot(key: u32, fd: i32) -> u64 {
    (key * 0x1_0000_0000 + fd + 0x8000_0000) as u64
}

impl View for State {
    type V = Held;

    closed spec fn view(&self) -> Held {
        Held {
            binds: self.view@,
            directories: Map::new(
                |place: (u32, i32)| self.directories@.contains_key(slot(place.0, place.1)),
                |place: (u32, i32)| self.directories@[slot(place.0, place.1)]@,
            ),
            cwds: self.virtual_cwds@.map_values(|path: Vec<u8>| path@),
        }
    }
}

proof fn lemma_slots(key: u32, fd: i32)
    ensures
        forall|k: u32, f: i32| #[trigger] slot(k, f) == slot(key, fd) ==> k == key && f == fd,
{
}

/// A number for a process and a descriptor of it.
fn slot_of(key: u32, fd: i32) -> (index: u64)
    ensures
        index == slot(key, fd),
{
    (key as u64) * 0x1_0000_0000 + (fd as i64 + 0x8000_0000) as u64
}

impl State {
    /// Nothing is remembered yet.
    pub fn new(view: BindView) -> (state: State)
        ensures
            state@ == (Held { binds: view@, directories: Map::empty(), cwds: Map::empty() }),
    {
        broadcast use vstd::std_specs::hash::group_hash_axioms;

        let directories: HashMap<u64, OpenDirectory> = HashMap::new();
        let virtual_cwds: HashMap<u32, Vec<u8>> = HashMap::new();
        let state = State { view, directories, virtual_cwds };
        assert(state@.directories =~= Map::empty());
        assert(state@.cwds =~= Map::empty());
        state
    }

    /// The mappings.
    pub fn bind_view(&self) -> (view: &BindView)
        ensures
            view@ == self@.binds,
    {
        &self.view
    }

    /// The guest path of the directory that a process has open as `fd`.
    pub fn directory_path(&self, key: u32, fd: i32) -> (path: Option<Vec<u8>>)
        ensures
            seen(path) == remembered_path(self@, key, fd),
    {
        broadcast use vstd::std_specs::hash::group_hash_axioms;

        let index = slot_of(key, fd);
        assert(slot((key, fd).0, (key, fd).1) == index);
        match self.directories.get(&index) {
            Some(directory) => Some(bytes::copy(directory.path())),
            None => None,
        }
    }

    /// Remembers that a process has a directory open as `fd`.
    pub fn remember_directory(&mut self, key: u32, fd: i32, path: Vec<u8>, entries: Vec<DirEntry>)
        ensures
            final(self)@ == (Held {
                directories: old(self)@.directories.insert(
                    (key, fd),
                    Listing { path: path@, entries: entries_of(entries@), cursor: 0 },
                ),
                ..old(self)@
            }),
    {
        broadcast use vstd::std_specs::hash::group_hash_axioms;

        let ghost given = self@;
        let directory = OpenDirectory::new(path, entries);
        let ghost listing = directory@;
        let _before = self.directories.insert(slot_of(key, fd), directory);
        proof {
            lemma_slots(key, fd);
            assert(self@.directories =~= given.directories.insert((key, fd), listing));
        }
    }

    /// Delivers more records of the directory that a process has open as `fd`;
    /// nothing if none is remembered, and nothing in it if not even one record
    /// fits into `room` bytes.
    pub fn deliver(&mut self, key: u32, fd: i32, order: ByteOrder, room: usize) -> (answer: Option<
        Option<Vec<u8>>,
    >)
        ensures
            match answer {
                None => !old(self)@.directories.contains_key((key, fd)) && final(self)@ == old(
                    self,
                )@,
                Some(output) => {
                    let listing = old(self)@.directories[(key, fd)];
                    &&& old(self)@.directories.contains_key((key, fd))
                    &&& final(self)@ == (Held {
                        directories: old(self)@.directories.insert(
                            (key, fd),
                            advanced(listing, room as nat),
                        ),
                        ..old(self)@
                    })
                    &&& seen(output) == delivered(order, listing, room as nat)
                    &&& seen(output) matches Some(bytes) ==> bytes.len() <= room
                },
            },
    {
        broadcast use vstd::std_specs::hash::group_hash_axioms;

        let ghost given = self@;
        let index = slot_of(key, fd);
        assert(slot((key, fd).0, (key, fd).1) == index);
        match self.directories.remove(&index) {
            None => {
                assert(self@.directories =~= given.directories);
                None
            },
            Some(taken) => {
                let mut directory = taken;
                let output = directory.deliver(order, room);
                let ghost listing = directory@;
                let _before = self.directories.insert(index, directory);
                proof {
                    lemma_slots(key, fd);
                    assert(self@.directories =~= given.directories.insert((key, fd), listing));
                }
                Some(output)
            },
        }
    }

    /// The guest working directory of a process, where it is known.
    pub fn known_cwd(&self, key: u32) -> (path: Option<Vec<u8>>)
        ensures
            seen(path) == if self@.cwds.contains_key(key) {
                Some(self@.cwds[key])
            } else {
                None
            },
    {
        broadcast use vstd::std_specs::hash::group_hash_axioms;

        match self.virtual_cwds.get(&key) {
            Some(path) => Some(bytes::copy(path.as_slice())),
            None => None,
        }
    }

    /// Remembers the guest working directory of a process.
    pub fn remember_cwd(&mut self, key: u32, path: Vec<u8>)
        ensures
            final(self)@ == (Held { cwds: old(self)@.cwds.insert(key, path@), ..old(self)@ }),
    {
        broadcast use vstd::std_specs::hash::group_hash_axioms;

        let ghost given = self@;
        let ghost named = path@;
        let _before = self.virtual_cwds.insert(key, path);
        proof {
            assert(self@.cwds =~= given.cwds.insert(key, named));
            assert(self@.directories =~= given.directories);
        }
    }
}

/// How many processes up a guest working directory is looked for.
pub const GENERATIONS: u8 = 16;

/// A search for the guest working directory of a process: the process looked at
/// and how many more may be looked at, it included.
#[derive(Clone, Copy, PartialEq, Eq, Structural, Debug)]
pub struct CwdSearch {
    pub current: u32,
    pub left: u8,
}

/// How a search for a guest working directory goes on.
#[derive(Debug)]
pub enum CwdStep {
    Found(Vec<u8>),
    Absent,
    Ascend(u32),
}

/// The guest working directory of the process `current`: its own, or that of the
/// nearest of its parents, among `left` processes in all. `parent` tells the
/// parent of a process and `leader` the process that a thread belongs to.
pub open spec fn inherited(
    cwds: Map<u32, Seq<u8>>,
    parent: spec_fn(u32) -> Option<u32>,
    leader: spec_fn(u32) -> u32,
    current: u32,
    left: nat,
) -> Option<Seq<u8>>
    decreases left,
{
    if left == 0 {
        None
    } else if cwds.contains_key(current) {
        Some(cwds[current])
    } else {
        match parent(current) {
            None => None,
            Some(above) => if above == 0 || above == current {
                None
            } else {
                inherited(cwds, parent, leader, leader(above), (left - 1) as nat)
            },
        }
    }
}

/// The parent to go on with from the process `current`: none where there is none,
/// and none where going on would lead nowhere.
pub open spec fn above_of(current: u32, parent: Option<u32>) -> Option<u32> {
    match parent {
        Some(above) => if above == 0 || above == current {
            None
        } else {
            Some(above)
        },
        None => None,
    }
}

impl CwdSearch {
    /// Starts at the process with the key `key`.
    pub fn virtual_cwd(key: u32) -> (search: CwdSearch)
        ensures
            search == (CwdSearch { current: key, left: 16 }),
    {
        CwdSearch { current: key, left: GENERATIONS }
    }

    /// Looks at the current process.
    pub fn look(&self, state: &State) -> (step: CwdStep)
        ensures
            forall|parent: spec_fn(u32) -> Option<u32>, leader: spec_fn(u32) -> u32|
                match step {
                    CwdStep::Found(path) => #[trigger] inherited(
                        state@.cwds,
                        parent,
                        leader,
                        self.current,
                        self.left as nat,
                    ) == Some(path@),
                    CwdStep::Absent => inherited(
                        state@.cwds,
                        parent,
                        leader,
                        self.current,
                        self.left as nat,
                    ) is None,
                    CwdStep::Ascend(_) => true,
                },
            match step {
                CwdStep::Found(path) => self.left > 0 && state@.cwds.contains_key(self.current)
                    && path@ == state@.cwds[self.current],
                CwdStep::Absent => self.left == 0,
                CwdStep::Ascend(process) => self.left > 0 && !state@.cwds.contains_key(
                    self.current,
                ) && process == self.current,
            },
    {
        if self.left == 0 {
            return CwdStep::Absent;
        }
        match state.known_cwd(self.current) {
            Some(path) => CwdStep::Found(path),
            None => CwdStep::Ascend(self.current),
        }
    }

    /// The parent to go on with, from what the status of the current process
    /// tells.
    pub fn above(&self, parent: Option<u32>) -> (next: Option<u32>)
        ensures
            next == above_of(self.current, parent),
            next == match parent {
                Some(above) => if above == 0 || above == self.current {
                    None::<u32>
                } else {
                    Some(above)
                },
                None => None::<u32>,
            },
    {
        match parent {
            Some(above) => if above == 0 || above == self.current {
                None
            } else {
                Some(above)
            },
            None => None,
        }
    }

    /// Goes on with the process that the parent belongs to.
    pub fn ascend(&self, leader: u32) -> (search: CwdSearch)
        requires
            self.left > 0,
        ensures
            search == (CwdSearch { current: leader, left: (self.left - 1) as u8 }),
    {
        CwdSearch { current: leader, left: self.left - 1 }
    }
}

/// The process `steps` up from `current`.
pub open spec fn ancestor(
    parent: spec_fn(u32) -> Option<u32>,
    leader: spec_fn(u32) -> u32,
    current: u32,
    steps: nat,
) -> Option<u32>
    decreases steps,
{
    if steps == 0 {
        Some(current)
    } else {
        match parent(current) {
            None => None,
            Some(above) => if above == 0 || above == current {
                None
            } else {
                ancestor(parent, leader, leader(above), (steps - 1) as nat)
            },
        }
    }
}

/// The process `steps` up from `current` has a guest working directory.
pub open spec fn settled(
    cwds: Map<u32, Seq<u8>>,
    parent: spec_fn(u32) -> Option<u32>,
    leader: spec_fn(u32) -> u32,
    current: u32,
    steps: nat,
) -> bool {
    ancestor(parent, leader, current, steps) matches Some(process) && cwds.contains_key(process)
}

/// The nearest process decides: what is found is the guest working directory of
/// a process at most `left` - 1 steps up, with none below it that has one, and
/// nothing is found only if none of them has one.
pub proof fn law_nearest_process_decides(
    cwds: Map<u32, Seq<u8>>,
    parent: spec_fn(u32) -> Option<u32>,
    leader: spec_fn(u32) -> u32,
    current: u32,
    left: nat,
)
    ensures
        match inherited(cwds, parent, leader, current, left) {
            Some(path) => exists|steps: nat|
                steps < left && #[trigger] settled(cwds, parent, leader, current, steps)
                    && cwds[ancestor(parent, leader, current, steps)->0] == path && forall|nearer: nat|
                    nearer < steps ==> !#[trigger] settled(cwds, parent, leader, current, nearer),
            None => forall|steps: nat|
                steps < left ==> !#[trigger] settled(cwds, parent, leader, current, steps),
        },
    decreases left,
{
    if left == 0 {
    } else if cwds.contains_key(current) {
        assert(settled(cwds, parent, leader, current, 0));
    } else {
        assert(!settled(cwds, parent, leader, current, 0));
        match parent(current) {
            None => {},
            Some(above) => if above != 0 && above != current {
                let next = leader(above);
                let less = (left - 1) as nat;
                law_nearest_process_decides(cwds, parent, leader, next, less);
                assert forall|steps: nat| steps > 0 implies #[trigger] settled(
                    cwds,
                    parent,
                    leader,
                    current,
                    steps,
                ) == settled(cwds, parent, leader, next, (steps - 1) as nat) by {}
                if let Some(path) = inherited(cwds, parent, leader, next, less) {
                    let steps = choose|steps: nat|
                        steps < less && #[trigger] settled(cwds, parent, leader, next, steps)
                            && cwds[ancestor(parent, leader, next, steps)->0] == path
                            && forall|nearer: nat|
                            nearer < steps ==> !#[trigger] settled(
                                cwds,
                                parent,
                                leader,
                                next,
                                nearer,
                            );
                    assert(settled(cwds, parent, leader, current, steps + 1));
                }
            },
        }
    }
}

/// A search goes up one process at a time: from a process without a guest working
/// directory of its own it finds what it finds from the process above, and where
/// it cannot go up it finds nothing.
pub proof fn law_search_goes_up(
    cwds: Map<u32, Seq<u8>>,
    parent: spec_fn(u32) -> Option<u32>,
    leader: spec_fn(u32) -> u32,
    search: CwdSearch,
)
    requires
        search.left > 0,
        !cwds.contains_key(search.current),
    ensures
        inherited(cwds, parent, leader, search.current, search.left as nat) == match parent(
            search.current,
        ) {
            Some(above) => if above == 0 || above == search.current {
                None
            } else {
                inherited(cwds, parent, leader, leader(above), (search.left - 1) as nat)
            },
            None => None,
        },
{
}

/// A change of one process's guest working directory is what that process has
/// from then on, and what a child without one of its own sees; processes whose
/// line of parents does not meet it keep theirs.
pub proof fn law_cwd_change_is_seen(
    cwds: Map<u32, Seq<u8>>,
    parent: spec_fn(u32) -> Option<u32>,
    leader: spec_fn(u32) -> u32,
    key: u32,
    path: Seq<u8>,
    child: u32,
)
    requires
        !cwds.contains_key(child),
        child != key,
        parent(child) matches Some(above) && above != 0 && above != child && leader(above) == key,
    ensures
        inherited(cwds.insert(key, path), parent, leader, key, GENERATIONS as nat) == Some(path),
        inherited(cwds.insert(key, path), parent, leader, child, GENERATIONS as nat) == Some(path),
        forall|other: u32|
            cwds.contains_key(other) && other != key ==> #[trigger] inherited(
                cwds.insert(key, path),
                parent,
                leader,
                other,
                GENERATIONS as nat,
            ) == Some(cwds[other]),
{
    reveal_with_fuel(inherited, 3);
}

/// What a search does is what it is for: from a process without a guest working
/// directory it goes on with the parent, and what it finds there is what is
/// inherited; where it does not go on, nothing is inherited.
pub proof fn law_search_follows_parents(
    cwds: Map<u32, Seq<u8>>,
    parent: spec_fn(u32) -> Option<u32>,
    leader: spec_fn(u32) -> u32,
    current: u32,
    left: nat,
)
    requires
        left > 0,
        !cwds.contains_key(current),
    ensures
        match above_of(current, parent(current)) {
            Some(above) => parent(current) == Some(above) && inherited(
                cwds,
                parent,
                leader,
                current,
                left,
            ) == inherited(cwds, parent, leader, leader(above), (left - 1) as nat),
            None => inherited(cwds, parent, leader, current, left) is None,
        },
        above_of(current, parent(current)) is None <==> parent(current) is None || parent(current)
            == Some(0u32) || parent(current) == Some(current),
{
}

} // verus!
