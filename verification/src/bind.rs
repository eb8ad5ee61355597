//! Bind mappings: which guest paths a set of binds projects, and where to.

use crate::bytes;
use crate::mapping::{
    accepted, admissible, admission, at_depth, below, by_depth, covers, dev_name, distinct,
    down_from, greatest_depth, guest_path, host_choice, law_ordering_is_stable,
    law_ordering_keeps_mappings, lemma_accepted_again, lemma_first_covering, lemma_placed,
    lemma_plain_are_names, lemma_refusal_stays, proc_name, projected, renamable, reserved, reserved_path, resolved,
    selection, sys_name, taken, valid, Binding, Refusal, Request,
};
use crate::path;
use crate::path::{
    absolute, begins_with, components_of, joined, names_of, normalized, parts_of, render, tail,
};
use crate::text;
use crate::text::shown;
use vstd::prelude::*;

verus! {

/// `EXDEV`: the operation would cross a projection.
pub const EXDEV: i32 = 18;

/// `ENOTDIR`: the path is not a directory.
pub const ENOTDIR: i32 = 20;

/// `ENOTSUP`: the operation is not offered for the path.
pub const ENOTSUP: i32 = 95;

/// A requested mapping of a physical source onto a guest destination.
#[derive(Debug, PartialEq, Eq)]
pub struct BindSpec {
    pub source: Vec<u8>,
    pub destination: Vec<u8>,
}

/// An accepted mapping.
#[derive(Debug)]
pub struct Projection {
    source: Vec<u8>,
    destination: Vec<u8>,
}

/// The bind mappings of one invocation. The view holds no other state: every
/// operation below a destination goes to its source.
#[derive(Debug)]
pub struct BindView {
    projections: Vec<Projection>,
}

/// Why a destination is refused.
#[derive(Debug, PartialEq, Eq)]
pub enum BindError {
    NotAbsolute(Vec<u8>),
    Root,
    Reserved(Vec<u8>),
    Duplicate(Vec<u8>),
}

impl View for BindSpec {
    type V = Request;

    open spec fn view(&self) -> Request {
        Request { source: self.source@, destination: self.destination@ }
    }
}

impl View for Projection {
    type V = Binding;

    closed spec fn view(&self) -> Binding {
        Binding { source: self.source@, names: names_of(self.destination@) }
    }
}

impl View for BindView {
    type V = Seq<Binding>;

    closed spec fn view(&self) -> Seq<Binding> {
        bindings(self.projections@)
    }
}

impl View for BindError {
    type V = Refusal;

    open spec fn view(&self) -> Refusal {
        match *self {
            BindError::NotAbsolute(path) => Refusal::NotAbsolute(path@),
            BindError::Root => Refusal::Root,
            BindError::Reserved(path) => Refusal::Reserved(path@),
            BindError::Duplicate(path) => Refusal::Duplicate(path@),
        }
    }
}

/// The mappings of a list of projections.
pub closed spec fn bindings(list: Seq<Projection>) -> Seq<Binding> {
    Seq::new(list.len(), |i: int| list[i]@)
}

/// The requests of a list of bind specifications.
pub open spec fn requests(list: Seq<BindSpec>) -> Seq<Request> {
    Seq::new(list.len(), |i: int| list[i]@)
}

/// Whether a name is `dev`, `proc` or `sys`.
fn is_reserved_name(name: &[u8]) -> (found: bool)
    ensures
        found == (name@ == dev_name() || name@ == proc_name() || name@ == sys_name()),
{
    let dev: [u8; 3] = [100, 101, 118];
    let procfs: [u8; 4] = [112, 114, 111, 99];
    let sys: [u8; 3] = [115, 121, 115];
    assert(dev@ =~= dev_name());
    assert(procfs@ =~= proc_name());
    assert(sys@ =~= sys_name());
    bytes::equal(name, &dev) || bytes::equal(name, &procfs) || bytes::equal(name, &sys)
}

/// Whether names lie at or below `/dev`, `/proc` or `/sys`.
pub(crate) fn are_reserved(names: &Vec<Vec<u8>>) -> (found: bool)
    ensures
        found == reserved(bytes::rows(names@)),
{
    names.len() > 0 && is_reserved_name(names[0].as_slice())
}

/// Whether a path lies at or below `/dev`, `/proc` or `/sys`, which keep host
/// semantics.
pub fn is_reserved(path: &[u8]) -> (found: bool)
    ensures
        found == reserved_path(path@),
{
    if !path::is_absolute(path) {
        return false;
    }
    are_reserved(&path::components(path))
}

/// A guest path below a destination: the destination itself, or the relative
/// path below it.
pub fn join_virtual(destination: &[u8], relative: &[u8]) -> (path: Vec<u8>)
    ensures
        path@ == below(destination@, relative@),
{
    if relative.len() == 0 {
        bytes::copy(destination)
    } else {
        path::join(destination, relative)
    }
}

impl Projection {
    /// The physical path of a guest path at or below the destination: what follows
    /// the destination stays as it is spelled.
    pub fn resolve(&self, virtual_path: &[u8]) -> (physical: Vec<u8>)
        requires
            absolute(virtual_path@),
            covers(self@, components_of(virtual_path@)),
        ensures
            physical@ == joined(self@.source, tail(virtual_path@, self@.names.len())),
    {
        let destination = path::names(self.destination.as_slice());
        let relative = path::tail_from(virtual_path, destination.len());
        path::join(self.source.as_slice(), relative.as_slice())
    }

    /// A second projection with the same mapping.
    fn duplicate(&self) -> (copy: Projection)
        ensures
            copy@ == self@,
            copy.destination@ == self.destination@,
    {
        Projection {
            source: bytes::copy(self.source.as_slice()),
            destination: bytes::copy(self.destination.as_slice()),
        }
    }
}

impl BindError {
    /// What is told about a refused destination.
    pub open spec fn message_text(&self) -> Seq<char> {
        match self@ {
            Refusal::NotAbsolute(path) => "bind destination must be absolute: "@ + shown(path),
            Refusal::Root => "bind destination `/` is unsupported"@,
            Refusal::Reserved(path) => "bind destination is reserved for host passthrough: "@
                + shown(path),
            Refusal::Duplicate(path) => "duplicate bind destination: "@ + shown(path),
        }
    }

    /// What is told about a refused destination.
    pub fn message(&self) -> (text: String)
        ensures
            text@ == self.message_text(),
    {
        match self {
            BindError::NotAbsolute(path) => text::concat2(
                "bind destination must be absolute: ",
                text::show(path.as_slice()).as_str(),
            ),
            BindError::Root => "bind destination `/` is unsupported".to_owned(),
            BindError::Reserved(path) => text::concat2(
                "bind destination is reserved for host passthrough: ",
                text::show(path.as_slice()).as_str(),
            ),
            BindError::Duplicate(path) => text::concat2(
                "duplicate bind destination: ",
                text::show(path.as_slice()).as_str(),
            ),
        }
    }
}

/// Binds that have been accepted so far, in the order given.
#[derive(Debug)]
pub struct BindPlan {
    accepted: Vec<Projection>,
}

impl View for BindPlan {
    type V = Seq<Binding>;

    closed spec fn view(&self) -> Seq<Binding> {
        bindings(self.accepted@)
    }
}

/// Every destination is stored as its normalized spelling.
spec fn spelled(list: Seq<Projection>) -> bool {
    forall|i: int|
        0 <= i < list.len() ==> (#[trigger] list[i]).destination@ == normalized(
            list[i].destination@,
        )
}

impl BindPlan {
    #[verifier::type_invariant]
    spec fn well_formed(self) -> bool {
        &&& spelled(self.accepted@)
        &&& distinct(self@)
        &&& forall|i: int| 0 <= i < self@.len() ==> admissible((#[trigger] self@[i]).names)
    }

    /// No binds yet.
    pub fn new() -> (plan: BindPlan)
        ensures
            plan@ == Seq::<Binding>::empty(),
    {
        let accepted: Vec<Projection> = Vec::new();
        assert(bindings(accepted@) =~= Seq::<Binding>::empty());
        BindPlan { accepted }
    }

    /// The normalized destination of a bind that may join the plan, or why it
    /// may not. The plan is unchanged.
    pub fn check_destination(&self, destination: &[u8]) -> (answer: Result<Vec<u8>, BindError>)
        ensures
            match answer {
                Ok(path) => admission(self@, destination@) == Ok::<Seq<Seq<u8>>, Refusal>(
                    names_of(destination@),
                ) && path@ == normalized(destination@),
                Err(error) => admission(self@, destination@) == Err::<Seq<Seq<u8>>, Refusal>(error@),
            },
    {
        if !path::is_absolute(destination) {
            return Err(BindError::NotAbsolute(bytes::copy(destination)));
        }
        let names = path::names(destination);
        if names.len() == 0 {
            return Err(BindError::Root);
        }
        let normal = path::render_names(&names);
        if are_reserved(&names) {
            return Err(BindError::Reserved(normal));
        }
        let mut i: usize = 0;
        while i < self.accepted.len()
            invariant
                i <= self.accepted.len(),
                bytes::rows(names@) == names_of(destination@),
                normal@ == render(names_of(destination@)),
                absolute(destination@),
                names.len() > 0,
                !reserved(names_of(destination@)),
                forall|j: int| 0 <= j < i ==> (#[trigger] self@[j]).names != names_of(destination@),
            decreases self.accepted.len() - i,
        {
            let seen = path::names(self.accepted[i].destination.as_slice());
            assert(self@[i as int].names == bytes::rows(seen@));
            if seen.len() == names.len() && path::is_prefix(&seen, &names) {
                proof {
                    let all = bytes::rows(seen@);
                    assert(all.take(all.len() as int) =~= all);
                    assert(taken(self@, names_of(destination@)));
                }
                return Err(BindError::Duplicate(normal));
            }
            proof {
                if self@[i as int].names == names_of(destination@) {
                    let all = bytes::rows(seen@);
                    assert(all.take(all.len() as int) =~= all);
                }
            }
            i += 1;
        }
        Ok(normal)
    }

    /// Adds a bind to the plan, or says why it may not join.
    pub fn add(&mut self, bind: BindSpec) -> (answer: Result<(), BindError>)
        ensures
            match answer {
                Ok(()) => admission(old(self)@, bind.destination@) == Ok::<Seq<Seq<u8>>, Refusal>(
                    names_of(bind.destination@),
                ) && final(self)@ == old(self)@.push(
                    Binding { source: bind.source@, names: names_of(bind.destination@) },
                ),
                Err(error) => admission(old(self)@, bind.destination@) == Err::<
                    Seq<Seq<u8>>,
                    Refusal,
                >(error@) && final(self)@ == old(self)@,
            },
    {
        proof {
            use_type_invariant(&*self);
        }
        let destination = match self.check_destination(bind.destination.as_slice()) {
            Ok(destination) => destination,
            Err(error) => {
                return Err(error);
            },
        };
        let ghost names = names_of(bind.destination@);
        let ghost before = self@;
        proof {
            path::law_normalize_is_idempotent(bind.destination@);
            path::lemma_names_are_plain(bind.destination@);
        }
        let mut accepted: Vec<Projection> = Vec::new();
        std::mem::swap(&mut accepted, &mut self.accepted);
        let ghost given = accepted@;
        accepted.push(Projection { source: bind.source, destination });
        proof {
            let next = bindings(accepted@);
            assert(next =~= before.push(Binding { source: bind.source@, names }));
            assert forall|i: int, j: int| 0 <= i < j < next.len() implies (
            #[trigger] next[i]).names != (#[trigger] next[j]).names by {
                if j < before.len() {
                    assert(before[i].names != before[j].names);
                } else {
                    assert(before[i].names != names);
                }
            }
            assert forall|i: int| 0 <= i < next.len() implies admissible(
                (#[trigger] next[i]).names,
            ) by {
                if i < before.len() {
                    assert(admissible(before[i].names));
                }
            }
            assert(spelled(accepted@)) by {
                assert forall|i: int| 0 <= i < accepted@.len() implies (
                #[trigger] accepted@[i]).destination@ == normalized(accepted@[i].destination@) by {
                    if i < given.len() {
                        assert(given[i].destination@ == normalized(given[i].destination@));
                    }
                }
            }
        }
        self.accepted = accepted;
        Ok(())
    }

    /// The view of the accepted binds: deepest destination first, in the order
    /// given where the depth is the same.
    pub fn finish(self) -> (view: BindView)
        ensures
            view@ == by_depth(self@),
            valid(view@),
    {
        proof {
            use_type_invariant(&self);
            law_ordering_keeps_mappings(self@);
        }
        let depth = deepest(&self.accepted);
        let mut sorted: Vec<Projection> = Vec::new();
        let mut level: usize = depth;
        let ghost goal = down_from(self@, depth as nat);
        assert(bindings(sorted@) + goal =~= goal);
        while level > 0
            invariant
                level <= depth,
                spelled(self.accepted@),
                spelled(sorted@),
                bindings(sorted@) + down_from(self@, level as nat) == goal,
            decreases level,
        {
            let ghost done = bindings(sorted@);
            append_level(&mut sorted, &self.accepted, level);
            proof {
                let rest = down_from(self@, (level - 1) as nat);
                assert(done + (at_depth(self@, level as nat) + rest) =~= (done + at_depth(
                    self@,
                    level as nat,
                )) + rest);
            }
            level -= 1;
        }
        assert(bindings(sorted@) + down_from(self@, 0) =~= bindings(sorted@));
        BindView { projections: sorted }
    }
}

/// The greatest number of names in a destination.
fn deepest(list: &Vec<Projection>) -> (depth: usize)
    ensures
        depth == greatest_depth(bindings(list@)),
{
    let ghost all = bindings(list@);
    let mut depth: usize = 0;
    let mut i: usize = 0;
    assert(all.take(0) =~= seq![]);
    while i < list.len()
        invariant
            i <= list.len(),
            all == bindings(list@),
            depth == greatest_depth(all.take(i as int)),
        decreases list.len() - i,
    {
        let names = path::names(list[i].destination.as_slice());
        proof {
            assert(all.take(i + 1).drop_last() =~= all.take(i as int));
            assert(all.take(i + 1).last() == list@[i as int]@);
            assert(all.take(i + 1).last().names == bytes::rows(names@));
        }
        if names.len() > depth {
            depth = names.len();
        }
        i += 1;
    }
    assert(all.take(all.len() as int) =~= all);
    depth
}

/// Appends the projections of `list` whose destination has `depth` names.
fn append_level(sorted: &mut Vec<Projection>, list: &Vec<Projection>, depth: usize)
    requires
        spelled(old(sorted)@),
        spelled(list@),
    ensures
        spelled(final(sorted)@),
        bindings(final(sorted)@) == bindings(old(sorted)@) + at_depth(bindings(list@), depth as nat),
{
    let ghost all = bindings(list@);
    let ghost given = bindings(sorted@);
    let mut i: usize = 0;
    assert(all.take(0) =~= seq![]);
    assert(bindings(sorted@) =~= given + at_depth(all.take(0), depth as nat));
    while i < list.len()
        invariant
            i <= list.len(),
            all == bindings(list@),
            spelled(list@),
            spelled(sorted@),
            bindings(sorted@) == given + at_depth(all.take(i as int), depth as nat),
        decreases list.len() - i,
    {
        let names = path::names(list[i].destination.as_slice());
        let ghost before = sorted@;
        proof {
            assert(all.take(i + 1).drop_last() =~= all.take(i as int));
            assert(all.take(i + 1).last() == list@[i as int]@);
            assert(all.take(i + 1).last().names == bytes::rows(names@));
        }
        if names.len() == depth {
            let copy = list[i].duplicate();
            sorted.push(copy);
            assert(bindings(sorted@) =~= bindings(before).push(list@[i as int]@));
            assert(bindings(sorted@) =~= given + at_depth(all.take(i + 1), depth as nat));
        }
        i += 1;
    }
    assert(all.take(all.len() as int) =~= all);
}

impl BindView {
    #[verifier::type_invariant]
    spec fn well_formed(self) -> bool {
        spelled(self.projections@) && valid(self@)
    }

    /// The view of a list of binds, or the refusal of the first bind that
    /// cannot be had. Sources stand as they are given.
    pub fn open(binds: Vec<BindSpec>) -> (answer: Result<BindView, BindError>)
        ensures
            match answer {
                Ok(view) => accepted(requests(binds@)) is Ok && view@ == by_depth(
                    accepted(requests(binds@))->Ok_0,
                ) && valid(view@),
                Err(error) => accepted(requests(binds@)) == Err::<Seq<Binding>, Refusal>(error@),
            },
    {
        let ghost all = requests(binds@);
        let mut plan = BindPlan::new();
        let mut i: usize = 0;
        assert(all.take(0) =~= seq![]);
        while i < binds.len()
            invariant
                i <= binds.len(),
                all == requests(binds@),
                accepted(all.take(i as int)) == Ok::<Seq<Binding>, Refusal>(plan@),
            decreases binds.len() - i,
        {
            proof {
                assert(all.take(i + 1).drop_last() =~= all.take(i as int));
                assert(all.take(i + 1).last() == binds@[i as int]@);
            }
            let bind = BindSpec {
                source: bytes::copy(binds[i].source.as_slice()),
                destination: bytes::copy(binds[i].destination.as_slice()),
            };
            if let Err(error) = plan.add(bind) {
                proof {
                    lemma_refusal_stays(all, i + 1);
                }
                return Err(error);
            }
            i += 1;
        }
        assert(all.take(all.len() as int) =~= all);
        Ok(plan.finish())
    }

    /// The binds of the view, in its order.
    pub fn specs(&self) -> (binds: Vec<BindSpec>)
        ensures
            binds@.len() == self@.len(),
            forall|i: int|
                0 <= i < binds@.len() ==> (#[trigger] binds@[i])@ == (Request {
                    source: self@[i].source,
                    destination: render(self@[i].names),
                }),
    {
        proof {
            use_type_invariant(self);
        }
        let mut binds: Vec<BindSpec> = Vec::new();
        let mut i: usize = 0;
        while i < self.projections.len()
            invariant
                i <= self.projections.len(),
                binds@.len() == i,
                spelled(self.projections@),
                forall|j: int|
                    0 <= j < i ==> (#[trigger] binds@[j])@ == (Request {
                        source: self@[j].source,
                        destination: render(self@[j].names),
                    }),
            decreases self.projections.len() - i,
        {
            let projection = &self.projections[i];
            assert(projection.destination@ == normalized(projection.destination@));
            binds.push(
                BindSpec {
                    source: bytes::copy(projection.source.as_slice()),
                    destination: bytes::copy(projection.destination.as_slice()),
                },
            );
            i += 1;
        }
        binds
    }

    /// An independent view of the same binds.
    pub fn reopen(&self) -> (answer: Result<BindView, BindError>)
        ensures
            answer is Ok,
            answer->Ok_0@ == self@,
    {
        let binds = self.specs();
        proof {
            use_type_invariant(self);
            lemma_accepted_again(self@, requests(binds@));
            law_ordering_is_stable(self@);
        }
        BindView::open(binds)
    }

    /// The number of binds.
    pub fn projection_count(&self) -> (count: usize)
        ensures
            count == self@.len(),
    {
        self.projections.len()
    }

    /// The destination whose availability is tested before the command
    /// starts: the first one.
    pub fn probe_path(&self) -> (destination: &[u8])
        requires
            self@.len() > 0,
        ensures
            destination@ == render(self@[0].names),
    {
        proof {
            use_type_invariant(self);
            assert(self.projections@[0].destination@ == normalized(
                self.projections@[0].destination@,
            ));
        }
        self.projections[0].destination.as_slice()
    }

    /// The index of the bind that projects a path, read as it is spelled.
    pub fn projection_index(&self, virtual_path: &[u8]) -> (found: Option<usize>)
        ensures
            match found {
                Some(index) => absolute(virtual_path@) && selection(
                    self@,
                    components_of(virtual_path@),
                ) == Some(index as int) && index < self@.len(),
                None => !absolute(virtual_path@) || selection(self@, components_of(virtual_path@))
                    is None,
            },
    {
        if !path::is_absolute(virtual_path) {
            return None;
        }
        let names = path::components(virtual_path);
        self.index_of(&names)
    }

    /// The index of the bind that projects names.
    fn index_of(&self, names: &Vec<Vec<u8>>) -> (found: Option<usize>)
        ensures
            match found {
                Some(index) => selection(self@, bytes::rows(names@)) == Some(index as int) && index
                    < self@.len() && covers(self@[index as int], bytes::rows(names@)),
                None => selection(self@, bytes::rows(names@)) is None,
            },
    {
        if are_reserved(names) {
            return None;
        }
        let ghost wanted = bytes::rows(names@);
        let mut i: usize = 0;
        while i < self.projections.len()
            invariant
                i <= self.projections.len(),
                wanted == bytes::rows(names@),
                !reserved(wanted),
                forall|j: int| 0 <= j < i ==> !covers(#[trigger] self@[j], wanted),
            decreases self.projections.len() - i,
        {
            let destination = path::names(self.projections[i].destination.as_slice());
            assert(self@[i as int].names == bytes::rows(destination@));
            if path::is_prefix(names, &destination) {
                proof {
                    lemma_first_covering(self@, wanted);
                }
                return Some(i);
            }
            i += 1;
        }
        proof {
            lemma_first_covering(self@, wanted);
        }
        None
    }

    /// Whether a bind projects the guest path.
    pub fn projects(&self, virtual_path: &[u8]) -> (found: bool)
        ensures
            found == projected(self@, virtual_path@),
    {
        self.index_of(&path::names(virtual_path)).is_some()
    }

    /// Whether one bind projects both guest paths.
    pub fn same_projection(&self, first: &[u8], second: &[u8]) -> (same: bool)
        ensures
            same == renamable(self@, first@, second@),
            same == (projected(self@, first@) && selection(self@, names_of(first@)) == selection(
                self@,
                names_of(second@),
            )),
    {
        let first = self.index_of(&path::names(first));
        let second = self.index_of(&path::names(second));
        match (first, second) {
            (Some(first), Some(second)) => first == second,
            _ => false,
        }
    }

    /// The physical path of a guest path.
    pub fn resolve_projected(&self, virtual_path: &[u8]) -> (physical: Vec<u8>)
        ensures
            physical@ == resolved(self@, virtual_path@),
    {
        let names = path::names(virtual_path);
        let normal = path::render_names(&names);
        match self.index_of(&names) {
            Some(index) => {
                proof {
                    use_type_invariant(self);
                    path::law_normalize_is_idempotent(virtual_path@);
                    path::lemma_names_are_plain(virtual_path@);
                    lemma_plain_are_names(names_of(virtual_path@));
                    path::law_components_of_render(names_of(virtual_path@));
                    assert(admissible(self@[index as int].names));
                    lemma_placed(self@[index as int], names_of(virtual_path@));
                }
                self.projections[index].resolve(normal.as_slice())
            },
            None => normal,
        }
    }

    /// The physical path that a read of a guest path goes to.
    pub fn resolve_read(&self, virtual_path: &[u8]) -> (physical: Vec<u8>)
        ensures
            physical@ == resolved(self@, virtual_path@),
    {
        self.resolve_projected(virtual_path)
    }

    /// The physical path that opening a guest path goes to, whatever the flags.
    pub fn prepare_open(&self, virtual_path: &[u8], _flags: i32) -> (physical: Vec<u8>)
        ensures
            physical@ == resolved(self@, virtual_path@),
    {
        self.resolve_projected(virtual_path)
    }

    /// The physical path that a change of a guest path goes to.
    pub fn prepare_mutation(&self, virtual_path: &[u8]) -> (physical: Vec<u8>)
        ensures
            physical@ == resolved(self@, virtual_path@),
    {
        self.resolve_projected(virtual_path)
    }

    /// The guest directory that a path names, given what a look at its physical
    /// path found: whether it is a directory, or the error.
    pub fn resolve_directory(&self, virtual_path: &[u8], found: Result<bool, i32>) -> (answer: Result<
        Vec<u8>,
        i32,
    >)
        ensures
            match found {
                Ok(true) => answer is Ok && answer->Ok_0@ == normalized(virtual_path@),
                Ok(false) => answer == Err::<Vec<u8>, i32>(ENOTDIR),
                Err(error) => answer == Err::<Vec<u8>, i32>(error),
            },
    {
        match found {
            Ok(true) => Ok(path::normalize_virtual(virtual_path)),
            Ok(false) => Err(ENOTDIR),
            Err(error) => Err(error),
        }
    }

    /// The guest directory to create and its physical path. Only projected
    /// paths can be created.
    pub fn create_directory_all(&self, virtual_path: &[u8]) -> (answer: Result<DirectoryPlan, i32>)
        ensures
            match answer {
                Ok(plan) => projected(self@, virtual_path@) && plan.guest@ == normalized(
                    virtual_path@,
                ) && plan.physical@ == resolved(self@, virtual_path@),
                Err(error) => !projected(self@, virtual_path@) && error == ENOTSUP,
            },
    {
        if !self.projects(virtual_path) {
            return Err(ENOTSUP);
        }
        Ok(
            DirectoryPlan {
                guest: path::normalize_virtual(virtual_path),
                physical: self.resolve_projected(virtual_path),
            },
        )
    }

    /// What to remove for a guest path: a directory or a file.
    pub fn unlink(&self, virtual_path: &[u8], remove_dir: bool) -> (removal: Removal)
        ensures
            match removal {
                Removal::Directory(physical) => remove_dir && physical@ == resolved(self@, virtual_path@),
                Removal::File(physical) => !remove_dir && physical@ == resolved(self@, virtual_path@),
            },
    {
        let physical = self.resolve_projected(virtual_path);
        if remove_dir {
            Removal::Directory(physical)
        } else {
            Removal::File(physical)
        }
    }

    /// The physical paths of a rename, which stays within one bind: anything
    /// else is answered with `EXDEV`.
    pub fn rename(&self, from: &[u8], to: &[u8]) -> (answer: Result<RenamePlan, i32>)
        ensures
            match answer {
                Ok(plan) => renamable(self@, from@, to@) && plan.from@ == resolved(self@, from@)
                    && plan.to@ == resolved(self@, to@),
                Err(error) => !renamable(self@, from@, to@) && error == EXDEV,
            },
    {
        if !self.same_projection(from, to) {
            return Err(EXDEV);
        }
        Ok(RenamePlan { from: self.resolve_projected(from), to: self.resolve_projected(to) })
    }

    /// The guest path of a physical path: the bind whose source is the longest
    /// prefix decides, the last of them where several are as long. A path below
    /// no source stands for itself.
    pub fn virtual_for_host(&self, host: &[u8]) -> (guest: Vec<u8>)
        ensures
            guest@ == guest_path(self@, host@),
    {
        let ghost list = self@;
        let host_parts = path::parts(host);
        let mut best: Option<usize> = None;
        let mut best_depth: usize = 0;
        let mut i: usize = 0;
        assert(list.take(0) =~= seq![]);
        while i < self.projections.len()
            invariant
                i <= self.projections.len(),
                list == self@,
                bytes::rows(host_parts@) == parts_of(host@),
                match best {
                    Some(index) => index < i && host_choice(list.take(i as int), host@) == Some(
                        index as int,
                    ) && best_depth == parts_of(list[index as int].source).len() && begins_with(
                        parts_of(host@),
                        parts_of(list[index as int].source),
                    ),
                    None => host_choice(list.take(i as int), host@) is None,
                },
            decreases self.projections.len() - i,
        {
            let source = path::parts(self.projections[i].source.as_slice());
            proof {
                assert(list.take(i + 1).drop_last() =~= list.take(i as int));
                assert(list.take(i + 1).last() == list[i as int]);
                assert(list[i as int].source == self.projections@[i as int].source@);
                if let Some(index) = best {
                    assert(list.take(i as int)[index as int] == list[index as int]);
                }
            }
            if path::is_prefix(&host_parts, &source) && (best.is_none() || source.len()
                >= best_depth) {
                best = Some(i);
                best_depth = source.len();
            }
            i += 1;
        }
        assert(list.take(list.len() as int) =~= list);
        match best {
            Some(index) => {
                proof {
                    use_type_invariant(self);
                    assert(self.projections@[index as int].destination@ == normalized(
                        self.projections@[index as int].destination@,
                    ));
                }
                let relative = path::strip_prefix(
                    host,
                    self.projections[index].source.as_slice(),
                );
                join_virtual(self.projections[index].destination.as_slice(), relative.as_slice())
            },
            None => bytes::copy(host),
        }
    }
}

/// A directory that is to be created: its guest path and its physical path.
#[derive(Debug, PartialEq, Eq)]
pub struct DirectoryPlan {
    pub guest: Vec<u8>,
    pub physical: Vec<u8>,
}

/// What is to be removed.
#[derive(Debug, PartialEq, Eq)]
pub enum Removal {
    Directory(Vec<u8>),
    File(Vec<u8>),
}

/// The physical paths of a rename.
#[derive(Debug, PartialEq, Eq)]
pub struct RenamePlan {
    pub from: Vec<u8>,
    pub to: Vec<u8>,
}

} // verus!
