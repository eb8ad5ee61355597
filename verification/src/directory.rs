//! Directory entries.

use crate::bytes;
use vstd::prelude::*;

verus! {

/// What an entry of a directory is.
#[derive(Clone, Copy, PartialEq, Eq, Structural, Debug)]
pub enum FileKind {
    Directory,
    File,
    Symlink,
    Other,
}

/// The type byte of an entry.
pub open spec fn type_byte(kind: FileKind) -> u8 {
    match kind {
        FileKind::Directory => 4,
        FileKind::File => 8,
        FileKind::Symlink => 10,
        FileKind::Other => 0,
    }
}

/// The type byte of an entry.
pub fn metadata_to_dir_type(kind: FileKind) -> (byte: u8)
    ensures
        byte == type_byte(kind),
{
    match kind {
        FileKind::Directory => 4,
        FileKind::File => 8,
        FileKind::Symlink => 10,
        FileKind::Other => 0,
    }
}

/// An entry of a directory.
#[derive(Debug, PartialEq, Eq)]
pub struct DirEntry {
    pub name: Vec<u8>,
    pub inode: u64,
    pub file_type: u8,
}

/// An entry of a directory as a value.
pub ghost struct Entry {
    pub name: Seq<u8>,
    pub inode: u64,
    pub file_type: u8,
}

impl View for DirEntry {
    type V = Entry;

    open spec fn view(&self) -> Entry {
        Entry { name: self.name@, inode: self.inode, file_type: self.file_type }
    }
}

/// The entries of a list.
pub open spec fn entries_of(list: Seq<DirEntry>) -> Seq<Entry> {
    Seq::new(list.len(), |i: int| list[i]@)
}

impl DirEntry {
    /// A copy of the entry.
    pub fn duplicate(&self) -> (copy: DirEntry)
        ensures
            copy@ == self@,
    {
        DirEntry {
            name: bytes::copy(self.name.as_slice()),
            inode: self.inode,
            file_type: self.file_type,
        }
    }
}

/// `left` comes before `right` in the order of byte strings.
pub open spec fn before(left: Seq<u8>, right: Seq<u8>) -> bool
    decreases left.len(),
{
    if right.len() == 0 {
        false
    } else if left.len() == 0 {
        true
    } else if left[0] != right[0] {
        left[0] < right[0]
    } else {
        before(left.skip(1), right.skip(1))
    }
}

/// The entries come in the order of their names, none twice.
pub open spec fn sorted(entries: Seq<Entry>) -> bool {
    forall|i: int, j: int|
        #![trigger entries[i], entries[j]]
        0 <= i < j < entries.len() ==> before(entries[i].name, entries[j].name)
}

/// The entries are those of `named`, in the order of their names.
pub open spec fn lists(entries: Seq<Entry>, named: Map<Seq<u8>, Entry>) -> bool {
    &&& sorted(entries)
    &&& forall|entry: Entry| #[trigger]
        entries.contains(entry) <==> named.contains_key(entry.name) && named[entry.name] == entry
}

/// The order of names is strict and total.
pub proof fn law_names_are_ordered(left: Seq<u8>, right: Seq<u8>)
    ensures
        before(left, right) ==> !before(right, left) && left != right,
        left == right || before(left, right) || before(right, left),
    decreases left.len(),
{
    if left.len() > 0 && right.len() > 0 {
        law_names_are_ordered(left.skip(1), right.skip(1));
        if left[0] == right[0] && left.skip(1) == right.skip(1) {
            assert(left =~= seq![left[0]] + left.skip(1));
            assert(right =~= seq![right[0]] + right.skip(1));
        }
    } else if left.len() == 0 && right.len() == 0 {
        assert(left =~= right);
    }
}

/// The order of names is transitive.
pub proof fn law_order_is_transitive(first: Seq<u8>, second: Seq<u8>, third: Seq<u8>)
    requires
        before(first, second),
        before(second, third),
    ensures
        before(first, third),
    decreases first.len(),
{
    if first.len() > 0 && second.len() > 0 && third.len() > 0 && first[0] == second[0] && second[0]
        == third[0] {
        law_order_is_transitive(first.skip(1), second.skip(1), third.skip(1));
    }
}

/// Whether `left` comes before `right`.
fn is_before(left: &[u8], right: &[u8]) -> (found: bool)
    ensures
        found == before(left@, right@),
{
    let mut i: usize = 0;
    assert(left@.skip(0) =~= left@);
    assert(right@.skip(0) =~= right@);
    while i < left.len() && i < right.len() && left[i] == right[i]
        invariant
            i <= left.len(),
            i <= right.len(),
            before(left@, right@) == before(left@.skip(i as int), right@.skip(i as int)),
        decreases left.len() - i,
    {
        assert(left@.skip(i as int).skip(1) =~= left@.skip(i + 1));
        assert(right@.skip(i as int).skip(1) =~= right@.skip(i + 1));
        i += 1;
    }
    if i == right.len() {
        return false;
    }
    if i == left.len() {
        return true;
    }
    left[i] < right[i]
}

/// The first index whose name does not come before `name`.
fn find_name(entries: &Vec<DirEntry>, name: &[u8]) -> (index: usize)
    ensures
        index <= entries@.len(),
        forall|i: int| 0 <= i < index ==> before((#[trigger] entries@[i])@.name, name@),
        index < entries@.len() ==> !before(entries@[index as int]@.name, name@),
{
    let mut index: usize = 0;
    while index < entries.len() && is_before(entries[index].name.as_slice(), name)
        invariant
            index <= entries.len(),
            forall|i: int| 0 <= i < index ==> before((#[trigger] entries@[i])@.name, name@),
        decreases entries.len() - index,
    {
        index += 1;
    }
    index
}

proof fn lemma_place(entries: Seq<Entry>, name: Seq<u8>, index: int)
    requires
        sorted(entries),
        0 <= index <= entries.len(),
        forall|i: int| 0 <= i < index ==> before((#[trigger] entries[i]).name, name),
        index < entries.len() ==> !before(entries[index].name, name),
    ensures
        forall|i: int|
            index <= i < entries.len() && (#[trigger] entries[i]).name != name ==> before(
                name,
                entries[i].name,
            ),
        forall|i: int| 0 <= i < entries.len() && (#[trigger] entries[i]).name == name ==> i == index,
{
    assert forall|i: int|
        index <= i < entries.len() && (#[trigger] entries[i]).name != name implies before(
        name,
        entries[i].name,
    ) by {
        law_names_are_ordered(name, entries[index].name);
        if i > index {
            assert(before(entries[index].name, entries[i].name));
            if entries[index].name != name {
                law_order_is_transitive(name, entries[index].name, entries[i].name);
            }
        }
    }
    assert forall|i: int|
        0 <= i < entries.len() && (#[trigger] entries[i]).name == name implies i == index by {
        law_names_are_ordered(name, name);
        if i > index {
            assert(before(entries[index].name, entries[i].name));
        }
    }
}

/// Puts an entry into its place; one with the same name gives way.
pub(crate) fn put_entry(entries: &mut Vec<DirEntry>, entry: DirEntry)
    ensures
        forall|named: Map<Seq<u8>, Entry>|
            lists(entries_of(old(entries)@), named) ==> #[trigger] lists(
                entries_of(final(entries)@),
                named.insert(entry@.name, entry@),
            ),
{
    let ghost given = entries_of(entries@);
    let ghost name = entry@.name;
    let ghost added = entry@;
    let index = find_name(entries, entry.name.as_slice());
    proof {
        assert forall|i: int| 0 <= i < index implies before((#[trigger] given[i]).name, name) by {
            assert(given[i] == entries@[i]@);
        }
    }
    let same = index < entries.len() && bytes::equal(
        entries[index].name.as_slice(),
        entry.name.as_slice(),
    );
    if same {
        entries.set(index, entry);
        assert(entries_of(entries@) =~= given.update(index as int, added));
    } else {
        entries.insert(index, entry);
        assert(entries_of(entries@) =~= given.insert(index as int, added));
    }
    proof {
        let now = entries_of(entries@);
        assert forall|named: Map<Seq<u8>, Entry>| lists(given, named) implies #[trigger] lists(
            now,
            named.insert(name, added),
        ) by {
            lemma_place(given, name, index as int);
            if same {
                assert(given[index as int].name == name);
                lemma_replaced(given, named, added, index as int);
            } else {
                assert forall|i: int| 0 <= i < given.len() implies (#[trigger] given[i]).name
                    != name by {
                    if i == index {
                        assert(given[i] == old(entries)@[i]@);
                    }
                }
                lemma_inserted(given, named, added, index as int);
            }
        }
    }
}

proof fn lemma_replaced(given: Seq<Entry>, named: Map<Seq<u8>, Entry>, added: Entry, index: int)
    requires
        lists(given, named),
        0 <= index < given.len(),
        given[index].name == added.name,
        forall|i: int|
            0 <= i < given.len() && (#[trigger] given[i]).name == added.name ==> i == index,
    ensures
        lists(given.update(index, added), named.insert(added.name, added)),
{
    let now = given.update(index, added);
    let more = named.insert(added.name, added);
    assert forall|i: int, j: int|
        #![trigger now[i], now[j]]
        0 <= i < j < now.len() implies before(now[i].name, now[j].name) by {
        assert(before(given[i].name, given[j].name));
    }
    assert forall|entry: Entry| #[trigger]
        now.contains(entry) <==> more.contains_key(entry.name) && more[entry.name] == entry by {
        if now.contains(entry) {
            let k = choose|k: int| 0 <= k < now.len() && now[k] == entry;
            if k != index {
                assert(given[k] == entry);
                assert(given.contains(entry));
                assert(entry.name != added.name);
            }
        }
        if more.contains_key(entry.name) && more[entry.name] == entry {
            if entry.name == added.name {
                assert(now[index] == entry);
            } else {
                assert(given.contains(entry));
                let k = choose|k: int| 0 <= k < given.len() && given[k] == entry;
                assert(now[k] == entry);
            }
        }
    }
}

proof fn lemma_inserted(given: Seq<Entry>, named: Map<Seq<u8>, Entry>, added: Entry, index: int)
    requires
        lists(given, named),
        0 <= index <= given.len(),
        forall|i: int| 0 <= i < given.len() ==> (#[trigger] given[i]).name != added.name,
        forall|i: int| 0 <= i < index ==> before((#[trigger] given[i]).name, added.name),
        forall|i: int| index <= i < given.len() ==> before(added.name, (#[trigger] given[i]).name),
    ensures
        lists(given.insert(index, added), named.insert(added.name, added)),
{
    let now = given.insert(index, added);
    let more = named.insert(added.name, added);
    assert forall|i: int, j: int|
        #![trigger now[i], now[j]]
        0 <= i < j < now.len() implies before(now[i].name, now[j].name) by {
        let a = if i < index { i } else { i - 1 };
        let b = if j < index { j } else { j - 1 };
        if i == index {
            assert(now[j] == given[b]);
        } else if j == index {
            assert(now[i] == given[a]);
        } else {
            assert(now[i] == given[a] && now[j] == given[b]);
        }
    }
    assert forall|entry: Entry| #[trigger]
        now.contains(entry) <==> more.contains_key(entry.name) && more[entry.name] == entry by {
        if now.contains(entry) {
            let k = choose|k: int| 0 <= k < now.len() && now[k] == entry;
            if k != index {
                let a = if k < index { k } else { k - 1 };
                assert(given[a] == entry);
                assert(given.contains(entry));
            }
        }
        if more.contains_key(entry.name) && more[entry.name] == entry {
            if entry.name == added.name {
                assert(now[index] == entry);
            } else {
                assert(given.contains(entry));
                let k = choose|k: int| 0 <= k < given.len() && given[k] == entry;
                let b = if k < index { k } else { k + 1 };
                assert(now[b] == entry);
            }
        }
    }
}

/// Takes the entry with a name out, if there is one.
pub(crate) fn drop_entry(entries: &mut Vec<DirEntry>, name: &[u8])
    ensures
        forall|named: Map<Seq<u8>, Entry>|
            lists(entries_of(old(entries)@), named) ==> #[trigger] lists(
                entries_of(final(entries)@),
                named.remove(name@),
            ),
{
    let ghost given = entries_of(entries@);
    let index = find_name(entries, name);
    proof {
        assert forall|i: int| 0 <= i < index implies before((#[trigger] given[i]).name, name@) by {
            assert(given[i] == entries@[i]@);
        }
    }
    let same = index < entries.len() && bytes::equal(entries[index].name.as_slice(), name);
    if same {
        let _gone = entries.remove(index);
        assert(entries_of(entries@) =~= given.remove(index as int));
    }
    proof {
        let now = entries_of(entries@);
        assert forall|named: Map<Seq<u8>, Entry>| lists(given, named) implies #[trigger] lists(
            now,
            named.remove(name@),
        ) by {
            lemma_place(given, name@, index as int);
            if same {
                assert(given[index as int].name == name@);
            } else {
                assert forall|i: int| 0 <= i < given.len() implies (#[trigger] given[i]).name
                    != name@ by {
                    if i == index {
                        assert(given[i] == old(entries)@[i]@);
                    }
                }
            }
            lemma_dropped(given, now, named, name@, index as int, same);
        }
    }
}

proof fn lemma_dropped(
    given: Seq<Entry>,
    now: Seq<Entry>,
    named: Map<Seq<u8>, Entry>,
    name: Seq<u8>,
    index: int,
    same: bool,
)
    requires
        lists(given, named),
        same ==> 0 <= index < given.len() && given[index].name == name && now == given.remove(index),
        same ==> forall|i: int|
            0 <= i < given.len() && (#[trigger] given[i]).name == name ==> i == index,
        !same ==> now == given && forall|i: int|
            0 <= i < given.len() ==> (#[trigger] given[i]).name != name,
    ensures
        lists(now, named.remove(name)),
{
    let less = named.remove(name);
    if same {
        assert forall|i: int, j: int|
            #![trigger now[i], now[j]]
            0 <= i < j < now.len() implies before(now[i].name, now[j].name) by {
            let a = if i < index { i } else { i + 1 };
            let b = if j < index { j } else { j + 1 };
            assert(now[i] == given[a] && now[j] == given[b]);
        }
    }
    assert forall|entry: Entry| #[trigger]
        now.contains(entry) <==> less.contains_key(entry.name) && less[entry.name] == entry by {
        if now.contains(entry) {
            let k = choose|k: int| 0 <= k < now.len() && now[k] == entry;
            let a = if same && k >= index { k + 1 } else { k };
            assert(given[a] == entry);
            assert(given.contains(entry));
        }
        if less.contains_key(entry.name) && less[entry.name] == entry {
            assert(given.contains(entry));
            let k = choose|k: int| 0 <= k < given.len() && given[k] == entry;
            let b = if same && k >= index { k - 1 } else { k };
            assert(now[b] == entry);
        }
    }
}

/// Names are ordered by their bytes: the first byte in which they differ decides, and
/// a name comes before every longer one that begins with it.
pub proof fn law_bytes_decide_the_order(
    head: Seq<u8>,
    low: u8,
    high: u8,
    left: Seq<u8>,
    right: Seq<u8>,
)
    requires
        low < high,
    ensures
        before(head + seq![low] + left, head + seq![high] + right),
        before(head, head + seq![low] + left),
        !before(head, head),
    decreases head.len(),
{
    let first = head + seq![low] + left;
    let second = head + seq![high] + right;
    if head.len() > 0 {
        let rest = head.skip(1);
        law_bytes_decide_the_order(rest, low, high, left, right);
        assert(first.skip(1) =~= rest + seq![low] + left);
        assert(second.skip(1) =~= rest + seq![high] + right);
        assert(first[0] == head[0] && second[0] == head[0]);
    } else {
        assert(first[0] == low && second[0] == high);
    }
}

} // verus!
