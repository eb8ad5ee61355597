//! Directory listings as the records that `getdents64` delivers.

use crate::bytes;
use crate::directory::{entries_of, DirEntry, Entry};
use crate::number;
use crate::number::{capacity, memory_bytes, memory_number, ByteOrder};
use vstd::prelude::*;

verus! {

/// The bytes of a record before its name.
pub const HEADER: usize = 19;

/// The length of a record: header, name and closing zero, filled up to a
/// multiple of eight.
pub open spec fn record_length(name: Seq<u8>) -> nat {
    ((HEADER + name.len() + 1 + 7) / 8 * 8) as nat
}

/// `count` zeros.
pub open spec fn zeros(count: nat) -> Seq<u8> {
    Seq::new(count, |i: int| 0u8)
}

/// The record of an entry: inode, the position after it, its own length, the
/// type, the name and closing zeros.
pub open spec fn record(order: ByteOrder, entry: Entry, next: nat) -> Seq<u8> {
    let length = record_length(entry.name);
    memory_bytes(order, entry.inode as nat, 8) + memory_bytes(order, next, 8) + memory_bytes(
        order,
        length % 0x1_0000,
        2,
    ) + seq![entry.file_type] + entry.name + zeros(
        (length - HEADER - entry.name.len()) as nat,
    )
}

/// The record of an entry that `next_offset` follows.
pub fn dirent_record(entry: &DirEntry, next_offset: usize, order: ByteOrder) -> (bytes: Vec<u8>)
    ensures
        bytes@ == record(order, entry@, next_offset as nat),
        bytes@.len() == record_length(entry@.name),
{
    let ghost length = record_length(entry@.name);
    let wide: u128 = (entry.name.len() as u128 + 27) / 8 * 8;
    assert(wide == length);
    let padding: u128 = wide - 19 - entry.name.len() as u128;
    let mut bytes: Vec<u8> = Vec::new();
    let inode = number::to_memory(order, entry.inode, 8);
    let offset = number::to_memory(order, next_offset as u64, 8);
    let size = number::to_memory(order, (wide % 0x1_0000) as u64, 2);
    bytes::append(&mut bytes, inode.as_slice());
    bytes::append(&mut bytes, offset.as_slice());
    bytes::append(&mut bytes, size.as_slice());
    bytes.push(entry.file_type);
    bytes::append(&mut bytes, entry.name.as_slice());
    let ghost shown = bytes@;
    let mut filled: u128 = 0;
    while filled < padding
        invariant
            filled <= padding,
            bytes@ == shown + zeros(filled as nat),
        decreases padding - filled,
    {
        bytes.push(0);
        filled += 1;
        assert(bytes@ =~= shown + zeros(filled as nat));
    }
    assert(bytes@ =~= record(order, entry@, next_offset as nat));
    bytes
}

/// The number of entries from `from` on whose records fit into `room` bytes
/// one after another.
pub open spec fn fitting(entries: Seq<Entry>, from: nat, room: int) -> nat
    decreases entries.len() - from,
{
    if from >= entries.len() || record_length(entries[from as int].name) > room {
        0
    } else {
        1 + fitting(entries, from + 1, room - record_length(entries[from as int].name))
    }
}

/// The records of `count` entries from `from` on.
pub open spec fn packed(order: ByteOrder, entries: Seq<Entry>, from: nat, count: nat) -> Seq<u8>
    decreases count,
{
    if count == 0 {
        seq![]
    } else {
        packed(order, entries, from, (count - 1) as nat) + record(
            order,
            entries[from + count - 1],
            from + count,
        )
    }
}

/// A directory that a process has open, as a value: its guest path, its
/// entries and how many of them have been delivered.
pub ghost struct Listing {
    pub path: Seq<u8>,
    pub entries: Seq<Entry>,
    pub cursor: nat,
}

/// A directory that a process has open.
#[derive(Debug)]
pub struct OpenDirectory {
    path: Vec<u8>,
    entries: Vec<DirEntry>,
    cursor: usize,
}

impl View for OpenDirectory {
    type V = Listing;

    closed spec fn view(&self) -> Listing {
        Listing {
            path: self.path@,
            entries: entries_of(self.entries@),
            cursor: self.cursor as nat,
        }
    }
}

/// What a request for more records is answered with.
pub open spec fn delivered(order: ByteOrder, listing: Listing, room: nat) -> Option<Seq<u8>> {
    let count = fitting(listing.entries, listing.cursor, room as int);
    if count == 0 && listing.cursor < listing.entries.len() {
        None
    } else {
        Some(packed(order, listing.entries, listing.cursor, count))
    }
}

/// The listing after a request for more records.
pub open spec fn advanced(listing: Listing, room: nat) -> Listing {
    Listing {
        cursor: listing.cursor + fitting(listing.entries, listing.cursor, room as int),
        ..listing
    }
}

impl OpenDirectory {
    #[verifier::type_invariant]
    spec fn well_formed(self) -> bool {
        self.cursor <= self.entries@.len()
    }

    /// A directory none of whose entries has been delivered.
    pub fn new(path: Vec<u8>, entries: Vec<DirEntry>) -> (directory: OpenDirectory)
        ensures
            directory@ == (Listing { path: path@, entries: entries_of(entries@), cursor: 0 }),
    {
        OpenDirectory { path, entries, cursor: 0 }
    }

    /// The guest path of the directory.
    pub fn path(&self) -> (path: &[u8])
        ensures
            path@ == self@.path,
    {
        self.path.as_slice()
    }

    /// Delivers as many records as fit into `room` bytes; nothing, if there are
    /// more records but not even one fits.
    pub fn deliver(&mut self, order: ByteOrder, room: usize) -> (output: Option<Vec<u8>>)
        ensures
            final(self)@ == advanced(old(self)@, room as nat),
            match output {
                Some(bytes) => delivered(order, old(self)@, room as nat) == Some(bytes@)
                    && bytes@.len() <= room,
                None => delivered(order, old(self)@, room as nat) is None,
            },
    {
        proof {
            use_type_invariant(&*self);
        }
        let ghost all = entries_of(self.entries@);
        let ghost start = self.cursor as nat;
        let mut output: Vec<u8> = Vec::new();
        let mut cursor: usize = self.cursor;
        while cursor < self.entries.len()
            invariant
                all == entries_of(self.entries@),
                start <= cursor <= self.entries@.len(),
                output@.len() <= room,
                output@ == packed(order, all, start, (cursor - start) as nat),
                fitting(all, start, room as int) == (cursor - start) + fitting(
                    all,
                    cursor as nat,
                    room - output@.len(),
                ),
                *self == *old(self),
            ensures
                fitting(all, cursor as nat, room - output@.len()) == 0,
            decreases self.entries@.len() - cursor,
        {
            assert(all[cursor as int] == self.entries@[cursor as int]@);
            let record = dirent_record(&self.entries[cursor], cursor + 1, order);
            if record.len() > room - output.len() {
                break ;
            }
            bytes::append(&mut output, record.as_slice());
            cursor += 1;
        }
        let stuck = output.len() == 0 && cursor < self.entries.len();
        proof {
            if output@.len() == 0 && cursor > start {
                lemma_packed_is_longer(order, all, start, (cursor - start) as nat);
            }
        }
        self.cursor = cursor;
        if stuck {
            return None;
        }
        Some(output)
    }
}

/// Records take up room.
proof fn lemma_packed_is_longer(order: ByteOrder, entries: Seq<Entry>, from: nat, count: nat)
    requires
        count > 0,
    ensures
        packed(order, entries, from, count).len() > 0,
{
    assert(packed(order, entries, from, count).len() >= 1);
}

/// Two requests in a row deliver what one request for both their shares would:
/// no entry is left out and none comes twice.
pub proof fn law_listing_is_delivered_once(
    order: ByteOrder,
    entries: Seq<Entry>,
    from: nat,
    first: nat,
    second: nat,
)
    ensures
        packed(order, entries, from, first) + packed(order, entries, from + first, second)
            == packed(order, entries, from, first + second),
    decreases second,
{
    let left = packed(order, entries, from, first);
    if second == 0 {
        assert(left + packed(order, entries, from + first, second) =~= left);
    } else {
        let less = (second - 1) as nat;
        law_listing_is_delivered_once(order, entries, from, first, less);
        let tail = record(
            order,
            entries[from + first + second - 1],
            from + first + second,
        );
        assert(left + (packed(order, entries, from + first, less) + tail) =~= (left + packed(
            order,
            entries,
            from + first,
            less,
        )) + tail);
    }
}

/// A request delivers as much as fits: what it hands over is no longer than the
/// buffer, and either the listing is at its end or the next record is too long
/// for what is left of the buffer.
pub proof fn law_listing_fills_buffer(order: ByteOrder, entries: Seq<Entry>, from: nat, room: nat)
    requires
        from <= entries.len(),
    ensures
        ({
            let count = fitting(entries, from, room as int);
            let length = packed(order, entries, from, count).len();
            &&& from + count <= entries.len()
            &&& length <= room
            &&& from + count < entries.len() ==> length + record_length(
                entries[(from + count) as int].name,
            ) > room
        }),
{
    lemma_fitting(order, entries, from, room as int);
}

proof fn lemma_fitting(order: ByteOrder, entries: Seq<Entry>, from: nat, room: int)
    requires
        from <= entries.len(),
        room >= 0,
    ensures
        ({
            let count = fitting(entries, from, room);
            let length = packed(order, entries, from, count).len();
            &&& from + count <= entries.len()
            &&& length <= room
            &&& from + count < entries.len() ==> length + record_length(
                entries[(from + count) as int].name,
            ) > room
        }),
    decreases entries.len() - from,
{
    if from < entries.len() && record_length(entries[from as int].name) <= room {
        let size = record_length(entries[from as int].name);
        lemma_fitting(order, entries, from + 1, room - size);
        let more = fitting(entries, from + 1, room - size);
        law_listing_is_delivered_once(order, entries, from, 1, more);
        lemma_record_length(order, entries[from as int], from + 1);
        reveal_with_fuel(packed, 2);
        assert(packed(order, entries, from, 1) =~= record(order, entries[from as int], from + 1));
    }
}

proof fn lemma_memory_length(order: ByteOrder, value: nat, width: nat)
    ensures
        memory_bytes(order, value, width).len() == width,
{
    number::lemma_ascending_length(value, width);
}

proof fn lemma_record_length(order: ByteOrder, entry: Entry, next: nat)
    ensures
        record(order, entry, next).len() == record_length(entry.name),
{
    let length = record_length(entry.name);
    lemma_memory_length(order, entry.inode as nat, 8);
    lemma_memory_length(order, next, 8);
    lemma_memory_length(order, length % 0x1_0000, 2);
}

/// A reader finds its way through the records: each is a multiple of eight
/// long, the length stands at its own place in the record, and the name follows
/// the header and is closed by a zero.
pub proof fn law_record_can_be_read(order: ByteOrder, entry: Entry, next: nat)
    requires
        record_length(entry.name) < 0x1_0000,
    ensures
        ({
            let bytes = record(order, entry, next);
            let end = (HEADER + entry.name.len()) as int;
            &&& bytes.len() == record_length(entry.name)
            &&& bytes.len() % 8 == 0
            &&& memory_number(order, bytes.subrange(0, 8)) == entry.inode
            &&& memory_number(order, bytes.subrange(16, 18)) == bytes.len()
            &&& bytes[18] == entry.file_type
            &&& bytes.subrange(HEADER as int, end) == entry.name
            &&& bytes[end] == 0
        }),
{
    let bytes = record(order, entry, next);
    let length = record_length(entry.name);
    lemma_record_length(order, entry, next);
    lemma_memory_length(order, entry.inode as nat, 8);
    lemma_memory_length(order, next, 8);
    lemma_memory_length(order, length, 2);
    assert(length % 0x1_0000 == length) by (nonlinear_arith)
        requires
            length < 0x1_0000,
    ;
    assert(bytes.subrange(0, 8) =~= memory_bytes(order, entry.inode as nat, 8));
    assert(bytes.subrange(16, 18) =~= memory_bytes(order, length, 2));
    assert(bytes.subrange(HEADER as int, (HEADER + entry.name.len()) as int) =~= entry.name);
    reveal_with_fuel(capacity, 9);
    number::law_memory_is_read_back(order, entry.inode as nat, 8);
    number::law_memory_is_read_back(order, length, 2);
}

/// A record tells where the next one follows, and is filled up with zeros: no more
/// than seven stand behind the zero that closes the name.
pub proof fn law_record_is_filled_up(order: ByteOrder, entry: Entry, next: nat)
    requires
        next <= u64::MAX,
    ensures
        ({
            let bytes = record(order, entry, next);
            let end = 19 + entry.name.len();
            &&& memory_number(order, bytes.subrange(8, 16)) == next
            &&& end < bytes.len() <= end + 8
            &&& forall|i: int| end <= i < bytes.len() ==> bytes[i] == 0
        }),
{
    let bytes = record(order, entry, next);
    let length = record_length(entry.name);
    lemma_record_length(order, entry, next);
    lemma_memory_length(order, entry.inode as nat, 8);
    lemma_memory_length(order, next, 8);
    lemma_memory_length(order, length % 0x1_0000, 2);
    assert(bytes.subrange(8, 16) =~= memory_bytes(order, next, 8));
    reveal_with_fuel(capacity, 9);
    number::law_memory_is_read_back(order, next, 8);
}

/// Records stand for the entries one by one: a listing of one more entry has one
/// more record at its end, that of the entry, which tells the position behind it.
pub proof fn law_records_stand_for_entries(
    order: ByteOrder,
    entries: Seq<Entry>,
    from: nat,
    count: nat,
)
    requires
        from + count < entries.len(),
    ensures
        packed(order, entries, from, 0).len() == 0,
        packed(order, entries, from, count + 1) == packed(order, entries, from, count) + record(
            order,
            entries[(from + count) as int],
            from + count + 1,
        ),
{
}

/// A reader that asks until nothing more comes has been handed every entry exactly
/// once, in order: a request that delivers anything moves on, and one that delivers
/// nothing comes only at the end.
pub proof fn law_listing_comes_to_its_end(order: ByteOrder, listing: Listing, room: nat)
    requires
        listing.cursor <= listing.entries.len(),
    ensures
        ({
            let after = advanced(listing, room);
            &&& after.entries == listing.entries && after.path == listing.path
            &&& listing.cursor <= after.cursor <= listing.entries.len()
            &&& delivered(order, listing, room) matches Some(bytes) ==> {
                &&& bytes == packed(
                    order,
                    listing.entries,
                    listing.cursor,
                    (after.cursor - listing.cursor) as nat,
                )
                &&& bytes.len() == 0 <==> listing.cursor == listing.entries.len()
                &&& bytes.len() > 0 <==> after.cursor > listing.cursor
            }
            &&& delivered(order, listing, room) is None ==> after == listing && listing.cursor
                < listing.entries.len() && record_length(
                listing.entries[listing.cursor as int].name,
            ) > room
        }),
{
    law_listing_fills_buffer(order, listing.entries, listing.cursor, room);
    let count = fitting(listing.entries, listing.cursor, room as int);
    if count > 0 {
        lemma_packed_is_longer(order, listing.entries, listing.cursor, count);
    }
}

} // verus!
