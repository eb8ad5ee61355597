//! Whiteouts: guest entries that are hidden, and the log that keeps them.
//!
//! The log is a text file with one record a line: `+` hides a path, `-` reveals
//! it, and the path follows in lowercase hexadecimal.

use crate::bytes;
use crate::path::SEPARATOR;
use crate::text;
use vstd::prelude::*;
use vstd::utf8::{
    encode_utf8, encode_utf8_valid_utf8, is_ascii_chars, is_ascii_chars_encode_utf8, valid_utf8,
};

verus! {

/// The operation that hides a path: `+`.
pub const HIDE: u8 = 43;

/// The operation that reveals a path: `-`.
pub const REVEAL: u8 = 45;

/// The end of a record.
pub const NEWLINE: u8 = 10;

/// A carriage return, which may stand before the end of a line.
pub const RETURN: u8 = 13;

/// The value of a lowercase hexadecimal digit.
pub open spec fn digit_value(digit: u8) -> Option<u8> {
    if 48 <= digit <= 57 {
        Some((digit - 48) as u8)
    } else if 97 <= digit <= 102 {
        Some((digit - 97 + 10) as u8)
    } else {
        None
    }
}

/// The lowercase hexadecimal digit of a value below 16.
pub open spec fn digit_of(value: u8) -> u8 {
    if value < 10 {
        (48 + value) as u8
    } else {
        (97 + value - 10) as u8
    }
}

/// Two digits for each byte, the high one first.
pub open spec fn encoded(data: Seq<u8>) -> Seq<u8> {
    Seq::new(
        2 * data.len(),
        |i: int|
            if i % 2 == 0 {
                digit_of(data[i / 2] / 16)
            } else {
                digit_of(data[i / 2] % 16)
            },
    )
}

/// Whether every byte is a digit and their number is even.
pub open spec fn is_encoded(digits: Seq<u8>) -> bool {
    digits.len() % 2 == 0 && forall|i: int|
        0 <= i < digits.len() ==> digit_value(#[trigger] digits[i]) is Some
}

/// The bytes that digits spell.
pub open spec fn decoded(digits: Seq<u8>) -> Seq<u8> {
    Seq::new(
        digits.len() / 2,
        |i: int| (16 * digit_value(digits[2 * i])->0 + digit_value(digits[2 * i + 1])->0) as u8,
    )
}

/// Decoding undoes encoding.
pub proof fn law_decoding_undoes_encoding(data: Seq<u8>)
    ensures
        is_encoded(encoded(data)),
        decoded(encoded(data)) == data,
{
    let digits = encoded(data);
    assert forall|i: int| 0 <= i < digits.len() implies digit_value(#[trigger] digits[i]) is Some by {
        assert(data[i / 2] / 16 < 16);
    }
    assert forall|i: int| 0 <= i < data.len() implies #[trigger] decoded(digits)[i] == data[i] by {
        assert((2 * i) / 2 == i && (2 * i) % 2 == 0);
        assert((2 * i + 1) / 2 == i && (2 * i + 1) % 2 == 1);
        assert(data[i] / 16 < 16);
        assert(data[i] == 16 * (data[i] / 16) + data[i] % 16);
    }
    assert(decoded(digits) =~= data);
}

/// Encoding undoes decoding: a text that spells bytes is the one spelling that
/// they have.
pub proof fn law_encoding_undoes_decoding(digits: Seq<u8>)
    requires
        is_encoded(digits),
    ensures
        encoded(decoded(digits)) == digits,
{
    let data = decoded(digits);
    assert forall|i: int| 0 <= i < digits.len() implies #[trigger] encoded(data)[i] == digits[i] by {
        let k = i / 2;
        assert(digit_value(digits[2 * k]) is Some);
        assert(digit_value(digits[2 * k + 1]) is Some);
        let high = digit_value(digits[2 * k])->0;
        let low = digit_value(digits[2 * k + 1])->0;
        assert(data[k] == 16 * high + low);
        assert(data[k] / 16 == high && data[k] % 16 == low);
        assert(i == 2 * k || i == 2 * k + 1);
    }
    assert(encoded(data) =~= digits);
}

/// The value of a lowercase hexadecimal digit.
pub fn hex_digit(value: u8) -> (digit: Option<u8>)
    ensures
        digit == digit_value(value),
        digit matches Some(d) ==> d < 16,
{
    if 48 <= value && value <= 57 {
        Some(value - 48)
    } else if 97 <= value && value <= 102 {
        Some(value - 97 + 10)
    } else {
        None
    }
}

/// Spells bytes in lowercase hexadecimal.
pub fn hex_encode(data: &[u8]) -> (digits: Vec<u8>)
    ensures
        digits@ == encoded(data@),
{
    let mut digits: Vec<u8> = Vec::new();
    let mut i: usize = 0;
    while i < data.len()
        invariant
            i <= data.len(),
            digits@ == encoded(data@.take(i as int)),
        decreases data.len() - i,
    {
        let byte = data[i];
        let high: u8 = byte / 16;
        let low: u8 = byte % 16;
        let ghost before = digits@;
        digits.push(hex_character(high));
        digits.push(hex_character(low));
        proof {
            let head = data@.take(i as int);
            let next = data@.take(i + 1);
            assert forall|k: int| 0 <= k < 2 * (i + 1) implies digits@[k] == #[trigger] encoded(
                next,
            )[k] by {
                if k < 2 * i {
                    assert(before[k] == encoded(head)[k]);
                    assert(head[k / 2] == next[k / 2]);
                }
            }
            assert(digits@ =~= encoded(next));
        }
        i += 1;
    }
    assert(data@.take(data@.len() as int) =~= data@);
    digits
}

/// The digit of a value below 16.
fn hex_character(value: u8) -> (digit: u8)
    requires
        value < 16,
    ensures
        digit == digit_of(value),
{
    if value < 10 {
        48 + value
    } else {
        97 + (value - 10)
    }
}

/// The bytes that lowercase hexadecimal spells; nothing if a character is no
/// such digit or their number is odd.
pub fn hex_decode(digits: &[u8]) -> (data: Option<Vec<u8>>)
    ensures
        match data {
            Some(data) => is_encoded(digits@) && data@ == decoded(digits@),
            None => !is_encoded(digits@),
        },
{
    if digits.len() % 2 != 0 {
        return None;
    }
    let mut data: Vec<u8> = Vec::new();
    let mut i: usize = 0;
    while i < digits.len()
        invariant
            digits.len() % 2 == 0,
            i <= digits.len(),
            i % 2 == 0,
            forall|k: int| 0 <= k < i ==> digit_value(#[trigger] digits@[k]) is Some,
            data@.len() == i / 2,
            forall|k: int| 0 <= k < i / 2 ==> data@[k] == #[trigger] decoded(digits@)[k],
        decreases digits.len() - i,
    {
        let high = match hex_digit(digits[i]) {
            Some(value) => value,
            None => {
                assert(digit_value(digits@[i as int]) is None);
                return None;
            },
        };
        let low = match hex_digit(digits[i + 1]) {
            Some(value) => value,
            None => {
                assert(digit_value(digits@[i + 1]) is None);
                return None;
            },
        };
        data.push(16 * high + low);
        proof {
            let k = i as int / 2;
            assert(2 * k == i);
            assert(decoded(digits@)[k] == 16 * high + low);
        }
        i += 2;
    }
    assert(data@ =~= decoded(digits@));
    Some(data)
}

/// `path` is `hidden` itself or lies below it.
pub open spec fn shadowed(hidden: Seq<u8>, path: Seq<u8>) -> bool {
    path == hidden || (bytes::has_prefix(path, hidden) && hidden.len() < path.len()
        && path[hidden.len() as int] == SEPARATOR)
}

/// A hidden path is `path` itself or lies above it.
pub open spec fn covered(hidden: Set<Seq<u8>>, path: Seq<u8>) -> bool {
    exists|h: Seq<u8>| hidden.contains(h) && shadowed(h, path)
}

/// The log record of an operation on a path.
pub open spec fn record(operation: u8, path: Seq<u8>) -> Seq<u8> {
    seq![operation] + encoded(path) + seq![NEWLINE]
}

/// The records of one operation on several paths.
pub open spec fn records(operation: u8, paths: Seq<Seq<u8>>) -> Seq<u8>
    decreases paths.len(),
{
    if paths.len() == 0 {
        seq![]
    } else {
        records(operation, paths.drop_last()) + record(operation, paths.last())
    }
}

/// The number of bytes before the first end of line, or of all bytes.
pub open spec fn line_length(log: Seq<u8>) -> int
    decreases log.len(),
{
    if log.len() == 0 || log[0] == NEWLINE {
        0
    } else {
        1 + line_length(log.skip(1))
    }
}

/// The first line without its end.
pub open spec fn first_line(log: Seq<u8>) -> Seq<u8> {
    let length = line_length(log);
    if length < log.len() && length > 0 && log[length - 1] == RETURN {
        log.take(length - 1)
    } else {
        log.take(length)
    }
}

/// What follows the first line.
pub open spec fn after_line(log: Seq<u8>) -> Seq<u8> {
    let length = line_length(log);
    if length < log.len() {
        log.skip(length + 1)
    } else {
        seq![]
    }
}

/// The hidden paths after one line of the log; a line that is no record
/// changes nothing.
pub open spec fn after_record(hidden: Set<Seq<u8>>, line: Seq<u8>) -> Set<Seq<u8>> {
    if line.len() == 0 || !is_encoded(line.skip(1)) {
        hidden
    } else if line[0] == HIDE {
        hidden.insert(decoded(line.skip(1)))
    } else if line[0] == REVEAL {
        hidden.remove(decoded(line.skip(1)))
    } else {
        hidden
    }
}

/// The hidden paths after a log; reading stops at the first line that is not
/// UTF-8.
pub open spec fn replayed(hidden: Set<Seq<u8>>, log: Seq<u8>) -> Set<Seq<u8>>
    decreases log.len(),
{
    if log.len() == 0 || !valid_utf8(first_line(log)) || after_line(log).len() >= log.len() {
        hidden
    } else {
        replayed(after_record(hidden, first_line(log)), after_line(log))
    }
}

proof fn lemma_line_length(log: Seq<u8>)
    ensures
        0 <= line_length(log) <= log.len(),
        forall|i: int| 0 <= i < line_length(log) ==> log[i] != NEWLINE,
        line_length(log) < log.len() ==> log[line_length(log)] == NEWLINE,
    decreases log.len(),
{
    if log.len() > 0 && log[0] != NEWLINE {
        lemma_line_length(log.skip(1));
        assert forall|i: int| 0 <= i < line_length(log) implies log[i] != NEWLINE by {
            if i > 0 {
                assert(log.skip(1)[i - 1] == log[i]);
            }
        }
    }
}

proof fn lemma_line_length_is(log: Seq<u8>, length: int)
    requires
        0 <= length <= log.len(),
        forall|i: int| 0 <= i < length ==> log[i] != NEWLINE,
        length < log.len() ==> log[length] == NEWLINE,
    ensures
        line_length(log) == length,
{
    lemma_line_length(log);
    let found = line_length(log);
    if found < length {
        assert(log[found] == NEWLINE);
    } else if length < found {
        assert(log[length] != NEWLINE);
    }
}

/// Bytes below 128 are UTF-8.
proof fn lemma_ascii_is_utf8(line: Seq<u8>)
    requires
        forall|i: int| 0 <= i < line.len() ==> line[i] < 128,
    ensures
        valid_utf8(line),
{
    let chars = Seq::new(line.len(), |i: int| line[i] as char);
    assert forall|i: int| 0 <= i < chars.len() implies 0 <= (#[trigger] chars[i] as u32) < 128 by {
        assert(line[i] < 128);
    }
    assert(is_ascii_chars(chars));
    is_ascii_chars_encode_utf8(chars);
    assert(encode_utf8(chars) =~= line);
    encode_utf8_valid_utf8(chars);
}

/// Reading a log that begins with a record performs the record's operation and
/// goes on with the rest.
pub proof fn law_record_is_replayed(hidden: Set<Seq<u8>>, operation: u8, path: Seq<u8>, rest: Seq<u8>)
    requires
        operation == HIDE || operation == REVEAL,
    ensures
        replayed(hidden, record(operation, path) + rest) == replayed(
            if operation == HIDE {
                hidden.insert(path)
            } else {
                hidden.remove(path)
            },
            rest,
        ),
{
    let log = record(operation, path) + rest;
    let line = seq![operation] + encoded(path);
    law_decoding_undoes_encoding(path);
    lemma_record_line(operation, path, rest);
    assert(line.skip(1) =~= encoded(path));
    assert(line[0] == operation);
}

/// The bytes of an encoding are printable ASCII.
proof fn lemma_encoding_is_ascii(path: Seq<u8>)
    ensures
        forall|i: int| 0 <= i < encoded(path).len() ==> 33 <= #[trigger] encoded(path)[i] < 128,
{
    assert forall|i: int| 0 <= i < encoded(path).len() implies 33 <= #[trigger] encoded(path)[i]
        < 128 by {
        assert(path[i / 2] / 16 < 16);
    }
}

/// A record is the first line of the log that it begins.
proof fn lemma_record_line(operation: u8, path: Seq<u8>, rest: Seq<u8>)
    requires
        33 <= operation < 128,
    ensures
        first_line(record(operation, path) + rest) == seq![operation] + encoded(path),
        after_line(record(operation, path) + rest) == rest,
        valid_utf8(seq![operation] + encoded(path)),
        record(operation, path).len() > 0,
{
    let log = record(operation, path) + rest;
    let line = seq![operation] + encoded(path);
    let length = line.len() as int;
    lemma_encoding_is_ascii(path);
    assert forall|i: int| 0 <= i < line.len() implies 33 <= #[trigger] line[i] < 128 by {
        if i > 0 {
            assert(line[i] == encoded(path)[i - 1]);
        }
    }
    assert forall|i: int| 0 <= i < length implies log[i] != NEWLINE by {
        assert(log[i] == line[i]);
    }
    assert(log[length] == NEWLINE);
    lemma_line_length_is(log, length);
    assert(log[length - 1] == line[length - 1]);
    assert(log.take(length) =~= line);
    lemma_ascii_is_utf8(line);
    assert(log.skip(length + 1) =~= rest);
}

/// The hidden paths of a guest view.
#[derive(Debug)]
pub struct Whiteouts {
    hidden: Vec<Vec<u8>>,
}

impl View for Whiteouts {
    type V = Set<Seq<u8>>;

    closed spec fn view(&self) -> Set<Seq<u8>> {
        bytes::rows(self.hidden@).to_set()
    }
}

/// Whether `path` is `hidden` itself or lies below it.
fn is_shadowed(hidden: &[u8], path: &[u8]) -> (found: bool)
    ensures
        found == shadowed(hidden@, path@),
{
    if bytes::equal(path, hidden) {
        return true;
    }
    bytes::starts_with(path, hidden) && hidden.len() < path.len() && path[hidden.len()]
        == SEPARATOR
}

/// The index of a path in a list of paths.
fn position(list: &Vec<Vec<u8>>, path: &[u8]) -> (found: Option<usize>)
    ensures
        match found {
            Some(index) => index < list.len() && list@[index as int]@ == path@,
            None => !bytes::rows(list@).contains(path@),
        },
{
    let mut i: usize = 0;
    while i < list.len()
        invariant
            i <= list.len(),
            forall|j: int| 0 <= j < i ==> (#[trigger] bytes::rows(list@)[j]) != path@,
        decreases list.len() - i,
    {
        if bytes::equal(list[i].as_slice(), path) {
            return Some(i);
        }
        assert(bytes::rows(list@)[i as int] != path@);
        i += 1;
    }
    None
}

/// Appends the log record of an operation on a path.
fn append_record(log: &mut Vec<u8>, operation: u8, path: &[u8])
    ensures
        final(log)@ == old(log)@ + record(operation, path@),
{
    log.push(operation);
    let digits = hex_encode(path);
    bytes::append(log, digits.as_slice());
    log.push(NEWLINE);
    assert(log@ =~= old(log)@ + record(operation, path@));
}

impl Whiteouts {
    #[verifier::type_invariant]
    spec fn well_formed(self) -> bool {
        bytes::rows(self.hidden@).no_duplicates()
    }

    /// Nothing is hidden.
    fn empty() -> (whiteouts: Whiteouts)
        ensures
            whiteouts@ == Set::<Seq<u8>>::empty(),
    {
        let hidden: Vec<Vec<u8>> = Vec::new();
        let whiteouts = Whiteouts { hidden };
        assert(whiteouts@ =~= Set::<Seq<u8>>::empty());
        whiteouts
    }

    /// The hidden paths that a log leaves.
    pub fn load(log: &[u8]) -> (whiteouts: Whiteouts)
        ensures
            whiteouts@ == replayed(Set::<Seq<u8>>::empty(), log@),
    {
        let mut whiteouts = Whiteouts::empty();
        let mut start: usize = 0;
        assert(log@.skip(0) =~= log@);
        while start < log.len()
            invariant
                start <= log.len(),
                replayed(Set::<Seq<u8>>::empty(), log@) == replayed(
                    whiteouts@,
                    log@.skip(start as int),
                ),
            decreases log.len() - start,
        {
            let ghost rest = log@.skip(start as int);
            let end = end_of_line(log, start);
            proof {
                assert forall|i: int| 0 <= i < end - start implies rest[i] != NEWLINE by {
                    assert(rest[i] == log@[start + i]);
                }
                lemma_line_length_is(rest, end - start);
            }
            let last = if end < log.len() && end > start && log[end - 1] == RETURN {
                end - 1
            } else {
                end
            };
            let line = bytes::range(log, start, last);
            assert(line@ =~= first_line(rest));
            if !text::is_utf8(line.as_slice()) {
                return whiteouts;
            }
            whiteouts.apply(line.as_slice());
            if end < log.len() {
                assert(rest.skip(end - start + 1) =~= log@.skip(end + 1));
                start = end + 1;
            } else {
                assert(log@.skip(log@.len() as int) =~= seq![]);
                start = log.len();
            }
            proof {
                assert(after_line(rest) == log@.skip(start as int));
            }
        }
        assert(log@.skip(log@.len() as int) =~= seq![]);
        whiteouts
    }

    /// Performs one line of a log.
    fn apply(&mut self, line: &[u8])
        ensures
            final(self)@ == after_record(old(self)@, line@),
    {
        if line.len() == 0 {
            return;
        }
        let digits = bytes::range(line, 1, line.len());
        assert(digits@ =~= line@.skip(1));
        let path = match hex_decode(digits.as_slice()) {
            Some(path) => path,
            None => {
                return;
            },
        };
        if line[0] == HIDE {
            let _fresh = self.insert(path);
        } else if line[0] == REVEAL {
            self.remove(path.as_slice());
        }
    }

    /// Adds a path; says whether it was absent.
    fn insert(&mut self, path: Vec<u8>) -> (fresh: bool)
        ensures
            final(self)@ == old(self)@.insert(path@),
            fresh == !old(self)@.contains(path@),
    {
        proof {
            use_type_invariant(&*self);
        }
        let ghost before = bytes::rows(self.hidden@);
        if position(&self.hidden, path.as_slice()).is_some() {
            proof {
                let k = choose|k: int|
                    0 <= k < self.hidden@.len() && (#[trigger] self.hidden@[k])@ == path@;
                assert(before[k] == path@);
                assert(self@ =~= old(self)@.insert(path@));
            }
            return false;
        }
        let mut hidden: Vec<Vec<u8>> = Vec::new();
        std::mem::swap(&mut hidden, &mut self.hidden);
        hidden.push(path);
        proof {
            let after = bytes::rows(hidden@);
            assert(after =~= before.push(path@));
            assert(after.to_set() =~= before.to_set().insert(path@)) by {
                assert forall|x: Seq<u8>| after.to_set().contains(x) <==> before.to_set().insert(
                    path@,
                ).contains(x) by {
                    if before.contains(x) {
                        let k = choose|k: int| 0 <= k < before.len() && before[k] == x;
                        assert(after[k] == x);
                    }
                    if x == path@ {
                        assert(after[before.len() as int] == x);
                    }
                }
            }
            assert forall|i: int, j: int|
                0 <= i < after.len() && 0 <= j < after.len() && i != j implies after[i]
                != after[j] by {
                if i < before.len() && j < before.len() {
                    assert(before[i] != before[j]);
                } else if i < before.len() {
                    assert(before.contains(before[i]));
                } else {
                    assert(before.contains(before[j]));
                }
            }
        }
        self.hidden = hidden;
        true
    }

    /// Removes a path.
    fn remove(&mut self, path: &[u8])
        ensures
            final(self)@ == old(self)@.remove(path@),
    {
        proof {
            use_type_invariant(&*self);
        }
        let ghost before = bytes::rows(self.hidden@);
        let index = match position(&self.hidden, path) {
            Some(index) => index,
            None => {
                assert(self@ =~= old(self)@.remove(path@));
                return;
            },
        };
        let mut hidden: Vec<Vec<u8>> = Vec::new();
        std::mem::swap(&mut hidden, &mut self.hidden);
        let _removed = hidden.remove(index);
        proof {
            let after = bytes::rows(hidden@);
            assert(before[index as int] == path@);
            assert(after =~= before.remove(index as int));
            lemma_remove_from_rows(before, index as int);
        }
        self.hidden = hidden;
    }

    /// Whether a path or one above it is hidden.
    pub fn covers(&self, path: &[u8]) -> (found: bool)
        ensures
            found == covered(self@, path@),
    {
        let ghost all = bytes::rows(self.hidden@);
        let mut i: usize = 0;
        while i < self.hidden.len()
            invariant
                i <= self.hidden.len(),
                all == bytes::rows(self.hidden@),
                forall|j: int| 0 <= j < i ==> !shadowed(#[trigger] all[j], path@),
            decreases self.hidden.len() - i,
        {
            assert(all[i as int] == self.hidden@[i as int]@);
            if is_shadowed(self.hidden[i].as_slice(), path) {
                assert(self@.contains(all[i as int]));
                return true;
            }
            i += 1;
        }
        assert(!covered(self@, path@)) by {
            if covered(self@, path@) {
                let h = choose|h: Seq<u8>| self@.contains(h) && shadowed(h, path@);
                let k = choose|k: int| 0 <= k < all.len() && all[k] == h;
                assert(!shadowed(all[k], path@));
            }
        }
        false
    }

    /// Hides a path and returns what to append to the log: a record if the path
    /// was not hidden itself, else nothing.
    pub fn hide_path(&mut self, path: &[u8]) -> (log: Vec<u8>)
        ensures
            final(self)@ == old(self)@.insert(path@),
            log@ == hiding_log(old(self)@, path@),
            covered(final(self)@, path@),
            replayed(old(self)@, log@) == final(self)@,
            complete(log@),
    {
        let mut log: Vec<u8> = Vec::new();
        if self.insert(bytes::copy(path)) {
            append_record(&mut log, HIDE, path);
            assert(log@ =~= record(HIDE, path@));
            proof {
                lemma_record_is_complete(HIDE, path@);
                law_record_is_replayed(old(self)@, HIDE, path@, seq![]);
                assert(record(HIDE, path@) + Seq::<u8>::empty() =~= record(HIDE, path@));
            }
        } else {
            assert(old(self)@.insert(path@) =~= old(self)@);
        }
        assert(self@.contains(path@) && shadowed(path@, path@));
        log
    }

    /// Reveals a path: it and every hidden path above it are hidden no more.
    /// Returns what to append to the log, one record for each.
    pub fn reveal_path(&mut self, path: &[u8]) -> (log: Vec<u8>)
        ensures
            final(self)@ == unshadowed(old(self)@, path@),
            !covered(final(self)@, path@),
            is_revealing_log(old(self)@, path@, log@),
            replayed(old(self)@, log@) == final(self)@,
            complete(log@),
    {
        proof {
            use_type_invariant(&*self);
        }
        let ghost all = bytes::rows(self.hidden@);
        let ghost given = self@;
        let mut hidden: Vec<Vec<u8>> = Vec::new();
        std::mem::swap(&mut hidden, &mut self.hidden);
        let mut kept: Vec<Vec<u8>> = Vec::new();
        let mut log: Vec<u8> = Vec::new();
        let ghost mut gone: Seq<Seq<u8>> = seq![];
        let mut i: usize = 0;
        assert(all.take(0) =~= seq![]);
        assert(bytes::rows(kept@) =~= seq![]);
        while i < hidden.len()
            invariant
                i <= hidden.len(),
                all == bytes::rows(hidden@),
                all.no_duplicates(),
                log@ == records(REVEAL, gone),
                gone.no_duplicates(),
                bytes::rows(kept@).no_duplicates(),
                forall|x: Seq<u8>| #[trigger]
                    gone.contains(x) <==> all.take(i as int).contains(x) && shadowed(x, path@),
                forall|x: Seq<u8>| #[trigger]
                    bytes::rows(kept@).contains(x) <==> all.take(i as int).contains(x) && !shadowed(
                        x,
                        path@,
                    ),
            decreases hidden.len() - i,
        {
            let entry = hidden[i].as_slice();
            let ghost here = all[i as int];
            let ghost old_gone = gone;
            let ghost old_kept = bytes::rows(kept@);
            proof {
                lemma_take_next(all, i as int);
            }
            if is_shadowed(entry, path) {
                append_record(&mut log, REVEAL, entry);
                proof {
                    gone = gone.push(here);
                    assert(gone.drop_last() =~= old_gone);
                    lemma_push_new(old_gone, here);
                }
            } else {
                kept.push(bytes::copy(entry));
                proof {
                    assert(bytes::rows(kept@) =~= old_kept.push(here));
                    lemma_push_new(old_kept, here);
                }
            }
            i += 1;
        }
        assert(all.take(all.len() as int) =~= all);
        self.hidden = kept;
        proof {
            assert(self@ =~= unshadowed(given, path@)) by {
                assert forall|x: Seq<u8>| self@.contains(x) <==> unshadowed(
                    given,
                    path@,
                ).contains(x) by {
                    assert(self@.contains(x) <==> bytes::rows(self.hidden@).contains(x));
                    assert(given.contains(x) <==> all.contains(x));
                }
            }
            assert(gone.to_set() =~= given.difference(self@)) by {
                assert forall|x: Seq<u8>| gone.to_set().contains(x) <==> given.difference(
                    self@,
                ).contains(x) by {
                    assert(gone.to_set().contains(x) <==> gone.contains(x));
                    assert(self@.contains(x) <==> bytes::rows(self.hidden@).contains(x));
                    assert(given.contains(x) <==> all.contains(x));
                }
            }
            law_reveals_are_replayed(given, gone);
            lemma_records_are_complete(REVEAL, gone);
            assert(given.difference(gone.to_set()) =~= self@);
        }
        log
    }
}

/// The hidden paths that are neither `path` nor above it.
pub open spec fn unshadowed(hidden: Set<Seq<u8>>, path: Seq<u8>) -> Set<Seq<u8>> {
    hidden.filter(|h: Seq<u8>| !shadowed(h, path))
}

/// What hiding `path` adds to the log: one record, or nothing if the path was
/// hidden itself.
pub open spec fn hiding_log(hidden: Set<Seq<u8>>, path: Seq<u8>) -> Seq<u8> {
    if hidden.contains(path) {
        seq![]
    } else {
        record(HIDE, path)
    }
}

/// `log` is what revealing `path` adds to the log: one record for each hidden path
/// that is hidden no more, in some order, and nothing else.
pub open spec fn is_revealing_log(hidden: Set<Seq<u8>>, path: Seq<u8>, log: Seq<u8>) -> bool {
    exists|gone: Seq<Seq<u8>>|
        gone.no_duplicates() && gone.to_set() == hidden.difference(unshadowed(hidden, path)) && log
            == #[trigger] records(REVEAL, gone)
}

/// Reading a log of reveals takes each of its paths out.
pub proof fn law_reveals_are_replayed(hidden: Set<Seq<u8>>, paths: Seq<Seq<u8>>)
    ensures
        replayed(hidden, records(REVEAL, paths)) == hidden.difference(paths.to_set()),
    decreases paths.len(),
{
    lemma_reveals_then(hidden, paths, seq![]);
    let log = records(REVEAL, paths);
    assert(log + Seq::<u8>::empty() =~= log);
}

proof fn lemma_reveals_then(hidden: Set<Seq<u8>>, paths: Seq<Seq<u8>>, rest: Seq<u8>)
    ensures
        replayed(hidden, records(REVEAL, paths) + rest) == replayed(
            hidden.difference(paths.to_set()),
            rest,
        ),
    decreases paths.len(),
{
    if paths.len() == 0 {
        assert(records(REVEAL, paths) + rest =~= rest);
        assert(hidden.difference(paths.to_set()) =~= hidden);
    } else {
        let front = paths.drop_last();
        let last = paths.last();
        let tail = record(REVEAL, last) + rest;
        assert(records(REVEAL, paths) + rest =~= records(REVEAL, front) + tail);
        lemma_reveals_then(hidden, front, tail);
        law_record_is_replayed(hidden.difference(front.to_set()), REVEAL, last, rest);
        assert(hidden.difference(front.to_set()).remove(last) =~= hidden.difference(
            paths.to_set(),
        )) by {
            assert forall|x: Seq<u8>| paths.contains(x) <==> front.contains(x) || x == last by {
                if paths.contains(x) {
                    let k = choose|k: int| 0 <= k < paths.len() && paths[k] == x;
                    if k < front.len() {
                        assert(front[k] == x);
                    }
                }
                if front.contains(x) {
                    let k = choose|k: int| 0 <= k < front.len() && front[k] == x;
                    assert(paths[k] == x);
                }
                if x == last {
                    assert(paths[paths.len() - 1] == x);
                }
            }
        }
    }
}

/// A log that grows by what `hide_path` or `reveal_path` returns leaves, when it is
/// loaded again, the hidden paths that they left: what a log leaves is carried
/// on by whatever follows it.
pub proof fn law_log_keeps_hidden_paths(log: Seq<u8>, operation: u8, path: Seq<u8>)
    requires
        operation == HIDE || operation == REVEAL,
        complete(log),
    ensures
        complete(log + record(operation, path)),
        replayed(Set::empty(), log + record(operation, path)) == if operation == HIDE {
            replayed(Set::empty(), log).insert(path)
        } else {
            replayed(Set::empty(), log).remove(path)
        },
{
    let next = record(operation, path);
    law_log_is_carried_on(Set::empty(), log, next);
    law_record_is_replayed(replayed(Set::empty(), log), operation, path, seq![]);
    assert(next + Seq::<u8>::empty() =~= next);
    lemma_record_is_complete(operation, path);
    lemma_complete_sum(log, next);
}

/// A log made of whole lines of ASCII.
pub open spec fn complete(log: Seq<u8>) -> bool {
    (log.len() == 0 || log.last() == NEWLINE) && forall|i: int|
        0 <= i < log.len() ==> #[trigger] log[i] < 128
}

/// Whole lines after whole lines are whole lines.
pub proof fn lemma_complete_sum(log: Seq<u8>, rest: Seq<u8>)
    requires
        complete(log),
        complete(rest),
    ensures
        complete(log + rest),
{
    let whole = log + rest;
    assert forall|i: int| 0 <= i < whole.len() implies #[trigger] whole[i] < 128 by {
        if i < log.len() {
            assert(whole[i] == log[i]);
        } else {
            assert(whole[i] == rest[i - log.len()]);
        }
    }
    if rest.len() > 0 {
        assert(whole.last() == rest.last());
    } else {
        assert(whole =~= log);
    }
}

proof fn lemma_record_is_complete(operation: u8, path: Seq<u8>)
    requires
        operation < 128,
    ensures
        complete(record(operation, path)),
{
    let next = record(operation, path);
    lemma_encoding_is_ascii(path);
    assert forall|i: int| 0 <= i < next.len() implies #[trigger] next[i] < 128 by {
        if 0 < i < next.len() - 1 {
            assert(next[i] == encoded(path)[i - 1]);
        }
    }
}

proof fn lemma_records_are_complete(operation: u8, paths: Seq<Seq<u8>>)
    requires
        operation < 128,
    ensures
        complete(records(operation, paths)),
    decreases paths.len(),
{
    if paths.len() > 0 {
        lemma_records_are_complete(operation, paths.drop_last());
        lemma_record_is_complete(operation, paths.last());
        lemma_complete_sum(
            records(operation, paths.drop_last()),
            record(operation, paths.last()),
        );
    }
}

/// A log that goes on after whole lines is read on from where they left off.
pub proof fn law_log_is_carried_on(hidden: Set<Seq<u8>>, log: Seq<u8>, rest: Seq<u8>)
    requires
        complete(log),
    ensures
        replayed(hidden, log + rest) == replayed(replayed(hidden, log), rest),
    decreases log.len(),
{
    if log.len() == 0 {
        assert(log + rest =~= rest);
    } else {
        lemma_line_length(log);
        let length = line_length(log);
        assert(length < log.len());
        let whole = log + rest;
        assert forall|i: int| 0 <= i < length implies whole[i] != NEWLINE by {
            assert(whole[i] == log[i]);
        }
        lemma_line_length_is(whole, length);
        assert(first_line(whole) =~= first_line(log));
        let line = first_line(log);
        assert forall|i: int| 0 <= i < line.len() implies line[i] < 128 by {
            assert(line[i] == log[i]);
        }
        lemma_ascii_is_utf8(line);
        let tail = after_line(log);
        assert(after_line(whole) =~= tail + rest);
        assert forall|i: int| 0 <= i < tail.len() implies #[trigger] tail[i] < 128 by {
            assert(tail[i] == log[length + 1 + i]);
        }
        if tail.len() > 0 {
            assert(tail.last() == log.last());
        }
        law_log_is_carried_on(after_record(hidden, line), tail, rest);
    }
}

proof fn lemma_take_next(all: Seq<Seq<u8>>, i: int)
    requires
        0 <= i < all.len(),
        all.no_duplicates(),
    ensures
        !all.take(i).contains(all[i]),
        forall|x: Seq<u8>| #[trigger]
            all.take(i + 1).contains(x) <==> all.take(i).contains(x) || x == all[i],
{
    if all.take(i).contains(all[i]) {
        let k = choose|k: int| 0 <= k < i && all.take(i)[k] == all[i];
        assert(all[k] == all[i]);
    }
    assert(all.take(i + 1) =~= all.take(i).push(all[i]));
    assert forall|x: Seq<u8>| #[trigger] all.take(i + 1).contains(x) <==> all.take(i).contains(x)
        || x == all[i] by {
        lemma_push_contains(all.take(i), all[i], x);
    }
}

proof fn lemma_push_contains(list: Seq<Seq<u8>>, item: Seq<u8>, x: Seq<u8>)
    ensures
        list.push(item).contains(x) <==> list.contains(x) || x == item,
{
    let longer = list.push(item);
    if list.contains(x) {
        let k = choose|k: int| 0 <= k < list.len() && list[k] == x;
        assert(longer[k] == x);
    }
    if x == item {
        assert(longer[list.len() as int] == x);
    }
}

proof fn lemma_push_new(list: Seq<Seq<u8>>, item: Seq<u8>)
    ensures
        forall|x: Seq<u8>| #[trigger]
            list.push(item).contains(x) <==> list.contains(x) || x == item,
        list.no_duplicates() && !list.contains(item) ==> list.push(item).no_duplicates(),
{
    assert forall|x: Seq<u8>| #[trigger] list.push(item).contains(x) <==> list.contains(x) || x
        == item by {
        lemma_push_contains(list, item, x);
    }
    if list.no_duplicates() && !list.contains(item) {
        let longer = list.push(item);
        assert forall|i: int, j: int|
            0 <= i < longer.len() && 0 <= j < longer.len() && i != j implies longer[i]
            != longer[j] by {
            if i < list.len() && j < list.len() {
                assert(list[i] != list[j]);
            } else if i < list.len() {
                assert(list.contains(list[i]));
            } else {
                assert(list.contains(list[j]));
            }
        }
    }
}

proof fn lemma_remove_from_rows(all: Seq<Seq<u8>>, index: int)
    requires
        0 <= index < all.len(),
        all.no_duplicates(),
    ensures
        all.remove(index).no_duplicates(),
        all.remove(index).to_set() == all.to_set().remove(all[index]),
{
    let shorter = all.remove(index);
    assert forall|x: Seq<u8>| shorter.contains(x) <==> all.contains(x) && x != all[index] by {
        if all.contains(x) && x != all[index] {
            let k = choose|k: int| 0 <= k < all.len() && all[k] == x;
            if k < index {
                assert(shorter[k] == x);
            } else {
                assert(shorter[k - 1] == x);
            }
        }
        if shorter.contains(x) {
            let k = choose|k: int| 0 <= k < shorter.len() && shorter[k] == x;
            if k < index {
                assert(all[k] == x);
            } else {
                assert(all[k + 1] == x);
            }
        }
    }
    assert(shorter.to_set() =~= all.to_set().remove(all[index]));
    assert forall|i: int, j: int|
        0 <= i < shorter.len() && 0 <= j < shorter.len() && i != j implies shorter[i]
        != shorter[j] by {
        let a = if i < index { i } else { i + 1 };
        let b = if j < index { j } else { j + 1 };
        assert(all[a] != all[b]);
    }
}

/// The index of the first end of line at or after `start`, or the length.
fn end_of_line(log: &[u8], start: usize) -> (end: usize)
    requires
        start <= log.len(),
    ensures
        start <= end <= log.len(),
        forall|i: int| start <= i < end ==> log@[i] != NEWLINE,
        end < log.len() ==> log@[end as int] == NEWLINE,
{
    let mut end: usize = start;
    while end < log.len() && log[end] != NEWLINE
        invariant
            start <= end <= log.len(),
            forall|i: int| start <= i < end ==> log@[i] != NEWLINE,
        decreases log.len() - end,
    {
        end += 1;
    }
    end
}

/// A log is read line by line, whether its lines end in a newline alone or in a
/// carriage return and a newline; the last line need not end at all. A line that is
/// not text ends the reading.
pub proof fn law_log_is_read_line_by_line(hidden: Set<Seq<u8>>, line: Seq<u8>, rest: Seq<u8>)
    requires
        !line.contains(10),
        line.len() > 0 ==> line.last() != 13,
    ensures
        valid_utf8(line) ==> replayed(hidden, line + seq![10u8] + rest) == replayed(
            after_record(hidden, line),
            rest,
        ),
        valid_utf8(line) ==> replayed(hidden, line + seq![13u8, 10] + rest) == replayed(
            after_record(hidden, line),
            rest,
        ),
        valid_utf8(line) && line.len() > 0 ==> replayed(hidden, line) == after_record(hidden, line),
        !valid_utf8(line) ==> replayed(hidden, line + seq![10u8] + rest) == hidden,
{
    let plain = line + seq![10u8] + rest;
    let wide = line + seq![13u8, 10] + rest;
    let length = line.len() as int;
    assert forall|i: int| 0 <= i < length implies line[i] != NEWLINE by {
        assert(line.contains(line[i]));
    }
    assert forall|i: int| 0 <= i < length implies plain[i] != NEWLINE by {
        assert(plain[i] == line[i]);
    }
    lemma_line_length_is(plain, length);
    assert(length > 0 ==> plain[length - 1] == line.last());
    assert(plain.take(length) =~= line);
    assert(plain.skip(length + 1) =~= rest);
    assert forall|i: int| 0 <= i < length + 1 implies wide[i] != NEWLINE by {
        if i < length {
            assert(wide[i] == line[i]);
        }
    }
    lemma_line_length_is(wide, length + 1);
    assert(wide[length] == RETURN);
    assert(wide.take(length) =~= line);
    assert(wide.skip(length + 2) =~= rest);
    lemma_line_length_is(line, length);
    assert(line.take(length) =~= line);
    assert(replayed(after_record(hidden, line), seq![]) == after_record(hidden, line));
}

/// A line hides or reveals the path that it spells, and a line that is no such record
/// changes nothing.
pub proof fn law_lines_are_records_or_nothing(hidden: Set<Seq<u8>>, line: Seq<u8>, path: Seq<u8>)
    ensures
        after_record(hidden, seq![43u8] + encoded(path)) == hidden.insert(path),
        after_record(hidden, seq![45u8] + encoded(path)) == hidden.remove(path),
        line.len() == 0 || (line[0] != 43 && line[0] != 45) ==> after_record(hidden, line) == hidden,
        line.len() > 0 && (forall|other: Seq<u8>| line.skip(1) != #[trigger] encoded(other))
            ==> after_record(hidden, line) == hidden,
{
    law_decoding_undoes_encoding(path);
    let hide = seq![43u8] + encoded(path);
    let reveal_line = seq![45u8] + encoded(path);
    assert(hide.skip(1) =~= encoded(path));
    assert(reveal_line.skip(1) =~= encoded(path));
    if line.len() > 0 && is_encoded(line.skip(1)) {
        law_encoding_undoes_decoding(line.skip(1));
        assert(line.skip(1) == encoded(decoded(line.skip(1))));
    }
}

/// What hiding or revealing a path adds to the log does, when it is read, what the
/// hiding or revealing did; and it is made of whole lines.
pub proof fn law_logs_do_what_was_done(hidden: Set<Seq<u8>>, path: Seq<u8>, log: Seq<u8>)
    ensures
        replayed(hidden, hiding_log(hidden, path)) == hidden.insert(path),
        complete(hiding_log(hidden, path)),
        is_revealing_log(hidden, path, log) ==> replayed(hidden, log) == unshadowed(hidden, path)
            && complete(log),
{
    if hidden.contains(path) {
        assert(hidden.insert(path) =~= hidden);
    } else {
        lemma_record_is_complete(HIDE, path);
        law_record_is_replayed(hidden, HIDE, path, seq![]);
        assert(record(HIDE, path) + Seq::<u8>::empty() =~= record(HIDE, path));
    }
    if is_revealing_log(hidden, path, log) {
        let gone = choose|gone: Seq<Seq<u8>>|
            gone.no_duplicates() && gone.to_set() == hidden.difference(unshadowed(hidden, path))
                && log == #[trigger] records(REVEAL, gone);
        law_reveals_are_replayed(hidden, gone);
        lemma_records_are_complete(REVEAL, gone);
        assert(hidden.difference(gone.to_set()) =~= unshadowed(hidden, path));
    }
}

} // verus!
