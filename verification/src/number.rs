//! Numbers as decimal text and as bytes in memory.

use crate::bytes;
use vstd::prelude::*;

verus! {

/// The ASCII code of `0`.
pub const ZERO: u8 = 48;

/// The decimal digits of a number, without leading zeros.
pub open spec fn digits(number: nat) -> Seq<u8>
    decreases number,
{
    if number < 10 {
        seq![(ZERO + number) as u8]
    } else {
        digits(number / 10).push((ZERO + number % 10) as u8)
    }
}

/// A number with its sign, if it is below zero.
pub open spec fn signed_digits(number: int) -> Seq<u8> {
    if number < 0 {
        seq![45u8] + digits((-number) as nat)
    } else {
        digits(number as nat)
    }
}

/// The characters of ASCII bytes.
pub open spec fn letters(ascii: Seq<u8>) -> Seq<char> {
    Seq::new(ascii.len(), |i: int| ascii[i] as char)
}

/// The text of a number.
pub open spec fn decimal(number: int) -> Seq<char> {
    letters(signed_digits(number))
}

/// Only the digits `0` to `9`.
pub open spec fn all_digits(text: Seq<u8>) -> bool {
    forall|i: int| 0 <= i < text.len() ==> ZERO <= #[trigger] text[i] <= 57
}

/// The number that digits spell.
pub open spec fn value_of(text: Seq<u8>) -> nat
    decreases text.len(),
{
    if text.len() == 0 {
        0
    } else {
        (value_of(text.drop_last()) * 10 + (text.last() - ZERO)) as nat
    }
}

/// The digits of a number spell the number.
pub proof fn law_digits_spell_number(number: nat)
    ensures
        all_digits(digits(number)),
        digits(number).len() > 0,
        value_of(digits(number)) == number,
    decreases number,
{
    if number < 10 {
        let text = digits(number);
        assert(text.drop_last() =~= seq![]);
        assert(value_of(seq![]) == 0);
    } else {
        law_digits_spell_number(number / 10);
        let before = digits(number / 10);
        let text = digits(number);
        assert(text.drop_last() =~= before);
        assert forall|i: int| 0 <= i < text.len() implies ZERO <= #[trigger] text[i] <= 57 by {
            if i < before.len() {
                assert(text[i] == before[i]);
            }
        }
    }
}

/// The digits of a number.
pub fn render_digits(number: u64) -> (text: Vec<u8>)
    ensures
        text@ == digits(number as nat),
    decreases number,
{
    if number < 10 {
        let mut text: Vec<u8> = Vec::new();
        text.push(ZERO + number as u8);
        assert(text@ =~= digits(number as nat));
        text
    } else {
        let mut text = render_digits(number / 10);
        text.push(ZERO + (number % 10) as u8);
        text
    }
}

/// The digits of a number with its sign.
pub fn render_signed(number: i32) -> (text: Vec<u8>)
    ensures
        text@ == signed_digits(number as int),
{
    if number < 0 {
        let mut text: Vec<u8> = Vec::new();
        text.push(45u8);
        let rest = render_digits((-(number as i64)) as u64);
        bytes::append(&mut text, rest.as_slice());
        assert(text@ =~= signed_digits(number as int));
        text
    } else {
        render_digits(number as u64)
    }
}

/// A digit as text.
fn digit_text(digit: u8) -> (text: &'static str)
    requires
        ZERO <= digit <= 57,
    ensures
        text@ == seq![digit as char],
{
    proof {
        reveal_strlit("0");
        reveal_strlit("1");
        reveal_strlit("2");
        reveal_strlit("3");
        reveal_strlit("4");
        reveal_strlit("5");
        reveal_strlit("6");
        reveal_strlit("7");
        reveal_strlit("8");
        reveal_strlit("9");
    }
    let text = match digit {
        48 => "0",
        49 => "1",
        50 => "2",
        51 => "3",
        52 => "4",
        53 => "5",
        54 => "6",
        55 => "7",
        56 => "8",
        _ => "9",
    };
    assert(text@ =~= seq![digit as char]);
    text
}

/// The text of a number.
pub fn render_decimal(number: i32) -> (text: String)
    ensures
        text@ == decimal(number as int),
{
    let ascii = if number < 0 {
        render_digits((-(number as i64)) as u64)
    } else {
        render_digits(number as u64)
    };
    let ghost magnitude = if number < 0 {
        (-number) as nat
    } else {
        number as nat
    };
    let mut text = String::new();
    let ghost mut sign: Seq<char> = seq![];
    if number < 0 {
        text.append("-");
        proof {
            reveal_strlit("-");
            sign = seq!['-'];
            assert(text@ =~= sign);
        }
    }
    proof {
        law_digits_spell_number(magnitude);
    }
    append_letters(&mut text, &ascii);
    proof {
        assert(text@ =~= sign + letters(ascii@));
        assert(text@ =~= decimal(number as int));
    }
    text
}

/// Appends digits to a text.
fn append_letters(text: &mut String, ascii: &Vec<u8>)
    requires
        all_digits(ascii@),
    ensures
        final(text)@ == old(text)@ + letters(ascii@),
{
    let ghost before = text@;
    let mut i: usize = 0;
    while i < ascii.len()
        invariant
            i <= ascii.len(),
            all_digits(ascii@),
            text@ == before + letters(ascii@.take(i as int)),
        decreases ascii.len() - i,
    {
        text.append(digit_text(ascii[i]));
        i += 1;
        assert(letters(ascii@.take(i as int)) =~= letters(ascii@.take(i - 1)).push(
            ascii@[i - 1] as char,
        ));
        assert(text@ =~= before + letters(ascii@.take(i as int)));
    }
    assert(ascii@.take(ascii@.len() as int) =~= ascii@);
}

/// The text of a count.
pub fn render_count(number: usize) -> (text: String)
    ensures
        text@ == decimal(number as int),
{
    let ascii = render_digits(number as u64);
    let mut text = String::new();
    proof {
        law_digits_spell_number(number as nat);
    }
    append_letters(&mut text, &ascii);
    assert(text@ =~= decimal(number as int));
    text
}

/// The order of the bytes of a number in memory.
#[derive(Clone, Copy, PartialEq, Eq, Structural, Debug)]
pub enum ByteOrder {
    Little,
    Big,
}

/// The bytes of a number, least significant first.
pub open spec fn ascending_bytes(number: nat, width: nat) -> Seq<u8>
    decreases width,
{
    if width == 0 {
        seq![]
    } else {
        seq![(number % 256) as u8] + ascending_bytes(number / 256, (width - 1) as nat)
    }
}

/// The bytes of a number in memory.
pub open spec fn memory_bytes(order: ByteOrder, number: nat, width: nat) -> Seq<u8> {
    match order {
        ByteOrder::Little => ascending_bytes(number, width),
        ByteOrder::Big => ascending_bytes(number, width).reverse(),
    }
}

/// The number whose bytes these are, least significant first.
pub open spec fn number_of(ascending: Seq<u8>) -> nat
    decreases ascending.len(),
{
    if ascending.len() == 0 {
        0
    } else {
        ascending[0] as nat + 256 * number_of(ascending.skip(1))
    }
}

/// The number that bytes in memory stand for.
pub open spec fn memory_number(order: ByteOrder, memory: Seq<u8>) -> nat {
    match order {
        ByteOrder::Little => number_of(memory),
        ByteOrder::Big => number_of(memory.reverse()),
    }
}

/// 256 to a power.
pub open spec fn capacity(width: nat) -> nat
    decreases width,
{
    if width == 0 {
        1
    } else {
        256 * capacity((width - 1) as nat)
    }
}

proof fn lemma_ascending(number: nat, width: nat)
    requires
        number < capacity(width),
    ensures
        ascending_bytes(number, width).len() == width,
        number_of(ascending_bytes(number, width)) == number,
    decreases width,
{
    if width > 0 {
        lemma_ascending(number / 256, (width - 1) as nat);
        let all = ascending_bytes(number, width);
        assert(all.skip(1) =~= ascending_bytes(number / 256, (width - 1) as nat));
    }
}

/// A number that fits is read back from its bytes in memory.
pub proof fn law_memory_is_read_back(order: ByteOrder, number: nat, width: nat)
    requires
        number < capacity(width),
    ensures
        memory_bytes(order, number, width).len() == width,
        memory_number(order, memory_bytes(order, number, width)) == number,
{
    lemma_ascending(number, width);
    let all = ascending_bytes(number, width);
    assert(all.reverse().reverse() =~= all);
}

pub proof fn lemma_ascending_length(number: nat, width: nat)
    ensures
        ascending_bytes(number, width).len() == width,
    decreases width,
{
    if width > 0 {
        lemma_ascending_length(number / 256, (width - 1) as nat);
    }
}

/// The lowest `width` bytes of a number as they lie in memory.
pub fn to_memory(order: ByteOrder, number: u64, width: usize) -> (memory: Vec<u8>)
    ensures
        memory@ == memory_bytes(order, number as nat, width as nat),
        memory@.len() == width,
{
    let mut memory: Vec<u8> = Vec::new();
    let mut left = number;
    let mut i: usize = 0;
    let ghost all = ascending_bytes(number as nat, width as nat);
    assert(all =~= memory@ + all);
    while i < width
        invariant
            i <= width,
            memory@.len() == i,
            all == memory@ + ascending_bytes(left as nat, (width - i) as nat),
        decreases width - i,
    {
        let ghost before = memory@;
        let ghost rest = ascending_bytes((left / 256) as nat, (width - i - 1) as nat);
        memory.push((left % 256) as u8);
        left = left / 256;
        i += 1;
        assert(before + (seq![memory@.last()] + rest) =~= memory@ + rest);
    }
    assert(memory@ =~= all);
    match order {
        ByteOrder::Little => memory,
        ByteOrder::Big => reversed(&memory),
    }
}

/// The bytes in the other direction.
fn reversed(memory: &Vec<u8>) -> (turned: Vec<u8>)
    ensures
        turned@ == memory@.reverse(),
{
    let mut turned: Vec<u8> = Vec::new();
    let mut i: usize = memory.len();
    while i > 0
        invariant
            i <= memory.len(),
            turned@.len() == memory.len() - i,
            forall|j: int| 0 <= j < turned@.len() ==> turned@[j] == memory@[memory.len() - 1 - j],
        decreases i,
    {
        i -= 1;
        turned.push(memory[i]);
    }
    assert(turned@ =~= memory@.reverse());
    turned
}

proof fn lemma_number_bound(ascending: Seq<u8>)
    ensures
        number_of(ascending) < capacity(ascending.len()),
    decreases ascending.len(),
{
    if ascending.len() > 0 {
        lemma_number_bound(ascending.skip(1));
    }
}

proof fn lemma_capacity_grows(less: nat, more: nat)
    requires
        less <= more,
    ensures
        1 <= capacity(less) <= capacity(more),
    decreases more,
{
    if less < more {
        lemma_capacity_grows(less, (more - 1) as nat);
    } else if more > 0 {
        lemma_capacity_grows((less - 1) as nat, (more - 1) as nat);
    }
}

/// The number that up to eight bytes in memory stand for.
pub fn from_memory(order: ByteOrder, memory: &[u8]) -> (number: u64)
    requires
        memory.len() <= 8,
    ensures
        number == memory_number(order, memory@),
        number < capacity(memory@.len()),
{
    let ascending = match order {
        ByteOrder::Little => bytes::copy(memory),
        ByteOrder::Big => reversed(&bytes::copy(memory)),
    };
    let ghost all = ascending@;
    proof {
        assert(all.skip(all.len() as int) =~= seq![]);
        assert(all.skip(0) =~= all);
        lemma_number_bound(all);
    }
    let mut number: u64 = 0;
    let mut i: usize = ascending.len();
    while i > 0
        invariant
            i <= ascending.len() <= 8,
            all == ascending@,
            number == number_of(all.skip(i as int)),
        decreases i,
    {
        proof {
            let rest = all.skip(i as int);
            let more = all.skip(i - 1);
            assert(more.skip(1) =~= rest);
            lemma_number_bound(more);
            lemma_capacity_grows(more.len(), 8);
            reveal_with_fuel(capacity, 9);
        }
        i -= 1;
        number = ascending[i] as u64 + 256 * number;
    }
    number
}

/// The value of a decimal digit.
pub open spec fn digit_value(letter: char) -> Option<nat> {
    if '0' <= letter <= '9' {
        Some((letter as u32 - 48) as nat)
    } else {
        None
    }
}

/// The number that a text of digits spells; nothing, if some character is no
/// digit.
pub open spec fn spelled(text: Seq<char>) -> Option<nat>
    decreases text.len(),
{
    if text.len() == 0 {
        Some(0)
    } else {
        match (spelled(text.drop_last()), digit_value(text.last())) {
            (Some(before), Some(digit)) => Some(10 * before + digit),
            _ => None,
        }
    }
}

/// The number that a text stands for: digits, which a plus sign may lead, that
/// spell a number below 2 to the 32.
pub open spec fn parsed(text: Seq<char>) -> Option<u32> {
    let digits = if text.len() > 0 && text[0] == '+' {
        text.skip(1)
    } else {
        text
    };
    match spelled(digits) {
        Some(number) => if digits.len() > 0 && number <= u32::MAX {
            Some(number as u32)
        } else {
            None
        },
        None => None,
    }
}

proof fn lemma_spelled_prefix(text: Seq<char>, upto: int)
    requires
        0 <= upto <= text.len(),
        spelled(text) is Some,
    ensures
        spelled(text.take(upto)) is Some,
        spelled(text.take(upto))->0 <= spelled(text)->0,
    decreases text.len() - upto,
{
    if upto == text.len() {
        assert(text.take(upto) =~= text);
    } else {
        lemma_spelled_prefix(text, upto + 1);
        assert(text.take(upto + 1).drop_last() =~= text.take(upto));
    }
}

/// Reads the number that the characters from `from` up to `to` stand for.
pub fn parse_u32(text: &Vec<char>, from: usize, to: usize) -> (number: Option<u32>)
    requires
        from <= to <= text.len(),
    ensures
        number == parsed(text@.subrange(from as int, to as int)),
{
    let ghost whole = text@.subrange(from as int, to as int);
    let start: usize = if from < to && text[from] == '+' {
        from + 1
    } else {
        from
    };
    let ghost all = text@.subrange(start as int, to as int);
    assert(start > from ==> all =~= whole.skip(1));
    assert(start == from ==> all =~= whole);
    assert(from < to ==> whole[0] == text@[from as int]);
    if start == to {
        return None;
    }
    let mut number: u64 = 0;
    let mut i: usize = start;
    assert(all.take(0) =~= seq![]);
    while i < to
        invariant
            start <= i <= to <= text.len(),
            all == text@.subrange(start as int, to as int),
            whole == text@.subrange(from as int, to as int),
            from <= start < to,
            all == if whole[0] == '+' {
                whole.skip(1)
            } else {
                whole
            },
            spelled(all.take(i - start)) == Some(number as nat),
            number <= u32::MAX,
        decreases to - i,
    {
        let letter = text[i];
        let ghost next = all.take(i - start + 1);
        proof {
            assert(next.drop_last() =~= all.take(i - start));
            assert(next.last() == letter);
        }
        if letter < '0' || letter > '9' {
            proof {
                if spelled(all) is Some {
                    lemma_spelled_prefix(all, i - start + 1);
                }
            }
            return None;
        }
        number = 10 * number + (letter as u32 - 48) as u64;
        if number > u32::MAX as u64 {
            proof {
                if spelled(all) is Some {
                    lemma_spelled_prefix(all, i - start + 1);
                }
            }
            return None;
        }
        i += 1;
    }
    assert(all.take(to - start) =~= all);
    Some(number as u32)
}

/// The text of a number is read back as the number.
pub proof fn law_decimal_is_parsed_back(number: nat)
    requires
        number <= u32::MAX,
    ensures
        parsed(decimal(number as int)) == Some(number as u32),
{
    lemma_spelled_digits(number);
    law_digits_spell_number(number);
    let text = decimal(number as int);
    assert(text[0] == digits(number)[0] as char);
}

proof fn lemma_spelled_digits(number: nat)
    ensures
        spelled(letters(digits(number))) == Some(number),
    decreases number,
{
    law_digits_spell_number(number);
    let text = letters(digits(number));
    if number < 10 {
        assert(text.drop_last() =~= seq![]);
        assert(spelled(seq![]) == Some(0nat));
        assert(text.last() == digits(number)[0] as char);
    } else {
        lemma_spelled_digits(number / 10);
        assert(text.drop_last() =~= letters(digits(number / 10)));
        assert(text.last() == (ZERO + number % 10) as u8 as char);
    }
}

/// The two's complement of a number in 32 bits.
pub open spec fn unsigned(number: int) -> nat {
    if number < 0 {
        (number + 0x1_0000_0000) as nat
    } else {
        number as nat
    }
}

/// The bits of a signed number as an unsigned one.
pub fn to_unsigned(number: i32) -> (bits: u32)
    ensures
        bits == unsigned(number as int),
{
    if number < 0 {
        ((number as i64) + 0x1_0000_0000i64) as u32
    } else {
        number as u32
    }
}

/// The signed number with these bits.
pub fn to_signed(bits: u32) -> (number: i32)
    ensures
        unsigned(number as int) == bits,
        number == if bits < 0x8000_0000u32 {
            bits as int
        } else {
            bits - 0x1_0000_0000
        },
{
    if bits < 0x8000_0000u32 {
        bits as i32
    } else {
        ((bits as i64) - 0x1_0000_0000i64) as i32
    }
}

/// Wraps `u16::from_ne_bytes`, which reads a number from its bytes in the order
/// of the machine: 1 and 0 stand for 1 where the low byte comes first and for
/// 256 where it comes last.
#[verifier::external_body]
fn native_sample() -> (number: u16)
    ensures
        number == 1 || number == 256,
{
    u16::from_ne_bytes([1, 0])
}

/// The byte order in which the bytes 1 and 0 stand for `sample`.
pub fn order_of(sample: u16) -> (order: ByteOrder)
    ensures
        order == if sample == 1 {
            ByteOrder::Little
        } else {
            ByteOrder::Big
        },
{
    if sample == 1 {
        ByteOrder::Little
    } else {
        ByteOrder::Big
    }
}

/// The byte order of the machine; which one it is depends on the machine.
pub fn native_order() -> (order: ByteOrder) {
    order_of(native_sample())
}

/// A number is spelled without a leading zero, so that it has one spelling; one
/// below zero has a minus sign before it.
pub proof fn law_numbers_have_one_spelling(number: nat)
    ensures
        number > 0 ==> digits(number)[0] != 48,
        number < 10 ==> digits(number).len() == 1,
        number > 0 ==> signed_digits(-(number as int)) == seq![45u8] + digits(number),
        signed_digits(number as int) == digits(number),
    decreases number,
{
    law_digits_spell_number(number);
    if number >= 10 {
        law_numbers_have_one_spelling(number / 10);
        law_digits_spell_number(number / 10);
        assert(digits(number)[0] == digits(number / 10)[0]);
    }
}

/// Memory tells a number by the place of its bytes: one more byte in front counts
/// least where the least comes first, and one more at the end where it comes last.
pub proof fn law_bytes_count_by_their_place(memory: Seq<u8>, byte: u8)
    ensures
        memory_number(ByteOrder::Little, seq![byte] + memory) == byte + 256 * memory_number(
            ByteOrder::Little,
            memory,
        ),
        memory_number(ByteOrder::Big, memory.push(byte)) == byte + 256 * memory_number(
            ByteOrder::Big,
            memory,
        ),
        memory_number(ByteOrder::Little, seq![]) == 0,
{
    assert((seq![byte] + memory).skip(1) =~= memory);
    let turned = memory.push(byte).reverse();
    assert(turned =~= seq![byte] + memory.reverse());
    assert((seq![byte] + memory.reverse()).skip(1) =~= memory.reverse());
}

/// What is no number is not read as one: digits alone, or after a plus sign, that
/// spell no more than 32 bits hold.
pub proof fn law_only_numbers_are_read(text: Seq<char>)
    ensures
        parsed(text) is Some ==> text.len() > 0,
        text.len() > 0 && text[0] != '+' && parsed(text) is Some ==> forall|i: int|
            0 <= i < text.len() ==> '0' <= #[trigger] text[i] <= '9',
        parsed(seq!['+'] + text) is Some <==> text.len() > 0 && text[0] != '+' && parsed(text) is Some,
{
    let signed = seq!['+'] + text;
    assert(signed.skip(1) =~= text);
    if spelled(text) is Some {
        lemma_spelled_are_digits(text);
    }
    if text.len() > 0 && text[0] == '+' {
        assert(spelled(text) is None) by {
            if spelled(text) is Some {
                assert('0' <= text[0] <= '9');
            }
        }
    }
}

proof fn lemma_spelled_are_digits(text: Seq<char>)
    requires
        spelled(text) is Some,
    ensures
        forall|i: int| 0 <= i < text.len() ==> '0' <= #[trigger] text[i] <= '9',
    decreases text.len(),
{
    if text.len() > 0 {
        lemma_spelled_are_digits(text.drop_last());
        assert forall|i: int| 0 <= i < text.len() implies '0' <= #[trigger] text[i] <= '9' by {
            if i < text.len() - 1 {
                assert(text.drop_last()[i] == text[i]);
            }
        }
    }
}

} // verus!
