//! The notification filter and the messages exchanged with the kernel.

use vstd::prelude::*;

verus! {

/// The verdict that hands a call to the supervisor.
pub const USER_NOTIF: u32 = 0x7fc0_0000;

/// The verdict that lets a call through.
pub const ALLOW: u32 = 0x7fff_0000;

/// The response flag that lets the call go on in the kernel.
pub const USER_NOTIF_FLAG_CONTINUE: u32 = 1;

/// The injection flag that answers the call with the new descriptor.
pub const ADDFD_FLAG_SEND: u32 = 2;

/// Loads a word of the call's data.
pub const LOAD_WORD: u16 = 0x20;

/// Jumps if the loaded word equals the operand.
pub const JUMP_EQUAL: u16 = 0x15;

/// Ends with the operand as verdict.
pub const RETURN: u16 = 0x06;

/// An instruction of a filter program.
#[derive(Clone, Copy, PartialEq, Eq, Structural, Debug)]
pub struct Instruction {
    pub code: u16,
    pub jt: u8,
    pub jf: u8,
    pub k: u32,
}

/// An instruction that does not jump.
pub open spec fn statement(code: u16, k: u32) -> Instruction {
    Instruction { code, jt: 0, jf: 0, k }
}

/// The instructions that test for each of `numbers` in turn.
pub open spec fn tests(numbers: Seq<i64>) -> Seq<Instruction> {
    Seq::new(
        2 * numbers.len(),
        |i: int|
            if i % 2 == 0 {
                Instruction { code: JUMP_EQUAL, jt: 0, jf: 1, k: numbers[i / 2] as u32 }
            } else {
                statement(RETURN, USER_NOTIF)
            },
    )
}

/// The filter that hands the calls `numbers` to the supervisor.
pub open spec fn program(numbers: Seq<i64>) -> Seq<Instruction> {
    seq![statement(LOAD_WORD, 0)] + tests(numbers) + seq![statement(RETURN, ALLOW)]
}

/// The verdict of a program on the call `number`, from the instruction `at` on,
/// with `loaded` in the accumulator: the word at offset 0 of the call's data is
/// its number. Nothing, if the program does not end in a verdict.
pub open spec fn verdict(
    program: Seq<Instruction>,
    at: int,
    loaded: u32,
    number: u32,
) -> Option<u32>
    decreases program.len() - at,
{
    if at < 0 || at >= program.len() {
        None
    } else {
        let instruction = program[at];
        if instruction.code == LOAD_WORD && instruction.k == 0 {
            verdict(program, at + 1, number, number)
        } else if instruction.code == JUMP_EQUAL {
            let next = at + 1 + if loaded == instruction.k {
                instruction.jt as int
            } else {
                instruction.jf as int
            };
            if next < program.len() {
                verdict(program, next, loaded, number)
            } else {
                None
            }
        } else if instruction.code == RETURN {
            Some(instruction.k)
        } else {
            None
        }
    }
}

/// An instruction that does not jump.
pub fn stmt(code: u16, k: u32) -> (instruction: Instruction)
    ensures
        instruction == statement(code, k),
{
    Instruction { code, jt: 0, jf: 0, k }
}

/// An instruction that jumps.
pub fn jump(code: u16, k: u32, jt: u8, jf: u8) -> (instruction: Instruction)
    ensures
        instruction == (Instruction { code, jt, jf, k }),
{
    Instruction { code, jt, jf, k }
}

/// Builds the filter that hands the calls `numbers` to the supervisor.
pub fn build_filter(numbers: &Vec<i64>) -> (filter: Vec<Instruction>)
    ensures
        filter@ == program(numbers@),
{
    let mut filter: Vec<Instruction> = Vec::new();
    filter.push(stmt(LOAD_WORD, 0));
    let mut i: usize = 0;
    while i < numbers.len()
        invariant
            i <= numbers.len(),
            filter@.len() == 1 + 2 * i,
            filter@[0] == statement(LOAD_WORD, 0),
            forall|j: int| 1 <= j < filter@.len() ==> filter@[j] == #[trigger] tests(numbers@)[j - 1],
        decreases numbers.len() - i,
    {
        filter.push(jump(JUMP_EQUAL, numbers[i] as u32, 0, 1));
        filter.push(stmt(RETURN, USER_NOTIF));
        proof {
            let j = 2 * i as int;
            assert(j / 2 == i && j % 2 == 0);
            assert((j + 1) % 2 == 1);
            assert(filter@[j + 1] == tests(numbers@)[j]);
            assert(filter@[j + 2] == tests(numbers@)[j + 1]);
        }
        i += 1;
    }
    filter.push(stmt(RETURN, ALLOW));
    proof {
        let whole = program(numbers@);
        assert(filter@.len() == whole.len());
        assert forall|j: int| 0 <= j < whole.len() implies filter@[j] == whole[j] by {
            if 1 <= j < whole.len() - 1 {
                assert(whole[j] == tests(numbers@)[j - 1]);
            }
        }
        assert(filter@ =~= whole);
    }
    filter
}

/// The call `number` is one of `numbers`.
pub open spec fn among(numbers: Seq<i64>, number: u32) -> bool {
    exists|i: int| 0 <= i < numbers.len() && #[trigger] (numbers[i] as u32) == number
}

proof fn lemma_verdict_from(numbers: Seq<i64>, number: u32, from: int)
    requires
        0 <= from <= numbers.len(),
    ensures
        verdict(program(numbers), 1 + 2 * from, number, number) == Some(
            if among(numbers.skip(from), number) {
                USER_NOTIF
            } else {
                ALLOW
            },
        ),
    decreases numbers.len() - from,
{
    let whole = program(numbers);
    let at = 1 + 2 * from;
    let rest = numbers.skip(from);
    if from == numbers.len() {
        assert(whole[at] == statement(RETURN, ALLOW));
        assert(!among(rest, number));
    } else {
        let j = 2 * from;
        assert(j / 2 == from && j % 2 == 0 && (j + 1) % 2 == 1);
        assert(whole[at] == tests(numbers)[j]);
        assert(whole[at + 1] == tests(numbers)[j + 1]);
        lemma_verdict_from(numbers, number, from + 1);
        let after = numbers.skip(from + 1);
        assert(rest[0] == numbers[from]);
        assert(among(rest, number) <==> (numbers[from] as u32) == number || among(
            after,
            number,
        )) by {
            if among(rest, number) {
                let i = choose|i: int|
                    0 <= i < rest.len() && #[trigger] (rest[i] as u32) == number;
                if i > 0 {
                    assert(after[i - 1] == rest[i]);
                    assert((after[i - 1] as u32) == number);
                }
            }
            if among(after, number) {
                let i = choose|i: int|
                    0 <= i < after.len() && #[trigger] (after[i] as u32) == number;
                assert(rest[i + 1] == after[i]);
                assert((rest[i + 1] as u32) == number);
            }
            if (numbers[from] as u32) == number {
                assert((rest[0] as u32) == number);
            }
        }
        reveal_with_fuel(verdict, 3);
    }
}

/// The filter hands exactly the listed calls to the supervisor and lets every
/// other call through.
pub proof fn law_filter_selects_listed_calls(numbers: Seq<i64>, number: u32)
    ensures
        verdict(program(numbers), 0, 0, number) == Some(
            if among(numbers, number) {
                USER_NOTIF
            } else {
                ALLOW
            },
        ),
{
    lemma_verdict_from(numbers, number, 0);
    assert(numbers.skip(0) =~= numbers);
    assert(program(numbers)[0] == statement(LOAD_WORD, 0));
}

/// The number of a control request: direction, size, type and number in their
/// bit fields.
pub open spec fn request_code(direction: int, ty: int, number: int, size: int) -> int {
    direction * 0x4000_0000 + size * 0x1_0000 + ty * 0x100 + number
}

/// The number of a control request.
pub fn ioc(direction: u64, ty: u8, number: u8, size: usize) -> (code: u64)
    requires
        direction < 4,
        size < 0x4000,
    ensures
        code == request_code(direction as int, ty as int, number as int, size as int),
{
    let kind = ty as u64;
    let index = number as u64;
    let length = size as u64;
    assert(((direction << 30u64) | (kind << 8u64) | (index << 0u64) | (length << 16u64)) == direction
        * 0x4000_0000 + length * 0x1_0000 + kind * 0x100 + index) by (bit_vector)
        requires
            direction < 4,
            length < 0x4000,
            kind < 0x100,
            index < 0x100,
    ;
    (direction << 30u64) | (kind << 8u64) | (index << 0u64) | (length << 16u64)
}

/// Data is written by the caller.
pub const IOC_WRITE: u64 = 1;

/// Data flows both ways.
pub const IOC_BOTH: u64 = 3;

/// The type of the notification requests, `!`.
pub const NOTIF_TYPE: u8 = 33;

/// The request that receives a notification of `size` bytes.
pub fn notif_recv_ioctl(size: usize) -> (code: u64)
    requires
        size < 0x4000,
    ensures
        code == request_code(3, 33, 0, size as int),
{
    ioc(IOC_BOTH, NOTIF_TYPE, 0, size)
}

/// The request that sends a response of `size` bytes.
pub fn notif_send_ioctl(size: usize) -> (code: u64)
    requires
        size < 0x4000,
    ensures
        code == request_code(3, 33, 1, size as int),
{
    ioc(IOC_BOTH, NOTIF_TYPE, 1, size)
}

/// The request that injects a descriptor, described in `size` bytes.
pub fn notif_addfd_ioctl(size: usize) -> (code: u64)
    requires
        size < 0x4000,
    ensures
        code == request_code(1, 33, 3, size as int),
{
    ioc(IOC_WRITE, NOTIF_TYPE, 3, size)
}

/// The answer to the notification `id`.
#[derive(Clone, Copy, PartialEq, Eq, Structural, Debug)]
pub struct Response {
    pub id: u64,
    pub val: i64,
    pub error: i32,
    pub flags: u32,
}

/// A descriptor to inject into the process that waits for the notification
/// `id`.
#[derive(Clone, Copy, PartialEq, Eq, Structural, Debug)]
pub struct Injection {
    pub id: u64,
    pub flags: u32,
    pub srcfd: u32,
    pub newfd: u32,
    pub newfd_flags: u32,
}

/// The response that lets the call go on in the kernel.
pub open spec fn going_on(id: u64) -> Response {
    Response { id, val: 0, error: 0, flags: USER_NOTIF_FLAG_CONTINUE }
}

/// The response that answers the call with a value.
pub open spec fn valued(id: u64, value: i64) -> Response {
    Response { id, val: value, error: 0, flags: 0 }
}

/// The response that answers the call with an error number.
pub open spec fn failed(id: u64, error: i32) -> Response {
    Response { id, val: 0, error: (-error) as i32, flags: 0 }
}

/// Lets the call go on in the kernel.
pub fn respond_continue(id: u64) -> (response: Response)
    ensures
        response == going_on(id),
        response == (Response { id, val: 0, error: 0, flags: USER_NOTIF_FLAG_CONTINUE }),
{
    Response { id, val: 0, error: 0, flags: USER_NOTIF_FLAG_CONTINUE }
}

/// Answers the call with a value.
pub fn respond_value(id: u64, value: i64) -> (response: Response)
    ensures
        response == valued(id, value),
        response == (Response { id, val: value, error: 0, flags: 0 }),
{
    Response { id, val: value, error: 0, flags: 0 }
}

/// Answers the call with an error number.
pub fn respond_error(id: u64, error: i32) -> (response: Response)
    requires
        error > i32::MIN,
    ensures
        response == failed(id, error),
        response.id == id && response.val == 0 && response.error == -error && response.flags == 0,
{
    Response { id, val: 0, error: -error, flags: 0 }
}

/// The response with the result of a system call made in the place of the call.
pub open spec fn result_response(id: u64, result: Result<i32, i32>) -> Response {
    match result {
        Ok(value) => valued(id, value as i64),
        Err(error) => failed(id, error),
    }
}

/// The error number of a failure that may have none.
pub open spec fn number_or(raw: Option<i32>, fallback: i32) -> i32 {
    match raw {
        Some(error) => error,
        None => fallback,
    }
}

/// Answers the call with the result of a system call made in its place, or
/// with the error that it ended in.
pub fn respond_result(id: u64, result: Result<i32, i32>) -> (response: Response)
    requires
        result matches Err(error) ==> error > i32::MIN,
    ensures
        response == result_response(id, result),
        response.id == id && response.flags == 0,
        match result {
            Ok(value) => response.val == value && response.error == 0,
            Err(error) => response.val == 0 && response.error == -error,
        },
{
    match result {
        Ok(value) => respond_value(id, value as i64),
        Err(error) => respond_error(id, error),
    }
}

/// The error number of a failure that may have none: `fallback` stands in.
pub fn errno(raw: Option<i32>, fallback: i32) -> (error: i32)
    ensures
        error == number_or(raw, fallback),
{
    match raw {
        Some(error) => error,
        None => fallback,
    }
}

/// The fields of a control request are read back from its number: none runs into
/// another.
pub proof fn law_request_fields_are_apart(direction: int, ty: int, number: int, size: int)
    requires
        0 <= direction < 4,
        0 <= ty < 0x100,
        0 <= number < 0x100,
        0 <= size < 0x4000,
    ensures
        ({
            let code = request_code(direction, ty, number, size);
            &&& code / 0x4000_0000 == direction
            &&& code / 0x1_0000 % 0x4000 == size
            &&& code / 0x100 % 0x100 == ty
            &&& code % 0x100 == number
        }),
{
}

/// A call is answered once and with one thing: it goes on in the kernel, has a
/// value, or has failed, and the kernel can tell these apart.
pub proof fn law_answers_are_told_apart(id: u64, value: i64, error: i32)
    requires
        error > i32::MIN,
    ensures
        going_on(id).id == id && valued(id, value).id == id && failed(id, error).id == id,
        going_on(id).flags == 1 && valued(id, value).flags == 0 && failed(id, error).flags == 0,
        going_on(id).val == 0 && going_on(id).error == 0,
        valued(id, value).val == value && valued(id, value).error == 0,
        failed(id, error).val == 0 && failed(id, error).error + error == 0,
{
}

/// A failure keeps its own error number, and has the one that stands in only where it
/// has none; a result is answered as it came.
pub proof fn law_failures_keep_their_number(raw: Option<i32>, fallback: i32, id: u64, value: i32)
    ensures
        raw matches Some(error) ==> number_or(raw, fallback) == error,
        raw is None ==> number_or(raw, fallback) == fallback,
        result_response(id, Ok(value)).val == value && result_response(id, Ok(value)).error == 0,
        fallback > i32::MIN ==> result_response(id, Err(fallback)).val == 0 && result_response(
            id,
            Err(fallback),
        ).error + fallback == 0,
        result_response(id, Ok(value)).id == id && result_response(id, Ok(value)).flags == 0,
{
}

/// A statement goes on with the next instruction.
pub proof fn law_statements_do_not_jump(code: u16, k: u32)
    ensures
        statement(code, k).code == code && statement(code, k).k == k,
        statement(code, k).jt == 0 && statement(code, k).jf == 0,
{
}

} // verus!
