//! Execution of programs through mapped paths: the program is opened in the
//! source, injected as a descriptor, and named by a short alias.

use crate::bind::BindView;
use crate::bytes;
use crate::bytes::got;
use crate::linux::dispatch;
use crate::linux::dispatch::Action;
use crate::linux::platform::Platform;
use crate::linux::remote;
use crate::mapping::{projected, resolved, Binding};
use crate::number;
use crate::number::signed_digits;
use crate::path::absolute;
use vstd::prelude::*;

verus! {

/// `/dev/fd/`.
pub open spec fn descriptor_directory() -> Seq<u8> {
    seq![47u8, 100, 101, 118, 47, 102, 100, 47]
}

/// The path under which a process finds its descriptor `fd`.
pub open spec fn alias_of(fd: i32) -> Seq<u8> {
    descriptor_directory() + signed_digits(fd as int)
}

/// What an execution of `path` does: a program outside of every mapping and an
/// empty path, which stands for a descriptor, are left to the kernel; a mapped
/// program is opened, unless links are not to be followed, which an alias would
/// not survive.
pub open spec fn executed(
    binds: Seq<Binding>,
    raw: Result<Seq<u8>, i32>,
    guest: Result<Seq<u8>, i32>,
    address: u64,
    no_follow: bool,
    unsupported: i32,
    spoiled_error: i32,
) -> Action<Seq<u8>> {
    match (raw, guest) {
        (Err(error), _) => Action::Fail(error),
        (Ok(raw), guest) => if raw.len() == 0 {
            Action::Continue
        } else {
            match guest {
                Err(error) => Action::Fail(error),
                Ok(path) => if !projected(binds, path) {
                    Action::Continue
                } else if no_follow {
                    Action::Fail(unsupported)
                } else if resolved(binds, path).contains(0) {
                    Action::Fail(spoiled_error)
                } else {
                    Action::Execute { path: resolved(binds, path), raw, address }
                },
            }
        },
    }
}

/// The execution of a program: `raw` is the path argument as it was read from
/// `address`, and `guest` the guest path that it stands for.
pub fn handle(
    view: &BindView,
    raw: &Result<Vec<u8>, i32>,
    guest: &Result<Vec<u8>, i32>,
    address: u64,
    flags: i32,
    platform: &Platform,
) -> (action: Action<Vec<u8>>)
    ensures
        action@ == executed(
            view@,
            got(*raw),
            got(*guest),
            address,
            flags & platform.flags.at_symlink_nofollow != 0,
            platform.errors.enotsup,
            platform.errors.einval,
        ),
{
    let raw = match raw {
        Ok(raw) => raw.as_slice(),
        Err(error) => return Action::Fail(*error),
    };
    if raw.len() == 0 {
        return Action::Continue;
    }
    let path = match guest {
        Ok(path) => path.as_slice(),
        Err(error) => return Action::Fail(*error),
    };
    if !view.projects(path) {
        return Action::Continue;
    }
    if flags & platform.flags.at_symlink_nofollow != 0 {
        return Action::Fail(platform.errors.enotsup);
    }
    match dispatch::c_path(view.resolve_read(path), platform.errors.einval) {
        Ok(path) => Action::Execute { path, raw: bytes::copy(raw), address },
        Err(error) => Action::Fail(error),
    }
}

/// The path under which a process finds its descriptor `fd`.
pub fn executable_alias(fd: i32) -> (alias: Vec<u8>)
    ensures
        alias@ == alias_of(fd),
{
    let head: [u8; 8] = [47, 100, 101, 118, 47, 102, 100, 47];
    assert(head@ =~= descriptor_directory());
    let mut alias = bytes::copy(head.as_slice());
    let digits = number::render_signed(fd);
    bytes::append(&mut alias, digits.as_slice());
    alias
}

/// The bytes that name the injected program in the place of its path argument.
pub fn rewritten_argument(raw: &[u8], fd: i32, platform: &Platform) -> (answer: Result<Vec<u8>, i32>)
    ensures
        match answer {
            Ok(bytes) => alias_of(fd).len() <= raw@.len() && bytes@ == alias_of(fd).push(0)
                && bytes@.len() <= raw@.len() + 1,
            Err(error) => alias_of(fd).len() > raw@.len() && error
                == platform.errors.enametoolong,
        },
{
    let alias = executable_alias(fd);
    remote::rewrite_path(raw, alias.as_slice(), platform)
}

/// An alias fits wherever the path of the program has room for it: for
/// descriptors below 1000, every path of at least eleven bytes.
pub proof fn law_alias_is_short(fd: i32)
    requires
        0 <= fd < 1000,
    ensures
        alias_of(fd).len() <= 11,
        absolute(alias_of(fd)),
        !alias_of(fd).contains(0),
{
    number::law_digits_spell_number(fd as nat);
    reveal_with_fuel(number::digits, 4);
    let alias = alias_of(fd);
    assert(alias[0] == 47u8);
    assert(!alias.contains(0)) by {
        if alias.contains(0) {
            let k = choose|k: int| 0 <= k < alias.len() && alias[k] == 0;
            if k >= 8 {
                assert(alias[k] == number::digits(fd as nat)[k - 8]);
            } else {
                assert(alias[k] == descriptor_directory()[k]);
            }
        }
    }
}

/// A program outside of every mapping is executed by the kernel as it stands.
pub proof fn law_unmapped_programs_are_left_alone(
    binds: Seq<Binding>,
    raw: Seq<u8>,
    path: Seq<u8>,
    address: u64,
    no_follow: bool,
    unsupported: i32,
    spoiled_error: i32,
)
    requires
        !projected(binds, path),
    ensures
        executed(binds, Ok(raw), Ok(path), address, no_follow, unsupported, spoiled_error)
            == Action::<Seq<u8>>::Continue,
{
}

/// The alias of a descriptor is `/dev/fd/` followed by the descriptor's number, and
/// two descriptors never share one.
pub proof fn law_alias_tells_descriptor(fd: i32, other: i32)
    requires
        fd >= 0,
        other >= 0,
    ensures
        alias_of(fd).take(8) == seq![47u8, 100, 101, 118, 47, 102, 100, 47],
        number::all_digits(alias_of(fd).skip(8)),
        number::value_of(alias_of(fd).skip(8)) == fd,
        fd > 0 ==> alias_of(fd)[8] != 48,
        alias_of(fd) == alias_of(other) ==> fd == other,
{
    number::law_digits_spell_number(fd as nat);
    number::law_digits_spell_number(other as nat);
    number::law_numbers_have_one_spelling(fd as nat);
    let alias = alias_of(fd);
    assert(alias.take(8) =~= descriptor_directory());
    assert(alias.skip(8) =~= number::digits(fd as nat));
    assert(alias_of(other).skip(8) =~= number::digits(other as nat));
}

/// What stands in the way of an execution comes in its order: an argument that cannot
/// be read, then a path that cannot be looked up; links that are not to be followed
/// matter only where a bind projects the path.
pub proof fn law_executions_are_refused(
    binds: Seq<Binding>,
    raw: Result<Seq<u8>, i32>,
    guest: Result<Seq<u8>, i32>,
    address: u64,
    no_follow: bool,
    unsupported: i32,
    spoiled_error: i32,
)
    ensures
        ({
            let action = executed(
                binds,
                raw,
                guest,
                address,
                no_follow,
                unsupported,
                spoiled_error,
            );
            &&& raw matches Err(error) ==> action == Action::<Seq<u8>>::Fail(error)
            &&& raw == Ok::<Seq<u8>, i32>(seq![]) ==> action == Action::<Seq<u8>>::Continue
            &&& raw matches Ok(text) ==> (text.len() > 0 ==> (guest matches Err(error) ==> action
                == Action::<Seq<u8>>::Fail(error)))
            &&& raw matches Ok(text) ==> (text.len() > 0 ==> (guest matches Ok(path) ==> (projected(
                binds,
                path,
            ) && no_follow ==> action == Action::<Seq<u8>>::Fail(unsupported))))
        }),
{
}

} // verus!
