//! Bind mappings as values: which paths a list of mappings projects, where to,
//! and what holds of every such list.

use crate::path;
use crate::path::{
    absolute, all_names, all_plain, begins_with, components_of, joined, names_of, normalized, parts_of,
    relative_text, render, rooted_text, stripped,
};
use vstd::prelude::*;

verus! {

/// A mapping as a value: the source path and the names of the destination.
pub ghost struct Binding {
    pub source: Seq<u8>,
    pub names: Seq<Seq<u8>>,
}

/// A requested mapping as a value.
pub ghost struct Request {
    pub source: Seq<u8>,
    pub destination: Seq<u8>,
}

/// A refusal as a value.
pub ghost enum Refusal {
    NotAbsolute(Seq<u8>),
    Root,
    Reserved(Seq<u8>),
    Duplicate(Seq<u8>),
}

/// `dev`.
pub open spec fn dev_name() -> Seq<u8> {
    seq![100u8, 101, 118]
}

/// `proc`.
pub open spec fn proc_name() -> Seq<u8> {
    seq![112u8, 114, 111, 99]
}

/// `sys`.
pub open spec fn sys_name() -> Seq<u8> {
    seq![115u8, 121, 115]
}

/// Names at or below `/dev`, `/proc` or `/sys`, which keep host semantics.
pub open spec fn reserved(names: Seq<Seq<u8>>) -> bool {
    names.len() > 0 && (names[0] == dev_name() || names[0] == proc_name() || names[0] == sys_name())
}

/// `names` lies at or below the destination of `binding`.
pub open spec fn covers(binding: Binding, names: Seq<Seq<u8>>) -> bool {
    begins_with(names, binding.names)
}

/// The first mapping of `list` that covers `names`.
pub open spec fn first_covering(list: Seq<Binding>, names: Seq<Seq<u8>>) -> Option<int>
    decreases list.len(),
{
    if list.len() == 0 {
        None
    } else {
        match first_covering(list.drop_last(), names) {
            Some(index) => Some(index),
            None => if covers(list.last(), names) {
                Some(list.len() - 1)
            } else {
                None
            },
        }
    }
}

/// The mapping that projects `names`, if any does.
pub open spec fn selection(list: Seq<Binding>, names: Seq<Seq<u8>>) -> Option<int> {
    if reserved(names) {
        None
    } else {
        first_covering(list, names)
    }
}

/// Where `binding` puts `names`: its source, followed by what stands below the
/// destination.
pub open spec fn placed(binding: Binding, names: Seq<Seq<u8>>) -> Seq<u8> {
    joined(binding.source, relative_text(names.skip(binding.names.len() as int)))
}

/// The physical path of a guest path.
pub open spec fn resolved(list: Seq<Binding>, path: Seq<u8>) -> Seq<u8> {
    let names = names_of(path);
    match selection(list, names) {
        Some(index) => placed(list[index], names),
        None => render(names),
    }
}

/// Whether a mapping projects the guest path.
pub open spec fn projected(list: Seq<Binding>, path: Seq<u8>) -> bool {
    selection(list, names_of(path)) is Some
}

/// A destination with a place in a view: below the root and not reserved.
pub open spec fn admissible(names: Seq<Seq<u8>>) -> bool {
    all_plain(names) && names.len() > 0 && !reserved(names)
}

/// No two mappings share a destination.
pub open spec fn distinct(list: Seq<Binding>) -> bool {
    forall|i: int, j: int|
        0 <= i < j < list.len() ==> (#[trigger] list[i]).names != (#[trigger] list[j]).names
}

/// Deeper destinations come first.
pub open spec fn deepest_first(list: Seq<Binding>) -> bool {
    forall|i: int, j: int|
        0 <= i < j < list.len() ==> (#[trigger] list[i]).names.len() >= (
        #[trigger] list[j]).names.len()
}

/// What holds of the mappings of every view.
pub open spec fn valid(list: Seq<Binding>) -> bool {
    &&& forall|i: int| 0 <= i < list.len() ==> admissible((#[trigger] list[i]).names)
    &&& distinct(list)
    &&& deepest_first(list)
}

/// Whether a mapping already has the destination `names`.
pub open spec fn taken(list: Seq<Binding>, names: Seq<Seq<u8>>) -> bool {
    exists|i: int| 0 <= i < list.len() && (#[trigger] list[i]).names == names
}

/// The names of a destination that may join `seen`, or why it may not.
pub open spec fn admission(seen: Seq<Binding>, destination: Seq<u8>) -> Result<
    Seq<Seq<u8>>,
    Refusal,
> {
    let names = names_of(destination);
    if !absolute(destination) {
        Err(Refusal::NotAbsolute(destination))
    } else if names.len() == 0 {
        Err(Refusal::Root)
    } else if reserved(names) {
        Err(Refusal::Reserved(render(names)))
    } else if taken(seen, names) {
        Err(Refusal::Duplicate(render(names)))
    } else {
        Ok(names)
    }
}

/// The mappings that requests ask for, in the order given, or the refusal of
/// the first one that cannot be had.
pub open spec fn accepted(list: Seq<Request>) -> Result<Seq<Binding>, Refusal>
    decreases list.len(),
{
    if list.len() == 0 {
        Ok(seq![])
    } else {
        match accepted(list.drop_last()) {
            Err(refusal) => Err(refusal),
            Ok(seen) => match admission(seen, list.last().destination) {
                Err(refusal) => Err(refusal),
                Ok(names) => Ok(seen.push(Binding { source: list.last().source, names })),
            },
        }
    }
}

/// The mappings whose destination has `depth` names, in order.
pub open spec fn at_depth(list: Seq<Binding>, depth: nat) -> Seq<Binding>
    decreases list.len(),
{
    if list.len() == 0 {
        seq![]
    } else if list.last().names.len() == depth {
        at_depth(list.drop_last(), depth).push(list.last())
    } else {
        at_depth(list.drop_last(), depth)
    }
}

/// The mappings with at most `depth` names, deepest first, in the order given
/// where the depth is the same.
pub open spec fn down_from(list: Seq<Binding>, depth: nat) -> Seq<Binding>
    decreases depth,
{
    if depth == 0 {
        seq![]
    } else {
        at_depth(list, depth) + down_from(list, (depth - 1) as nat)
    }
}

/// The greatest number of names in a destination.
pub open spec fn greatest_depth(list: Seq<Binding>) -> nat
    decreases list.len(),
{
    if list.len() == 0 {
        0
    } else {
        let before = greatest_depth(list.drop_last());
        if list.last().names.len() > before {
            list.last().names.len()
        } else {
            before
        }
    }
}

/// The mappings deepest first, in the order given where the depth is the same.
pub open spec fn by_depth(list: Seq<Binding>) -> Seq<Binding> {
    down_from(list, greatest_depth(list))
}

/// What the first covering mapping is.
pub proof fn lemma_first_covering(list: Seq<Binding>, names: Seq<Seq<u8>>)
    ensures
        match first_covering(list, names) {
            Some(index) => 0 <= index < list.len() && covers(list[index], names) && (forall|j: int|
                0 <= j < index ==> !covers(#[trigger] list[j], names)),
            None => forall|j: int| 0 <= j < list.len() ==> !covers(#[trigger] list[j], names),
        },
    decreases list.len(),
{
    if list.len() > 0 {
        let front = list.drop_last();
        lemma_first_covering(front, names);
        match first_covering(front, names) {
            Some(index) => {
                assert(front[index] == list[index]);
                assert forall|j: int| 0 <= j < index implies !covers(#[trigger] list[j], names) by {
                    assert(front[j] == list[j]);
                }
            },
            None => {
                assert forall|j: int| 0 <= j < list.len() - 1 implies !covers(
                    #[trigger] list[j],
                    names,
                ) by {
                    assert(front[j] == list[j]);
                }
            },
        }
    }
}

/// When destinations overlap, the longest one that matches wins: every other
/// mapping that covers the path has a strictly shorter destination. A path that
/// no destination covers, or that is reserved, is projected by none.
pub proof fn law_longest_destination_wins(list: Seq<Binding>, path: Seq<u8>)
    requires
        valid(list),
    ensures
        match selection(list, names_of(path)) {
            Some(index) => {
                &&& 0 <= index < list.len()
                &&& covers(list[index], names_of(path))
                &&& forall|j: int|
                    0 <= j < list.len() && j != index && covers(#[trigger] list[j], names_of(path))
                        ==> list[j].names.len() < list[index].names.len()
            },
            None => reserved(names_of(path)) || forall|j: int|
                0 <= j < list.len() ==> !covers(#[trigger] list[j], names_of(path)),
        },
{
    let names = names_of(path);
    lemma_first_covering(list, names);
    if let Some(index) = selection(list, names) {
        assert forall|j: int|
            0 <= j < list.len() && j != index && covers(
                #[trigger] list[j],
                names,
            ) implies list[j].names.len() < list[index].names.len() by {
            assert(index < j);
            if list[j].names.len() == list[index].names.len() {
                assert(list[j].names == list[index].names);
            }
        }
    }
}

/// A bind replaces its destination: a projected path resolves below the source
/// of the selected mapping, by the names that follow the destination, whatever
/// the host holds at the destination.
pub proof fn law_projection_replaces_destination(list: Seq<Binding>, path: Seq<u8>)
    requires
        valid(list),
        projected(list, path),
    ensures
        ({
            let binding = list[selection(list, names_of(path))->0];
            &&& names_of(path) == binding.names + names_of(path).skip(binding.names.len() as int)
            &&& components_of(resolved(list, path)) == components_of(binding.source)
                + names_of(path).skip(binding.names.len() as int)
        }),
{
    let names = names_of(path);
    lemma_first_covering(list, names);
    let binding = list[selection(list, names)->0];
    let rest = names.skip(binding.names.len() as int);
    path::lemma_names_are_plain(path);
    assert(names =~= names.take(binding.names.len() as int) + rest);
    assert(all_names(rest)) by {
        assert forall|i: int| 0 <= i < rest.len() implies path::is_name(#[trigger] rest[i]) by {
            assert(path::is_plain(names[binding.names.len() + i]));
        }
    }
    path::law_components_of_relative_text(rest);
    path::law_components_of_joined(binding.source, relative_text(rest));
}

/// A path outside every bind, and every reserved path, keeps its own place: it
/// resolves to its normalized self.
pub proof fn law_outside_paths_are_untouched(list: Seq<Binding>, path: Seq<u8>)
    requires
        reserved(names_of(path)) || forall|j: int|
            0 <= j < list.len() ==> !covers(#[trigger] list[j], names_of(path)),
    ensures
        !projected(list, path),
        resolved(list, path) == normalized(path),
{
    lemma_first_covering(list, names_of(path));
}

/// A path and its normalized spelling resolve alike.
pub proof fn law_resolution_ignores_spelling(list: Seq<Binding>, path: Seq<u8>)
    ensures
        resolved(list, normalized(path)) == resolved(list, path),
        projected(list, normalized(path)) == projected(list, path),
{
    path::law_normalize_is_idempotent(path);
}

proof fn lemma_at_depth(list: Seq<Binding>, depth: nat)
    ensures
        forall|i: int|
            0 <= i < at_depth(list, depth).len() ==> (#[trigger] at_depth(list, depth)[i]).names.len()
                == depth,
        forall|b: Binding| #[trigger]
            at_depth(list, depth).contains(b) <==> list.contains(b) && b.names.len() == depth,
        distinct(list) ==> distinct(at_depth(list, depth)),
    decreases list.len(),
{
    if list.len() > 0 {
        let front = list.drop_last();
        let last = list.last();
        lemma_at_depth(front, depth);
        let group = at_depth(list, depth);
        assert forall|b: Binding| #[trigger] group.contains(b) <==> list.contains(b)
            && b.names.len() == depth by {
            lemma_contains_split(list, b);
            if last.names.len() == depth {
                lemma_contains_split(group, b);
                assert(group.drop_last() =~= at_depth(front, depth));
            }
            assert(at_depth(front, depth).contains(b) <==> front.contains(b) && b.names.len()
                == depth);
        }
        if distinct(list) {
            assert(distinct(front)) by {
                assert forall|i: int, j: int| 0 <= i < j < front.len() implies (
                #[trigger] front[i]).names != (#[trigger] front[j]).names by {
                    assert(list[i].names != list[j].names);
                }
            }
            if last.names.len() == depth {
                assert forall|i: int, j: int| 0 <= i < j < group.len() implies (
                #[trigger] group[i]).names != (#[trigger] group[j]).names by {
                    let before = at_depth(front, depth);
                    if j < group.len() - 1 {
                        assert(before[i].names != before[j].names);
                    } else {
                        assert(before.contains(before[i]));
                        let k = choose|k: int| 0 <= k < front.len() && front[k] == before[i];
                        assert(list[k].names != list[list.len() - 1].names);
                    }
                }
            }
        }
    }
}

proof fn lemma_contains_split(list: Seq<Binding>, b: Binding)
    requires
        list.len() > 0,
    ensures
        list.contains(b) <==> list.drop_last().contains(b) || list.last() == b,
{
    if list.contains(b) {
        let k = choose|k: int| 0 <= k < list.len() && list[k] == b;
        if k < list.len() - 1 {
            assert(list.drop_last()[k] == b);
        }
    }
    if list.drop_last().contains(b) {
        let k = choose|k: int| 0 <= k < list.len() - 1 && list.drop_last()[k] == b;
        assert(list[k] == b);
    }
    if list.last() == b {
        assert(list[list.len() - 1] == b);
    }
}

proof fn lemma_down_from(list: Seq<Binding>, depth: nat)
    ensures
        forall|i: int|
            0 <= i < down_from(list, depth).len() ==> 1 <= (#[trigger] down_from(
                list,
                depth,
            )[i]).names.len() <= depth,
        forall|b: Binding| #[trigger]
            down_from(list, depth).contains(b) <==> list.contains(b) && 1 <= b.names.len() <= depth,
        deepest_first(down_from(list, depth)),
        distinct(list) ==> distinct(down_from(list, depth)),
    decreases depth,
{
    if depth > 0 {
        let group = at_depth(list, depth);
        let rest = down_from(list, (depth - 1) as nat);
        let all = down_from(list, depth);
        lemma_at_depth(list, depth);
        lemma_down_from(list, (depth - 1) as nat);
        assert forall|b: Binding| #[trigger] all.contains(b) <==> list.contains(b) && 1
            <= b.names.len() <= depth by {
            assert(group.contains(b) <==> list.contains(b) && b.names.len() == depth);
            assert(rest.contains(b) <==> list.contains(b) && 1 <= b.names.len() <= depth - 1);
            if group.contains(b) {
                let k = choose|k: int| 0 <= k < group.len() && group[k] == b;
                assert(all[k] == b);
            }
            if rest.contains(b) {
                let k = choose|k: int| 0 <= k < rest.len() && rest[k] == b;
                assert(all[group.len() + k] == b);
            }
            if all.contains(b) {
                let k = choose|k: int| 0 <= k < all.len() && all[k] == b;
                if k < group.len() {
                    assert(group[k] == b);
                } else {
                    assert(rest[k - group.len()] == b);
                }
            }
        }
        assert forall|i: int| 0 <= i < all.len() implies 1 <= (#[trigger] all[i]).names.len()
            <= depth by {
            assert(all.contains(all[i]));
        }
        assert forall|i: int, j: int| 0 <= i < j < all.len() implies (
        #[trigger] all[i]).names.len() >= (#[trigger] all[j]).names.len() by {
            if i >= group.len() {
                assert(rest[i - group.len()].names.len() >= rest[j - group.len()].names.len());
            } else {
                assert(group[i].names.len() == depth);
                assert(1 <= all[j].names.len() <= depth);
            }
        }
        if distinct(list) {
            assert forall|i: int, j: int| 0 <= i < j < all.len() implies (
            #[trigger] all[i]).names != (#[trigger] all[j]).names by {
                if j < group.len() {
                    assert(group[i].names != group[j].names);
                } else if i >= group.len() {
                    assert(rest[i - group.len()].names != rest[j - group.len()].names);
                } else {
                    assert(group[i].names.len() == depth);
                    assert(rest[j - group.len()].names.len() <= depth - 1);
                }
            }
        }
    } else {
        assert forall|b: Binding| #[trigger] down_from(list, depth).contains(b) <==> list.contains(
            b,
        ) && 1 <= b.names.len() <= depth by {}
    }
}

proof fn lemma_greatest_depth(list: Seq<Binding>)
    ensures
        forall|i: int| 0 <= i < list.len() ==> (#[trigger] list[i]).names.len() <= greatest_depth(
            list,
        ),
    decreases list.len(),
{
    if list.len() > 0 {
        let front = list.drop_last();
        lemma_greatest_depth(front);
        assert forall|i: int| 0 <= i < list.len() implies (#[trigger] list[i]).names.len()
            <= greatest_depth(list) by {
            if i < list.len() - 1 {
                assert(front[i].names.len() <= greatest_depth(front));
            }
        }
    }
}

/// Ordering by depth keeps every mapping once and puts deeper destinations
/// first.
pub proof fn law_ordering_keeps_mappings(list: Seq<Binding>)
    requires
        forall|i: int| 0 <= i < list.len() ==> admissible((#[trigger] list[i]).names),
        distinct(list),
    ensures
        valid(by_depth(list)),
        forall|b: Binding| by_depth(list).contains(b) <==> list.contains(b),
{
    let depth = greatest_depth(list);
    lemma_greatest_depth(list);
    lemma_down_from(list, depth);
    let sorted = by_depth(list);
    assert forall|b: Binding| sorted.contains(b) <==> list.contains(b) by {
        if list.contains(b) {
            let k = choose|k: int| 0 <= k < list.len() && list[k] == b;
            assert(admissible(list[k].names));
            assert(list[k].names.len() <= depth);
        }
    }
    assert forall|i: int| 0 <= i < sorted.len() implies admissible((#[trigger] sorted[i]).names) by {
        assert(sorted.contains(sorted[i]));
        let k = choose|k: int| 0 <= k < list.len() && list[k] == sorted[i];
        assert(admissible(list[k].names));
    }
}

proof fn lemma_at_depth_of_sum(a: Seq<Binding>, b: Seq<Binding>, depth: nat)
    ensures
        at_depth(a + b, depth) == at_depth(a, depth) + at_depth(b, depth),
    decreases b.len(),
{
    if b.len() == 0 {
        assert(a + b =~= a);
        assert(at_depth(a, depth) + at_depth(b, depth) =~= at_depth(a, depth));
    } else {
        assert((a + b).drop_last() =~= a + b.drop_last());
        lemma_at_depth_of_sum(a, b.drop_last(), depth);
        assert(at_depth(a + b, depth) =~= at_depth(a, depth) + at_depth(b, depth));
    }
}

proof fn lemma_at_depth_uniform(list: Seq<Binding>, depth: nat, asked: nat)
    requires
        forall|i: int| 0 <= i < list.len() ==> (#[trigger] list[i]).names.len() == depth,
    ensures
        at_depth(list, asked) == if asked == depth {
            list
        } else {
            seq![]
        },
    decreases list.len(),
{
    if list.len() > 0 {
        let front = list.drop_last();
        assert forall|i: int| 0 <= i < front.len() implies (#[trigger] front[i]).names.len()
            == depth by {
            assert(list[i].names.len() == depth);
        }
        lemma_at_depth_uniform(front, depth, asked);
        assert(list[list.len() - 1].names.len() == depth);
        assert(front.push(list.last()) =~= list);
    } else {
        assert(list =~= seq![]);
    }
}

proof fn lemma_down_from_of_sum(a: Seq<Binding>, b: Seq<Binding>, depth: nat, limit: nat)
    requires
        depth < limit,
        forall|i: int| 0 <= i < a.len() ==> (#[trigger] a[i]).names.len() == limit,
    ensures
        down_from(a + b, depth) == down_from(b, depth),
    decreases depth,
{
    if depth > 0 {
        lemma_down_from_of_sum(a, b, (depth - 1) as nat, limit);
        lemma_at_depth_of_sum(a, b, depth);
        lemma_at_depth_uniform(a, limit, depth);
        assert(seq![] + at_depth(b, depth) =~= at_depth(b, depth));
    }
}

/// The number of leading mappings with `depth` names.
spec fn leading(list: Seq<Binding>, depth: nat) -> nat
    decreases list.len(),
{
    if list.len() > 0 && list[0].names.len() == depth {
        1 + leading(list.skip(1), depth)
    } else {
        0
    }
}

proof fn lemma_leading(list: Seq<Binding>, depth: nat)
    ensures
        leading(list, depth) <= list.len(),
        forall|i: int| 0 <= i < leading(list, depth) ==> (#[trigger] list[i]).names.len() == depth,
        leading(list, depth) < list.len() ==> list[leading(list, depth) as int].names.len() != depth,
    decreases list.len(),
{
    if list.len() > 0 && list[0].names.len() == depth {
        let rest = list.skip(1);
        lemma_leading(rest, depth);
        assert forall|i: int| 0 <= i < leading(list, depth) implies (
        #[trigger] list[i]).names.len() == depth by {
            if i > 0 {
                assert(rest[i - 1] == list[i]);
            }
        }
        if leading(rest, depth) < rest.len() {
            assert(rest[leading(rest, depth) as int] == list[leading(list, depth) as int]);
        }
    }
}

proof fn lemma_down_from_of_sorted(list: Seq<Binding>, depth: nat)
    requires
        deepest_first(list),
        forall|i: int| 0 <= i < list.len() ==> 1 <= (#[trigger] list[i]).names.len() <= depth,
    ensures
        down_from(list, depth) == list,
    decreases depth,
{
    if depth == 0 {
        if list.len() > 0 {
            assert(1 <= list[0].names.len() <= depth);
        }
        assert(list =~= seq![]);
    } else {
        let n = leading(list, depth) as int;
        lemma_leading(list, depth);
        let a = list.take(n);
        let b = list.skip(n);
        assert(list =~= a + b);
        assert forall|i: int| 0 <= i < a.len() implies (#[trigger] a[i]).names.len() == depth by {
            assert(a[i] == list[i]);
        }
        assert forall|i: int| 0 <= i < b.len() implies 1 <= (#[trigger] b[i]).names.len() <= depth
            - 1 by {
            assert(b[i] == list[n + i]);
            assert(1 <= list[n + i].names.len() <= depth);
            assert(1 <= list[n].names.len() <= depth);
            if i > 0 {
                assert(list[n].names.len() >= list[n + i].names.len());
            }
        }
        assert(deepest_first(b)) by {
            assert forall|i: int, j: int| 0 <= i < j < b.len() implies (
            #[trigger] b[i]).names.len() >= (#[trigger] b[j]).names.len() by {
                assert(list[n + i].names.len() >= list[n + j].names.len());
            }
        }
        lemma_down_from_of_sorted(b, (depth - 1) as nat);
        lemma_down_from_of_sum(a, b, (depth - 1) as nat, depth);
        lemma_at_depth_of_sum(a, b, depth);
        lemma_at_depth_uniform(a, depth, depth);
        lemma_at_depth_below(b, depth);
        assert(at_depth(list, depth) =~= a);
    }
}

proof fn lemma_at_depth_below(list: Seq<Binding>, depth: nat)
    requires
        forall|i: int| 0 <= i < list.len() ==> (#[trigger] list[i]).names.len() < depth,
    ensures
        at_depth(list, depth) == Seq::<Binding>::empty(),
    decreases list.len(),
{
    if list.len() > 0 {
        let front = list.drop_last();
        assert forall|i: int| 0 <= i < front.len() implies (#[trigger] front[i]).names.len()
            < depth by {
            assert(list[i].names.len() < depth);
        }
        lemma_at_depth_below(front, depth);
        assert(list[list.len() - 1].names.len() < depth);
    }
}

/// Mappings that already stand deepest first keep their order.
pub proof fn law_ordering_is_stable(list: Seq<Binding>)
    requires
        valid(list),
    ensures
        by_depth(list) == list,
{
    lemma_greatest_depth(list);
    assert forall|i: int| 0 <= i < list.len() implies 1 <= (#[trigger] list[i]).names.len()
        <= greatest_depth(list) by {
        assert(admissible(list[i].names));
    }
    lemma_down_from_of_sorted(list, greatest_depth(list));
}

/// The mappings that requests ask for have destinations that may be had, each
/// once.
pub proof fn lemma_accepted(list: Seq<Request>)
    ensures
        accepted(list) matches Ok(seen) ==> {
            &&& seen.len() == list.len()
            &&& distinct(seen)
            &&& forall|i: int| 0 <= i < seen.len() ==> admissible((#[trigger] seen[i]).names)
        },
    decreases list.len(),
{
    if list.len() > 0 {
        lemma_accepted(list.drop_last());
        if let Ok(seen) = accepted(list.drop_last()) {
            if let Ok(names) = admission(seen, list.last().destination) {
                path::lemma_names_are_plain(list.last().destination);
                let next = seen.push(Binding { source: list.last().source, names });
                assert forall|i: int, j: int| 0 <= i < j < next.len() implies (
                #[trigger] next[i]).names != (#[trigger] next[j]).names by {
                    if j < seen.len() {
                        assert(seen[i].names != seen[j].names);
                    } else {
                        assert(seen[i].names != names);
                    }
                }
            }
        }
    }
}

/// A path at or below `/dev`, `/proc` or `/sys`.
pub open spec fn reserved_path(path: Seq<u8>) -> bool {
    absolute(path) && reserved(components_of(path))
}

/// The destination itself for an empty relative path, else the joined path.
pub open spec fn below(destination: Seq<u8>, relative: Seq<u8>) -> Seq<u8> {
    if relative.len() == 0 {
        destination
    } else {
        joined(destination, relative)
    }
}

/// One bind projects both paths.
pub open spec fn renamable(list: Seq<Binding>, from: Seq<u8>, to: Seq<u8>) -> bool {
    projected(list, from) && selection(list, names_of(from)) == selection(list, names_of(to))
}

/// The mapping whose source is the longest prefix of a physical path, the last
/// of them where several are as long.
pub open spec fn host_choice(list: Seq<Binding>, host: Seq<u8>) -> Option<int>
    decreases list.len(),
{
    if list.len() == 0 {
        None
    } else {
        let before = host_choice(list.drop_last(), host);
        let source = parts_of(list.last().source);
        if begins_with(parts_of(host), source) && (before is None || source.len() >= parts_of(
            list[before->0].source,
        ).len()) {
            Some(list.len() - 1)
        } else {
            before
        }
    }
}

/// The guest path of a physical path: what follows the source in it, as it is
/// spelled there, below the destination.
pub open spec fn guest_path(list: Seq<Binding>, host: Seq<u8>) -> Seq<u8> {
    match host_choice(list, host) {
        Some(index) => below(
            render(list[index].names),
            stripped(host, list[index].source),
        ),
        None => host,
    }
}

/// Plain names can stand between separators.
pub proof fn lemma_plain_are_names(names: Seq<Seq<u8>>)
    requires
        all_plain(names),
    ensures
        all_names(names),
{
    assert forall|i: int| 0 <= i < names.len() implies path::is_name(#[trigger] names[i]) by {
        assert(path::is_plain(names[i]));
    }
}

/// Once a request is refused, the refusal stands for the whole list.
pub proof fn lemma_refusal_stays(list: Seq<Request>, upto: int)
    requires
        0 <= upto <= list.len(),
        accepted(list.take(upto)) is Err,
    ensures
        accepted(list) == accepted(list.take(upto)),
    decreases list.len() - upto,
{
    if upto < list.len() {
        assert(list.take(upto + 1).drop_last() =~= list.take(upto));
        lemma_refusal_stays(list, upto + 1);
    } else {
        assert(list.take(upto) =~= list);
    }
}

/// Requests that spell the mappings of a view are accepted as those mappings.
pub proof fn lemma_accepted_again(list: Seq<Binding>, asked: Seq<Request>)
    requires
        distinct(list),
        forall|i: int| 0 <= i < list.len() ==> admissible((#[trigger] list[i]).names),
        asked.len() == list.len(),
        forall|i: int|
            0 <= i < asked.len() ==> #[trigger] asked[i] == (Request {
                source: list[i].source,
                destination: render(list[i].names),
            }),
    ensures
        accepted(asked) == Ok::<Seq<Binding>, Refusal>(list),
    decreases list.len(),
{
    if list.len() == 0 {
        assert(list =~= seq![]);
    } else {
        let front = list.drop_last();
        let last = list.last();
        assert forall|i: int| 0 <= i < front.len() implies admissible(
            (#[trigger] front[i]).names,
        ) by {
            assert(admissible(list[i].names));
        }
        assert forall|i: int, j: int| 0 <= i < j < front.len() implies (#[trigger] front[i]).names
            != (#[trigger] front[j]).names by {
            assert(list[i].names != list[j].names);
        }
        assert forall|i: int| 0 <= i < asked.drop_last().len() implies #[trigger] asked.drop_last()[i]
            == (Request { source: front[i].source, destination: render(front[i].names) }) by {
            assert(asked[i] == (Request {
                source: list[i].source,
                destination: render(list[i].names),
            }));
        }
        lemma_accepted_again(front, asked.drop_last());
        assert(admissible(list[list.len() - 1].names));
        lemma_plain_are_names(last.names);
        path::law_components_of_render(last.names);
        path::lemma_collapse_plain(last.names);
        assert(asked[asked.len() - 1] == (Request {
            source: last.source,
            destination: render(last.names),
        }));
        assert(!taken(front, last.names)) by {
            if taken(front, last.names) {
                let k = choose|k: int| 0 <= k < front.len() && (#[trigger] front[k]).names
                    == last.names;
                assert(list[k].names != list[list.len() - 1].names);
            }
        }
        assert(front.push(last) =~= list);
    }
}

/// A source that wins against every other one is chosen.
proof fn lemma_host_choice(list: Seq<Binding>, host: Seq<u8>, index: int)
    requires
        0 <= index < list.len(),
        begins_with(parts_of(host), parts_of(list[index].source)),
        forall|j: int|
            0 <= j < list.len() && j != index && begins_with(
                parts_of(host),
                parts_of((#[trigger] list[j]).source),
            ) ==> parts_of(list[j].source).len() < parts_of(list[index].source).len(),
    ensures
        host_choice(list, host) == Some(index),
    decreases list.len(),
{
    let front = list.drop_last();
    if index == list.len() - 1 {
        law_longest_source_wins(front, host);
        if let Some(k) = host_choice(front, host) {
            assert(front[k] == list[k]);
        }
    } else {
        assert forall|j: int|
            0 <= j < front.len() && j != index && begins_with(
                parts_of(host),
                parts_of((#[trigger] front[j]).source),
            ) implies parts_of(front[j].source).len() < parts_of(front[index].source).len() by {
            assert(front[j] == list[j]);
        }
        lemma_host_choice(front, host, index);
        assert(list[list.len() - 1] == list.last());
    }
}

/// A physical path belongs to the bind whose source is the longest prefix of
/// it: no other source that is a prefix is longer. A path below no source
/// belongs to none.
pub proof fn law_longest_source_wins(list: Seq<Binding>, host: Seq<u8>)
    ensures
        match host_choice(list, host) {
            Some(index) => {
                &&& 0 <= index < list.len()
                &&& begins_with(parts_of(host), parts_of(list[index].source))
                &&& forall|j: int|
                    0 <= j < list.len() && begins_with(
                        parts_of(host),
                        parts_of((#[trigger] list[j]).source),
                    ) ==> parts_of(list[j].source).len() <= parts_of(list[index].source).len()
            },
            None => forall|j: int|
                0 <= j < list.len() ==> !begins_with(
                    parts_of(host),
                    parts_of((#[trigger] list[j]).source),
                ),
        },
    decreases list.len(),
{
    if list.len() > 0 {
        let front = list.drop_last();
        law_longest_source_wins(front, host);
        if let Some(k) = host_choice(front, host) {
            assert(front[k] == list[k]);
        }
        assert forall|j: int| 0 <= j < front.len() implies (#[trigger] list[j]) == front[j] by {}
    }
}

proof fn lemma_rooted_of_sum(above: Seq<Seq<u8>>, rest: Seq<Seq<u8>>)
    requires
        rest.len() > 0,
    ensures
        rooted_text(above + rest) == rooted_text(above).push(path::SEPARATOR) + relative_text(rest),
    decreases rest.len(),
{
    let all = above + rest;
    assert(all.last() == rest.last());
    if rest.len() == 1 {
        assert(all.drop_last() =~= above);
    } else {
        let front = rest.drop_last();
        assert(all.drop_last() =~= above + front);
        lemma_rooted_of_sum(above, front);
        assert(rooted_text(all) =~= rooted_text(above).push(path::SEPARATOR) + relative_text(rest));
    }
}

/// What stands below a destination is spelled by the destination's names and
/// the names that follow.
pub proof fn lemma_below(above: Seq<Seq<u8>>, rest: Seq<Seq<u8>>)
    requires
        above.len() > 0,
        all_names(above),
        all_names(rest),
    ensures
        below(render(above), relative_text(rest)) == render(above + rest),
{
    path::law_components_of_relative_text(rest);
    if rest.len() == 0 {
        assert(above + rest =~= above);
    } else {
        let last = above.last();
        assert(path::is_name(above[above.len() - 1]));
        assert(last.contains(last[last.len() - 1]));
        let text = rooted_text(above);
        assert(text.last() == last[last.len() - 1]);
        lemma_rooted_of_sum(above, rest);
    }
}

proof fn lemma_names_lead_without_dot(names: Seq<Seq<u8>>)
    requires
        all_names(names),
    ensures
        !path::leads_with_dot(relative_text(names)),
    decreases names.len(),
{
    if names.len() > 0 {
        assert(path::is_name(names[0]));
        if names.len() == 1 {
            let name = names[0];
            if path::leads_with_dot(name) {
                assert(name.len() == 1 || name.contains(name[1]));
                assert(name =~= path::current_dir());
            }
        } else {
            let front = names.drop_last();
            assert forall|i: int| 0 <= i < front.len() implies path::is_name(#[trigger] front[i]) by {
                assert(path::is_name(names[i]));
            }
            lemma_names_lead_without_dot(front);
            path::law_components_of_relative_text(front);
        }
    }
}

/// What follows a destination in a normalized path is spelled by the names that
/// follow.
proof fn lemma_tail_of_render(above: Seq<Seq<u8>>, rest: Seq<Seq<u8>>)
    requires
        above.len() > 0,
        all_names(above),
        all_names(rest),
    ensures
        path::tail(render(above + rest), above.len()) == relative_text(rest),
{
    let all = above + rest;
    assert(all_names(all)) by {
        assert forall|i: int| 0 <= i < all.len() implies path::is_name(#[trigger] all[i]) by {
            if i < above.len() {
                assert(path::is_name(above[i]));
            } else {
                assert(path::is_name(rest[i - above.len()]));
            }
        }
    }
    path::law_components_of_render(all);
    path::law_components_of_render(above);
    path::law_components_of_relative_text(rest);
    if rest.len() > 0 {
        lemma_below(above, rest);
        path::law_joined_path_is_stripped(render(above), rest);
    }
}

/// Stripping the destination off a normalized path puts its names where the
/// mapping places them.
pub proof fn lemma_placed(binding: Binding, names: Seq<Seq<u8>>)
    requires
        binding.names.len() > 0,
        covers(binding, names),
        all_plain(names),
    ensures
        joined(binding.source, path::tail(render(names), binding.names.len())) == placed(
            binding,
            names,
        ),
{
    let above = names.take(binding.names.len() as int);
    let rest = names.skip(binding.names.len() as int);
    lemma_plain_are_names(names);
    assert forall|i: int| 0 <= i < above.len() implies path::is_name(#[trigger] above[i]) by {
        assert(path::is_name(names[i]));
    }
    assert forall|i: int| 0 <= i < rest.len() implies path::is_name(#[trigger] rest[i]) by {
        assert(path::is_name(names[binding.names.len() + i]));
    }
    assert(above + rest =~= names);
    lemma_tail_of_render(above, rest);
}

/// The parts of a path below `base` are those of `base`, then the names.
proof fn lemma_parts_below(base: Seq<u8>, names: Seq<Seq<u8>>)
    requires
        all_names(names),
    ensures
        parts_of(joined(base, relative_text(names))) == parts_of(base) + names,
{
    let text = relative_text(names);
    path::law_components_of_relative_text(names);
    path::law_components_of_joined(base, text);
    lemma_names_lead_without_dot(names);
    if base.len() == 0 {
        assert(joined(base, text) =~= text);
    }
    assert(parts_of(joined(base, text)) =~= parts_of(base) + names);
}

/// The physical path of `path` leads back to the bind that projects it: the
/// bind's source is the longest of all sources that lead to the physical path.
pub open spec fn leads_back(list: Seq<Binding>, path: Seq<u8>) -> bool {
    let index = selection(list, names_of(path))->0;
    let host = resolved(list, path);
    &&& projected(list, path)
    &&& forall|j: int|
        0 <= j < list.len() && j != index && begins_with(
            parts_of(host),
            parts_of((#[trigger] list[j]).source),
        ) ==> parts_of(list[j].source).len() < parts_of(list[index].source).len()
}

/// Resolving a guest path and mapping the physical path back gives the guest
/// path, normalized, wherever the physical path leads back.
pub proof fn law_physical_paths_map_back(list: Seq<Binding>, path: Seq<u8>)
    requires
        valid(list),
        leads_back(list, path),
    ensures
        guest_path(list, resolved(list, path)) == normalized(path),
{
    let names = names_of(path);
    lemma_first_covering(list, names);
    let index = selection(list, names)->0;
    let binding = list[index];
    let rest = names.skip(binding.names.len() as int);
    let host = resolved(list, path);
    law_projection_replaces_destination(list, path);
    path::lemma_names_are_plain(path);
    lemma_plain_are_names(names);
    assert(all_names(rest)) by {
        assert forall|i: int| 0 <= i < rest.len() implies path::is_name(#[trigger] rest[i]) by {
            assert(path::is_name(names[binding.names.len() + i]));
        }
    }
    let source_parts = parts_of(binding.source);
    lemma_parts_below(binding.source, rest);
    path::law_joined_path_is_stripped(binding.source, rest);
    assert(parts_of(host).take(source_parts.len() as int) =~= source_parts);
    lemma_host_choice(list, host, index);
    assert(admissible(binding.names));
    lemma_plain_are_names(binding.names);
    lemma_below(binding.names, rest);
}

/// A rename within one bind stays below that bind's source on both sides.
pub proof fn law_rename_stays_in_one_source(list: Seq<Binding>, from: Seq<u8>, to: Seq<u8>)
    requires
        valid(list),
        renamable(list, from, to),
    ensures
        ({
            let binding = list[selection(list, names_of(from))->0];
            &&& begins_with(components_of(resolved(list, from)), components_of(binding.source))
            &&& begins_with(components_of(resolved(list, to)), components_of(binding.source))
        }),
{
    law_projection_replaces_destination(list, from);
    law_projection_replaces_destination(list, to);
    let binding = list[selection(list, names_of(from))->0];
    let source = components_of(binding.source);
    assert(components_of(resolved(list, from)).take(source.len() as int) =~= source);
    assert(components_of(resolved(list, to)).take(source.len() as int) =~= source);
}

/// Resolving a path brings in no zero byte: where neither the path nor a source
/// holds one, the physical path holds none.
pub proof fn law_resolution_adds_no_zero(list: Seq<Binding>, path: Seq<u8>)
    requires
        !path.contains(0),
        forall|j: int| 0 <= j < list.len() ==> !(#[trigger] list[j]).source.contains(0),
    ensures
        !resolved(list, path).contains(0),
{
    let names = names_of(path);
    path::lemma_names_without_zero(path);
    path::lemma_spelling_without_zero(names);
    lemma_first_covering(list, names);
    if let Some(index) = selection(list, names) {
        let binding = list[index];
        let rest = names.skip(binding.names.len() as int);
        assert forall|i: int| 0 <= i < rest.len() implies !(#[trigger] rest[i]).contains(0) by {
            assert(rest[i] == names[binding.names.len() + i]);
        }
        path::lemma_spelling_without_zero(rest);
        path::lemma_join_without_zero(binding.source, relative_text(rest));
    }
}

/// A destination may be had exactly where it is absolute, lies below the root and
/// outside of `/dev`, `/proc` and `/sys`, and is not taken; each refusal tells which
/// of these it lacks, the first one first.
pub proof fn law_destinations_are_checked(seen: Seq<Binding>, destination: Seq<u8>)
    ensures
        ({
            let names = names_of(destination);
            let rooted = destination.len() > 0 && destination[0] == 47;
            let host = names.len() > 0 && (names[0] == seq![100u8, 101, 118] || names[0] == seq![
                112u8,
                114,
                111,
                99,
            ] || names[0] == seq![115u8, 121, 115]);
            let twice = exists|i: int| 0 <= i < seen.len() && (#[trigger] seen[i]).names == names;
            match admission(seen, destination) {
                Ok(given) => rooted && names.len() > 0 && !host && !twice && given == names,
                Err(Refusal::NotAbsolute(path)) => !rooted && path == destination,
                Err(Refusal::Root) => rooted && names.len() == 0,
                Err(Refusal::Reserved(path)) => rooted && host && path == normalized(destination),
                Err(Refusal::Duplicate(path)) => rooted && names.len() > 0 && !host && twice && path
                    == normalized(destination),
            }
        }),
{
}

/// Requests that are accepted are accepted whole: every mapping has the source and
/// the names of the destination of the request at its place.
pub proof fn law_accepted_requests_keep_their_order(list: Seq<Request>)
    ensures
        accepted(list) matches Ok(binds) ==> {
            &&& binds.len() == list.len()
            &&& forall|i: int|
                0 <= i < list.len() ==> (#[trigger] binds[i]).source == list[i].source
                    && binds[i].names == names_of(list[i].destination)
        },
    decreases list.len(),
{
    if list.len() > 0 {
        let front = list.drop_last();
        law_accepted_requests_keep_their_order(front);
        if let Ok(binds) = accepted(list) {
            let before = accepted(front)->Ok_0;
            assert forall|i: int| 0 <= i < list.len() implies (#[trigger] binds[i]).source
                == list[i].source && binds[i].names == names_of(list[i].destination) by {
                if i < front.len() {
                    assert(binds[i] == before[i]);
                    assert(front[i] == list[i]);
                }
            }
        }
    }
}

/// The first request that cannot be had refuses the list, whatever follows it, with
/// the refusal that it gets after those before it.
pub proof fn law_first_refusal_counts(list: Seq<Request>, next: Request, rest: Seq<Request>)
    requires
        accepted(list) is Ok,
        admission(accepted(list)->Ok_0, next.destination) is Err,
    ensures
        accepted(list.push(next) + rest) == Err::<Seq<Binding>, Refusal>(
            admission(accepted(list)->Ok_0, next.destination)->Err_0,
        ),
{
    let head = list.push(next);
    assert(head.drop_last() =~= list);
    let whole = head + rest;
    assert(whole.take(head.len() as int) =~= head);
    lemma_refusal_stays(whole, head.len() as int);
}

/// A physical path below no source is a guest path as it stands; one below a source
/// is the destination followed by the names that follow the source.
pub proof fn law_guest_path_of_physical_path(list: Seq<Binding>, host: Seq<u8>)
    requires
        valid(list),
        forall|i: int| 0 <= i < list.len() ==> (#[trigger] list[i]).source.len() > 0,
    ensures
        match host_choice(list, host) {
            None => guest_path(list, host) == host,
            Some(index) => components_of(guest_path(list, host)) == list[index].names + parts_of(
                host,
            ).skip(parts_of(list[index].source).len() as int) && absolute(guest_path(list, host)),
        },
{
    law_longest_source_wins(list, host);
    if let Some(index) = host_choice(list, host) {
        let binding = list[index];
        let rest = stripped(host, binding.source);
        assert(admissible(binding.names));
        assert(binding.source.len() > 0);
        path::law_rest_follows_prefix(host, binding.source);
        lemma_plain_are_names(binding.names);
        path::law_components_of_render(binding.names);
        path::law_components_of_joined(render(binding.names), rest);
        if rest.len() == 0 {
            assert(components_of(rest) =~= seq![]);
            assert(binding.names + Seq::<Seq<u8>>::empty() =~= binding.names);
        } else {
            assert(joined(render(binding.names), rest)[0] == render(binding.names)[0]);
        }
    }
}

/// Where several sources are as long, the last of them decides where a physical path
/// belongs.
pub proof fn law_last_of_equal_sources_wins(list: Seq<Binding>, host: Seq<u8>)
    ensures
        host_choice(list, host) matches Some(index) ==> forall|j: int|
            index < j < list.len() && begins_with(
                parts_of(host),
                parts_of((#[trigger] list[j]).source),
            ) ==> parts_of(list[j].source).len() < parts_of(list[index].source).len(),
    decreases list.len(),
{
    if list.len() > 0 {
        let front = list.drop_last();
        law_last_of_equal_sources_wins(front, host);
        law_longest_source_wins(front, host);
        if let Some(k) = host_choice(front, host) {
            assert(front[k] == list[k]);
        }
        assert forall|j: int| 0 <= j < front.len() implies (#[trigger] list[j]) == front[j] by {}
    }
}

/// Two paths are renamed into each other exactly where one and the same bind projects
/// both, in either direction.
pub proof fn law_one_bind_projects_both(list: Seq<Binding>, from: Seq<u8>, to: Seq<u8>)
    ensures
        renamable(list, from, to) <==> renamable(list, to, from),
        renamable(list, from, to) <==> exists|index: int|
            selection(list, names_of(from)) == Some(index) && #[trigger] selected(list, to, index),
        renamable(list, from, from) <==> projected(list, from),
{
    if renamable(list, from, to) {
        assert(selected(list, to, selection(list, names_of(from))->0));
    }
}

/// The bind at `index` projects `path`.
pub open spec fn selected(list: Seq<Binding>, path: Seq<u8>, index: int) -> bool {
    selection(list, names_of(path)) == Some(index)
}

/// A path keeps host semantics exactly where it begins at the root and its first
/// component is `dev`, `proc` or `sys`.
pub proof fn law_host_paths_are_known_by_their_first_name(first: Seq<u8>, rest: Seq<Seq<u8>>)
    requires
        path::is_name(first),
        all_names(rest),
    ensures
        reserved_path(render(seq![first] + rest)) <==> first == seq![100u8, 101, 118] || first
            == seq![112u8, 114, 111, 99] || first == seq![115u8, 121, 115],
        !reserved_path(relative_text(seq![first] + rest)),
        !reserved_path(seq![47u8]),
{
    let names = seq![first] + rest;
    assert forall|i: int| 0 <= i < names.len() implies path::is_name(#[trigger] names[i]) by {
        if i > 0 {
            assert(path::is_name(rest[i - 1]));
        }
    }
    path::law_components_of_render(names);
    path::law_components_of_relative_text(names);
    path::law_components_of_render(seq![]);
    assert(names[0] == first);
    assert(render(Seq::<Seq<u8>>::empty()) =~= seq![47u8]);
}

} // verus!
