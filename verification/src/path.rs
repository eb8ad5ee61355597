//! Slash-separated paths as byte strings, and the lists of names they spell.

use crate::bytes;
use vstd::prelude::*;

verus! {

/// The separator `/`.
pub const SEPARATOR: u8 = 47;

/// The byte `.`.
pub const DOT: u8 = 46;

/// The name `.`.
pub open spec fn current_dir() -> Seq<u8> {
    seq![DOT]
}

/// The name `..`.
pub open spec fn parent_dir() -> Seq<u8> {
    seq![DOT, DOT]
}

/// The index of the last separator, or -1.
pub open spec fn last_separator(path: Seq<u8>) -> int
    decreases path.len(),
{
    if path.len() == 0 {
        -1
    } else if path.last() == SEPARATOR {
        path.len() - 1
    } else {
        last_separator(path.drop_last())
    }
}

/// A segment that counts as a component: neither empty nor `.`.
pub open spec fn counts(segment: Seq<u8>) -> bool {
    segment.len() > 0 && segment != current_dir()
}

/// The components of a path without its root: every segment between
/// separators except empty ones and `.`; `..` is kept.
pub open spec fn components_of(path: Seq<u8>) -> Seq<Seq<u8>>
    decreases path.len(),
{
    if path.len() == 0 {
        seq![]
    } else {
        let cut = last_separator(path);
        if cut < 0 || cut >= path.len() {
            if counts(path) {
                seq![path]
            } else {
                seq![]
            }
        } else {
            let segment = path.skip(cut + 1);
            if counts(segment) {
                components_of(path.take(cut)).push(segment)
            } else {
                components_of(path.take(cut))
            }
        }
    }
}

/// A path that starts at the root.
pub open spec fn absolute(path: Seq<u8>) -> bool {
    path.len() > 0 && path[0] == SEPARATOR
}

/// Names left after `..` has removed the name before it; at the root it
/// removes nothing.
pub open spec fn collapse(components: Seq<Seq<u8>>) -> Seq<Seq<u8>>
    decreases components.len(),
{
    if components.len() == 0 {
        seq![]
    } else {
        let before = collapse(components.drop_last());
        if components.last() == parent_dir() {
            if before.len() == 0 {
                before
            } else {
                before.drop_last()
            }
        } else {
            before.push(components.last())
        }
    }
}

/// Each name with a separator before it.
pub open spec fn rooted_text(names: Seq<Seq<u8>>) -> Seq<u8>
    decreases names.len(),
{
    if names.len() == 0 {
        seq![]
    } else {
        rooted_text(names.drop_last()).push(SEPARATOR) + names.last()
    }
}

/// The absolute path that spells `names`; no names spell `/`.
pub open spec fn render(names: Seq<Seq<u8>>) -> Seq<u8> {
    if names.len() == 0 {
        seq![SEPARATOR]
    } else {
        rooted_text(names)
    }
}

/// The names of a path once it is read from the root and collapsed.
pub open spec fn names_of(path: Seq<u8>) -> Seq<Seq<u8>> {
    collapse(components_of(path))
}

/// The normalized absolute spelling of a path.
pub open spec fn normalized(path: Seq<u8>) -> Seq<u8> {
    render(names_of(path))
}

/// What the last separator is: the final one, with none after it.
pub proof fn lemma_last_separator(path: Seq<u8>)
    ensures
        -1 <= last_separator(path) < path.len(),
        last_separator(path) >= 0 ==> path[last_separator(path)] == SEPARATOR,
        forall|i: int| last_separator(path) < i < path.len() ==> path[i] != SEPARATOR,
    decreases path.len(),
{
    if path.len() > 0 && path.last() != SEPARATOR {
        lemma_last_separator(path.drop_last());
        let cut = last_separator(path);
        assert forall|i: int| cut < i < path.len() implies path[i] != SEPARATOR by {
            if i < path.len() - 1 {
                assert(path.drop_last()[i] == path[i]);
            }
        }
    }
}

/// An index with a separator and none after it is the last separator.
pub proof fn lemma_last_separator_at(path: Seq<u8>, cut: int)
    requires
        -1 <= cut < path.len(),
        cut >= 0 ==> path[cut] == SEPARATOR,
        forall|i: int| cut < i < path.len() ==> path[i] != SEPARATOR,
    ensures
        last_separator(path) == cut,
{
    lemma_last_separator(path);
}

/// A path that ends in a separator has the components of what stands before it.
proof fn lemma_trailing_separator(path: Seq<u8>)
    requires
        path.len() > 0,
        path.last() == SEPARATOR,
    ensures
        components_of(path) == components_of(path.drop_last()),
{
    assert(path.skip(path.len() as int).len() == 0);
    assert(path.take(path.len() - 1) =~= path.drop_last());
}

/// Appending a segment that holds no separator appends it as a component.
proof fn lemma_append_segment(base: Seq<u8>, segment: Seq<u8>)
    requires
        base.len() == 0 || base.last() == SEPARATOR,
        forall|i: int| 0 <= i < segment.len() ==> segment[i] != SEPARATOR,
    ensures
        components_of(base + segment) == if counts(segment) {
            components_of(base).push(segment)
        } else {
            components_of(base)
        },
{
    let path = base + segment;
    if path.len() > 0 {
        lemma_last_separator_at(path, base.len() - 1);
        if base.len() == 0 {
            assert(path =~= segment);
            assert(Seq::<Seq<u8>>::empty().push(path) =~= seq![path]);
        } else {
            assert(path.skip(base.len() as int) =~= segment);
            assert(path.take(base.len() - 1) =~= base.drop_last());
            lemma_trailing_separator(base);
        }
    } else {
        assert(base =~= path);
    }
}

/// Whether a segment counts as a component.
fn is_component(segment: &[u8]) -> (kept: bool)
    ensures
        kept == counts(segment@),
{
    if segment.len() == 1 {
        let kept = segment[0] != DOT;
        assert(kept == (segment@ != current_dir())) by {
            if segment@[0] == DOT {
                assert(segment@ =~= current_dir());
            } else {
                assert(current_dir()[0] == DOT);
            }
        }
        kept
    } else {
        assert(segment@.len() != 1 ==> segment@ != current_dir());
        segment.len() > 0
    }
}

/// Splits a path into its components.
pub fn components(path: &[u8]) -> (names: Vec<Vec<u8>>)
    ensures
        bytes::rows(names@) == components_of(path@),
{
    let mut names: Vec<Vec<u8>> = Vec::new();
    let mut start: usize = 0;
    let mut i: usize = 0;
    assert(path@.take(0) =~= seq![]);
    assert(bytes::rows(names@) =~= components_of(path@.take(0)));
    while i < path.len()
        invariant
            start <= i <= path.len(),
            start == 0 || path@[start - 1] == SEPARATOR,
            forall|j: int| start <= j < i ==> path@[j] != SEPARATOR,
            bytes::rows(names@) == components_of(path@.take(start as int)),
        decreases path.len() - i,
    {
        if path[i] == SEPARATOR {
            push_segment(&mut names, path, start, i);
            proof {
                let upto = path@.take(i + 1);
                assert(upto.drop_last() =~= path@.take(i as int));
                lemma_trailing_separator(upto);
            }
            start = i + 1;
        }
        i += 1;
    }
    push_segment(&mut names, path, start, path.len());
    assert(path@.take(path@.len() as int) =~= path@);
    names
}

/// Appends the segment of `path` between `start` and `end`, if it counts.
fn push_segment(names: &mut Vec<Vec<u8>>, path: &[u8], start: usize, end: usize)
    requires
        start <= end <= path.len(),
        start == 0 || path@[start - 1] == SEPARATOR,
        forall|j: int| start <= j < end ==> path@[j] != SEPARATOR,
        bytes::rows(old(names)@) == components_of(path@.take(start as int)),
    ensures
        bytes::rows(final(names)@) == components_of(path@.take(end as int)),
{
    let segment = bytes::range(path, start, end);
    proof {
        lemma_append_segment(path@.take(start as int), segment@);
        assert(path@.take(start as int) + segment@ =~= path@.take(end as int));
    }
    if is_component(segment.as_slice()) {
        let ghost before = bytes::rows(names@);
        names.push(segment);
        assert(bytes::rows(names@) =~= before.push(segment@));
    }
}

/// A name that can stand between separators: it counts and holds no separator.
pub open spec fn is_name(name: Seq<u8>) -> bool {
    counts(name) && !name.contains(SEPARATOR)
}

/// A name that is not `..`.
pub open spec fn is_plain(name: Seq<u8>) -> bool {
    is_name(name) && name != parent_dir()
}

/// Every entry can stand between separators.
pub open spec fn all_names(names: Seq<Seq<u8>>) -> bool {
    forall|i: int| 0 <= i < names.len() ==> is_name(#[trigger] names[i])
}

/// Every entry is a plain name.
pub open spec fn all_plain(names: Seq<Seq<u8>>) -> bool {
    forall|i: int| 0 <= i < names.len() ==> is_plain(#[trigger] names[i])
}

/// Every component counts and holds no separator.
pub proof fn lemma_components_are_names(path: Seq<u8>)
    ensures
        all_names(components_of(path)),
    decreases path.len(),
{
    if path.len() > 0 {
        lemma_last_separator(path);
        let cut = last_separator(path);
        if cut >= 0 {
            lemma_components_are_names(path.take(cut));
            let segment = path.skip(cut + 1);
            assert forall|i: int| 0 <= i < segment.len() implies segment[i] != SEPARATOR by {
                assert(segment[i] == path[cut + 1 + i]);
            }
        }
    }
}

/// Collapsing leaves plain names only.
pub proof fn lemma_collapse_is_plain(components: Seq<Seq<u8>>)
    requires
        all_names(components),
    ensures
        all_plain(collapse(components)),
        collapse(components).len() <= components.len(),
    decreases components.len(),
{
    if components.len() > 0 {
        assert(all_names(components.drop_last())) by {
            assert forall|i: int| 0 <= i < components.len() - 1 implies is_name(
                #[trigger] components.drop_last()[i],
            ) by {
                assert(is_name(components[i]));
            }
        }
        lemma_collapse_is_plain(components.drop_last());
        assert(is_name(components.last()));
    }
}

/// Collapsing plain names changes nothing.
pub proof fn lemma_collapse_plain(names: Seq<Seq<u8>>)
    requires
        all_plain(names),
    ensures
        collapse(names) == names,
    decreases names.len(),
{
    if names.len() > 0 {
        assert(all_plain(names.drop_last())) by {
            assert forall|i: int| 0 <= i < names.len() - 1 implies is_plain(
                #[trigger] names.drop_last()[i],
            ) by {
                assert(is_plain(names[i]));
            }
        }
        lemma_collapse_plain(names.drop_last());
        assert(is_plain(names.last()));
        assert(names.drop_last().push(names.last()) =~= names);
    } else {
        assert(names =~= seq![]);
    }
}

/// The names of any path are plain.
pub proof fn lemma_names_are_plain(path: Seq<u8>)
    ensures
        all_plain(names_of(path)),
{
    lemma_components_are_names(path);
    lemma_collapse_is_plain(components_of(path));
}

proof fn lemma_components_of_rooted(names: Seq<Seq<u8>>)
    requires
        all_names(names),
    ensures
        components_of(rooted_text(names)) == names,
        names.len() > 0 ==> absolute(rooted_text(names)),
    decreases names.len(),
{
    if names.len() == 0 {
        assert(names =~= seq![]);
    } else {
        let front = names.drop_last();
        assert(all_names(front)) by {
            assert forall|i: int| 0 <= i < front.len() implies is_name(#[trigger] front[i]) by {
                assert(is_name(names[i]));
            }
        }
        lemma_components_of_rooted(front);
        let base = rooted_text(front).push(SEPARATOR);
        let last = names.last();
        assert(is_name(names[names.len() - 1]));
        assert forall|i: int| 0 <= i < last.len() implies last[i] != SEPARATOR by {
            assert(last.contains(last[i]));
        }
        lemma_trailing_separator(base);
        assert(base.drop_last() =~= rooted_text(front));
        lemma_append_segment(base, last);
        assert(front.push(last) =~= names);
    }
}

/// Spelling names as an absolute path and splitting it gives the names back.
pub proof fn law_components_of_render(names: Seq<Seq<u8>>)
    requires
        all_names(names),
    ensures
        components_of(render(names)) == names,
        absolute(render(names)),
{
    lemma_components_of_rooted(names);
    if names.len() == 0 {
        lemma_trailing_separator(render(names));
        assert(render(names).drop_last() =~= seq![]);
        assert(names =~= seq![]);
    }
}

/// Normalizing keeps the names of a path, so normalizing twice is
/// normalizing once.
pub proof fn law_normalize_is_idempotent(path: Seq<u8>)
    ensures
        names_of(normalized(path)) == names_of(path),
        normalized(normalized(path)) == normalized(path),
        absolute(normalized(path)),
{
    lemma_names_are_plain(path);
    assert(all_names(names_of(path))) by {
        assert forall|i: int| 0 <= i < names_of(path).len() implies is_name(
            #[trigger] names_of(path)[i],
        ) by {
            assert(is_plain(names_of(path)[i]));
        }
    }
    law_components_of_render(names_of(path));
    lemma_collapse_plain(names_of(path));
}

/// `relative` read from `base`: an absolute path stands for itself.
pub open spec fn joined(base: Seq<u8>, relative: Seq<u8>) -> Seq<u8> {
    if absolute(relative) {
        relative
    } else if base.len() == 0 || base.last() == SEPARATOR {
        base + relative
    } else {
        base.push(SEPARATOR) + relative
    }
}

proof fn lemma_components_of_sum(base: Seq<u8>, relative: Seq<u8>)
    requires
        base.len() == 0 || base.last() == SEPARATOR,
        base.len() == 0 ==> !absolute(relative),
    ensures
        components_of(base + relative) == components_of(base) + components_of(relative),
    decreases relative.len(),
{
    let path = base + relative;
    if relative.len() == 0 {
        assert(path =~= base);
        assert(components_of(base) + components_of(relative) =~= components_of(base));
    } else {
        lemma_last_separator(relative);
        let cut = last_separator(relative);
        if cut < 0 {
            lemma_append_segment(base, relative);
            assert(components_of(base) + components_of(relative) =~= components_of(path));
        } else {
            lemma_last_separator_at(path, base.len() + cut);
            assert(path.skip(base.len() + cut + 1) =~= relative.skip(cut + 1));
            let front = relative.take(cut);
            assert(path.take(base.len() + cut) =~= base + front);
            if front.len() > 0 {
                assert(front[0] == relative[0]);
            }
            lemma_components_of_sum(base, front);
            assert(components_of(path) =~= components_of(base) + components_of(relative));
        }
    }
}

/// The components of a joined path are those of the base, then those of the
/// relative path.
pub proof fn law_components_of_joined(base: Seq<u8>, relative: Seq<u8>)
    requires
        !absolute(relative),
    ensures
        components_of(joined(base, relative)) == components_of(base) + components_of(relative),
{
    if base.len() == 0 || base.last() == SEPARATOR {
        lemma_components_of_sum(base, relative);
    } else {
        let open = base.push(SEPARATOR);
        lemma_trailing_separator(open);
        assert(open.drop_last() =~= base);
        lemma_components_of_sum(open, relative);
    }
}

proof fn lemma_collapse_of_sum(above: Seq<Seq<u8>>, rest: Seq<Seq<u8>>)
    requires
        all_names(above),
    ensures
        collapse(collapse(above) + rest) == collapse(above + rest),
    decreases rest.len(),
{
    if rest.len() == 0 {
        assert(above + rest =~= above);
        assert(collapse(above) + rest =~= collapse(above));
        lemma_collapse_is_plain(above);
        lemma_collapse_plain(collapse(above));
    } else {
        let front = rest.drop_last();
        lemma_collapse_of_sum(above, front);
        assert((above + rest).drop_last() =~= above + front);
        assert((collapse(above) + rest).drop_last() =~= collapse(above) + front);
    }
}

/// The base of a relative path may be normalized first: the path that they join
/// to has the same names and the same normalized spelling.
pub proof fn law_base_may_be_normalized(base: Seq<u8>, relative: Seq<u8>)
    ensures
        names_of(joined(normalized(base), relative)) == names_of(joined(base, relative)),
        normalized(joined(normalized(base), relative)) == normalized(joined(base, relative)),
{
    if !absolute(relative) {
        let names = names_of(base);
        lemma_names_are_plain(base);
        assert forall|i: int| 0 <= i < names.len() implies is_name(#[trigger] names[i]) by {
            assert(is_plain(names[i]));
        }
        law_components_of_render(names);
        lemma_components_are_names(base);
        law_components_of_joined(base, relative);
        law_components_of_joined(normalized(base), relative);
        lemma_collapse_of_sum(components_of(base), components_of(relative));
    }
}

/// Names with separators between them.
pub open spec fn relative_text(names: Seq<Seq<u8>>) -> Seq<u8>
    decreases names.len(),
{
    if names.len() == 0 {
        seq![]
    } else if names.len() == 1 {
        names[0]
    } else {
        relative_text(names.drop_last()).push(SEPARATOR) + names.last()
    }
}

/// Splitting names that separators join gives the names back.
pub proof fn law_components_of_relative_text(names: Seq<Seq<u8>>)
    requires
        all_names(names),
    ensures
        components_of(relative_text(names)) == names,
        !absolute(relative_text(names)),
        relative_text(names).len() == 0 <==> names.len() == 0,
    decreases names.len(),
{
    if names.len() == 0 {
        assert(names =~= seq![]);
    } else {
        let last = names.last();
        assert(is_name(names[names.len() - 1]));
        assert forall|i: int| 0 <= i < last.len() implies last[i] != SEPARATOR by {
            assert(last.contains(last[i]));
        }
        if names.len() == 1 {
            let none: Seq<u8> = seq![];
            lemma_append_segment(none, last);
            assert(none + last =~= last);
            assert(components_of(none).push(last) =~= names);
        } else {
            let front = names.drop_last();
            assert(all_names(front)) by {
                assert forall|i: int| 0 <= i < front.len() implies is_name(#[trigger] front[i]) by {
                    assert(is_name(names[i]));
                }
            }
            law_components_of_relative_text(front);
            let base = relative_text(front).push(SEPARATOR);
            lemma_trailing_separator(base);
            assert(base.drop_last() =~= relative_text(front));
            lemma_append_segment(base, last);
            assert(front.push(last) =~= names);
        }
    }
}

/// Whether `prefix` is how `names` begins.
pub open spec fn begins_with(names: Seq<Seq<u8>>, prefix: Seq<Seq<u8>>) -> bool {
    prefix.len() <= names.len() && names.take(prefix.len() as int) == prefix
}

/// What a path comparison looks at: the root, a leading `.` of a relative
/// path, and the components.
pub open spec fn parts_of(path: Seq<u8>) -> Seq<Seq<u8>> {
    if absolute(path) {
        seq![seq![SEPARATOR]] + components_of(path)
    } else if leads_with_dot(path) {
        seq![current_dir()] + components_of(path)
    } else {
        components_of(path)
    }
}

/// A relative path whose first segment is `.`.
pub open spec fn leads_with_dot(path: Seq<u8>) -> bool {
    path.len() > 0 && path[0] == DOT && (path.len() == 1 || path[1] == SEPARATOR)
}

/// The index behind the last component, or 0 where there is none.
pub open spec fn end_of(path: Seq<u8>) -> int
    decreases path.len(),
{
    let cut = last_separator(path);
    if path.len() == 0 {
        0
    } else if cut < 0 || cut >= path.len() {
        if counts(path) {
            path.len() as int
        } else {
            0
        }
    } else if counts(path.skip(cut + 1)) {
        path.len() as int
    } else {
        end_of(path.take(cut))
    }
}

/// The index at which the component `index` of a path begins, counted from 0.
pub open spec fn start_of(path: Seq<u8>, index: nat) -> int
    decreases path.len(),
{
    let cut = last_separator(path);
    if path.len() == 0 || cut < 0 || cut >= path.len() {
        0
    } else if components_of(path.take(cut)).len() > index {
        start_of(path.take(cut), index)
    } else {
        cut + 1
    }
}

/// The components of a path from `index` on, as they are spelled in it: from where
/// the first of them begins to where the last one ends.
pub open spec fn tail(path: Seq<u8>, index: nat) -> Seq<u8> {
    if components_of(path).len() <= index {
        seq![]
    } else {
        path.subrange(start_of(path, index), end_of(path))
    }
}

/// The whole path without what follows its last component.
pub open spec fn trimmed(path: Seq<u8>) -> Seq<u8> {
    if end_of(path) == 0 && (absolute(path) || leads_with_dot(path)) {
        path.take(1)
    } else {
        path.take(end_of(path))
    }
}

/// What is left of a path that begins with `prefix`, as it is spelled in it.
pub open spec fn stripped(path: Seq<u8>, prefix: Seq<u8>) -> Seq<u8> {
    if prefix.len() == 0 {
        trimmed(path)
    } else {
        tail(path, components_of(prefix).len())
    }
}

proof fn lemma_end(path: Seq<u8>)
    ensures
        0 <= end_of(path) <= path.len(),
        components_of(path.take(end_of(path))) == components_of(path),
        forall|index: nat|
            index < components_of(path).len() ==> start_of(path.take(end_of(path)), index)
                == #[trigger] start_of(path, index),
    decreases path.len(),
{
    lemma_last_separator(path);
    let cut = last_separator(path);
    assert(path.take(path.len() as int) =~= path);
    assert(components_of(path.take(0)) =~= seq![]);
    if cut >= 0 && !counts(path.skip(cut + 1)) {
        let front = path.take(cut);
        lemma_end(front);
        let end = end_of(front);
        assert(path.take(end) =~= front.take(end));
        assert forall|index: nat| index < components_of(path).len() implies start_of(
            path.take(end_of(path)),
            index,
        ) == #[trigger] start_of(path, index) by {
            assert(start_of(front.take(end), index) == start_of(front, index));
        }
    }
}

proof fn lemma_start(path: Seq<u8>, index: nat)
    requires
        index < components_of(path).len(),
    ensures
        0 <= start_of(path, index) < path.len(),
        path[start_of(path, index)] != SEPARATOR,
        components_of(path.skip(start_of(path, index))) == components_of(path).skip(index as int),
    decreases path.len(),
{
    lemma_last_separator(path);
    let cut = last_separator(path);
    let start = start_of(path, index);
    if cut < 0 {
        assert(path.skip(0) =~= path);
        assert(components_of(path).skip(0) =~= components_of(path));
    } else {
        let front = path.take(cut);
        let segment = path.skip(cut + 1);
        if components_of(front).len() > index {
            lemma_start(front, index);
            let rest = path.skip(start);
            lemma_last_separator_at(rest, cut - start);
            assert(rest.take(cut - start) =~= front.skip(start));
            assert(rest.skip(cut - start + 1) =~= segment);
            assert(components_of(rest) =~= components_of(path).skip(index as int));
        } else {
            assert(segment[0] == path[cut + 1]);
            assert forall|i: int| 0 <= i < segment.len() implies segment[i] != SEPARATOR by {
                assert(segment[i] == path[cut + 1 + i]);
            }
            lemma_last_separator_at(segment, -1);
            assert(components_of(segment) =~= components_of(path).skip(index as int));
        }
    }
}

/// What a path holds from a component on has the components from there on and is
/// relative.
pub proof fn law_components_of_tail(path: Seq<u8>, index: nat)
    requires
        index <= components_of(path).len(),
    ensures
        components_of(tail(path, index)) == components_of(path).skip(index as int),
        !absolute(tail(path, index)),
{
    if index < components_of(path).len() {
        lemma_end(path);
        let end = end_of(path);
        let whole = path.take(end);
        lemma_start(path, index);
        lemma_start(whole, index);
        let start = start_of(path, index);
        assert(start_of(whole, index) == start);
        assert(tail(path, index) =~= whole.skip(start));
        assert(whole[start] == path[start]);
    } else {
        assert(components_of(path).skip(index as int) =~= seq![]);
    }
}

/// What is left of a path after a prefix has the parts that follow the prefix.
pub proof fn law_rest_follows_prefix(path: Seq<u8>, prefix: Seq<u8>)
    requires
        prefix.len() > 0,
        begins_with(parts_of(path), parts_of(prefix)),
    ensures
        components_of(stripped(path, prefix)) == parts_of(path).skip(parts_of(prefix).len() as int),
        !absolute(stripped(path, prefix)),
{
    let whole = parts_of(path);
    let head = parts_of(prefix);
    let count = components_of(prefix).len();
    lemma_components_are_names(path);
    lemma_components_are_names(prefix);
    lemma_first_part(prefix);
    assert(head[0] == whole.take(head.len() as int)[0]);
    assert(whole[0] == head[0]);
    lemma_first_part(path);
    assert(count <= components_of(path).len());
    assert(whole.skip(head.len() as int) =~= components_of(path).skip(count as int));
    law_components_of_tail(path, count);
}

/// The first part of a path tells whether the path is absolute or begins with `.`.
proof fn lemma_first_part(path: Seq<u8>)
    ensures
        path.len() > 0 ==> parts_of(path).len() > 0,
        parts_of(path).len() > 0 ==> (absolute(path) <==> parts_of(path)[0] == seq![SEPARATOR]),
        parts_of(path).len() > 0 && !absolute(path) ==> (leads_with_dot(path) <==> parts_of(path)[0]
            == current_dir()),
{
    lemma_components_are_names(path);
    let separator = seq![SEPARATOR];
    assert(separator[0] == SEPARATOR);
    assert(current_dir()[0] == DOT);
    if path.len() > 0 && !absolute(path) && !leads_with_dot(path) {
        lemma_leading_name(path);
        assert(is_name(components_of(path)[0]));
        assert(separator.contains(SEPARATOR));
    }
}

/// A path that begins with neither a separator nor the segment `.` has a component.
proof fn lemma_leading_name(path: Seq<u8>)
    requires
        path.len() > 0,
        !absolute(path),
        !leads_with_dot(path),
    ensures
        components_of(path).len() > 0,
    decreases path.len(),
{
    lemma_last_separator(path);
    let cut = last_separator(path);
    if cut < 0 {
        if path == current_dir() {
            assert(path[0] == DOT && path.len() == 1);
        }
    } else {
        let front = path.take(cut);
        assert(front[0] == path[0]);
        if leads_with_dot(front) {
            assert(path[1] == SEPARATOR);
        }
        lemma_leading_name(front);
    }
}

proof fn lemma_tail_of_sum(base: Seq<u8>, names: Seq<Seq<u8>>)
    requires
        base.len() == 0 || base.last() == SEPARATOR,
        all_names(names),
        names.len() > 0,
    ensures
        start_of(base + relative_text(names), components_of(base).len()) == base.len(),
        end_of(base + relative_text(names)) == base.len() + relative_text(names).len(),
    decreases names.len(),
{
    let count = components_of(base).len();
    let path = base + relative_text(names);
    let last = names.last();
    assert(is_name(names[names.len() - 1]));
    assert forall|i: int| 0 <= i < last.len() implies last[i] != SEPARATOR by {
        assert(last.contains(last[i]));
    }
    if names.len() == 1 {
        lemma_last_separator_at(path, base.len() - 1);
        if base.len() == 0 {
            assert(path =~= last);
        } else {
            assert(path.skip(base.len() as int) =~= last);
            assert(path.take(base.len() - 1) =~= base.drop_last());
            lemma_trailing_separator(base);
        }
    } else {
        let front = names.drop_last();
        assert forall|i: int| 0 <= i < front.len() implies is_name(#[trigger] front[i]) by {
            assert(is_name(names[i]));
        }
        let text = relative_text(front);
        let cut = (base.len() + text.len()) as int;
        assert(path =~= (base + text).push(SEPARATOR) + last);
        lemma_last_separator_at(path, cut);
        assert(path.skip(cut + 1) =~= last);
        assert(path.take(cut) =~= base + text);
        law_components_of_relative_text(front);
        lemma_components_of_sum(base, text);
        lemma_tail_of_sum(base, front);
    }
}

/// What stands below a base is spelled in the joined path as it was joined.
pub proof fn law_joined_path_is_stripped(base: Seq<u8>, names: Seq<Seq<u8>>)
    requires
        all_names(names),
    ensures
        stripped(joined(base, relative_text(names)), base) == relative_text(names),
{
    let text = relative_text(names);
    let path = joined(base, text);
    law_components_of_relative_text(names);
    law_components_of_joined(base, text);
    if names.len() == 0 {
        if base.len() == 0 {
            assert(path =~= text);
            assert(trimmed(path) =~= text);
        }
        assert(stripped(path, base) =~= text);
    } else if base.len() == 0 || base.last() == SEPARATOR {
        lemma_tail_of_sum(base, names);
        assert(stripped(path, base) =~= text);
    } else {
        let open = base.push(SEPARATOR);
        lemma_trailing_separator(open);
        assert(open.drop_last() =~= base);
        lemma_tail_of_sum(open, names);
        assert(stripped(path, base) =~= text);
    }
}

/// The last separator before `end`.
fn separator_before(path: &[u8], end: usize) -> (found: Option<usize>)
    requires
        end <= path.len(),
    ensures
        match found {
            Some(cut) => last_separator(path@.take(end as int)) == cut && cut < end,
            None => last_separator(path@.take(end as int)) == -1,
        },
{
    let ghost part = path@.take(end as int);
    let mut i: usize = end;
    while i > 0
        invariant
            i <= end <= path.len(),
            part == path@.take(end as int),
            forall|j: int| i <= j < end ==> path@[j] != SEPARATOR,
        decreases i,
    {
        i -= 1;
        if path[i] == SEPARATOR {
            proof {
                lemma_last_separator_at(part, i as int);
            }
            return Some(i);
        }
    }
    proof {
        lemma_last_separator_at(part, -1);
    }
    None
}

/// The index behind the last component.
fn end_index(path: &[u8]) -> (end: usize)
    ensures
        end == end_of(path@),
        end <= path.len(),
{
    let mut end: usize = path.len();
    assert(path@.take(end as int) =~= path@);
    while end > 0
        invariant
            end <= path.len(),
            end_of(path@.take(end as int)) == end_of(path@),
        decreases end,
    {
        let ghost part = path@.take(end as int);
        match separator_before(path, end) {
            None => {
                let segment = bytes::range(path, 0, end);
                assert(segment@ =~= part);
                return if is_component(segment.as_slice()) {
                    end
                } else {
                    0
                };
            },
            Some(cut) => {
                let segment = bytes::range(path, cut + 1, end);
                assert(segment@ =~= part.skip(cut + 1));
                if is_component(segment.as_slice()) {
                    return end;
                }
                assert(part.take(cut as int) =~= path@.take(cut as int));
                end = cut;
            },
        }
    }
    assert(path@.take(0).len() == 0);
    0
}

/// The index at which the component `index` begins.
fn start_index(path: &[u8], index: usize) -> (start: usize)
    requires
        index < components_of(path@).len(),
    ensures
        start == start_of(path@, index as nat),
        start <= path.len(),
{
    let mut end: usize = path.len();
    let mut count: usize = components(path).len();
    assert(path@.take(end as int) =~= path@);
    loop
        invariant
            end <= path.len(),
            count == components_of(path@.take(end as int)).len(),
            index < count,
            start_of(path@.take(end as int), index as nat) == start_of(path@, index as nat),
        decreases end,
    {
        let ghost part = path@.take(end as int);
        match separator_before(path, end) {
            None => {
                return 0;
            },
            Some(cut) => {
                let segment = bytes::range(path, cut + 1, end);
                proof {
                    assert(segment@ =~= part.skip(cut + 1));
                    assert(part.take(cut as int) =~= path@.take(cut as int));
                }
                if is_component(segment.as_slice()) {
                    count -= 1;
                }
                if count <= index {
                    return cut + 1;
                }
                end = cut;
            },
        }
    }
}

/// The components of a path from `index` on, as they are spelled in it.
pub fn tail_from(path: &[u8], index: usize) -> (rest: Vec<u8>)
    ensures
        rest@ == tail(path@, index as nat),
{
    if components(path).len() <= index {
        return Vec::new();
    }
    let start = start_index(path, index);
    let end = end_index(path);
    proof {
        lemma_end(path@);
        lemma_start(path@, index as nat);
        lemma_start(path@.take(end as int), index as nat);
    }
    bytes::range(path, start, end)
}

/// What is left of a path that begins with `prefix`, as it is spelled in it.
pub fn strip_prefix(path: &[u8], prefix: &[u8]) -> (rest: Vec<u8>)
    ensures
        rest@ == stripped(path@, prefix@),
{
    if prefix.len() > 0 {
        return tail_from(path, components(prefix).len());
    }
    let end = end_index(path);
    let led = path.len() > 0 && (path[0] == SEPARATOR || path[0] == DOT && (path.len() == 1
        || path[1] == SEPARATOR));
    if end == 0 && led {
        bytes::range(path, 0, 1)
    } else {
        bytes::range(path, 0, end)
    }
}

/// Removes the names that `..` takes back.
fn collapse_components(components: Vec<Vec<u8>>) -> (names: Vec<Vec<u8>>)
    ensures
        bytes::rows(names@) == collapse(bytes::rows(components@)),
{
    let ghost all = bytes::rows(components@);
    let mut names: Vec<Vec<u8>> = Vec::new();
    let mut i: usize = 0;
    assert(all.take(0) =~= seq![]);
    assert(bytes::rows(names@) =~= collapse(all.take(0)));
    while i < components.len()
        invariant
            i <= components.len(),
            all == bytes::rows(components@),
            bytes::rows(names@) == collapse(all.take(i as int)),
        decreases components.len() - i,
    {
        let ghost before = bytes::rows(names@);
        proof {
            assert(all.take(i + 1).drop_last() =~= all.take(i as int));
            assert(all.take(i + 1).last() == components@[i as int]@);
        }
        if is_parent(components[i].as_slice()) {
            let dropped = names.pop();
            assert(bytes::rows(names@) =~= if before.len() == 0 {
                before
            } else {
                before.drop_last()
            });
        } else {
            names.push(bytes::copy(components[i].as_slice()));
            assert(bytes::rows(names@) =~= before.push(components@[i as int]@));
        }
        i += 1;
    }
    assert(all.take(all.len() as int) =~= all);
    names
}

/// Whether a segment is `..`.
fn is_parent(segment: &[u8]) -> (found: bool)
    ensures
        found == (segment@ == parent_dir()),
{
    let found = segment.len() == 2 && segment[0] == DOT && segment[1] == DOT;
    assert(found == (segment@ == parent_dir())) by {
        if found {
            assert(segment@ =~= parent_dir());
        } else if segment@ == parent_dir() {
            assert(parent_dir()[0] == DOT && parent_dir()[1] == DOT && parent_dir().len() == 2);
        }
    }
    found
}

/// The names of a path once it is read from the root and collapsed.
pub fn names(path: &[u8]) -> (names: Vec<Vec<u8>>)
    ensures
        bytes::rows(names@) == names_of(path@),
{
    collapse_components(components(path))
}

/// Spells names as an absolute path.
pub fn render_names(names: &Vec<Vec<u8>>) -> (path: Vec<u8>)
    ensures
        path@ == render(bytes::rows(names@)),
{
    let ghost all = bytes::rows(names@);
    let mut path: Vec<u8> = Vec::new();
    let mut i: usize = 0;
    assert(all.take(0) =~= seq![]);
    assert(path@ =~= rooted_text(all.take(0)));
    while i < names.len()
        invariant
            i <= names.len(),
            all == bytes::rows(names@),
            path@ == rooted_text(all.take(i as int)),
        decreases names.len() - i,
    {
        path.push(SEPARATOR);
        bytes::append(&mut path, names[i].as_slice());
        proof {
            assert(all.take(i + 1).drop_last() =~= all.take(i as int));
            assert(all.take(i + 1).last() == names@[i as int]@);
        }
        i += 1;
    }
    assert(all.take(all.len() as int) =~= all);
    if names.len() == 0 {
        path.push(SEPARATOR);
        assert(path@ =~= seq![SEPARATOR]);
    }
    path
}

/// Spells the names from index `from` on with separators between them.
pub fn relative_from(names: &Vec<Vec<u8>>, from: usize) -> (path: Vec<u8>)
    requires
        from <= names.len(),
    ensures
        path@ == relative_text(bytes::rows(names@).skip(from as int)),
{
    let ghost all = bytes::rows(names@).skip(from as int);
    let mut path: Vec<u8> = Vec::new();
    let mut i: usize = from;
    assert(all.take(0) =~= seq![]);
    assert(path@ =~= relative_text(all.take(0)));
    while i < names.len()
        invariant
            from <= i <= names.len(),
            all == bytes::rows(names@).skip(from as int),
            path@ == relative_text(all.take(i - from)),
        decreases names.len() - i,
    {
        proof {
            assert(all.take(i - from + 1).drop_last() =~= all.take(i - from));
            assert(all.take(i - from + 1).last() == names@[i as int]@);
            assert(all.take(i - from + 1)[0] == all[0]);
        }
        if i > from {
            path.push(SEPARATOR);
        }
        let ghost base = path@;
        bytes::append(&mut path, names[i].as_slice());
        assert(i == from ==> path@ =~= names@[i as int]@);
        i += 1;
    }
    assert(all.take(all.len() as int) =~= all);
    path
}

/// The normalized absolute spelling of a guest path: separators collapse,
/// `.` vanishes, `..` removes the name before it, and a relative path is read
/// from the root.
pub fn normalize_virtual(path: &[u8]) -> (normal: Vec<u8>)
    ensures
        normal@ == normalized(path@),
{
    let names = names(path);
    render_names(&names)
}

/// Whether a path starts at the root.
pub fn is_absolute(path: &[u8]) -> (rooted: bool)
    ensures
        rooted == absolute(path@),
{
    path.len() > 0 && path[0] == SEPARATOR
}

/// Reads `relative` from `base`.
pub fn join(base: &[u8], relative: &[u8]) -> (path: Vec<u8>)
    ensures
        path@ == joined(base@, relative@),
{
    if is_absolute(relative) {
        return bytes::copy(relative);
    }
    let mut path = bytes::copy(base);
    if base.len() > 0 && base[base.len() - 1] != SEPARATOR {
        path.push(SEPARATOR);
    }
    bytes::append(&mut path, relative);
    path
}

/// The root, a leading `.` of a relative path, and the components.
pub fn parts(path: &[u8]) -> (parts: Vec<Vec<u8>>)
    ensures
        bytes::rows(parts@) == parts_of(path@),
{
    let mut components = components(path);
    let ghost before = bytes::rows(components@);
    if is_absolute(path) {
        let mut root: Vec<u8> = Vec::new();
        root.push(SEPARATOR);
        assert(root@ =~= seq![SEPARATOR]);
        components.insert(0, root);
        assert(bytes::rows(components@) =~= seq![seq![SEPARATOR]] + before);
    } else if path.len() > 0 && path[0] == DOT && (path.len() == 1 || path[1] == SEPARATOR) {
        let mut dot: Vec<u8> = Vec::new();
        dot.push(DOT);
        assert(dot@ =~= current_dir());
        components.insert(0, dot);
        assert(bytes::rows(components@) =~= seq![current_dir()] + before);
    }
    components
}

/// Whether `prefix` is how `names` begins.
pub fn is_prefix(names: &Vec<Vec<u8>>, prefix: &Vec<Vec<u8>>) -> (found: bool)
    ensures
        found == begins_with(bytes::rows(names@), bytes::rows(prefix@)),
{
    let ghost all = bytes::rows(names@);
    let ghost head = bytes::rows(prefix@);
    if names.len() < prefix.len() {
        return false;
    }
    let mut i: usize = 0;
    while i < prefix.len()
        invariant
            i <= prefix.len() <= names.len(),
            all == bytes::rows(names@),
            head == bytes::rows(prefix@),
            forall|j: int| 0 <= j < i ==> #[trigger] head[j] == all[j],
        decreases prefix.len() - i,
    {
        if !bytes::equal(names[i].as_slice(), prefix[i].as_slice()) {
            assert(all.take(head.len() as int)[i as int] != head[i as int]);
            return false;
        }
        i += 1;
    }
    assert(all.take(head.len() as int) =~= head);
    true
}

/// Whether two paths are the same once separators and `.` are set aside.
pub fn same_path(left: &[u8], right: &[u8]) -> (same: bool)
    ensures
        same == (parts_of(left@) == parts_of(right@)),
{
    let left = parts(left);
    let right = parts(right);
    let same = left.len() == right.len() && is_prefix(&left, &right);
    proof {
        let l = bytes::rows(left@);
        let r = bytes::rows(right@);
        if l.len() == r.len() {
            assert(l.take(r.len() as int) =~= l);
        }
    }
    same
}

/// No name holds a zero byte.
pub open spec fn all_without_zero(names: Seq<Seq<u8>>) -> bool {
    forall|i: int| 0 <= i < names.len() ==> !(#[trigger] names[i]).contains(0)
}

proof fn lemma_part_without_zero(text: Seq<u8>, from: int, to: int)
    requires
        !text.contains(0),
        0 <= from <= to <= text.len(),
    ensures
        !text.subrange(from, to).contains(0),
{
    let part = text.subrange(from, to);
    if part.contains(0) {
        let k = choose|k: int| 0 <= k < part.len() && part[k] == 0;
        assert(text[from + k] == 0);
    }
}

proof fn lemma_sum_without_zero(left: Seq<u8>, right: Seq<u8>)
    requires
        !left.contains(0),
        !right.contains(0),
    ensures
        !(left + right).contains(0),
        !(left.push(SEPARATOR) + right).contains(0),
{
    let whole = left + right;
    if whole.contains(0) {
        let k = choose|k: int| 0 <= k < whole.len() && whole[k] == 0;
        if k < left.len() {
            assert(left[k] == 0);
        } else {
            assert(right[k - left.len()] == 0);
        }
    }
    let apart = left.push(SEPARATOR) + right;
    if apart.contains(0) {
        let k = choose|k: int| 0 <= k < apart.len() && apart[k] == 0;
        if k < left.len() {
            assert(left[k] == 0);
        } else if k > left.len() {
            assert(right[k - left.len() - 1] == 0);
        }
    }
}

proof fn lemma_components_without_zero(path: Seq<u8>)
    requires
        !path.contains(0),
    ensures
        all_without_zero(components_of(path)),
    decreases path.len(),
{
    if path.len() > 0 {
        lemma_last_separator(path);
        let cut = last_separator(path);
        if cut >= 0 {
            lemma_part_without_zero(path, 0, cut);
            lemma_part_without_zero(path, cut + 1, path.len() as int);
            assert(path.take(cut) =~= path.subrange(0, cut));
            assert(path.skip(cut + 1) =~= path.subrange(cut + 1, path.len() as int));
            lemma_components_without_zero(path.take(cut));
        }
    }
}

proof fn lemma_collapse_without_zero(components: Seq<Seq<u8>>)
    requires
        all_without_zero(components),
    ensures
        all_without_zero(collapse(components)),
    decreases components.len(),
{
    if components.len() > 0 {
        let front = components.drop_last();
        assert forall|i: int| 0 <= i < front.len() implies !(#[trigger] front[i]).contains(0) by {
            assert(front[i] == components[i]);
        }
        lemma_collapse_without_zero(front);
        let before = collapse(front);
        let now = collapse(components);
        assert(!components[components.len() - 1].contains(0));
        assert forall|i: int| 0 <= i < now.len() implies !(#[trigger] now[i]).contains(0) by {
            if i < before.len() {
                assert(now[i] == before[i]);
            }
        }
    }
}

/// The names of a path without a zero byte hold none.
pub proof fn lemma_names_without_zero(path: Seq<u8>)
    requires
        !path.contains(0),
    ensures
        all_without_zero(names_of(path)),
{
    lemma_components_without_zero(path);
    lemma_collapse_without_zero(components_of(path));
}

/// Spelling names without zero bytes adds none.
pub proof fn lemma_spelling_without_zero(names: Seq<Seq<u8>>)
    requires
        all_without_zero(names),
    ensures
        !rooted_text(names).contains(0),
        !render(names).contains(0),
        !relative_text(names).contains(0),
    decreases names.len(),
{
    if names.len() > 0 {
        let front = names.drop_last();
        assert forall|i: int| 0 <= i < front.len() implies !(#[trigger] front[i]).contains(0) by {
            assert(front[i] == names[i]);
        }
        lemma_spelling_without_zero(front);
        assert(!names[names.len() - 1].contains(0));
        lemma_sum_without_zero(rooted_text(front), names.last());
        lemma_sum_without_zero(relative_text(front), names.last());
    }
}

/// Joining paths without zero bytes adds none.
pub proof fn lemma_join_without_zero(base: Seq<u8>, relative: Seq<u8>)
    requires
        !base.contains(0),
        !relative.contains(0),
    ensures
        !joined(base, relative).contains(0),
{
    lemma_sum_without_zero(base, relative);
}

/// Names build up a path from the left: a plain name goes one step down, `..` one
/// step up, which at the root leads nowhere, and `.` and an empty segment stay where
/// they are.
pub proof fn law_path_is_walked_segment_by_segment(path: Seq<u8>, name: Seq<u8>)
    requires
        is_plain(name),
    ensures
        names_of(joined(path, name)) == names_of(path).push(name),
        names_of(joined(path, seq![46u8, 46])) == if names_of(path).len() == 0 {
            names_of(path)
        } else {
            names_of(path).drop_last()
        },
        names_of(joined(path, seq![46u8])) == names_of(path),
        names_of(joined(path, seq![])) == names_of(path),
{
    let up = seq![46u8, 46];
    let here = seq![46u8];
    let none: Seq<u8> = seq![];
    assert(up =~= parent_dir());
    assert(here =~= current_dir());
    assert(up[0] != SEPARATOR && up[1] != SEPARATOR && up.len() == 2);
    lemma_single_segment(name);
    lemma_single_segment(up);
    lemma_single_segment(here);
    law_components_of_joined(path, name);
    law_components_of_joined(path, up);
    law_components_of_joined(path, here);
    law_components_of_joined(path, none);
    let all = components_of(path);
    assert(counts(up)) by {
        if up == current_dir() {
            assert(up.len() == current_dir().len());
        }
    }
    assert((all + seq![name]).drop_last() =~= all);
    assert((all + seq![up]).drop_last() =~= all);
    assert(all + Seq::<Seq<u8>>::empty() =~= all);
}

proof fn lemma_single_segment(segment: Seq<u8>)
    requires
        !segment.contains(SEPARATOR),
    ensures
        !absolute(segment),
        components_of(segment) == if counts(segment) {
            seq![segment]
        } else {
            seq![]
        },
{
    assert forall|i: int| 0 <= i < segment.len() implies segment[i] != SEPARATOR by {
        assert(segment.contains(segment[i]));
    }
    lemma_append_segment(seq![], segment);
    assert(Seq::<u8>::empty() + segment =~= segment);
    assert(components_of(seq![]) =~= seq![]);
    assert(Seq::<Seq<u8>>::empty().push(segment) =~= seq![segment]);
}

/// The spelling of a path does not matter to its names: a repeated separator and a
/// trailing one add nothing, and the path is read from the root whether or not it
/// begins there.
pub proof fn law_separators_add_nothing(path: Seq<u8>)
    ensures
        components_of(path.push(SEPARATOR)) == components_of(path),
        components_of(seq![SEPARATOR] + path) == components_of(path),
{
    let open = path.push(SEPARATOR);
    lemma_trailing_separator(open);
    assert(open.drop_last() =~= path);
    let root = seq![SEPARATOR];
    lemma_components_of_sum(root, path);
    lemma_trailing_separator(root);
    assert(root.drop_last() =~= seq![]);
    assert(components_of(root) =~= seq![]);
    assert(components_of(root) + components_of(path) =~= components_of(path));
}

/// A normalized path is spelled with one separator before each name and nothing
/// else, and is `/` where there is none.
pub proof fn law_normalized_spelling(path: Seq<u8>, name: Seq<u8>)
    requires
        is_plain(name),
    ensures
        names_of(path).len() == 0 ==> normalized(path) == seq![SEPARATOR],
        names_of(path).len() == 0 ==> normalized(joined(path, name)) == seq![SEPARATOR] + name,
        names_of(path).len() > 0 ==> normalized(joined(path, name)) == normalized(path).push(
            SEPARATOR,
        ) + name,
{
    law_path_is_walked_segment_by_segment(path, name);
    let names = names_of(path);
    assert(names.push(name).drop_last() =~= names);
    assert(rooted_text(seq![]) =~= seq![]);
    if names.len() == 0 {
        assert(names =~= seq![]);
        assert(Seq::<u8>::empty().push(SEPARATOR) + name =~= seq![SEPARATOR] + name);
    }
}

/// What stands behind a separator adds its components to those before it.
pub proof fn lemma_components_below(base: Seq<u8>, rest: Seq<u8>)
    ensures
        components_of(base.push(SEPARATOR) + rest) == components_of(base) + components_of(rest),
{
    let open = base.push(SEPARATOR);
    lemma_trailing_separator(open);
    assert(open.drop_last() =~= base);
    lemma_components_of_sum(open, rest);
}

/// Stripping nothing off a path leaves it as it is but for what follows its last
/// component: it begins where it began and has the same parts.
pub proof fn law_empty_prefix_leaves_the_path(path: Seq<u8>)
    ensures
        stripped(path, seq![]) == path.take(stripped(path, seq![]).len() as int),
        stripped(path, seq![]).len() <= path.len(),
        parts_of(stripped(path, seq![])) == parts_of(path),
        components_of(path).len() == 0 ==> stripped(path, seq![]).len() <= 1,
{
    lemma_end(path);
    lemma_end_of_nothing(path);
    let end = end_of(path);
    let kept = trimmed(path);
    assert(components_of(path.take(0)) =~= seq![]);
    if end == 0 && path.len() > 0 && (absolute(path) || leads_with_dot(path)) {
        let first = path.take(1);
        assert(first[0] == path[0]);
        lemma_single_byte(first);
        assert(components_of(first) =~= seq![]);
    } else if end > 0 {
        assert(kept[0] == path[0]);
        if end > 1 {
            assert(kept[1] == path[1]);
        } else {
            lemma_single_byte(kept);
        }
    } else if path.len() > 0 {
        lemma_leading_name(path);
    }
}

/// A path of one byte has a component exactly where the byte is a name by itself.
proof fn lemma_single_byte(path: Seq<u8>)
    requires
        path.len() == 1,
    ensures
        path[0] == SEPARATOR || path[0] == DOT ==> components_of(path).len() == 0,
{
    if path[0] == SEPARATOR {
        lemma_trailing_separator(path);
        assert(path.drop_last() =~= seq![]);
    } else if path[0] == DOT {
        assert(path =~= current_dir());
        lemma_last_separator_at(path, -1);
    }
}

/// Where there is no component, nothing comes before its end, and the other way
/// round.
proof fn lemma_end_of_nothing(path: Seq<u8>)
    ensures
        components_of(path).len() == 0 <==> end_of(path) == 0,
    decreases path.len(),
{
    lemma_last_separator(path);
    let cut = last_separator(path);
    if cut >= 0 && !counts(path.skip(cut + 1)) {
        lemma_end_of_nothing(path.take(cut));
    }
}

} // verus!
