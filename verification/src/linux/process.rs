//! What `/proc` tells about the process that made a call.

use crate::bytes;
use crate::mapping::proc_name;
use crate::number;
use crate::number::{digits, parsed};
use crate::path;
use crate::path::{parts_of, SEPARATOR};
use crate::text;
use vstd::prelude::*;

verus! {

/// A character with the Unicode property `White_Space`.
pub open spec fn white(letter: char) -> bool {
    let code = letter as u32;
    9 <= code <= 13 || code == 0x20 || code == 0x85 || code == 0xa0 || code == 0x1680 || 0x2000
        <= code <= 0x200a || code == 0x2028 || code == 0x2029 || code == 0x202f || code == 0x205f
        || code == 0x3000
}

/// A text without the white space at its ends.
pub open spec fn trimmed(text: Seq<char>) -> Seq<char>
    decreases text.len(),
{
    if text.len() == 0 {
        text
    } else if white(text[0]) {
        trimmed(text.skip(1))
    } else if white(text.last()) {
        trimmed(text.drop_last())
    } else {
        text
    }
}

/// The number of characters before the first end of line, or of all.
pub open spec fn line_end(text: Seq<char>) -> int
    decreases text.len(),
{
    if text.len() == 0 || text[0] == '\n' {
        0
    } else {
        1 + line_end(text.skip(1))
    }
}

/// The number after `name` on the first line that begins with `name`.
pub open spec fn status_field(text: Seq<char>, name: Seq<char>) -> Option<u32>
    decreases text.len(),
{
    let end = line_end(text);
    let line = text.take(end);
    if name.len() <= line.len() && line.take(name.len() as int) == name {
        parsed(trimmed(line.skip(name.len() as int)))
    } else if 0 <= end < text.len() {
        status_field(text.skip(end + 1), name)
    } else {
        None
    }
}

/// What a status that may be unreadable says under `name`.
pub open spec fn told(status: Option<Seq<char>>, name: Seq<char>) -> Option<u32> {
    match status {
        Some(text) => status_field(text, name),
        None => None,
    }
}

/// Whether a character is white space.
fn is_white(letter: char) -> (found: bool)
    ensures
        found == white(letter),
{
    let code = letter as u32;
    (9 <= code && code <= 13) || code == 0x20 || code == 0x85 || code == 0xa0 || code == 0x1680 || (
    0x2000 <= code && code <= 0x200a) || code == 0x2028 || code == 0x2029 || code == 0x202f || code
        == 0x205f || code == 0x3000
}

/// The characters of a text.
fn characters(text: &str) -> (list: Vec<char>)
    ensures
        list@ == text@,
{
    let mut list: Vec<char> = Vec::new();
    for letter in it: text.chars()
        invariant
            list@ == it.seq().take(it.index() as int),
            it.seq() == text@,
    {
        list.push(letter);
        assert(list@ =~= it.seq().take(it.index() as int + 1));
    }
    assert(list@ =~= text@);
    list
}

/// Where a line that starts at `from` ends.
fn find_end(text: &Vec<char>, from: usize) -> (end: usize)
    requires
        from <= text.len(),
    ensures
        from <= end <= text.len(),
        end - from == line_end(text@.skip(from as int)),
{
    let mut end: usize = from;
    let ghost rest = text@.skip(from as int);
    assert(rest.skip(0) =~= rest);
    while end < text.len() && text[end] != '\n'
        invariant
            from <= end <= text.len(),
            rest == text@.skip(from as int),
            line_end(rest) == (end - from) + line_end(rest.skip(end - from)),
        decreases text.len() - end,
    {
        assert(rest.skip(end - from)[0] == text@[end as int]);
        assert(rest.skip(end - from).skip(1) =~= rest.skip(end - from + 1));
        end += 1;
    }
    assert(end < text.len() ==> rest.skip(end - from)[0] == text@[end as int]);
    end
}

/// Whether `name` stands at `from` and before `end`.
fn stands_at(text: &Vec<char>, from: usize, end: usize, name: &Vec<char>) -> (found: bool)
    requires
        from <= end <= text.len(),
    ensures
        found == (name@.len() <= end - from && text@.subrange(from as int, end as int).take(
            name@.len() as int,
        ) == name@),
{
    if name.len() > end - from {
        return false;
    }
    let ghost line = text@.subrange(from as int, end as int);
    let mut i: usize = 0;
    while i < name.len()
        invariant
            i <= name.len() <= end - from,
            from <= end <= text.len(),
            line == text@.subrange(from as int, end as int),
            forall|j: int| 0 <= j < i ==> text@[from + j] == name@[j],
        decreases name.len() - i,
    {
        if text[from + i] != name[i] {
            assert(line.take(name@.len() as int)[i as int] != name@[i as int]);
            return false;
        }
        i += 1;
    }
    assert(line.take(name@.len() as int) =~= name@);
    true
}

/// The number between `from` and `to` without the white space around it.
fn read_trimmed(text: &Vec<char>, from: usize, to: usize) -> (number: Option<u32>)
    requires
        from <= to <= text.len(),
    ensures
        number == parsed(trimmed(text@.subrange(from as int, to as int))),
{
    let ghost whole = trimmed(text@.subrange(from as int, to as int));
    let mut start: usize = from;
    let mut end: usize = to;
    while start < end && is_white(text[start])
        invariant
            from <= start <= end <= text.len(),
            trimmed(text@.subrange(start as int, end as int)) == whole,
        decreases end - start,
    {
        let ghost part = text@.subrange(start as int, end as int);
        assert(part[0] == text@[start as int]);
        assert(part.skip(1) =~= text@.subrange(start + 1, end as int));
        start += 1;
    }
    while start < end && is_white(text[end - 1])
        invariant
            from <= start <= end <= text.len(),
            start < end ==> !white(text@[start as int]),
            trimmed(text@.subrange(start as int, end as int)) == whole,
        decreases end - start,
    {
        let ghost part = text@.subrange(start as int, end as int);
        assert(part[0] == text@[start as int]);
        assert(part.last() == text@[end - 1]);
        assert(part.drop_last() =~= text@.subrange(start as int, end - 1));
        end -= 1;
    }
    proof {
        let part = text@.subrange(start as int, end as int);
        if start < end {
            assert(part[0] == text@[start as int]);
            assert(part.last() == text@[end - 1]);
        }
        assert(trimmed(part) == part);
    }
    number::parse_u32(text, start, end)
}

/// Reads the number after `name` in a status.
fn process_status_field(status: &str, name: &str) -> (number: Option<u32>)
    ensures
        number == status_field(status@, name@),
{
    let text = characters(status);
    let wanted = characters(name);
    let mut from: usize = 0;
    assert(text@.skip(0) =~= text@);
    loop
        invariant
            text@ == status@,
            wanted@ == name@,
            from <= text@.len(),
            status_field(status@, name@) == status_field(text@.skip(from as int), name@),
        decreases text@.len() - from,
    {
        let end = find_end(&text, from);
        let ghost rest = text@.skip(from as int);
        proof {
            assert(rest.take(end - from) =~= text@.subrange(from as int, end as int));
        }
        if stands_at(&text, from, end, &wanted) {
            assert(rest.take(end - from).skip(name@.len() as int) =~= text@.subrange(
                from + wanted@.len(),
                end as int,
            ));
            return read_trimmed(&text, from + wanted.len(), end);
        }
        if end == text.len() {
            return None;
        }
        assert(rest.skip(end - from + 1) =~= text@.skip(end + 1));
        from = end + 1;
    }
}

proof fn lemma_line_end(text: Seq<char>, end: int)
    requires
        0 <= end < text.len(),
        text[end] == '\n',
        forall|i: int| 0 <= i < end ==> text[i] != '\n',
    ensures
        line_end(text) == end,
    decreases text.len(),
{
    if end > 0 {
        let rest = text.skip(1);
        assert forall|i: int| 0 <= i < end - 1 implies rest[i] != '\n' by {
            assert(rest[i] == text[i + 1]);
        }
        assert(text[0] != '\n');
        lemma_line_end(rest, end - 1);
    }
}

/// A line `<name><tab><number>` at the head of a status tells the number.
pub proof fn law_status_line_tells_number(name: Seq<char>, value: nat, rest: Seq<char>)
    requires
        value <= u32::MAX,
        !name.contains('\n'),
    ensures
        status_field(name + seq!['\t'] + number::decimal(value as int) + seq!['\n'] + rest, name)
            == Some(value as u32),
{
    let shown = number::decimal(value as int);
    let text = name + seq!['\t'] + shown + seq!['\n'] + rest;
    let end = (name.len() + 1 + shown.len()) as int;
    number::law_digits_spell_number(value);
    number::law_decimal_is_parsed_back(value);
    assert forall|i: int| 0 <= i < shown.len() implies '0' <= #[trigger] shown[i] <= '9' by {
        assert(shown[i] == digits(value)[i] as char);
    }
    assert forall|i: int| 0 <= i < end implies text[i] != '\n' by {
        if i < name.len() {
            assert(text[i] == name[i]);
            assert(name.contains(name[i]));
        } else if i > name.len() {
            assert(text[i] == shown[i - name.len() - 1]);
        }
    }
    lemma_line_end(text, end);
    let line = text.take(end);
    assert(line.take(name.len() as int) =~= name);
    let value_text = line.skip(name.len() as int);
    assert(value_text =~= seq!['\t'] + shown);
    assert(value_text.skip(1) =~= shown);
    assert(shown[0] == digits(value)[0] as char);
    assert(!white(shown[0]) && !white(shown.last()));
    reveal_with_fuel(trimmed, 3);
    assert(trimmed(value_text) == shown);
}

/// The process that a thread belongs to, from the thread's status: the group
/// leader where the status tells it, else the thread itself.
pub open spec fn key_of(status: Option<Seq<char>>, pid: u32) -> u32 {
    match told(status, "Tgid:"@) {
        Some(leader) => leader,
        None => pid,
    }
}

/// The parent of a process, from its status.
pub open spec fn parent_of(status: Option<Seq<char>>) -> Option<u32> {
    told(status, "PPid:"@)
}

/// The process that a thread belongs to, from the thread's status.
pub fn process_key(status: &Option<String>, pid: u32) -> (key: u32)
    ensures
        key == key_of(text::written(*status), pid),
{
    match status {
        Some(text) => match process_status_field(text.as_str(), "Tgid:") {
            Some(leader) => leader,
            None => pid,
        },
        None => pid,
    }
}

/// The parent of a process, from its status.
pub fn process_parent(status: &Option<String>) -> (parent: Option<u32>)
    ensures
        parent == parent_of(text::written(*status)),
{
    match status {
        Some(text) => process_status_field(text.as_str(), "PPid:"),
        None => None,
    }
}

/// `self`.
pub open spec fn self_name() -> Seq<u8> {
    seq![115u8, 101, 108, 102]
}

/// `thread-self`.
pub open spec fn thread_self_name() -> Seq<u8> {
    seq![116u8, 104, 114, 101, 97, 100, 45, 115, 101, 108, 102]
}

/// `cwd`.
pub open spec fn cwd_name() -> Seq<u8> {
    seq![99u8, 119, 100]
}

/// The path is `/proc/<who>/cwd`.
pub open spec fn proc_cwd_of(path: Seq<u8>, who: Seq<u8>) -> bool {
    parts_of(path) == seq![seq![SEPARATOR], proc_name(), who, cwd_name()]
}

/// The path is the link through which the process `pid` with the key `key` sees
/// its own working directory.
pub open spec fn own_proc_cwd(path: Seq<u8>, pid: u32, key: u32) -> bool {
    proc_cwd_of(path, self_name()) || proc_cwd_of(path, thread_self_name()) || proc_cwd_of(
        path,
        digits(pid as nat),
    ) || proc_cwd_of(path, digits(key as nat))
}

/// Whether a path is the link through which a process sees its own working
/// directory.
pub fn is_own_proc_cwd(path: &[u8], pid: u32, key: u32) -> (found: bool)
    ensures
        found == own_proc_cwd(path@, pid, key),
{
    let parts = path::parts(path);
    let ghost list = parts_of(path@);
    assert(bytes::rows(parts@) == list);
    if parts.len() != 4 {
        assert forall|who: Seq<u8>| !proc_cwd_of(path@, who) by {
            assert(seq![seq![SEPARATOR], proc_name(), who, cwd_name()].len() == 4);
        }
        return false;
    }
    proof {
        assert(list[0] == parts@[0]@);
        assert(list[1] == parts@[1]@);
        assert(list[2] == parts@[2]@);
        assert(list[3] == parts@[3]@);
        assert forall|who: Seq<u8>|
            proc_cwd_of(path@, who) <==> list[0] == seq![SEPARATOR] && list[1] == proc_name()
                && list[2] == who && list[3] == cwd_name() by {
            let wanted = seq![seq![SEPARATOR], proc_name(), who, cwd_name()];
            if list[0] == seq![SEPARATOR] && list[1] == proc_name() && list[2] == who && list[3]
                == cwd_name() {
                assert(list =~= wanted);
            }
        }
    }
    let root: [u8; 1] = [SEPARATOR];
    let proc_word: [u8; 4] = [112, 114, 111, 99];
    let self_word: [u8; 4] = [115, 101, 108, 102];
    let thread_word: [u8; 11] = [116, 104, 114, 101, 97, 100, 45, 115, 101, 108, 102];
    let cwd_word: [u8; 3] = [99, 119, 100];
    assert(root@ =~= seq![SEPARATOR]);
    assert(proc_word@ =~= proc_name());
    assert(self_word@ =~= self_name());
    assert(thread_word@ =~= thread_self_name());
    assert(cwd_word@ =~= cwd_name());
    if !bytes::equal(parts[0].as_slice(), root.as_slice()) || !bytes::equal(
        parts[1].as_slice(),
        proc_word.as_slice(),
    ) || !bytes::equal(parts[3].as_slice(), cwd_word.as_slice()) {
        return false;
    }
    let who = parts[2].as_slice();
    let pid_word = number::render_digits(pid as u64);
    let key_word = number::render_digits(key as u64);
    bytes::equal(who, self_word.as_slice()) || bytes::equal(who, thread_word.as_slice())
        || bytes::equal(who, pid_word.as_slice()) || bytes::equal(who, key_word.as_slice())
}

/// A line that does not begin with the name is passed over.
pub proof fn law_other_lines_are_passed_over(line: Seq<char>, rest: Seq<char>, name: Seq<char>)
    requires
        !line.contains('\n'),
        name.len() > line.len() || line.take(name.len() as int) != name,
    ensures
        status_field(line + seq!['\n'] + rest, name) == status_field(rest, name),
{
    let text = line + seq!['\n'] + rest;
    assert forall|i: int| 0 <= i < line.len() implies text[i] != '\n' by {
        assert(text[i] == line[i]);
        assert(line.contains(line[i]));
    }
    lemma_line_end(text, line.len() as int);
    assert(text.take(line.len() as int) =~= line);
    assert(text.skip(line.len() as int + 1) =~= rest);
}

/// A thread belongs to the group leader that its status names, and a process has the
/// parent that its status names, whatever else the status says before that. Without
/// a status, or without such a line, a thread stands for itself and has no parent.
pub proof fn law_status_tells_leader_and_parent(leader: u32, parent: u32, rest: Seq<char>, pid: u32)
    ensures
        ({
            let group = "Tgid:"@ + seq!['\t'] + number::decimal(leader as int) + seq!['\n'];
            let above = "PPid:"@ + seq!['\t'] + number::decimal(parent as int) + seq!['\n'];
            &&& key_of(Some(group + above + rest), pid) == leader
            &&& parent_of(Some(group + above + rest)) == Some(parent)
            &&& key_of(None, pid) == pid
            &&& parent_of(None) is None
            &&& key_of(Some(seq![]), pid) == pid
            &&& parent_of(Some(seq![])) is None
        }),
{
    reveal_strlit("Tgid:");
    reveal_strlit("PPid:");
    let shown = number::decimal(leader as int);
    let line = "Tgid:"@ + seq!['\t'] + shown;
    let above = "PPid:"@ + seq!['\t'] + number::decimal(parent as int) + seq!['\n'];
    let text = line + seq!['\n'] + above + rest;
    number::law_digits_spell_number(leader as nat);
    assert(!line.contains('\n')) by {
        if line.contains('\n') {
            let k = choose|k: int| 0 <= k < line.len() && line[k] == '\n';
            if k > 5 {
                assert(line[k] == shown[k - 6]);
                assert(shown[k - 6] == digits(leader as nat)[k - 6] as char);
            }
        }
    }
    law_status_line_tells_number("Tgid:"@, leader as nat, above + rest);
    assert(line + seq!['\n'] + (above + rest) =~= text);
    law_status_line_tells_number("PPid:"@, parent as nat, rest);
    assert("PPid:"@ + seq!['\t'] + number::decimal(parent as int) + seq!['\n'] + rest =~= above
        + rest);
    assert(line.take(5)[0] == 'T');
    assert("PPid:"@[0] == 'P');
    law_other_lines_are_passed_over(line, above + rest, "PPid:"@);
    reveal_with_fuel(status_field, 2);
}

/// A process sees its own working directory through `/proc/self/cwd`,
/// `/proc/thread-self/cwd` and the links that bear its own number or that of the
/// process that it belongs to, and through no other path below `/proc`.
pub proof fn law_own_links_are_recognized(who: Seq<u8>, last: Seq<u8>, pid: u32, key: u32)
    requires
        path::is_name(who),
        path::is_name(last),
    ensures
        own_proc_cwd(
            path::render(seq![seq![112u8, 114, 111, 99], who, last]),
            pid,
            key,
        ) <==> last == seq![99u8, 119, 100] && (who == seq![115u8, 101, 108, 102] || who == seq![
            116u8,
            104,
            114,
            101,
            97,
            100,
            45,
            115,
            101,
            108,
            102,
        ] || who == digits(pid as nat) || who == digits(key as nat)),
{
    let names = seq![seq![112u8, 114, 111, 99], who, last];
    let proc_word = seq![112u8, 114, 111, 99];
    assert(path::is_name(proc_word)) by {
        assert(proc_word.len() == 4);
        if proc_word == path::current_dir() {
            assert(path::current_dir().len() == 4);
        }
    }
    assert forall|i: int| 0 <= i < names.len() implies path::is_name(#[trigger] names[i]) by {}
    path::law_components_of_render(names);
    let parts = parts_of(path::render(names));
    assert(parts =~= seq![seq![SEPARATOR], proc_word, who, last]);
    assert forall|other: Seq<u8>|
        #[trigger] proc_cwd_of(path::render(names), other) <==> who == other && last
            == cwd_name() by {
        let wanted = seq![seq![SEPARATOR], proc_name(), other, cwd_name()];
        if parts == wanted {
            assert(parts[2] == wanted[2] && parts[3] == wanted[3]);
        }
    }
}

/// White space is the tabulator and its like, the space, and the spaces and separators
/// of Unicode; letters, digits and signs are none.
pub proof fn law_white_space(letter: char)
    ensures
        white(letter) <==> letter == '\t' || letter == '\n' || letter == '\u{b}' || letter
            == '\u{c}' || letter == '\r' || letter == ' ' || letter == '\u{85}' || letter
            == '\u{a0}' || letter == '\u{1680}' || '\u{2000}' <= letter <= '\u{200a}' || letter
            == '\u{2028}' || letter == '\u{2029}' || letter == '\u{202f}' || letter == '\u{205f}'
            || letter == '\u{3000}',
{
}

/// White space around a text is taken off at both ends, however much there is, and
/// nothing within it.
pub proof fn law_text_is_trimmed_at_both_ends(before: Seq<char>, text: Seq<char>, after: Seq<char>)
    requires
        forall|i: int| 0 <= i < before.len() ==> white(#[trigger] before[i]),
        forall|i: int| 0 <= i < after.len() ==> white(#[trigger] after[i]),
        text.len() > 0,
        !white(text[0]),
        !white(text.last()),
    ensures
        trimmed(before + text + after) == text,
    decreases before.len() + after.len(),
{
    let whole = before + text + after;
    if before.len() > 0 {
        assert(whole[0] == before[0]);
        let less = before.skip(1);
        assert forall|i: int| 0 <= i < less.len() implies white(#[trigger] less[i]) by {
            assert(less[i] == before[i + 1]);
        }
        law_text_is_trimmed_at_both_ends(less, text, after);
        assert(whole.skip(1) =~= less + text + after);
    } else if after.len() > 0 {
        assert(whole[0] == text[0]);
        assert(whole.last() == after.last());
        assert(after.last() == after[after.len() - 1]);
        let less = after.drop_last();
        assert forall|i: int| 0 <= i < less.len() implies white(#[trigger] less[i]) by {
            assert(less[i] == after[i]);
        }
        law_text_is_trimmed_at_both_ends(before, text, less);
        assert(whole.drop_last() =~= before + text + less);
    } else {
        assert(whole =~= text);
    }
}

} // verus!
