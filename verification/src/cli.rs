//! Command line grammar: what an argument list asks for.

use crate::bytes;
use crate::mapping::Request;
use crate::path;
use crate::path::absolute;
use crate::text;
use crate::text::shown;
use vstd::prelude::*;
use vstd::utf8::{
    encode_utf8, encode_utf8_valid_utf8, is_ascii_chars, is_ascii_chars_encode_utf8, valid_utf8,
};

verus! {

/// The text that `--help` prints.
pub const HELP: &'static str = "\
Run a command with best-effort bind path mappings.

Usage:
  pathshim -b <SOURCE:DEST> [-b <SOURCE:DEST> ...] [-w <PATH>] [--] <COMMAND> [ARGS...]
  pathshim --bind=<SOURCE:DEST> [--cwd=<PATH>] [--quiet] [--] <COMMAND> [ARGS...]

Options:
  -b, --bind <SOURCE:DEST>
                       Present SOURCE at guest DEST; may be repeated
  -w, --cwd, --pwd <PATH>
                       Initial working directory in the guest filesystem [default: /]
      --quiet          Suppress pathshim capability diagnostics
  -h, --help           Print help
  -V, --version        Print version
";

/// `:`, which parts the source of a mapping from its destination.
pub const COLON: u8 = 58;

/// `-`, with which an option begins.
pub const DASH: u8 = 45;

/// A mapping as it was asked for on the command line.
#[derive(Debug, PartialEq, Eq)]
pub struct BindArg {
    pub source: Vec<u8>,
    pub destination: Vec<u8>,
}

/// A request to run a command.
#[derive(Debug, PartialEq, Eq)]
pub struct RunArgs {
    pub binds: Vec<BindArg>,
    pub cwd: Vec<u8>,
    pub quiet: bool,
    pub command: Vec<u8>,
    pub args: Vec<Vec<u8>>,
}

/// A request to test whether mappings can be installed.
#[derive(Debug, PartialEq, Eq)]
pub struct ProbeArgs {
    pub binds: Vec<BindArg>,
}

/// What an argument list asks for.
#[derive(Debug, PartialEq, Eq)]
pub enum ParseResult {
    Run(RunArgs),
    Probe(ProbeArgs),
    Help,
    Version,
}

/// A request to run a command as a value.
pub ghost struct Run {
    pub binds: Seq<Request>,
    pub cwd: Seq<u8>,
    pub quiet: bool,
    pub command: Seq<u8>,
    pub args: Seq<Seq<u8>>,
}

/// What an argument list asks for as a value.
pub ghost enum Asked {
    Run(Run),
    Probe(Seq<Request>),
    Help,
    Version,
}

impl View for BindArg {
    type V = Request;

    open spec fn view(&self) -> Request {
        Request { source: self.source@, destination: self.destination@ }
    }
}

/// The mappings of a list of bind arguments.
pub open spec fn asked_binds(list: Seq<BindArg>) -> Seq<Request> {
    Seq::new(list.len(), |i: int| list[i]@)
}

impl View for RunArgs {
    type V = Run;

    open spec fn view(&self) -> Run {
        Run {
            binds: asked_binds(self.binds@),
            cwd: self.cwd@,
            quiet: self.quiet,
            command: self.command@,
            args: bytes::rows(self.args@),
        }
    }
}

impl View for ParseResult {
    type V = Asked;

    open spec fn view(&self) -> Asked {
        match self {
            ParseResult::Run(args) => Asked::Run(args@),
            ParseResult::Probe(args) => Asked::Probe(asked_binds(args.binds@)),
            ParseResult::Help => Asked::Help,
            ParseResult::Version => Asked::Version,
        }
    }
}

/// An answer of the parser as a value.
pub open spec fn answered(answer: Result<ParseResult, String>) -> Result<Asked, Seq<char>> {
    match answer {
        Ok(result) => Ok(result@),
        Err(message) => Err(message@),
    }
}

/// The bytes of a word.
pub open spec fn word(letters: Seq<char>) -> Seq<u8> {
    encode_utf8(letters)
}

/// `-h` or `--help`.
pub open spec fn asks_help(arg: Seq<u8>) -> bool {
    arg == word("-h"@) || arg == word("--help"@)
}

/// `-V` or `--version`.
pub open spec fn asks_version(arg: Seq<u8>) -> bool {
    arg == word("-V"@) || arg == word("--version"@)
}

/// `-b` or `--bind`.
pub open spec fn asks_bind(arg: Seq<u8>) -> bool {
    arg == word("-b"@) || arg == word("--bind"@)
}

/// `-w`, `--cwd` or `--pwd`.
pub open spec fn asks_cwd(arg: Seq<u8>) -> bool {
    arg == word("-w"@) || arg == word("--cwd"@) || arg == word("--pwd"@)
}

/// What follows `letters=` in an argument that is UTF-8.
pub open spec fn attached(arg: Seq<u8>, letters: Seq<char>) -> Option<Seq<u8>> {
    if valid_utf8(arg) && bytes::has_prefix(arg, word(letters)) {
        Some(arg.skip(word(letters).len() as int))
    } else {
        None
    }
}

/// The index of the first colon, or the length.
pub open spec fn first_colon(value: Seq<u8>) -> int
    decreases value.len(),
{
    if value.len() == 0 || value[0] == COLON {
        0
    } else {
        1 + first_colon(value.skip(1))
    }
}

/// A refusal of the mapping `value`.
pub open spec fn invalid_bind(value: Seq<u8>, reason: Seq<char>) -> Seq<char> {
    "invalid bind `"@ + shown(value) + reason
}

/// The mapping that `SOURCE:DEST` asks for: the parts before and after its
/// first colon.
pub open spec fn asked_bind(value: Seq<u8>) -> Result<Request, Seq<char>> {
    let cut = first_colon(value);
    if !valid_utf8(value) {
        Err("`--bind` requires UTF-8 SOURCE:DEST paths"@)
    } else if cut >= value.len() {
        Err(invalid_bind(value, "`: expected SOURCE:DEST"@))
    } else if cut == 0 || cut + 1 == value.len() {
        Err(invalid_bind(value, "`: SOURCE and DEST must not be empty"@))
    } else if !absolute(value.skip(cut + 1)) {
        Err(invalid_bind(value, "`: DEST must be an absolute guest path"@))
    } else {
        Ok(Request { source: value.take(cut), destination: value.skip(cut + 1) })
    }
}

/// The refusal of an option that lacks its value.
pub open spec fn lacking(arg: Seq<u8>, what: Seq<char>) -> Seq<char> {
    "`"@ + shown(arg) + what
}

/// The request that options and a command line make together.
pub open spec fn requested(
    binds: Seq<Request>,
    cwd: Seq<u8>,
    quiet: bool,
    command: Seq<Seq<u8>>,
) -> Result<Asked, Seq<char>> {
    if binds.len() == 0 {
        Err("missing filesystem view: provide `--bind SOURCE:DEST`"@)
    } else if command.len() == 0 {
        Err("missing command"@)
    } else {
        Ok(Asked::Run(Run { binds, cwd, quiet, command: command[0], args: command.skip(1) }))
    }
}

/// What `args` asks for after options that gave `binds`, `cwd` and `quiet`.
pub open spec fn read_options(
    args: Seq<Seq<u8>>,
    binds: Seq<Request>,
    cwd: Seq<u8>,
    quiet: bool,
) -> Result<Asked, Seq<char>>
    decreases args.len(),
{
    if args.len() == 0 {
        requested(binds, cwd, quiet, args)
    } else {
        let arg = args[0];
        let rest = args.skip(1);
        if arg == word("--"@) {
            requested(binds, cwd, quiet, rest)
        } else if asks_help(arg) {
            Ok(Asked::Help)
        } else if asks_version(arg) {
            Ok(Asked::Version)
        } else if arg == word("--quiet"@) {
            read_options(rest, binds, cwd, true)
        } else if asks_bind(arg) {
            if rest.len() == 0 {
                Err(lacking(arg, "` requires SOURCE:DEST"@))
            } else {
                match asked_bind(rest[0]) {
                    Ok(bind) => read_options(rest.skip(1), binds.push(bind), cwd, quiet),
                    Err(message) => Err(message),
                }
            }
        } else if asks_cwd(arg) {
            if rest.len() == 0 {
                Err(lacking(arg, "` requires a path"@))
            } else {
                read_options(rest.skip(1), binds, rest[0], quiet)
            }
        } else {
            match (attached(arg, "--bind="@), attached(arg, "--cwd="@), attached(arg, "--pwd="@)) {
                (Some(value), _, _) => match asked_bind(value) {
                    Ok(bind) => read_options(rest, binds.push(bind), cwd, quiet),
                    Err(message) => Err(message),
                },
                (None, Some(value), _) | (None, None, Some(value)) => if value.len() == 0 {
                    Err("`--cwd` requires a path"@)
                } else {
                    read_options(rest, binds, value, quiet)
                },
                _ => if arg.len() > 0 && arg[0] == DASH {
                    Err("unknown option `"@ + shown(arg) + "`"@)
                } else {
                    requested(binds, cwd, quiet, args)
                },
            }
        }
    }
}

/// What the arguments of `probe` ask for after options that gave `binds`.
pub open spec fn read_probe(args: Seq<Seq<u8>>, binds: Seq<Request>) -> Result<Asked, Seq<char>>
    decreases args.len(),
{
    if args.len() == 0 {
        if binds.len() == 0 {
            Err("probe requires at least one `--bind SOURCE:DEST`"@)
        } else {
            Ok(Asked::Probe(binds))
        }
    } else {
        let arg = args[0];
        let rest = args.skip(1);
        if asks_help(arg) {
            Ok(Asked::Help)
        } else if asks_bind(arg) {
            if rest.len() == 0 {
                Err(lacking(arg, "` requires SOURCE:DEST"@))
            } else {
                match asked_bind(rest[0]) {
                    Ok(bind) => read_probe(rest.skip(1), binds.push(bind)),
                    Err(message) => Err(message),
                }
            }
        } else {
            match attached(arg, "--bind="@) {
                Some(value) => match asked_bind(value) {
                    Ok(bind) => read_probe(rest, binds.push(bind)),
                    Err(message) => Err(message),
                },
                None => Err("unknown probe argument `"@ + shown(arg) + "`"@),
            }
        }
    }
}

/// What an argument list asks for.
pub open spec fn parsed(args: Seq<Seq<u8>>) -> Result<Asked, Seq<char>> {
    if args.len() > 0 && args[0] == word("probe"@) {
        read_probe(args.skip(1), seq![])
    } else {
        read_options(args, seq![], seq![path::SEPARATOR], false)
    }
}

/// Whether an argument is a word.
fn is_word(arg: &[u8], letters: &str) -> (same: bool)
    ensures
        same == (arg@ == word(letters@)),
{
    bytes::equal(arg, letters.as_bytes())
}

/// What follows `letters` in an argument that is UTF-8.
fn strip_word(arg: &[u8], letters: &str) -> (value: Option<Vec<u8>>)
    ensures
        match value {
            Some(value) => attached(arg@, letters@) == Some(value@),
            None => attached(arg@, letters@) is None,
        },
{
    let prefix = letters.as_bytes();
    if text::is_utf8(arg) && bytes::starts_with(arg, prefix) {
        let value = bytes::range(arg, prefix.len(), arg.len());
        assert(value@ =~= arg@.skip(prefix@.len() as int));
        Some(value)
    } else {
        None
    }
}

proof fn lemma_first_colon(value: Seq<u8>, cut: int)
    requires
        0 <= cut <= value.len(),
        forall|i: int| 0 <= i < cut ==> value[i] != COLON,
        cut < value.len() ==> value[cut] == COLON,
    ensures
        first_colon(value) == cut,
    decreases value.len(),
{
    if cut > 0 {
        let rest = value.skip(1);
        assert forall|i: int| 0 <= i < cut - 1 implies rest[i] != COLON by {
            assert(rest[i] == value[i + 1]);
        }
        assert(value[0] != COLON);
        lemma_first_colon(rest, cut - 1);
    }
}

/// The index of the first colon, or the length.
fn find_colon(value: &[u8]) -> (cut: usize)
    ensures
        cut == first_colon(value@),
        cut <= value.len(),
{
    let mut cut: usize = 0;
    while cut < value.len() && value[cut] != COLON
        invariant
            cut <= value.len(),
            forall|i: int| 0 <= i < cut ==> value@[i] != COLON,
        decreases value.len() - cut,
    {
        cut += 1;
    }
    proof {
        lemma_first_colon(value@, cut as int);
    }
    cut
}

/// Reads a `SOURCE:DEST` value.
pub fn parse_bind(value: &[u8]) -> (answer: Result<BindArg, String>)
    ensures
        match answer {
            Ok(bind) => asked_bind(value@) == Ok::<Request, Seq<char>>(bind@),
            Err(message) => asked_bind(value@) == Err::<Request, Seq<char>>(message@),
        },
{
    if !text::is_utf8(value) {
        return Err("`--bind` requires UTF-8 SOURCE:DEST paths".to_owned());
    }
    let cut = find_colon(value);
    let words = text::show(value);
    if cut >= value.len() {
        return Err(text::concat3("invalid bind `", words.as_str(), "`: expected SOURCE:DEST"));
    }
    if cut == 0 || cut + 1 == value.len() {
        return Err(
            text::concat3(
                "invalid bind `",
                words.as_str(),
                "`: SOURCE and DEST must not be empty",
            ),
        );
    }
    let destination = bytes::range(value, cut + 1, value.len());
    assert(destination@ =~= value@.skip(cut + 1));
    if !path::is_absolute(destination.as_slice()) {
        return Err(
            text::concat3(
                "invalid bind `",
                words.as_str(),
                "`: DEST must be an absolute guest path",
            ),
        );
    }
    let source = bytes::range(value, 0, cut);
    assert(source@ =~= value@.take(cut as int));
    Ok(BindArg { source, destination })
}

/// Adds a mapping to a list.
fn push_bind(binds: &mut Vec<BindArg>, bind: BindArg)
    ensures
        asked_binds(final(binds)@) == asked_binds(old(binds)@).push(bind@),
{
    binds.push(bind);
    assert(asked_binds(binds@) =~= asked_binds(old(binds)@).push(bind@));
}

/// Copies the arguments from `from` on.
fn tail(args: &Vec<Vec<u8>>, from: usize) -> (rest: Vec<Vec<u8>>)
    requires
        from <= args.len(),
    ensures
        bytes::rows(rest@) == bytes::rows(args@).skip(from as int),
{
    let mut rest: Vec<Vec<u8>> = Vec::new();
    let mut i: usize = from;
    while i < args.len()
        invariant
            from <= i <= args.len(),
            rest@.len() == i - from,
            forall|j: int| 0 <= j < rest@.len() ==> (#[trigger] rest@[j])@ == args@[from + j]@,
        decreases args.len() - i,
    {
        rest.push(bytes::copy(args[i].as_slice()));
        i += 1;
    }
    assert(bytes::rows(rest@) =~= bytes::rows(args@).skip(from as int));
    rest
}

/// Puts options and the command line from `from` on together.
fn request(
    args: &Vec<Vec<u8>>,
    from: usize,
    binds: Vec<BindArg>,
    cwd: Vec<u8>,
    quiet: bool,
) -> (answer: Result<ParseResult, String>)
    requires
        from <= args.len(),
    ensures
        answered(answer) == requested(
            asked_binds(binds@),
            cwd@,
            quiet,
            bytes::rows(args@).skip(from as int),
        ),
{
    let ghost line = bytes::rows(args@).skip(from as int);
    if binds.len() == 0 {
        return Err("missing filesystem view: provide `--bind SOURCE:DEST`".to_owned());
    }
    if from == args.len() {
        return Err("missing command".to_owned());
    }
    let command = bytes::copy(args[from].as_slice());
    let rest = tail(args, from + 1);
    assert(bytes::rows(rest@) =~= line.skip(1));
    assert(command@ == line[0]);
    Ok(ParseResult::Run(RunArgs { binds, cwd, quiet, command, args: rest }))
}

/// Reads the arguments of `probe`.
fn parse_probe(args: &Vec<Vec<u8>>) -> (answer: Result<ParseResult, String>)
    requires
        args.len() > 0,
    ensures
        answered(answer) == read_probe(bytes::rows(args@).skip(1), seq![]),
{
    let ghost all = bytes::rows(args@);
    let mut binds: Vec<BindArg> = Vec::new();
    let mut i: usize = 1;
    assert(asked_binds(binds@) =~= seq![]);
    while i < args.len()
        invariant
            1 <= i <= args.len(),
            all == bytes::rows(args@),
            read_probe(all.skip(1), seq![]) == read_probe(all.skip(i as int), asked_binds(binds@)),
        decreases args.len() - i,
    {
        let arg = args[i].as_slice();
        let ghost rest = all.skip(i as int);
        assert(rest[0] == arg@);
        assert(rest.skip(1) =~= all.skip(i + 1));
        if is_word(arg, "-h") || is_word(arg, "--help") {
            return Ok(ParseResult::Help);
        }
        if is_word(arg, "-b") || is_word(arg, "--bind") {
            if i + 1 == args.len() {
                let words = text::show(arg);
                return Err(text::concat3("`", words.as_str(), "` requires SOURCE:DEST"));
            }
            assert(rest.skip(1)[0] == args@[i + 1]@);
            assert(rest.skip(1).skip(1) =~= all.skip(i + 2));
            match parse_bind(args[i + 1].as_slice()) {
                Ok(bind) => push_bind(&mut binds, bind),
                Err(message) => return Err(message),
            }
            i += 2;
        } else {
            match strip_word(arg, "--bind=") {
                Some(value) => match parse_bind(value.as_slice()) {
                    Ok(bind) => push_bind(&mut binds, bind),
                    Err(message) => return Err(message),
                },
                None => {
                    let words = text::show(arg);
                    return Err(text::concat3("unknown probe argument `", words.as_str(), "`"));
                },
            }
            i += 1;
        }
    }
    assert(all.skip(i as int) =~= seq![]);
    if binds.len() == 0 {
        return Err("probe requires at least one `--bind SOURCE:DEST`".to_owned());
    }
    Ok(ParseResult::Probe(ProbeArgs { binds }))
}

/// Reads an argument list, without the name of the program.
pub fn parse(args: &Vec<Vec<u8>>) -> (answer: Result<ParseResult, String>)
    ensures
        answered(answer) == parsed(bytes::rows(args@)),
{
    let ghost all = bytes::rows(args@);
    if args.len() > 0 && is_word(args[0].as_slice(), "probe") {
        assert(all[0] == args@[0]@);
        return parse_probe(args);
    }
    assert(args@.len() > 0 ==> all[0] == args@[0]@);
    let mut binds: Vec<BindArg> = Vec::new();
    let mut cwd: Vec<u8> = Vec::new();
    cwd.push(path::SEPARATOR);
    let mut quiet = false;
    let mut i: usize = 0;
    assert(asked_binds(binds@) =~= seq![]);
    assert(cwd@ =~= seq![path::SEPARATOR]);
    assert(all.skip(0) =~= all);
    while i < args.len()
        invariant
            i <= args.len(),
            all == bytes::rows(args@),
            parsed(all) == read_options(all.skip(i as int), asked_binds(binds@), cwd@, quiet),
        decreases args.len() - i,
    {
        let arg = args[i].as_slice();
        let ghost rest = all.skip(i as int);
        assert(rest[0] == arg@);
        assert(rest.skip(1) =~= all.skip(i + 1));
        if is_word(arg, "--") {
            return request(args, i + 1, binds, cwd, quiet);
        }
        if is_word(arg, "-h") || is_word(arg, "--help") {
            return Ok(ParseResult::Help);
        }
        if is_word(arg, "-V") || is_word(arg, "--version") {
            return Ok(ParseResult::Version);
        }
        if is_word(arg, "--quiet") {
            quiet = true;
            i += 1;
            continue;
        }
        if is_word(arg, "-b") || is_word(arg, "--bind") {
            if i + 1 == args.len() {
                let words = text::show(arg);
                return Err(text::concat3("`", words.as_str(), "` requires SOURCE:DEST"));
            }
            assert(rest.skip(1)[0] == args@[i + 1]@);
            assert(rest.skip(1).skip(1) =~= all.skip(i + 2));
            match parse_bind(args[i + 1].as_slice()) {
                Ok(bind) => push_bind(&mut binds, bind),
                Err(message) => return Err(message),
            }
            i += 2;
            continue;
        }
        if is_word(arg, "-w") || is_word(arg, "--cwd") || is_word(arg, "--pwd") {
            if i + 1 == args.len() {
                let words = text::show(arg);
                return Err(text::concat3("`", words.as_str(), "` requires a path"));
            }
            assert(rest.skip(1)[0] == args@[i + 1]@);
            assert(rest.skip(1).skip(1) =~= all.skip(i + 2));
            cwd = bytes::copy(args[i + 1].as_slice());
            i += 2;
            continue;
        }
        if let Some(value) = strip_word(arg, "--bind=") {
            match parse_bind(value.as_slice()) {
                Ok(bind) => push_bind(&mut binds, bind),
                Err(message) => return Err(message),
            }
            i += 1;
            continue;
        }
        let value = match strip_word(arg, "--cwd=") {
            Some(value) => Some(value),
            None => strip_word(arg, "--pwd="),
        };
        if let Some(value) = value {
            if value.len() == 0 {
                return Err("`--cwd` requires a path".to_owned());
            }
            cwd = value;
            i += 1;
            continue;
        }
        if arg.len() > 0 && arg[0] == DASH {
            let words = text::show(arg);
            return Err(text::concat3("unknown option `", words.as_str(), "`"));
        }
        return request(args, i, binds, cwd, quiet);
    }
    assert(all.skip(i as int) =~= seq![]);
    request(args, i, binds, cwd, quiet)
}

/// Mappings that the grammar lets through: both parts are there, the source
/// holds no colon and the destination is absolute.
pub open spec fn well_asked(binds: Seq<Request>) -> bool {
    forall|i: int|
        #![trigger binds[i]]
        0 <= i < binds.len() ==> binds[i].source.len() > 0 && !binds[i].source.contains(COLON)
            && absolute(binds[i].destination)
}

proof fn lemma_before_colon(value: Seq<u8>)
    ensures
        0 <= first_colon(value) <= value.len(),
        forall|i: int| 0 <= i < first_colon(value) ==> value[i] != COLON,
        first_colon(value) < value.len() ==> value[first_colon(value)] == COLON,
    decreases value.len(),
{
    if value.len() > 0 && value[0] != COLON {
        let rest = value.skip(1);
        lemma_before_colon(rest);
        let cut = first_colon(value);
        assert forall|i: int| 0 <= i < cut implies value[i] != COLON by {
            if i > 0 {
                assert(rest[i - 1] == value[i]);
            }
        }
    }
}

/// A mapping is read back from its spelling: `SOURCE:DEST` asks for exactly
/// that source and that destination, for every source that is not empty and
/// holds no colon and every absolute destination.
pub proof fn law_bind_is_read_back(source: Seq<u8>, destination: Seq<u8>)
    requires
        source.len() > 0,
        !source.contains(COLON),
        absolute(destination),
        valid_utf8(source.push(COLON) + destination),
    ensures
        asked_bind(source.push(COLON) + destination) == Ok::<Request, Seq<char>>(
            Request { source, destination },
        ),
{
    let value = source.push(COLON) + destination;
    assert forall|i: int| 0 <= i < source.len() implies value[i] != COLON by {
        assert(value[i] == source[i]);
    }
    lemma_first_colon(value, source.len() as int);
    assert(value.take(source.len() as int) =~= source);
    assert(value.skip(source.len() as int + 1) =~= destination);
}

/// What is read from one more mapping keeps the list well asked.
proof fn lemma_asked_bind(binds: Seq<Request>, value: Seq<u8>)
    requires
        well_asked(binds),
        asked_bind(value) is Ok,
    ensures
        well_asked(binds.push(asked_bind(value)->Ok_0)),
{
    let bind = asked_bind(value)->Ok_0;
    lemma_before_colon(value);
    let cut = first_colon(value);
    assert(!bind.source.contains(COLON)) by {
        if bind.source.contains(COLON) {
            let k = choose|k: int| 0 <= k < bind.source.len() && bind.source[k] == COLON;
            assert(value[k] == COLON);
        }
    }
    let more = binds.push(bind);
    assert forall|i: int| #![trigger more[i]] 0 <= i < more.len() implies more[i].source.len() > 0
        && !more[i].source.contains(COLON) && absolute(more[i].destination) by {
        if i < binds.len() {
            assert(more[i] == binds[i]);
        }
    }
}

/// The arguments end in `line`.
pub open spec fn ends_in(args: Seq<Seq<u8>>, line: Seq<Seq<u8>>) -> bool {
    line.len() <= args.len() && args.skip(args.len() - line.len()) == line
}

proof fn lemma_run(args: Seq<Seq<u8>>, binds: Seq<Request>, cwd: Seq<u8>, quiet: bool)
    requires
        well_asked(binds),
    ensures
        read_options(args, binds, cwd, quiet) matches Ok(Asked::Run(run)) ==> {
            &&& run.binds.len() > 0
            &&& well_asked(run.binds)
            &&& ends_in(args, seq![run.command] + run.args)
            &&& quiet ==> run.quiet
        },
        !(read_options(args, binds, cwd, quiet) matches Ok(Asked::Probe(_))),
    decreases args.len(),
{
    if args.len() == 0 {
    } else {
        let arg = args[0];
        let rest = args.skip(1);
        assert(rest.len() > 0 ==> seq![rest[0]] + rest.skip(1) =~= rest);
        assert(seq![args[0]] + args.skip(1) =~= args);
        assert(args.skip(0) =~= args);
        if rest.len() > 0 {
            assert(args.skip(args.len() - rest.len()) =~= rest);
            let after = rest.skip(1);
            assert(after =~= args.skip(2));
            if asked_bind(rest[0]) is Ok {
                lemma_asked_bind(binds, rest[0]);
                let bind = asked_bind(rest[0])->Ok_0;
                lemma_run(after, binds.push(bind), cwd, quiet);
            }
            lemma_run(after, binds, rest[0], quiet);
            lemma_ends_in(args, after, 2);
        }
        lemma_run(rest, binds, cwd, true);
        lemma_ends_in(args, rest, 1);
        if let Some(value) = attached(arg, "--bind="@) {
            if asked_bind(value) is Ok {
                lemma_asked_bind(binds, value);
                lemma_run(rest, binds.push(asked_bind(value)->Ok_0), cwd, quiet);
            }
        }
        if let Some(value) = attached(arg, "--cwd="@) {
            lemma_run(rest, binds, value, quiet);
        }
        if let Some(value) = attached(arg, "--pwd="@) {
            lemma_run(rest, binds, value, quiet);
        }
    }
}

proof fn lemma_ends_in(args: Seq<Seq<u8>>, rest: Seq<Seq<u8>>, from: int)
    requires
        0 <= from <= args.len(),
        rest == args.skip(from),
    ensures
        forall|line: Seq<Seq<u8>>| ends_in(rest, line) ==> #[trigger] ends_in(args, line),
{
    assert forall|line: Seq<Seq<u8>>| ends_in(rest, line) implies #[trigger] ends_in(
        args,
        line,
    ) by {
        assert(args.skip(args.len() - line.len()) =~= rest.skip(rest.len() - line.len()));
    }
}

/// How many arguments the option at the front takes, itself included; 0 where
/// no whole option stands there.
pub open spec fn option_length(args: Seq<Seq<u8>>) -> nat {
    if args.len() == 0 {
        0
    } else {
        let arg = args[0];
        if arg == word("--"@) || asks_help(arg) || asks_version(arg) {
            0
        } else if arg == word("--quiet"@) {
            1
        } else if asks_bind(arg) {
            if args.len() > 1 && asked_bind(args[1]) is Ok {
                2
            } else {
                0
            }
        } else if asks_cwd(arg) {
            if args.len() > 1 {
                2
            } else {
                0
            }
        } else if attached(arg, "--bind="@) is Some {
            if asked_bind(attached(arg, "--bind="@)->0) is Ok {
                1
            } else {
                0
            }
        } else if attached_cwd(arg) is Some && attached_cwd(arg)->0.len() > 0 {
            1
        } else {
            0
        }
    }
}

/// What follows `--cwd=` or `--pwd=` in an argument.
pub open spec fn attached_cwd(arg: Seq<u8>) -> Option<Seq<u8>> {
    if attached(arg, "--cwd="@) is Some {
        attached(arg, "--cwd="@)
    } else {
        attached(arg, "--pwd="@)
    }
}

/// How many arguments the options at the front take.
pub open spec fn options_length(args: Seq<Seq<u8>>) -> nat
    decreases args.len(),
{
    let length = option_length(args);
    if length == 0 || length > args.len() {
        0
    } else {
        length + options_length(args.skip(length as int))
    }
}

/// The options at the front ask for quiet.
pub open spec fn quiet_given(args: Seq<Seq<u8>>) -> bool
    decreases args.len(),
{
    let length = option_length(args);
    if length == 0 || length > args.len() {
        false
    } else {
        args[0] == word("--quiet"@) || quiet_given(args.skip(length as int))
    }
}

/// The mapping that the option at the front asks for, if it asks for one.
pub open spec fn bind_given(args: Seq<Seq<u8>>) -> Seq<Request> {
    if args[0] == word("--quiet"@) {
        seq![]
    } else if asks_bind(args[0]) {
        seq![asked_bind(args[1])->Ok_0]
    } else if asks_cwd(args[0]) {
        seq![]
    } else if attached(args[0], "--bind="@) is Some {
        seq![asked_bind(attached(args[0], "--bind="@)->0)->Ok_0]
    } else {
        seq![]
    }
}

/// The mappings that the options at the front ask for, in their order.
pub open spec fn binds_given(args: Seq<Seq<u8>>) -> Seq<Request>
    decreases args.len(),
{
    let length = option_length(args);
    if length == 0 || length > args.len() {
        seq![]
    } else {
        bind_given(args) + binds_given(args.skip(length as int))
    }
}

/// The working directory after the options at the front: the last one that they
/// ask for, or `cwd`.
pub open spec fn cwd_given(args: Seq<Seq<u8>>, cwd: Seq<u8>) -> Seq<u8>
    decreases args.len(),
{
    let length = option_length(args);
    if length == 0 || length > args.len() {
        cwd
    } else {
        let rest = args.skip(length as int);
        if args[0] == word("--quiet"@) || asks_bind(args[0]) {
            cwd_given(rest, cwd)
        } else if asks_cwd(args[0]) {
            cwd_given(rest, args[1])
        } else if attached(args[0], "--bind="@) is Some {
            cwd_given(rest, cwd)
        } else {
            cwd_given(rest, attached_cwd(args[0])->0)
        }
    }
}

/// The arguments are whole options and nothing else.
pub open spec fn only_options(args: Seq<Seq<u8>>) -> bool {
    options_length(args) == args.len()
}

/// Reading goes on behind the options with what they gave.
proof fn lemma_options_are_read(
    args: Seq<Seq<u8>>,
    binds: Seq<Request>,
    cwd: Seq<u8>,
    quiet: bool,
)
    ensures
        options_length(args) <= args.len(),
        option_length(args.skip(options_length(args) as int)) == 0,
        read_options(args, binds, cwd, quiet) == read_options(
            args.skip(options_length(args) as int),
            binds + binds_given(args),
            cwd_given(args, cwd),
            quiet || quiet_given(args),
        ),
    decreases args.len(),
{
    let length = option_length(args);
    assert(args.skip(0) =~= args);
    if length == 0 {
        assert(binds + binds_given(args) =~= binds);
    } else {
        let rest = args.skip(length as int);
        let bind = bind_given(args);
        let more = binds + bind;
        let next_cwd = if args[0] == word("--quiet"@) || asks_bind(args[0]) {
            cwd
        } else if asks_cwd(args[0]) {
            args[1]
        } else if attached(args[0], "--bind="@) is Some {
            cwd
        } else {
            attached_cwd(args[0])->0
        };
        let next_quiet = quiet || args[0] == word("--quiet"@);
        if length == 2 {
            assert(args.skip(1).skip(1) =~= args.skip(2));
        }
        assert(binds + Seq::<Request>::empty() =~= binds);
        if bind.len() > 0 {
            assert(more =~= binds.push(bind[0]));
        }
        assert(read_options(args, binds, cwd, quiet) == read_options(
            rest,
            more,
            next_cwd,
            next_quiet,
        ));
        lemma_options_are_read(rest, more, next_cwd, next_quiet);
        assert(more + binds_given(rest) =~= binds + binds_given(args));
        assert(rest.skip(options_length(rest) as int) =~= args.skip(options_length(args) as int));
    }
}

/// What follows whole options does not change how they are read.
proof fn lemma_options_stay(options: Seq<Seq<u8>>, rest: Seq<Seq<u8>>)
    requires
        only_options(options),
    ensures
        options_length(options + rest) == options.len() + options_length(rest),
        binds_given(options + rest) == binds_given(options) + binds_given(rest),
        forall|cwd: Seq<u8>| #[trigger]
            cwd_given(options + rest, cwd) == cwd_given(rest, cwd_given(options, cwd)),
        quiet_given(options + rest) == (quiet_given(options) || quiet_given(rest)),
    decreases options.len(),
{
    let args = options + rest;
    if options.len() == 0 {
        assert(args =~= rest);
        assert(binds_given(options) + binds_given(rest) =~= binds_given(rest));
    } else {
        let length = option_length(options);
        let left = options.skip(length as int);
        assert(args[0] == options[0]);
        if length == 2 {
            assert(args[1] == options[1]);
        }
        assert(option_length(args) == length);
        assert(args.skip(length as int) =~= left + rest);
        lemma_options_stay(left, rest);
        assert(binds_given(args) =~= binds_given(options) + binds_given(rest));
        assert forall|cwd: Seq<u8>| #[trigger]
            cwd_given(args, cwd) == cwd_given(rest, cwd_given(options, cwd)) by {
            let both = left + rest;
            let asked = attached_cwd(options[0])->0;
            assert(cwd_given(both, cwd) == cwd_given(rest, cwd_given(left, cwd)));
            assert(cwd_given(both, options[1]) == cwd_given(rest, cwd_given(left, options[1])));
            assert(cwd_given(both, asked) == cwd_given(rest, cwd_given(left, asked)));
        }
    }
}

/// A run that is accepted has at least one mapping, each with a source without
/// a colon and an absolute destination. Mappings, working directory and quiet are
/// those of the options at the front: the mappings in their order, quiet exactly
/// if `--quiet` is among them. The command line is what follows them, with or
/// without `--` before it, word for word: nothing in it is read as an option.
pub proof fn law_accepted_run(args: Seq<Seq<u8>>)
    ensures
        parsed(args) matches Ok(Asked::Run(run)) ==> {
            let line = seq![run.command] + run.args;
            let rest = args.skip(options_length(args) as int);
            &&& run.binds.len() > 0
            &&& well_asked(run.binds)
            &&& ends_in(args, line)
            &&& run.binds == binds_given(args)
            &&& run.cwd == cwd_given(args, seq![path::SEPARATOR])
            &&& run.quiet == quiet_given(args)
            &&& rest == line || rest == seq![word("--"@)] + line
        },
{
    let root = seq![path::SEPARATOR];
    let none: Seq<Request> = seq![];
    lemma_run(args, none, root, false);
    if args.len() > 0 {
        lemma_probe(args.skip(1), seq![]);
    }
    lemma_options_are_read(args, none, root, false);
    assert(none + binds_given(args) =~= binds_given(args));
    let rest = args.skip(options_length(args) as int);
    if rest.len() > 0 {
        assert(rest =~= seq![rest[0]] + rest.skip(1));
        let line = rest.skip(1);
        if line.len() > 0 {
            assert(line =~= seq![line[0]] + line.skip(1));
        }
    }
}

/// Whatever follows `--` is the command line, unread.
pub proof fn law_separator_ends_options(
    line: Seq<Seq<u8>>,
    binds: Seq<Request>,
    cwd: Seq<u8>,
    quiet: bool,
)
    requires
        binds.len() > 0,
        line.len() > 0,
    ensures
        read_options(seq![word("--"@)] + line, binds, cwd, quiet) == Ok::<Asked, Seq<char>>(
            Asked::Run(Run { binds, cwd, quiet, command: line[0], args: line.skip(1) }),
        ),
{
    let args = seq![word("--"@)] + line;
    assert(args.skip(1) =~= line);
}

/// A word that begins with `-` is told from one that does not by its first byte.
proof fn lemma_dashed(letters: Seq<char>)
    requires
        letters.len() > 0,
        letters[0] == '-',
        is_ascii_chars(letters),
    ensures
        word(letters).len() > 0,
        word(letters)[0] == DASH,
{
    is_ascii_chars_encode_utf8(letters);
    assert(letters[0] as u8 == DASH);
}

/// A command line that does not begin with `-` is no option, and is read alike
/// with `--` before it and without.
proof fn lemma_separator_left_out(
    line: Seq<Seq<u8>>,
    binds: Seq<Request>,
    cwd: Seq<u8>,
    quiet: bool,
)
    requires
        line.len() > 0 && line[0].len() > 0 ==> line[0][0] != DASH,
    ensures
        option_length(line) == 0,
        read_options(seq![word("--"@)] + line, binds, cwd, quiet) == read_options(
            line,
            binds,
            cwd,
            quiet,
        ),
{
    let args = seq![word("--"@)] + line;
    assert(args.skip(1) =~= line);
    if line.len() > 0 {
        reveal_strlit("--");
        lemma_dashed("--"@);
        reveal_strlit("-h");
        lemma_dashed("-h"@);
        reveal_strlit("--help");
        lemma_dashed("--help"@);
        reveal_strlit("-V");
        lemma_dashed("-V"@);
        reveal_strlit("--version");
        lemma_dashed("--version"@);
        reveal_strlit("--quiet");
        lemma_dashed("--quiet"@);
        reveal_strlit("-b");
        lemma_dashed("-b"@);
        reveal_strlit("--bind");
        lemma_dashed("--bind"@);
        reveal_strlit("-w");
        lemma_dashed("-w"@);
        reveal_strlit("--cwd");
        lemma_dashed("--cwd"@);
        reveal_strlit("--pwd");
        lemma_dashed("--pwd"@);
        reveal_strlit("--bind=");
        lemma_attached_is_dashed(line[0], "--bind="@);
        reveal_strlit("--cwd=");
        lemma_attached_is_dashed(line[0], "--cwd="@);
        reveal_strlit("--pwd=");
        lemma_attached_is_dashed(line[0], "--pwd="@);
    }
}

proof fn lemma_attached_is_dashed(arg: Seq<u8>, letters: Seq<char>)
    requires
        letters.len() > 0,
        letters[0] == '-',
        is_ascii_chars(letters),
    ensures
        attached(arg, letters) is Some ==> arg.len() > 0 && arg[0] == DASH,
{
    lemma_dashed(letters);
    let prefix = word(letters);
    assert(attached(arg, letters) is Some ==> arg.take(prefix.len() as int)[0] == prefix[0]);
}

proof fn lemma_read_behind_options(options: Seq<Seq<u8>>, rest: Seq<Seq<u8>>)
    requires
        only_options(options),
        option_length(rest) == 0,
    ensures
        read_options(options + rest, seq![], seq![path::SEPARATOR], false) == read_options(
            rest,
            binds_given(options),
            cwd_given(options, seq![path::SEPARATOR]),
            quiet_given(options),
        ),
{
    let root = seq![path::SEPARATOR];
    let none: Seq<Request> = seq![];
    let args = options + rest;
    lemma_options_stay(options, rest);
    lemma_options_are_read(args, none, root, false);
    assert(args.skip(options.len() as int) =~= rest);
    assert(none + binds_given(args) =~= binds_given(options));
    assert(cwd_given(args, root) == cwd_given(options, root));
}

/// The separator before the command may be left out: behind any options, a command
/// line that does not begin with `-` is read alike with `--` before it and
/// without. Only where no option stands before it is the word `probe` read as
/// something else.
pub proof fn law_separator_may_be_left_out(options: Seq<Seq<u8>>, line: Seq<Seq<u8>>)
    requires
        only_options(options),
        line.len() > 0 && line[0].len() > 0 ==> line[0][0] != DASH,
        options.len() == 0 && line.len() > 0 ==> line[0] != word("probe"@),
    ensures
        parsed(options + (seq![word("--"@)] + line)) == parsed(options + line),
{
    let root = seq![path::SEPARATOR];
    let marked = seq![word("--"@)] + line;
    lemma_separator_left_out(
        line,
        binds_given(options),
        cwd_given(options, root),
        quiet_given(options),
    );
    assert(option_length(marked) == 0);
    lemma_read_behind_options(options, line);
    lemma_read_behind_options(options, marked);
    lemma_probe_is_no_option(options);
    reveal_strlit("--");
    lemma_dashed("--"@);
    lemma_probe_is_not_dashed();
    if options.len() == 0 {
        assert(options + line =~= line);
        assert(options + marked =~= marked);
    } else {
        assert((options + line)[0] == options[0]);
        assert((options + marked)[0] == options[0]);
    }
}

proof fn lemma_probe_is_not_dashed()
    ensures
        word("probe"@).len() > 0,
        word("probe"@)[0] != DASH,
{
    reveal_strlit("probe");
    is_ascii_chars_encode_utf8("probe"@);
    assert("probe"@[0] as u8 != DASH);
}

/// The word `probe` is no option.
proof fn lemma_probe_is_no_option(options: Seq<Seq<u8>>)
    requires
        only_options(options),
    ensures
        options.len() > 0 ==> options[0] != word("probe"@),
{
    if options.len() > 0 && options[0] == word("probe"@) {
        lemma_probe_is_not_dashed();
        lemma_separator_left_out(options, seq![], seq![], false);
    }
}

proof fn lemma_probe(args: Seq<Seq<u8>>, binds: Seq<Request>)
    requires
        well_asked(binds),
    ensures
        read_probe(args, binds) matches Ok(asked) ==> (asked is Probe && asked->Probe_0.len() > 0
            && well_asked(asked->Probe_0)) || asked is Help,
    decreases args.len(),
{
    if args.len() > 0 {
        let arg = args[0];
        let rest = args.skip(1);
        if rest.len() > 0 && asked_bind(rest[0]) is Ok {
            lemma_asked_bind(binds, rest[0]);
            lemma_probe(rest.skip(1), binds.push(asked_bind(rest[0])->Ok_0));
        }
        if let Some(value) = attached(arg, "--bind="@) {
            if asked_bind(value) is Ok {
                lemma_asked_bind(binds, value);
                lemma_probe(rest, binds.push(asked_bind(value)->Ok_0));
            }
        }
    }
}

/// A probe that is accepted has at least one mapping, each well asked.
pub proof fn law_accepted_probe(args: Seq<Seq<u8>>)
    ensures
        parsed(args) matches Ok(Asked::Probe(binds)) ==> binds.len() > 0 && well_asked(binds),
{
    lemma_run(args, seq![], seq![path::SEPARATOR], false);
    if args.len() > 0 {
        lemma_probe(args.skip(1), seq![]);
    }
}

/// The lengths and the first bytes of the words that are read, which tell them
/// apart.
proof fn lemma_words()
    ensures
        word("--"@).len() == 2,
        word("--"@)[0] == 45,
        word("--"@)[1] == 45,
        word("-h"@).len() == 2,
        word("-h"@)[0] == 45,
        word("-h"@)[1] == 104,
        word("--help"@).len() == 6,
        word("--help"@)[0] == 45,
        word("--help"@)[1] == 45,
        word("--help"@)[2] == 104,
        word("-V"@).len() == 2,
        word("-V"@)[0] == 45,
        word("-V"@)[1] == 86,
        word("--version"@).len() == 9,
        word("--version"@)[0] == 45,
        word("--version"@)[1] == 45,
        word("--version"@)[2] == 118,
        word("--quiet"@).len() == 7,
        word("--quiet"@)[0] == 45,
        word("--quiet"@)[1] == 45,
        word("--quiet"@)[2] == 113,
        word("-b"@).len() == 2,
        word("-b"@)[0] == 45,
        word("-b"@)[1] == 98,
        word("--bind"@).len() == 6,
        word("--bind"@)[0] == 45,
        word("--bind"@)[1] == 45,
        word("--bind"@)[2] == 98,
        word("-w"@).len() == 2,
        word("-w"@)[0] == 45,
        word("-w"@)[1] == 119,
        word("--cwd"@).len() == 5,
        word("--cwd"@)[0] == 45,
        word("--cwd"@)[1] == 45,
        word("--cwd"@)[2] == 99,
        word("--pwd"@).len() == 5,
        word("--pwd"@)[0] == 45,
        word("--pwd"@)[1] == 45,
        word("--pwd"@)[2] == 112,
        word("--bind="@).len() == 7,
        word("--bind="@)[0] == 45,
        word("--bind="@)[1] == 45,
        word("--bind="@)[2] == 98,
        word("--cwd="@).len() == 6,
        word("--cwd="@)[0] == 45,
        word("--cwd="@)[1] == 45,
        word("--cwd="@)[2] == 99,
        word("--pwd="@).len() == 6,
        word("--pwd="@)[0] == 45,
        word("--pwd="@)[1] == 45,
        word("--pwd="@)[2] == 112,
        word("probe"@).len() == 5,
        word("probe"@)[0] == 112,
        word("probe"@)[1] == 114,
        word("probe"@)[2] == 111,
{
    reveal_strlit("--");
    is_ascii_chars_encode_utf8("--"@);
    reveal_strlit("-h");
    is_ascii_chars_encode_utf8("-h"@);
    reveal_strlit("--help");
    is_ascii_chars_encode_utf8("--help"@);
    reveal_strlit("-V");
    is_ascii_chars_encode_utf8("-V"@);
    reveal_strlit("--version");
    is_ascii_chars_encode_utf8("--version"@);
    reveal_strlit("--quiet");
    is_ascii_chars_encode_utf8("--quiet"@);
    reveal_strlit("-b");
    is_ascii_chars_encode_utf8("-b"@);
    reveal_strlit("--bind");
    is_ascii_chars_encode_utf8("--bind"@);
    reveal_strlit("-w");
    is_ascii_chars_encode_utf8("-w"@);
    reveal_strlit("--cwd");
    is_ascii_chars_encode_utf8("--cwd"@);
    reveal_strlit("--pwd");
    is_ascii_chars_encode_utf8("--pwd"@);
    reveal_strlit("--bind=");
    is_ascii_chars_encode_utf8("--bind="@);
    reveal_strlit("--cwd=");
    is_ascii_chars_encode_utf8("--cwd="@);
    reveal_strlit("--pwd=");
    is_ascii_chars_encode_utf8("--pwd="@);
    reveal_strlit("probe");
    is_ascii_chars_encode_utf8("probe"@);
    assert("--"@[0] as u8 == 45);
    assert("--"@[1] as u8 == 45);
    assert("-h"@[0] as u8 == 45);
    assert("-h"@[1] as u8 == 104);
    assert("--help"@[0] as u8 == 45);
    assert("--help"@[1] as u8 == 45);
    assert("--help"@[2] as u8 == 104);
    assert("-V"@[0] as u8 == 45);
    assert("-V"@[1] as u8 == 86);
    assert("--version"@[0] as u8 == 45);
    assert("--version"@[1] as u8 == 45);
    assert("--version"@[2] as u8 == 118);
    assert("--quiet"@[0] as u8 == 45);
    assert("--quiet"@[1] as u8 == 45);
    assert("--quiet"@[2] as u8 == 113);
    assert("-b"@[0] as u8 == 45);
    assert("-b"@[1] as u8 == 98);
    assert("--bind"@[0] as u8 == 45);
    assert("--bind"@[1] as u8 == 45);
    assert("--bind"@[2] as u8 == 98);
    assert("-w"@[0] as u8 == 45);
    assert("-w"@[1] as u8 == 119);
    assert("--cwd"@[0] as u8 == 45);
    assert("--cwd"@[1] as u8 == 45);
    assert("--cwd"@[2] as u8 == 99);
    assert("--pwd"@[0] as u8 == 45);
    assert("--pwd"@[1] as u8 == 45);
    assert("--pwd"@[2] as u8 == 112);
    assert("--bind="@[0] as u8 == 45);
    assert("--bind="@[1] as u8 == 45);
    assert("--bind="@[2] as u8 == 98);
    assert("--cwd="@[0] as u8 == 45);
    assert("--cwd="@[1] as u8 == 45);
    assert("--cwd="@[2] as u8 == 99);
    assert("--pwd="@[0] as u8 == 45);
    assert("--pwd="@[1] as u8 == 45);
    assert("--pwd="@[2] as u8 == 112);
    assert("probe"@[0] as u8 == 112);
    assert("probe"@[1] as u8 == 114);
    assert("probe"@[2] as u8 == 111);
}

/// An option stands for what it is read as wherever it stands: a mapping joins those
/// before it, a working directory takes the place of the one before it, and
/// `--quiet` holds from then on. Reading goes on behind it.
pub proof fn law_options_are_read_one_by_one(
    arg: Seq<u8>,
    value: Seq<u8>,
    rest: Seq<Seq<u8>>,
    binds: Seq<Request>,
    cwd: Seq<u8>,
    quiet: bool,
)
    ensures
        read_options(seq![word("--quiet"@)] + rest, binds, cwd, quiet) == read_options(
            rest,
            binds,
            cwd,
            true,
        ),
        arg == word("-b"@) || arg == word("--bind"@) ==> read_options(
            seq![arg, value] + rest,
            binds,
            cwd,
            quiet,
        ) == match asked_bind(value) {
            Ok(bind) => read_options(rest, binds.push(bind), cwd, quiet),
            Err(message) => Err(message),
        },
        arg == word("-w"@) || arg == word("--cwd"@) || arg == word("--pwd"@) ==> read_options(
            seq![arg, value] + rest,
            binds,
            cwd,
            quiet,
        ) == read_options(rest, binds, value, quiet),
{
    lemma_words();
    let calm = seq![word("--quiet"@)] + rest;
    assert(calm.skip(1) =~= rest);
    assert(calm[0] == word("--quiet"@));
    let args = seq![arg, value] + rest;
    assert(args[0] == arg && args[1] == value);
    assert(args.skip(1).skip(1) =~= rest);
    assert(args.skip(1)[0] == value);
}

/// An option with its value attached is read like the same option with its value
/// behind it; a working directory may not be left empty there.
pub proof fn law_attached_values_are_read_alike(
    rest: Seq<Seq<u8>>,
    value: Seq<u8>,
    binds: Seq<Request>,
    cwd: Seq<u8>,
    quiet: bool,
)
    ensures
        valid_utf8(word("--bind="@) + value) ==> read_options(
            seq![word("--bind="@) + value] + rest,
            binds,
            cwd,
            quiet,
        ) == read_options(seq![word("--bind"@), value] + rest, binds, cwd, quiet),
        valid_utf8(word("--cwd="@) + value) && value.len() > 0 ==> read_options(
            seq![word("--cwd="@) + value] + rest,
            binds,
            cwd,
            quiet,
        ) == read_options(rest, binds, value, quiet),
        valid_utf8(word("--pwd="@) + value) && value.len() > 0 ==> read_options(
            seq![word("--pwd="@) + value] + rest,
            binds,
            cwd,
            quiet,
        ) == read_options(rest, binds, value, quiet),
        read_options(seq![word("--cwd="@)] + rest, binds, cwd, quiet) == Err::<Asked, Seq<char>>("`--cwd` requires a path"@),
{
    lemma_words();
    law_options_are_read_one_by_one(word("--bind"@), value, rest, binds, cwd, quiet);
    let bound = word("--bind="@) + value;
    let placed = word("--cwd="@) + value;
    let printed = word("--pwd="@) + value;
    let bare = word("--cwd="@);
    assert((seq![bound] + rest).skip(1) =~= rest);
    assert((seq![placed] + rest).skip(1) =~= rest);
    assert((seq![printed] + rest).skip(1) =~= rest);
    assert((seq![bare] + rest).skip(1) =~= rest);
    assert(bound[2] == 98 && placed[2] == 99 && printed[2] == 112);
    assert(bound.take(7) =~= word("--bind="@) && bound.skip(7) =~= value);
    assert(placed.take(6) =~= word("--cwd="@) && placed.skip(6) =~= value);
    assert(printed.take(6) =~= word("--pwd="@) && printed.skip(6) =~= value);
    assert(bare.take(6) =~= bare && bare.skip(6).len() == 0);
    lemma_not_attached(placed, "--bind="@);
    lemma_not_attached(printed, "--bind="@);
    lemma_not_attached(printed, "--cwd="@);
    lemma_not_attached(bare, "--bind="@);
    encode_utf8_valid_utf8("--cwd="@);
}

/// An option is not attached to an argument with another third byte.
proof fn lemma_not_attached(arg: Seq<u8>, letters: Seq<char>)
    requires
        arg.len() > 2,
        word(letters).len() > 2,
        arg[2] != word(letters)[2],
    ensures
        attached(arg, letters) is None,
{
    let prefix = word(letters);
    if bytes::has_prefix(arg, prefix) {
        assert(arg.take(prefix.len() as int)[2] == prefix[2]);
    }
}

/// A run is accepted with exactly what its options give, as soon as there is a
/// mapping and a command: whatever stands on the command line behind `--`.
pub proof fn law_complete_runs_are_accepted(options: Seq<Seq<u8>>, line: Seq<Seq<u8>>)
    requires
        only_options(options),
        binds_given(options).len() > 0,
        line.len() > 0,
    ensures
        parsed(options + (seq![word("--"@)] + line)) == Ok::<Asked, Seq<char>>(
            Asked::Run(
                Run {
                    binds: binds_given(options),
                    cwd: cwd_given(options, seq![47u8]),
                    quiet: quiet_given(options),
                    command: line[0],
                    args: line.skip(1),
                },
            ),
        ),
{
    let marked = seq![word("--"@)] + line;
    assert(option_length(marked) == 0);
    lemma_read_behind_options(options, marked);
    lemma_probe_is_no_option(options);
    assert((options + marked)[0] == options[0]);
    law_separator_ends_options(
        line,
        binds_given(options),
        cwd_given(options, seq![47u8]),
        quiet_given(options),
    );
}

/// What is missing is said: without any mapping the view is missing, and with one
/// the command.
pub proof fn law_missing_parts_are_named(options: Seq<Seq<u8>>)
    requires
        only_options(options),
    ensures
        binds_given(options).len() == 0 ==> parsed(options) == Err::<Asked, Seq<char>>(
            "missing filesystem view: provide `--bind SOURCE:DEST`"@,
        ),
        binds_given(options).len() > 0 ==> parsed(options) == Err::<Asked, Seq<char>>(
            "missing command"@,
        ),
{
    let none: Seq<Seq<u8>> = seq![];
    assert(options + none =~= options);
    lemma_read_behind_options(options, none);
    lemma_probe_is_no_option(options);
}

/// Help and version are given wherever they are asked for among the options, and
/// nothing behind them is read.
pub proof fn law_help_and_version_are_given(
    options: Seq<Seq<u8>>,
    arg: Seq<u8>,
    rest: Seq<Seq<u8>>,
)
    requires
        only_options(options),
    ensures
        arg == word("-h"@) || arg == word("--help"@) ==> parsed(options + (seq![arg] + rest)) == Ok::<
            Asked,
            Seq<char>,
        >(Asked::Help),
        arg == word("-V"@) || arg == word("--version"@) ==> parsed(options + (seq![arg] + rest))
            == Ok::<Asked, Seq<char>>(Asked::Version),
{
    lemma_words();
    let tail = seq![arg] + rest;
    assert(tail[0] == arg);
    if asks_help(arg) || asks_version(arg) {
        assert(option_length(tail) == 0);
        lemma_read_behind_options(options, tail);
        lemma_probe_is_no_option(options);
        if options.len() == 0 {
            assert(options + tail =~= tail);
        } else {
            assert((options + tail)[0] == options[0]);
        }
    }
}

/// An option that is not known is refused by its name, and so is one that lacks its
/// value.
pub proof fn law_unknown_and_incomplete_options_are_refused(
    options: Seq<Seq<u8>>,
    arg: Seq<u8>,
    rest: Seq<Seq<u8>>,
)
    requires
        only_options(options),
    ensures
        arg.len() > 2 && arg[0] == 45 && arg[2] != 98 && arg[2] != 99 && arg[2] != 104 && arg[2]
            != 112 && arg[2] != 113 && arg[2] != 118 ==> parsed(options + (seq![arg] + rest)) == Err::<
            Asked,
            Seq<char>,
        >("unknown option `"@ + shown(arg) + "`"@),
        arg == word("-b"@) || arg == word("--bind"@) ==> parsed(options + seq![arg]) == Err::<
            Asked,
            Seq<char>,
        >("`"@ + shown(arg) + "` requires SOURCE:DEST"@),
        arg == word("-w"@) || arg == word("--cwd"@) || arg == word("--pwd"@) ==> parsed(
            options + seq![arg],
        ) == Err::<Asked, Seq<char>>("`"@ + shown(arg) + "` requires a path"@),
{
    lemma_words();
    let tail = seq![arg] + rest;
    let bare = seq![arg];
    assert(tail[0] == arg && bare[0] == arg);
    assert(bare.skip(1).len() == 0);
    lemma_probe_is_no_option(options);
    if options.len() == 0 {
        assert(options + tail =~= tail);
        assert(options + bare =~= bare);
    } else {
        assert((options + tail)[0] == options[0]);
        assert((options + bare)[0] == options[0]);
    }
    if arg.len() > 2 && arg[0] == 45 && arg[2] != 98 && arg[2] != 99 && arg[2] != 104 && arg[2]
        != 112 && arg[2] != 113 && arg[2] != 118 {
        lemma_not_attached(arg, "--bind="@);
        lemma_not_attached(arg, "--cwd="@);
        lemma_not_attached(arg, "--pwd="@);
        assert(option_length(tail) == 0);
        lemma_read_behind_options(options, tail);
    }
    if asks_bind(arg) || asks_cwd(arg) {
        assert(option_length(bare) == 0);
        lemma_read_behind_options(options, bare);
    }
}

/// The arguments of a probe are mappings: each joins those before it, in either
/// form, and a probe is accepted with all of them as soon as there is one. Help is
/// given where it is asked for.
pub proof fn law_probe_takes_mappings(
    arg: Seq<u8>,
    value: Seq<u8>,
    rest: Seq<Seq<u8>>,
    binds: Seq<Request>,
)
    ensures
        parsed(seq![word("probe"@)] + rest) == read_probe(rest, seq![]),
        read_probe(seq![], binds) == if binds.len() == 0 {
            Err::<Asked, Seq<char>>("probe requires at least one `--bind SOURCE:DEST`"@)
        } else {
            Ok::<Asked, Seq<char>>(Asked::Probe(binds))
        },
        arg == word("-b"@) || arg == word("--bind"@) ==> read_probe(
            seq![arg, value] + rest,
            binds,
        ) == match asked_bind(value) {
            Ok(bind) => read_probe(rest, binds.push(bind)),
            Err(message) => Err(message),
        },
        valid_utf8(word("--bind="@) + value) ==> read_probe(
            seq![word("--bind="@) + value] + rest,
            binds,
        ) == match asked_bind(value) {
            Ok(bind) => read_probe(rest, binds.push(bind)),
            Err(message) => Err(message),
        },
        arg == word("-b"@) || arg == word("--bind"@) ==> read_probe(seq![arg], binds) == Err::<
            Asked,
            Seq<char>,
        >("`"@ + shown(arg) + "` requires SOURCE:DEST"@),
        arg == word("-h"@) || arg == word("--help"@) ==> read_probe(seq![arg] + rest, binds) == Ok::<
            Asked,
            Seq<char>,
        >(Asked::Help),
        arg.len() > 2 && arg[2] != 98 && arg[2] != 104 ==> read_probe(seq![arg] + rest, binds)
            == Err::<Asked, Seq<char>>("unknown probe argument `"@ + shown(arg) + "`"@),
{
    lemma_words();
    let whole = seq![word("probe"@)] + rest;
    assert(whole.skip(1) =~= rest);
    assert(whole[0] == word("probe"@));
    let line = seq![arg, value] + rest;
    assert(line[0] == arg && line.skip(1)[0] == value);
    assert(line.skip(1).skip(1) =~= rest);
    let bound = word("--bind="@) + value;
    assert((seq![bound] + rest).skip(1) =~= rest);
    assert((seq![bound] + rest)[0] == bound);
    assert(bound[2] == 98);
    assert(bound.take(7) =~= word("--bind="@) && bound.skip(7) =~= value);
    assert((seq![arg] + rest)[0] == arg);
    assert(seq![arg].skip(1).len() == 0);
    if arg.len() > 2 && arg[2] != 98 {
        lemma_not_attached(arg, "--bind="@);
    }
}

/// A mapping is refused for what it lacks: text, a colon, one of its parts, or a
/// destination that begins at the root; and for nothing else.
pub proof fn law_mappings_are_refused_for_what_they_lack(value: Seq<u8>)
    ensures
        asked_bind(value) is Ok <==> valid_utf8(value) && exists|cut: int|
            0 < cut < value.len() - 1 && #[trigger] value[cut] == 58 && value[cut + 1] == 47
                && !value.take(cut).contains(58),
        !valid_utf8(value) ==> asked_bind(value) == Err::<Request, Seq<char>>(
            "`--bind` requires UTF-8 SOURCE:DEST paths"@,
        ),
        valid_utf8(value) && !value.contains(58) ==> asked_bind(value) == Err::<Request, Seq<char>>(
            "invalid bind `"@ + shown(value) + "`: expected SOURCE:DEST"@,
        ),
{
    lemma_before_colon(value);
    let cut = first_colon(value);
    if asked_bind(value) is Ok {
        assert(value[cut] == 58);
        assert(value.skip(cut + 1)[0] == value[cut + 1]);
        assert(!value.take(cut).contains(58)) by {
            if value.take(cut).contains(58) {
                let k = choose|k: int| 0 <= k < cut && value.take(cut)[k] == 58;
                assert(value[k] == 58);
            }
        }
    }
    if valid_utf8(value) && exists|cut: int|
        0 < cut < value.len() - 1 && #[trigger] value[cut] == 58 && value[cut + 1] == 47
            && !value.take(cut).contains(58) {
        let at = choose|cut: int|
            0 < cut < value.len() - 1 && #[trigger] value[cut] == 58 && value[cut + 1] == 47
                && !value.take(cut).contains(58);
        if cut < at {
            assert(value.take(at)[cut] == 58);
        }
        assert(cut == at);
        assert(value.skip(cut + 1)[0] == value[cut + 1]);
    }
    if !value.contains(58) && cut < value.len() {
        assert(value.contains(value[cut]));
    }
}

/// The mappings of a list are those of its members, in their order.
pub proof fn law_mappings_are_those_of_the_arguments(list: Seq<BindArg>, index: int)
    requires
        0 <= index < list.len(),
    ensures
        asked_binds(list).len() == list.len(),
        asked_binds(list)[index].source == list[index].source@,
        asked_binds(list)[index].destination == list[index].destination@,
{
}

} // verus!
