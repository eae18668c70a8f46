//! The command line: `<program> <ip-address>`, `<program> -j <worker-count>
//! <ip-address>`, or `<program> -h` (also `-help`). No other shape names a scan.
//!
//! Whether a word spells an address is decided by whoever holds the words;
//! the reading here is given that decision for each word and does the rest.

use crate::connector::HostAddr;
use crate::text::{parse_u16, same_text, spelled_u16};
use vstd::prelude::*;

verus! {

/// The number of workers of a scan for which none was given.
pub const DEFAULT_THREADS: u16 = 4;

/// What is said of a command line with too many words.
pub const ERR_MSG: &'static str = "Too Many args";

/// What is printed when help is asked for.
pub const HELP_MSG: &'static str =
    "Usage: -j to select how many threads you want\n\r\n       -h or -help to show this help message.";

/// Why a command line names no scan.
#[derive(Clone, Copy, Debug, PartialEq, Eq, Structural)]
pub enum ArgError {
    /// There is no word behind the program's name, or `-j` lacks a word.
    TooFewArgs,
    /// There are words that nothing asks for.
    TooManyArgs,
    /// The command line asks for the usage text.
    Help,
    /// The word in the address's place spells none.
    InvalidAddr,
    /// The word in the worker count's place spells no count of at least one.
    InvalidThreads,
    /// The first word is neither an address nor one of the flags.
    InvalidSyntax,
}

impl ArgError {
    /// The words in which the error is reported.
    pub open spec fn text(self) -> Seq<char> {
        match self {
            ArgError::TooFewArgs => "less args than expected"@,
            ArgError::TooManyArgs => ERR_MSG@,
            ArgError::Help => "help"@,
            ArgError::InvalidAddr => "not a valid IPADDR; must be IPv4 or IPv6"@,
            ArgError::InvalidThreads => "failed to parse thread number"@,
            ArgError::InvalidSyntax => "Invalid syntax"@,
        }
    }

    /// The words in which the error is reported.
    pub fn message(&self) -> (message: &'static str)
        ensures
            message@ == self.text(),
    {
        match self {
            ArgError::TooFewArgs => "less args than expected",
            ArgError::TooManyArgs => ERR_MSG,
            ArgError::Help => "help",
            ArgError::InvalidAddr => "not a valid IPADDR; must be IPv4 or IPv6",
            ArgError::InvalidThreads => "failed to parse thread number",
            ArgError::InvalidSyntax => "Invalid syntax",
        }
    }
}

/// Every error is reported in words, and only a request for the usage text
/// is reported as `help`.
pub proof fn lemma_only_help_reads_help(error: ArgError)
    ensures
        error.text().len() > 0,
        error.text() == "help"@ <==> error == ArgError::Help,
{
    reveal_strlit("less args than expected");
    reveal_strlit("Too Many args");
    reveal_strlit("help");
    reveal_strlit("not a valid IPADDR; must be IPv4 or IPv6");
    reveal_strlit("failed to parse thread number");
    reveal_strlit("Invalid syntax");
    assert("help"@.len() == 4);
    assert(error != ArgError::Help ==> error.text().len() > 4);
}

/// The target of a scan: the host, and the number of workers that share the
/// ports.
#[derive(Clone, Copy, Debug, PartialEq, Eq, Structural)]
pub struct Arguments {
    /// The host whose ports are probed.
    pub ipaddr: HostAddr,
    /// The number of workers.
    pub threads: u16,
}

/// The address that the word at `at` spells, if there is such a word and it
/// spells one.
pub open spec fn addr_at(addrs: Seq<Option<HostAddr>>, at: int) -> Option<HostAddr> {
    if 0 <= at < addrs.len() {
        addrs[at]
    } else {
        None
    }
}

/// The number of workers that `word` asks for: a number of at least one.
pub open spec fn spelled_threads(word: Seq<char>) -> Option<u16> {
    match spelled_u16(word) {
        Some(threads) if threads >= 1 => Some(threads),
        _ => None,
    }
}

/// What the words after `-j` name: a count of workers, then an address.
pub open spec fn explicit_target(
    words: Seq<Seq<char>>,
    addrs: Seq<Option<HostAddr>>,
) -> Result<Arguments, ArgError> {
    if words.len() < 4 {
        Err(ArgError::TooFewArgs)
    } else if addr_at(addrs, 3) is None {
        Err(ArgError::InvalidAddr)
    } else if spelled_threads(words[2]) is None {
        Err(ArgError::InvalidThreads)
    } else {
        Ok(Arguments { ipaddr: addr_at(addrs, 3)->0, threads: spelled_threads(words[2])->0 })
    }
}

/// Whether `word` asks for the usage text.
pub open spec fn asks_help(word: Seq<char>) -> bool {
    word == "-h"@ || word == "-help"@
}

/// What a command line names. `words` are its words, the program's name
/// first; `addrs` holds for each word the address that it spells, if any.
///
/// A line names a scan in two shapes only: the program's name and an address,
/// or the program's name, `-j`, a count of workers and an address.
pub open spec fn target_of(words: Seq<Seq<char>>, addrs: Seq<Option<HostAddr>>) -> Result<
    Arguments,
    ArgError,
> {
    if words.len() < 2 {
        Err(ArgError::TooFewArgs)
    } else if words.len() > 4 {
        Err(ArgError::TooManyArgs)
    } else if addr_at(addrs, 1) is Some {
        if words.len() == 2 {
            Ok(Arguments { ipaddr: addr_at(addrs, 1)->0, threads: DEFAULT_THREADS })
        } else {
            Err(ArgError::TooManyArgs)
        }
    } else if asks_help(words[1]) {
        if words.len() == 2 {
            Err(ArgError::Help)
        } else {
            Err(ArgError::TooManyArgs)
        }
    } else if words[1] == "-j"@ {
        explicit_target(words, addrs)
    } else {
        Err(ArgError::InvalidSyntax)
    }
}

/// The flag for a count of workers is no request for the usage text.
proof fn lemma_flags_differ()
    ensures
        !asks_help("-j"@),
{
    reveal_strlit("-h");
    reveal_strlit("-help");
    reveal_strlit("-j");
    assert("-j"@[1] != "-h"@[1]);
    assert("-j"@.len() != "-help"@.len());
}

/// A command line names a scan in two shapes and no other: the program's
/// name and an address, or the program's name, `-j`, a count of workers of at
/// least one, and an address.
pub proof fn lemma_scan_named_by_two_shapes(words: Seq<Seq<char>>, addrs: Seq<Option<HostAddr>>)
    ensures
        target_of(words, addrs) is Ok <==> (words.len() == 2 && addr_at(addrs, 1) is Some) || (
        words.len() == 4 && addr_at(addrs, 1) is None && words[1] == "-j"@ && spelled_threads(
            words[2],
        ) is Some && addr_at(addrs, 3) is Some),
        words.len() == 2 && addr_at(addrs, 1) is Some ==> target_of(words, addrs) == Ok::<
            Arguments,
            ArgError,
        >(Arguments { ipaddr: addr_at(addrs, 1)->0, threads: DEFAULT_THREADS }),
        target_of(words, addrs) is Ok && words.len() == 4 ==> target_of(words, addrs) == Ok::<
            Arguments,
            ArgError,
        >(Arguments { ipaddr: addr_at(addrs, 3)->0, threads: spelled_threads(words[2])->0 }),
{
    lemma_flags_differ();
}

/// The usage text is asked for by `-h` or `-help` as the only word behind the
/// program's name, and by nothing else.
pub proof fn lemma_help_only_when_asked(words: Seq<Seq<char>>, addrs: Seq<Option<HostAddr>>)
    ensures
        target_of(words, addrs) == Err::<Arguments, ArgError>(ArgError::Help) <==> words.len() == 2
            && addr_at(addrs, 1) is None && asks_help(words[1]),
{
    lemma_flags_differ();
}

/// The address that the word at `at` spells, if there is such a word and it
/// spells one.
fn addr_of_word(addrs: &[Option<HostAddr>], at: usize) -> (addr: Option<HostAddr>)
    ensures
        addr == addr_at(addrs@, at as int),
{
    if at < addrs.len() {
        addrs[at]
    } else {
        None
    }
}

impl Arguments {
    /// A target has at least one worker.
    pub open spec fn wf(&self) -> bool {
        self.threads >= 1
    }

    /// Reads a command line. `args` are its words, the program's name first;
    /// `addrs` holds for each word the address that it spells, if any (a word
    /// without an entry counts as spelling none).
    pub fn new(args: &[String], addrs: &[Option<HostAddr>]) -> (parsed: Result<Arguments, ArgError>)
        ensures
            parsed == target_of(args.deep_view(), addrs@),
            parsed is Ok ==> parsed->Ok_0.wf(),
    {
        if args.len() < 2 {
            return Err(ArgError::TooFewArgs);
        }
        if args.len() > 4 {
            return Err(ArgError::TooManyArgs);
        }
        let flag = args[1].as_str();
        if let Some(ipaddr) = addr_of_word(addrs, 1) {
            if args.len() == 2 {
                return Ok(Arguments { ipaddr, threads: DEFAULT_THREADS });
            }
            return Err(ArgError::TooManyArgs);
        }
        if same_text(flag, "-h") || same_text(flag, "-help") {
            if args.len() == 2 {
                return Err(ArgError::Help);
            }
            return Err(ArgError::TooManyArgs);
        }
        if same_text(flag, "-j") {
            if args.len() < 4 {
                return Err(ArgError::TooFewArgs);
            }
            let ipaddr = match addr_of_word(addrs, 3) {
                Some(ipaddr) => ipaddr,
                None => return Err(ArgError::InvalidAddr),
            };
            let threads: u16 = match parse_u16(args[2].as_str()) {
                Some(threads) => threads,
                None => return Err(ArgError::InvalidThreads),
            };
            if threads == 0 {
                return Err(ArgError::InvalidThreads);
            }
            return Ok(Arguments { ipaddr, threads });
        }
        Err(ArgError::InvalidSyntax)
    }
}

} // verus!
