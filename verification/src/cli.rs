//! What the command line asks for.
use vstd::prelude::*;
use crate::strs::{chars_eq, chars_of};

verus! {

/// What the program is asked to do.
#[derive(Clone, Debug, PartialEq, Eq)]
pub enum Command {
    /// Open the reader.
    Run,
    /// Print the version.
    Version,
    /// Print the usage.
    Help,
    /// An argument the program does not take.
    Unsupported(String),
}

/// A command as plain values.
pub enum CommandView {
    Run,
    Version,
    Help,
    Unsupported(Seq<char>),
}

pub open spec fn command_view(c: Command) -> CommandView {
    match c {
        Command::Run => CommandView::Run,
        Command::Version => CommandView::Version,
        Command::Help => CommandView::Help,
        Command::Unsupported(a) => CommandView::Unsupported(a@),
    }
}

/// The command that the arguments (after the program's name) ask for: none runs
/// the reader, a lone `--version` or `-V` prints the version, a lone `--help`
/// or `-h` prints the usage, and anything else is refused, naming the first
/// argument not understood (the second one, when the first is a known option).
pub open spec fn command_of(args: Seq<Seq<char>>) -> CommandView {
    if args.len() == 0 {
        CommandView::Run
    } else if args.len() == 1 && (args[0] == seq!['-', '-', 'v', 'e', 'r', 's', 'i', 'o', 'n'] || args[0] == seq!['-', 'V']) {
        CommandView::Version
    } else if args.len() == 1 && (args[0] == seq!['-', '-', 'h', 'e', 'l', 'p'] || args[0] == seq!['-', 'h']) {
        CommandView::Help
    } else if is_flag(args[0]) {
        CommandView::Unsupported(args[1])
    } else {
        CommandView::Unsupported(args[0])
    }
}

/// One of the options the program knows.
pub open spec fn is_flag(a: Seq<char>) -> bool {
    ||| a == seq!['-', '-', 'v', 'e', 'r', 's', 'i', 'o', 'n']
    ||| a == seq!['-', 'V']
    ||| a == seq!['-', '-', 'h', 'e', 'l', 'p']
    ||| a == seq!['-', 'h']
}

fn is_flag_exec(a: &str) -> (b: bool)
    ensures
        b == is_flag(a@),
{
    let c = chars_of(a);
    chars_eq(c.as_slice(), &['-', '-', 'v', 'e', 'r', 's', 'i', 'o', 'n'])
        || chars_eq(c.as_slice(), &['-', 'V'])
        || chars_eq(c.as_slice(), &['-', '-', 'h', 'e', 'l', 'p'])
        || chars_eq(c.as_slice(), &['-', 'h'])
}

fn is_version(a: &str) -> (b: bool)
    ensures
        b == (a@ == seq!['-', '-', 'v', 'e', 'r', 's', 'i', 'o', 'n'] || a@ == seq!['-', 'V']),
{
    let c = chars_of(a);
    chars_eq(c.as_slice(), &['-', '-', 'v', 'e', 'r', 's', 'i', 'o', 'n']) || chars_eq(c.as_slice(), &['-', 'V'])
}

/// Reads the command line (the arguments after the program's name).
pub fn parse_args(args: Vec<String>) -> (r: Command)
    ensures
        command_view(r) == command_of(args@.map_values(|s: String| s@)),
{
    let ghost v = args@.map_values(|s: String| s@);
    if args.len() == 0 {
        return Command::Run;
    }
    assert(v[0] == args@[0]@);
    let first_is_flag = is_flag_exec(args[0].as_str());
    if args.len() == 1 && is_version(args[0].as_str()) {
        return Command::Version;
    }
    if args.len() == 1 && first_is_flag {
        return Command::Help;
    }
    if first_is_flag {
        assert(args@.len() >= 2);
        assert(v[1] == args@[1]@);
        Command::Unsupported(args[1].clone())
    } else {
        Command::Unsupported(args[0].clone())
    }
}

} // verus!
