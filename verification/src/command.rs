//! The command grammar: `entities [-d|--dump]` and `enable [-c|--circle]`.

use vstd::prelude::*;
use crate::text::{chars_of, is_word, views};

verus! {

/// A parsed instruction.
#[derive(Clone, Copy, Debug, PartialEq, Eq, Structural)]
pub enum Command {
    /// `entities`, with its dump switch.
    Entities { dump: bool },
    /// `enable`, with its circle switch.
    Enable { circle: bool },
}

/// What a command asks the surrounding program to do.
#[derive(Clone, Copy, Debug, PartialEq, Eq, Structural)]
pub enum Operation {
    Nothing,
    DumpEntities,
    StartCircle,
}

/// Why a word list is not a command.
#[derive(Clone, Copy, Debug, PartialEq, Eq, Structural)]
pub enum ParseError {
    /// The word list is empty.
    MissingSubcommand,
    /// The word at `position` is neither a subcommand (at position 0) nor a
    /// switch of the chosen subcommand (later positions).
    UnrecognizedArgument { position: usize },
}

/// `a` is one of the two spellings of a switch.
pub open spec fn is_switch(a: Seq<char>, short: Seq<char>, long: Seq<char>) -> bool {
    a == short || a == long
}

/// The position of the first word from `i` on that is not a switch.
pub open spec fn stray(args: Seq<Seq<char>>, short: Seq<char>, long: Seq<char>, i: int) -> Option<
    int,
>
    decreases args.len() - i,
{
    if i < 0 || i >= args.len() {
        None
    } else if !is_switch(args[i], short, long) {
        Some(i)
    } else {
        stray(args, short, long, i + 1)
    }
}

/// The result of reading the switches that follow a subcommand: the position
/// of the first stray word, or else whether any switch was given.
pub open spec fn switch_spec(args: Seq<Seq<char>>, short: Seq<char>, long: Seq<char>) -> Result<
    bool,
    ParseError,
> {
    match stray(args, short, long, 1) {
        Some(i) => Err(ParseError::UnrecognizedArgument { position: i as usize }),
        None => Ok(args.len() > 1),
    }
}

/// The command that a word list spells, or the reason it spells none.
///
/// The grammar is the subcommand followed by any number of its switches, and
/// nothing else. A request for help (`help`, `--help`) and the separator `--`
/// are not part of it: each is treated as any other unrecognized word, and
/// the message for a missing subcommand lists the two subcommands only.
pub open spec fn parse_spec(args: Seq<Seq<char>>) -> Result<Command, ParseError> {
    if args.len() == 0 {
        Err(ParseError::MissingSubcommand)
    } else if args[0] == "entities"@ {
        match switch_spec(args, "-d"@, "--dump"@) {
            Ok(dump) => Ok(Command::Entities { dump }),
            Err(e) => Err(e),
        }
    } else if args[0] == "enable"@ {
        match switch_spec(args, "-c"@, "--circle"@) {
            Ok(circle) => Ok(Command::Enable { circle }),
            Err(e) => Err(e),
        }
    } else {
        Err(ParseError::UnrecognizedArgument { position: 0 })
    }
}

/// `stray` finds the least position from `i` on that holds no switch, and
/// finds none exactly when every word from `i` on is a switch.
pub proof fn lemma_stray_is_first(args: Seq<Seq<char>>, short: Seq<char>, long: Seq<char>, i: int)
    requires
        0 <= i,
    ensures
        match stray(args, short, long, i) {
            Some(p) => i <= p < args.len() && !is_switch(args[p], short, long) && forall|j: int|
                i <= j < p ==> is_switch(#[trigger] args[j], short, long),
            None => forall|j: int| i <= j < args.len() ==> is_switch(#[trigger] args[j], short, long),
        },
    decreases args.len() - i,
{
    if i < args.len() && is_switch(args[i], short, long) {
        lemma_stray_is_first(args, short, long, i + 1);
    }
}

/// A failed parse always names a position inside the word list.
pub proof fn lemma_error_position_in_range(args: Seq<Seq<char>>)
    requires
        args.len() <= usize::MAX,
    ensures
        parse_spec(args) matches Err(ParseError::UnrecognizedArgument { position }) ==> position
            < args.len(),
{
    lemma_stray_is_first(args, "-d"@, "--dump"@, 1);
    lemma_stray_is_first(args, "-c"@, "--circle"@, 1);
}

impl Command {
    /// The work that this command asks for: a switch that was not given asks
    /// for nothing.
    pub open spec fn operation_spec(self) -> Operation {
        match self {
            Command::Entities { dump } => if dump {
                Operation::DumpEntities
            } else {
                Operation::Nothing
            },
            Command::Enable { circle } => if circle {
                Operation::StartCircle
            } else {
                Operation::Nothing
            },
        }
    }

    pub fn operation(self) -> (r: Operation)
        ensures
            r == self.operation_spec(),
    {
        match self {
            Command::Entities { dump } => if dump {
                Operation::DumpEntities
            } else {
                Operation::Nothing
            },
            Command::Enable { circle } => if circle {
                Operation::StartCircle
            } else {
                Operation::Nothing
            },
        }
    }

    /// The line that acknowledges this command: the command written out in
    /// full, as the console's command-line structure with its subcommand and
    /// the state of its switch.
    pub open spec fn describe_spec(self) -> Seq<char> {
        match self {
            Command::Entities { dump } => if dump {
                "HaxCLI { subcommand: Entity(EntitySubcommand { dump: true }) }"@
            } else {
                "HaxCLI { subcommand: Entity(EntitySubcommand { dump: false }) }"@
            },
            Command::Enable { circle } => if circle {
                "HaxCLI { subcommand: Enable(EnableSubcommand { circle: true }) }"@
            } else {
                "HaxCLI { subcommand: Enable(EnableSubcommand { circle: false }) }"@
            },
        }
    }

    pub fn describe(self) -> (r: Vec<char>)
        ensures
            r@ == self.describe_spec(),
    {
        match self {
            Command::Entities { dump } => if dump {
                chars_of("HaxCLI { subcommand: Entity(EntitySubcommand { dump: true }) }")
            } else {
                chars_of("HaxCLI { subcommand: Entity(EntitySubcommand { dump: false }) }")
            },
            Command::Enable { circle } => if circle {
                chars_of("HaxCLI { subcommand: Enable(EnableSubcommand { circle: true }) }")
            } else {
                chars_of("HaxCLI { subcommand: Enable(EnableSubcommand { circle: false }) }")
            },
        }
    }
}

/// Reads the switches after the subcommand at position 0.
fn read_switches(args: &Vec<Vec<char>>, short: &str, long: &str) -> (r: Result<bool, ParseError>)
    requires
        args@.len() > 0,
    ensures
        r == switch_spec(views(args@), short@, long@),
{
    let mut i: usize = 1;
    while i < args.len()
        invariant
            1 <= i <= args@.len(),
            stray(views(args@), short@, long@, 1) == stray(views(args@), short@, long@, i as int),
        decreases args@.len() - i,
    {
        if !is_word(&args[i], short) && !is_word(&args[i], long) {
            return Err(ParseError::UnrecognizedArgument { position: i });
        }
        i = i + 1;
    }
    Ok(args.len() > 1)
}

/// Parses a list of words into a command.
pub fn parse(args: &Vec<Vec<char>>) -> (r: Result<Command, ParseError>)
    ensures
        r == parse_spec(views(args@)),
{
    if args.len() == 0 {
        return Err(ParseError::MissingSubcommand);
    }
    if is_word(&args[0], "entities") {
        match read_switches(args, "-d", "--dump") {
            Ok(dump) => Ok(Command::Entities { dump }),
            Err(e) => Err(e),
        }
    } else if is_word(&args[0], "enable") {
        match read_switches(args, "-c", "--circle") {
            Ok(circle) => Ok(Command::Enable { circle }),
            Err(e) => Err(e),
        }
    } else {
        Err(ParseError::UnrecognizedArgument { position: 0 })
    }
}

/// The message for a failed parse of `args`.
pub open spec fn error_text_spec(args: Seq<Seq<char>>, e: ParseError) -> Seq<char> {
    match e {
        ParseError::MissingSubcommand =>
            "One of the following subcommands must be present:\n    entities\n    enable\n"@,
        ParseError::UnrecognizedArgument { position } => if position < args.len() {
            "Unrecognized argument: "@ + args[position as int] + "\n"@
        } else {
            "Unrecognized argument\n"@
        },
    }
}

/// Renders the message for a failed parse of `args`.
pub fn error_text(args: &Vec<Vec<char>>, e: ParseError) -> (r: Vec<char>)
    ensures
        r@ == error_text_spec(views(args@), e),
{
    match e {
        ParseError::MissingSubcommand => chars_of(
            "One of the following subcommands must be present:\n    entities\n    enable\n",
        ),
        ParseError::UnrecognizedArgument { position } => {
            if position < args.len() {
                let mut out = chars_of("Unrecognized argument: ");
                let word = &args[position];
                let ghost head = out@;
                let mut i: usize = 0;
                while i < word.len()
                    invariant
                        i <= word@.len(),
                        out@ == head + word@.subrange(0, i as int),
                    decreases word@.len() - i,
                {
                    out.push(word[i]);
                    i = i + 1;
                    assert(out@ =~= head + word@.subrange(0, i as int));
                }
                assert(word@.subrange(0, i as int) =~= word@);
                let mut end = chars_of("\n");
                let ghost body = out@;
                out.append(&mut end);
                assert(out@ =~= body + "\n"@);
                out
            } else {
                chars_of("Unrecognized argument\n")
            }
        },
    }
}

} // verus!
