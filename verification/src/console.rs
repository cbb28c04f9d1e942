//! The console interceptor's decisions: which output lines are commands,
//! which are swallowed, and what is written back.

use vstd::prelude::*;
use crate::command::{error_text, error_text_spec, parse, parse_spec, Command, Operation, ParseError};
use crate::text::{chars_of, has_prefix, split_words, starts_with, tail_from, words};
use crate::wide::{
    decode_wide, encode_wide, no_surrogates, plain_chars, utf16_lossy, wide_c_string, wide_view,
};

verus! {

/// The colors that the host's console accepts.
#[derive(Clone, Copy, Debug, PartialEq, Eq, Structural)]
pub enum TextColor {
    Black,
    Grey,
    White,
    White2,
    DarkRed,
    Red,
    LightRed,
    DarkGreen,
    Green,
    LightGreen,
    DarkBlue,
    Blue,
    LightBlue,
    DarkYellow,
    Yellow,
    LightYellow,
}

impl TextColor {
    /// The number by which the host knows this color, from 1 to 16.
    pub open spec fn code_spec(self) -> u32 {
        match self {
            TextColor::Black => 1,
            TextColor::Grey => 2,
            TextColor::White => 3,
            TextColor::White2 => 4,
            TextColor::DarkRed => 5,
            TextColor::Red => 6,
            TextColor::LightRed => 7,
            TextColor::DarkGreen => 8,
            TextColor::Green => 9,
            TextColor::LightGreen => 10,
            TextColor::DarkBlue => 11,
            TextColor::Blue => 12,
            TextColor::LightBlue => 13,
            TextColor::DarkYellow => 14,
            TextColor::Yellow => 15,
            TextColor::LightYellow => 16,
        }
    }

    pub fn code(self) -> (r: u32)
        ensures
            r == self.code_spec(),
            1 <= r <= 16,
    {
        match self {
            TextColor::Black => 1,
            TextColor::Grey => 2,
            TextColor::White => 3,
            TextColor::White2 => 4,
            TextColor::DarkRed => 5,
            TextColor::Red => 6,
            TextColor::LightRed => 7,
            TextColor::DarkGreen => 8,
            TextColor::Green => 9,
            TextColor::LightGreen => 10,
            TextColor::DarkBlue => 11,
            TextColor::Blue => 12,
            TextColor::LightBlue => 13,
            TextColor::DarkYellow => 14,
            TextColor::Yellow => 15,
            TextColor::LightYellow => 16,
        }
    }

    /// The color with the given number, if there is one.
    pub fn from_code(code: u32) -> (r: Option<TextColor>)
        ensures
            match r {
                Some(c) => c.code_spec() == code,
                None => code < 1 || code > 16,
            },
    {
        match code {
            1 => Some(TextColor::Black),
            2 => Some(TextColor::Grey),
            3 => Some(TextColor::White),
            4 => Some(TextColor::White2),
            5 => Some(TextColor::DarkRed),
            6 => Some(TextColor::Red),
            7 => Some(TextColor::LightRed),
            8 => Some(TextColor::DarkGreen),
            9 => Some(TextColor::Green),
            10 => Some(TextColor::LightGreen),
            11 => Some(TextColor::DarkBlue),
            12 => Some(TextColor::Blue),
            13 => Some(TextColor::LightBlue),
            14 => Some(TextColor::DarkYellow),
            15 => Some(TextColor::Yellow),
            16 => Some(TextColor::LightYellow),
            _ => None,
        }
    }
}

/// What the interceptor decides about one output line.
#[derive(Clone, Copy, Debug, PartialEq, Eq, Structural)]
pub enum Verdict {
    /// The line is dropped: the host is told it was written, and nothing is.
    Swallow,
    /// The line is no command: it goes to the host's own writer unchanged, and
    /// the writer's answer goes back to the host.
    Forward,
    /// The line is a well-formed command.
    Run(Command),
    /// The line starts like a command and could not be parsed.
    Reject(ParseError),
}

impl Verdict {
    /// The line spoke to the interceptor, as a command or a failed one.
    pub open spec fn is_command(self) -> bool {
        self is Run || self is Reject
    }

    /// The color in which a command line is echoed through the host's own
    /// writer; other lines are not echoed.
    pub open spec fn echo_color_spec(self) -> Option<TextColor> {
        if self.is_command() {
            Some(TextColor::LightBlue)
        } else {
            None
        }
    }

    pub fn echo_color(self) -> (r: Option<TextColor>)
        ensures
            r == self.echo_color_spec(),
    {
        match self {
            Verdict::Run(_) => Some(TextColor::LightBlue),
            Verdict::Reject(_) => Some(TextColor::LightBlue),
            _ => None,
        }
    }

    /// The color of the reply: white for an acknowledgement, light red for an
    /// error message; no reply otherwise.
    pub open spec fn reply_color_spec(self) -> Option<TextColor> {
        match self {
            Verdict::Run(_) => Some(TextColor::White),
            Verdict::Reject(_) => Some(TextColor::LightRed),
            _ => None,
        }
    }

    pub fn reply_color(self) -> (r: Option<TextColor>)
        ensures
            r == self.reply_color_spec(),
    {
        match self {
            Verdict::Run(_) => Some(TextColor::White),
            Verdict::Reject(_) => Some(TextColor::LightRed),
            _ => None,
        }
    }

    /// The status that goes back to the host: written (1) for every line but
    /// a forwarded one, whose status is the host writer's own.
    pub open spec fn status_spec(self) -> Option<u32> {
        if self is Forward {
            None
        } else {
            Some(1u32)
        }
    }

    pub fn status(self) -> (r: Option<u32>)
        ensures
            r == self.status_spec(),
    {
        match self {
            Verdict::Forward => None,
            _ => Some(1),
        }
    }

    /// The work to be done after the reply: only a well-formed command asks
    /// for any.
    pub open spec fn operation_spec(self) -> Operation {
        match self {
            Verdict::Run(c) => c.operation_spec(),
            _ => Operation::Nothing,
        }
    }

    pub fn operation(self) -> (r: Operation)
        ensures
            r == self.operation_spec(),
    {
        match self {
            Verdict::Run(c) => c.operation(),
            _ => Operation::Nothing,
        }
    }
}

/// The interceptor's answer to one output line.
#[derive(Debug)]
pub struct Reaction {
    pub verdict: Verdict,
    /// The reply to write through the host's own writer; empty where the
    /// verdict has no reply color.
    pub reply: Vec<char>,
    /// The reply as a nul-terminated wide string, ready for the host's own
    /// writer; `None` where there is no reply, or where it cannot be written
    /// as one.
    pub reply_wide: Option<Vec<u16>>,
}

/// The prefix that marks an output line as a command.
pub open spec fn command_prefix() -> Seq<char> {
    "> /hax"@
}

/// The words that follow the trigger prefix.
pub open spec fn command_words(text: Seq<char>) -> Seq<Seq<char>> {
    words(text.skip(command_prefix().len() as int))
}

/// The verdict on `text`, given whether the previous line armed suppression.
pub open spec fn verdict_spec(suppress: bool, text: Seq<char>) -> Verdict {
    if suppress {
        Verdict::Swallow
    } else if !has_prefix(text, command_prefix()) {
        Verdict::Forward
    } else {
        match parse_spec(command_words(text)) {
            Ok(c) => Verdict::Run(c),
            Err(e) => Verdict::Reject(e),
        }
    }
}

/// Whether the line after `text` is to be swallowed: exactly when `text` was
/// itself taken as a command line.
pub open spec fn suppress_after(suppress: bool, text: Seq<char>) -> bool {
    !suppress && has_prefix(text, command_prefix())
}

/// The reply to `text`.
pub open spec fn reply_spec(suppress: bool, text: Seq<char>) -> Seq<char> {
    match verdict_spec(suppress, text) {
        Verdict::Run(c) => c.describe_spec(),
        Verdict::Reject(e) => error_text_spec(command_words(text), e),
        _ => Seq::empty(),
    }
}

/// The reply to `text` as a nul-terminated wide string.
pub open spec fn reply_wide_spec(suppress: bool, text: Seq<char>) -> Option<Seq<u16>> {
    if verdict_spec(suppress, text).is_command() {
        wide_c_string(reply_spec(suppress, text))
    } else {
        None
    }
}

/// After a command line, exactly one line is swallowed, whatever it says, and
/// the line after that is judged afresh.
pub proof fn lemma_one_line_swallowed(command: Seq<char>, next: Seq<char>, third: Seq<char>)
    requires
        has_prefix(command, command_prefix()),
    ensures
        verdict_spec(false, command).is_command(),
        verdict_spec(suppress_after(false, command), next) == Verdict::Swallow,
        verdict_spec(suppress_after(suppress_after(false, command), next), third) == verdict_spec(
            false,
            third,
        ),
{
}

/// A line that is swallowed, forwarded or rejected asks for no work, and a
/// swallowed or forwarded line has no echo and no reply.
pub proof fn lemma_only_commands_act(suppress: bool, text: Seq<char>)
    ensures
        !(verdict_spec(suppress, text) is Run) ==> verdict_spec(suppress, text).operation_spec()
            == Operation::Nothing,
        !verdict_spec(suppress, text).is_command() ==> reply_spec(suppress, text).len() == 0
            && verdict_spec(suppress, text).echo_color_spec() is None && verdict_spec(
            suppress,
            text,
        ).reply_color_spec() is None,
{
}

/// The interceptor's state: one flag, armed by a command line and spent by the
/// line that follows it.
#[derive(Debug)]
pub struct ConsoleInterceptor {
    pub suppress_next: bool,
}

impl ConsoleInterceptor {
    /// An interceptor that swallows nothing yet.
    pub fn new() -> (r: ConsoleInterceptor)
        ensures
            !r.suppress_next,
    {
        ConsoleInterceptor { suppress_next: false }
    }

    /// Judges one decoded output line.
    pub fn on_text(&mut self, text: &Vec<char>) -> (r: Reaction)
        ensures
            r.verdict == verdict_spec(old(self).suppress_next, text@),
            r.reply@ == reply_spec(old(self).suppress_next, text@),
            wide_view(r.reply_wide) == reply_wide_spec(old(self).suppress_next, text@),
            final(self).suppress_next == suppress_after(old(self).suppress_next, text@),
    {
        if self.suppress_next {
            self.suppress_next = false;
            return Reaction { verdict: Verdict::Swallow, reply: Vec::new(), reply_wide: None };
        }
        let prefix = chars_of("> /hax");
        if !starts_with(text, &prefix) {
            return Reaction { verdict: Verdict::Forward, reply: Vec::new(), reply_wide: None };
        }
        self.suppress_next = true;
        let rest = tail_from(text, prefix.len());
        let args = split_words(&rest);
        let (verdict, reply) = match parse(&args) {
            Ok(c) => (Verdict::Run(c), c.describe()),
            Err(e) => (Verdict::Reject(e), error_text(&args, e)),
        };
        let reply_wide = encode_wide(&reply);
        Reaction { verdict, reply, reply_wide }
    }

    /// Judges one output line as the host hands it over, in UTF-16 units
    /// without the terminator. The line is decoded first; units without
    /// surrogates decode to themselves.
    pub fn on_message(&mut self, units: &[u16]) -> (r: Reaction)
        ensures
            no_surrogates(units@) ==> utf16_lossy(units@) == plain_chars(units@),
            r.verdict == verdict_spec(old(self).suppress_next, utf16_lossy(units@)),
            r.reply@ == reply_spec(old(self).suppress_next, utf16_lossy(units@)),
            wide_view(r.reply_wide) == reply_wide_spec(
                old(self).suppress_next,
                utf16_lossy(units@),
            ),
            final(self).suppress_next == suppress_after(
                old(self).suppress_next,
                utf16_lossy(units@),
            ),
    {
        let text = decode_wide(units);
        self.on_text(&text)
    }
}

} // verus!
