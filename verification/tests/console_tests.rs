use nox_hax::command::{error_text, parse, Command, Operation, ParseError};
use nox_hax::console::{ConsoleInterceptor, TextColor, Verdict};
use nox_hax::text::{chars_of, is_ascii_space, is_word, same_text, split_words, starts_with, tail_from};

fn text(s: &str) -> Vec<char> {
    s.chars().collect()
}

fn string(v: &[char]) -> String {
    v.iter().collect()
}

fn word_list(words: &[&str]) -> Vec<Vec<char>> {
    words.iter().map(|w| text(w)).collect()
}

fn units(s: &str) -> Vec<u16> {
    s.encode_utf16().collect()
}

#[test]
fn chars_of_copies_the_literal() {
    assert_eq!(chars_of("> /hax"), vec!['>', ' ', '/', 'h', 'a', 'x']);
    assert_eq!(chars_of(""), Vec::<char>::new());
    assert_eq!(chars_of("é✓"), vec!['é', '✓']);
}

#[test]
fn ascii_space_is_exactly_five_characters() {
    for c in [' ', '\t', '\n', '\x0C', '\r'] {
        assert!(is_ascii_space(c));
    }
    for c in ['a', '-', '\x0B', '\u{a0}', '\0'] {
        assert!(!is_ascii_space(c));
    }
}

#[test]
fn same_text_and_is_word_compare_whole_sequences() {
    assert!(same_text(&text("abc"), &text("abc")));
    assert!(!same_text(&text("abc"), &text("abd")));
    assert!(!same_text(&text("abc"), &text("ab")));
    assert!(is_word(&text("--dump"), "--dump"));
    assert!(!is_word(&text("--dum"), "--dump"));
    assert!(!is_word(&text("--dumps"), "--dump"));
}

#[test]
fn starts_with_needs_the_whole_prefix() {
    assert!(starts_with(&text("> /hax entities"), &text("> /hax")));
    assert!(starts_with(&text("> /hax"), &text("> /hax")));
    assert!(!starts_with(&text("> /ha"), &text("> /hax")));
    assert!(!starts_with(&text(" > /hax"), &text("> /hax")));
    assert!(starts_with(&text("anything"), &text("")));
}

#[test]
fn tail_from_drops_the_head() {
    assert_eq!(tail_from(&text("> /hax enable"), 6), text(" enable"));
    assert_eq!(tail_from(&text("abc"), 3), text(""));
    assert_eq!(tail_from(&text("abc"), 0), text("abc"));
}

#[test]
fn split_words_drops_every_kind_of_whitespace() {
    assert_eq!(split_words(&text("  entities \t -d\r\n")), word_list(&["entities", "-d"]));
    assert_eq!(split_words(&text("one")), word_list(&["one"]));
    assert_eq!(split_words(&text(" \x0C ")), word_list(&[]));
    assert_eq!(split_words(&text("")), word_list(&[]));
    assert_eq!(split_words(&text("a\u{a0}b c")), word_list(&["a\u{a0}b", "c"]));
}

#[test]
fn parse_accepts_both_spellings_of_each_switch() {
    assert_eq!(parse(&word_list(&["entities", "-d"])), Ok(Command::Entities { dump: true }));
    assert_eq!(parse(&word_list(&["entities", "--dump"])), Ok(Command::Entities { dump: true }));
    assert_eq!(parse(&word_list(&["entities"])), Ok(Command::Entities { dump: false }));
    assert_eq!(parse(&word_list(&["enable", "-c"])), Ok(Command::Enable { circle: true }));
    assert_eq!(parse(&word_list(&["enable", "--circle"])), Ok(Command::Enable { circle: true }));
    assert_eq!(parse(&word_list(&["enable"])), Ok(Command::Enable { circle: false }));
    assert_eq!(parse(&word_list(&["entities", "-d", "--dump"])), Ok(Command::Entities { dump: true }));
}

#[test]
fn parse_reports_each_error() {
    assert_eq!(parse(&word_list(&[])), Err(ParseError::MissingSubcommand));
    assert_eq!(
        parse(&word_list(&["bogus"])),
        Err(ParseError::UnrecognizedArgument { position: 0 })
    );
    assert_eq!(
        parse(&word_list(&["entities", "-c"])),
        Err(ParseError::UnrecognizedArgument { position: 1 })
    );
    assert_eq!(
        parse(&word_list(&["enable", "-c", "-d", "-x"])),
        Err(ParseError::UnrecognizedArgument { position: 2 })
    );
    assert_eq!(
        parse(&word_list(&["Entities"])),
        Err(ParseError::UnrecognizedArgument { position: 0 })
    );
}

#[test]
fn operations_follow_the_switches() {
    assert_eq!(Command::Entities { dump: true }.operation(), Operation::DumpEntities);
    assert_eq!(Command::Entities { dump: false }.operation(), Operation::Nothing);
    assert_eq!(Command::Enable { circle: true }.operation(), Operation::StartCircle);
    assert_eq!(Command::Enable { circle: false }.operation(), Operation::Nothing);
}

#[test]
fn describe_and_error_text_are_exact() {
    assert_eq!(string(&Command::Entities { dump: true }.describe()), "HaxCLI { subcommand: Entity(EntitySubcommand { dump: true }) }");
    assert_eq!(string(&Command::Entities { dump: false }.describe()), "HaxCLI { subcommand: Entity(EntitySubcommand { dump: false }) }");
    assert_eq!(string(&Command::Enable { circle: true }.describe()), "HaxCLI { subcommand: Enable(EnableSubcommand { circle: true }) }");
    assert_eq!(string(&Command::Enable { circle: false }.describe()), "HaxCLI { subcommand: Enable(EnableSubcommand { circle: false }) }");
    let args = word_list(&["enable", "--square"]);
    assert_eq!(
        string(&error_text(&args, ParseError::UnrecognizedArgument { position: 1 })),
        "Unrecognized argument: --square\n"
    );
    assert_eq!(
        string(&error_text(&args, ParseError::UnrecognizedArgument { position: 2 })),
        "Unrecognized argument\n"
    );
    assert_eq!(
        string(&error_text(&args, ParseError::MissingSubcommand)),
        "One of the following subcommands must be present:\n    entities\n    enable\n"
    );
}

#[test]
fn dump_command_runs_once_and_swallows_the_next_line() {
    let mut console = ConsoleInterceptor::new();
    let first = console.on_text(&text("> /hax entities -d"));
    assert_eq!(first.verdict, Verdict::Run(Command::Entities { dump: true }));
    assert_eq!(first.verdict.operation(), Operation::DumpEntities);
    assert_eq!(first.verdict.echo_color(), Some(TextColor::LightBlue));
    assert_eq!(first.verdict.reply_color(), Some(TextColor::White));
    assert_eq!(string(&first.reply), "HaxCLI { subcommand: Entity(EntitySubcommand { dump: true }) }");
    assert!(console.suppress_next);

    let second = console.on_text(&text("> /hax entities -d"));
    assert_eq!(second.verdict, Verdict::Swallow);
    assert_eq!(second.verdict.operation(), Operation::Nothing);
    assert_eq!(second.verdict.echo_color(), None);
    assert_eq!(second.verdict.reply_color(), None);
    assert!(second.reply.is_empty());
    assert!(!console.suppress_next);

    let third = console.on_text(&text("hello"));
    assert_eq!(third.verdict, Verdict::Forward);
    assert_eq!(third.verdict.operation(), Operation::Nothing);
    assert!(third.reply.is_empty());
    assert!(!console.suppress_next);
}

#[test]
fn circle_command_asks_for_the_motion() {
    let mut console = ConsoleInterceptor::new();
    let r = console.on_text(&text("> /hax enable -c"));
    assert_eq!(r.verdict, Verdict::Run(Command::Enable { circle: true }));
    assert_eq!(r.verdict.operation(), Operation::StartCircle);
    assert!(console.suppress_next);
}

#[test]
fn unrecognized_command_gives_an_error_and_no_operation() {
    let mut console = ConsoleInterceptor::new();
    let r = console.on_text(&text("> /hax bogus"));
    assert_eq!(r.verdict, Verdict::Reject(ParseError::UnrecognizedArgument { position: 0 }));
    assert_eq!(r.verdict.operation(), Operation::Nothing);
    assert_eq!(r.verdict.echo_color(), Some(TextColor::LightBlue));
    assert_eq!(r.verdict.reply_color(), Some(TextColor::LightRed));
    assert_eq!(string(&r.reply), "Unrecognized argument: bogus\n");
    assert!(console.suppress_next);
}

#[test]
fn bare_trigger_lacks_a_subcommand() {
    let mut console = ConsoleInterceptor::new();
    let r = console.on_text(&text("> /hax"));
    assert_eq!(r.verdict, Verdict::Reject(ParseError::MissingSubcommand));
    assert_eq!(
        string(&r.reply),
        "One of the following subcommands must be present:\n    entities\n    enable\n"
    );
}

#[test]
fn trigger_glued_to_a_word_is_still_a_command_line() {
    let mut console = ConsoleInterceptor::new();
    let r = console.on_text(&text("> /haxentities -d"));
    assert_eq!(r.verdict, Verdict::Run(Command::Entities { dump: true }));
}

#[test]
fn wide_messages_are_decoded_before_they_are_judged() {
    let mut console = ConsoleInterceptor::new();
    let r = console.on_message(&units("> /hax enable --circle"));
    assert_eq!(r.verdict, Verdict::Run(Command::Enable { circle: true }));
    let swallowed = console.on_message(&units("echo"));
    assert_eq!(swallowed.verdict, Verdict::Swallow);
    let plain = console.on_message(&units("Welcome"));
    assert_eq!(plain.verdict, Verdict::Forward);
}

#[test]
fn wide_messages_decode_pairs_and_replace_lone_surrogates() {
    let mut console = ConsoleInterceptor::new();
    let mut message = units("> /hax ");
    message.extend_from_slice(&[0xD834, 0xDD1E, 0xD800, 0x0078]);
    let r = console.on_message(&message);
    assert_eq!(r.verdict, Verdict::Reject(ParseError::UnrecognizedArgument { position: 0 }));
    assert_eq!(string(&r.reply), "Unrecognized argument: \u{1D11E}\u{FFFD}x\n");
}

#[test]
fn color_codes_run_from_one_to_sixteen() {
    assert_eq!(TextColor::Black.code(), 1);
    assert_eq!(TextColor::White.code(), 3);
    assert_eq!(TextColor::LightRed.code(), 7);
    assert_eq!(TextColor::LightBlue.code(), 13);
    assert_eq!(TextColor::LightYellow.code(), 16);
    for code in 1..=16u32 {
        let color = TextColor::from_code(code).unwrap();
        assert_eq!(color.code(), code);
    }
    assert_eq!(TextColor::from_code(0), None);
    assert_eq!(TextColor::from_code(17), None);
}

#[test]
fn replies_come_as_terminated_wide_strings() {
    let mut console = ConsoleInterceptor::new();
    let r = console.on_text(&text("> /hax bogus"));
    let mut want = units("Unrecognized argument: bogus\n");
    want.push(0);
    assert_eq!(r.reply_wide, Some(want));

    let mut console = ConsoleInterceptor::new();
    let r = console.on_text(&text("> /hax entities --dump"));
    let mut want = units("HaxCLI { subcommand: Entity(EntitySubcommand { dump: true }) }");
    want.push(0);
    assert_eq!(r.reply_wide, Some(want));
}

#[test]
fn wide_replies_encode_characters_beyond_the_basic_plane() {
    let mut console = ConsoleInterceptor::new();
    let r = console.on_text(&text("> /hax \u{1D11E}"));
    let mut want = units("Unrecognized argument: ");
    want.extend_from_slice(&[0xD834, 0xDD1E, 0x000A, 0]);
    assert_eq!(r.reply_wide, Some(want));
}

#[test]
fn reply_with_an_interior_nul_has_no_wide_form() {
    let mut console = ConsoleInterceptor::new();
    let r = console.on_text(&text("> /hax a\0b"));
    assert_eq!(r.verdict, Verdict::Reject(ParseError::UnrecognizedArgument { position: 0 }));
    assert_eq!(string(&r.reply), "Unrecognized argument: a\0b\n");
    assert_eq!(r.reply_wide, None);
}

#[test]
fn lines_without_a_reply_have_no_wide_form() {
    let mut console = ConsoleInterceptor::new();
    assert_eq!(console.on_text(&text("plain")).reply_wide, None);
    console.on_text(&text("> /hax enable"));
    assert_eq!(console.on_text(&text("next")).reply_wide, None);
}

#[test]
fn words_keep_every_character_but_whitespace() {
    let line = text(" \tenable  --circle\r\n -c ");
    let joined: Vec<char> = split_words(&line).into_iter().flatten().collect();
    let solid: Vec<char> = line.iter().copied().filter(|c| !is_ascii_space(*c)).collect();
    assert_eq!(joined, solid);
    assert_eq!(string(&joined), "enable--circle-c");
}

#[test]
fn color_is_reachable_from_the_crate_root() {
    assert_eq!(nox_hax::TextColor::Green.code(), 9);
    assert_eq!(nox_hax::TextColor::from_code(15), Some(TextColor::Yellow));
}

#[test]
fn status_is_written_for_all_but_forwarded_lines() {
    assert_eq!(Verdict::Swallow.status(), Some(1));
    assert_eq!(Verdict::Run(Command::Enable { circle: false }).status(), Some(1));
    assert_eq!(Verdict::Reject(ParseError::MissingSubcommand).status(), Some(1));
    assert_eq!(Verdict::Forward.status(), None);
}

#[test]
fn subcommand_without_its_switch_is_acknowledged_and_dispatches_nothing() {
    let mut console = ConsoleInterceptor::new();
    let r = console.on_text(&text("> /hax entities"));
    assert_eq!(r.verdict, Verdict::Run(Command::Entities { dump: false }));
    assert_eq!(r.verdict.operation(), Operation::Nothing);
    assert_eq!(r.verdict.status(), Some(1));
    assert_eq!(r.verdict.echo_color(), Some(TextColor::LightBlue));
    assert_eq!(r.verdict.reply_color(), Some(TextColor::White));
    assert_eq!(
        string(&r.reply),
        "HaxCLI { subcommand: Entity(EntitySubcommand { dump: false }) }"
    );
    assert!(console.suppress_next);
}

#[test]
fn acknowledgements_spell_out_the_whole_command() {
    assert_eq!(
        string(&Command::Entities { dump: true }.describe()),
        "HaxCLI { subcommand: Entity(EntitySubcommand { dump: true }) }"
    );
    assert_eq!(
        string(&Command::Enable { circle: true }.describe()),
        "HaxCLI { subcommand: Enable(EnableSubcommand { circle: true }) }"
    );
    assert_eq!(
        string(&Command::Enable { circle: false }.describe()),
        "HaxCLI { subcommand: Enable(EnableSubcommand { circle: false }) }"
    );
}

#[test]
fn help_and_the_double_dash_are_unrecognized_words() {
    assert_eq!(parse(&word_list(&["help"])), Err(ParseError::UnrecognizedArgument { position: 0 }));
    assert_eq!(parse(&word_list(&["--help"])), Err(ParseError::UnrecognizedArgument { position: 0 }));
    assert_eq!(
        parse(&word_list(&["entities", "--help"])),
        Err(ParseError::UnrecognizedArgument { position: 1 })
    );
    assert_eq!(
        parse(&word_list(&["enable", "--", "-c"])),
        Err(ParseError::UnrecognizedArgument { position: 1 })
    );
}

#[test]
fn words_are_cut_at_every_whitespace_and_nowhere_else() {
    assert_eq!(split_words(&text("ab cd")), word_list(&["ab", "cd"]));
    assert_eq!(split_words(&text("abcd")), word_list(&["abcd"]));
    assert_eq!(split_words(&text("a\tb\nc\rd\x0Ce")), word_list(&["a", "b", "c", "d", "e"]));
}
