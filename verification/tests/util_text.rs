use shaken::args::{Arguments, ExampleArgs, Kind, Match};
use shaken::errors::{dont_care, option_dont_care};
use shaken::help::HelpRegistry;
use shaken::queue::Queue;
use shaken::respond::{Callable, Response, ResponseKind};
use shaken::text::{format_u64, parse_u64, str_equal};
use shaken::util::{append_maybe, join_with, Quote};
use shaken::split_words;

#[test]
fn single_quote() {
    let s = Quote::Single("hello world".to_string());
    assert_eq!(s.render(), "'hello world'");
}

#[test]
fn double_quote() {
    let s = Quote::Double("hello world".to_string());
    assert_eq!(s.render(), "\"hello world\"");
}

#[test]
fn backtick_quote() {
    let s = Quote::Tick("hello world".to_string());
    assert_eq!(s.render(), "`hello world`");
}

#[test]
fn splitting_keeps_words_and_drops_spaces() {
    assert_eq!(split_words("the cat sat"), vec!["the", "cat", "sat"]);
    assert_eq!(split_words("  a \t b\nc  "), vec!["a", "b", "c"]);
    assert_eq!(split_words("   "), Vec::<String>::new());
    assert_eq!(split_words(""), Vec::<String>::new());
}

#[test]
fn joining_with_spaces() {
    let ws: Vec<String> = vec!["a".into(), "b".into(), "c".into()];
    assert_eq!(join_with(&ws, ' '), "a b c");
    assert_eq!(join_with(&ws, ','), "a,b,c");
    assert_eq!(join_with(&Vec::new(), ' '), "");
}

#[test]
fn decimal_round_trips() {
    assert_eq!(format_u64(0), "0");
    assert_eq!(format_u64(12345), "12345");
    assert_eq!(format_u64(u64::MAX), "18446744073709551615");
    assert_eq!(parse_u64("12345"), Some(12345));
    assert_eq!(parse_u64("0"), Some(0));
    assert_eq!(parse_u64(""), None);
    assert_eq!(parse_u64("12a"), None);
    assert_eq!(parse_u64("18446744073709551615"), Some(u64::MAX));
    assert_eq!(parse_u64("18446744073709551616"), None);
}

#[test]
fn string_equality_by_characters() {
    assert!(str_equal("abc", "abc"));
    assert!(!str_equal("abc", "abd"));
    assert!(!str_equal("abc", "ab"));
}

#[test]
fn usage_patterns_parse_into_slots() {
    let ea = ExampleArgs::parse("!add <name> <body..>").unwrap();
    assert_eq!(ea.args.len(), 2);
    assert_eq!(ea.args[0].key, "name");
    assert_eq!(ea.args[0].kind, Kind::Required);
    assert_eq!(ea.args[1].key, "body");
    assert_eq!(ea.args[1].kind, Kind::Variadic);

    let ea = ExampleArgs::parse("!speak <context?>").unwrap();
    assert_eq!(ea.args.len(), 1);
    assert_eq!(ea.args[0].kind, Kind::Optional);

    assert!(ExampleArgs::parse("<x> <x>").is_err());
    assert!(ExampleArgs::parse("no slots here").unwrap().args.is_empty());
}

#[test]
fn extraction_fills_the_slots() {
    let ea = ExampleArgs::parse("!add <name> <body..>").unwrap();
    match ea.extract("!foo some long body") {
        Match::Match(args) => {
            assert_eq!(args.get("name").unwrap(), "!foo");
            assert_eq!(args.get("body").unwrap(), "some long body");
            assert!(args.get("missing").is_err());
        }
        _ => panic!("expected a match"),
    }

    match ea.extract("") {
        Match::Required => {}
        _ => panic!("a required slot got nothing"),
    }

    let none = ExampleArgs::parse("!commands").unwrap();
    match none.extract("") {
        Match::Exact => {}
        _ => panic!("no slots and no text"),
    }
    match none.extract("extra") {
        Match::NoMatch => {}
        _ => panic!("text where the pattern takes none"),
    }
}

#[test]
fn parsed_arguments_read_numbers() {
    let ea = ExampleArgs::parse("!take <count>").unwrap();
    match ea.extract("17") {
        Match::Match(args) => {
            assert_eq!(args.get_parsed("count").unwrap(), 17);
        }
        _ => panic!("expected a match"),
    }
    let args = Arguments::default();
    assert!(args.get_parsed("count").is_err());
}

#[test]
fn responses_accumulate_in_order() {
    let r = Response::empty()
        .say("one".to_string())
        .reply("two".to_string())
        .problem("three".to_string());
    assert!(!r.is_empty());
    assert_eq!(r.kind.len(), 3);
    assert!(matches!(&r.kind[0], ResponseKind::Say(s) if s == "one"));
    assert!(matches!(&r.kind[1], ResponseKind::Reply(s) if s == "two"));
    assert!(matches!(&r.kind[2], ResponseKind::Problem(s) if s == "three"));

    let folded = Response::fold_many(vec![
        Response::empty().say("a".to_string()),
        Response::empty(),
        Response::empty().say("b".to_string()).say("c".to_string()),
    ]);
    assert_eq!(folded.kind.len(), 3);
}

#[test]
fn help_registry_finds_usage() {
    let mut help = HelpRegistry::default();
    help.add("!speak", "tries to speak", "!speak <context..>");
    help.add("!bare", "has no usage line", "   ");
    assert_eq!(help.lookup("!speak"), Some(("!speak <context..>", "tries to speak")));
    assert_eq!(help.lookup("!bare"), None);
    assert_eq!(help.lookup("!nope"), None);
    let all: Vec<&str> = help.get_all_commands();
    assert_eq!(all, vec!["!speak", "!bare"]);

    // an entry without a usage line is passed over, not final
    help.add("!bare", "registered again, with usage", "!bare <x>");
    assert_eq!(
        help.lookup("!bare"),
        Some(("!bare <x>", "registered again, with usage"))
    );
}

struct TwoCommands;

impl Callable for TwoCommands {
    fn command_names(&self) -> Vec<String> {
        vec!["!first".to_string(), "!second".to_string()]
    }

    fn all_usage_and_help(&self) -> Vec<(String, String)> {
        vec![
            ("!first <x>".to_string(), "does the first thing".to_string()),
            ("!second".to_string(), "does the second thing".to_string()),
        ]
    }
}

#[test]
fn help_registry_built_from_a_module() {
    let help = HelpRegistry::create_from(&TwoCommands);
    let all: Vec<&str> = help.get_all_commands();
    assert_eq!(all, vec!["!first", "!second"]);
    assert_eq!(
        help.lookup("!first"),
        Some(("!first <x>", "does the first thing"))
    );
}

#[test]
fn bounded_queue_drops_the_oldest() {
    let mut q: Queue<u32> = Queue::with_capacity(2);
    assert!(q.is_empty());
    q.push(1);
    q.push(2);
    q.push(3);
    assert_eq!(q.len(), 2);
    assert_eq!(q.last(), Some(&3));
    assert_eq!(q.last_nth(0), Some(&3));
    assert_eq!(q.last_nth(1), Some(&2));
    assert_eq!(q.last_nth(2), None);
    assert!(q.has(&3));
    assert!(!q.has(&2));
    let newest_first: Vec<u32> = q.iter().into_iter().copied().collect();
    assert_eq!(newest_first, vec![3, 2]);
}

#[test]
fn dont_care_marks_silent_failures() {
    assert!(dont_care::<u32>().is_err());
    assert_eq!(option_dont_care(Some(5)).unwrap(), 5);
    assert!(option_dont_care::<u32>(None).is_err());
    let e = dont_care::<u32>().unwrap_err();
    assert_eq!(e.message, "DontCare");
}

#[test]
fn vectors_append_without_losing_order() {
    let mut a: Vec<u32> = vec![];
    append_maybe(&mut a, vec![1, 2]);
    assert_eq!(a, vec![1, 2]);
    append_maybe(&mut a, vec![]);
    assert_eq!(a, vec![1, 2]);
    append_maybe(&mut a, vec![3]);
    assert_eq!(a, vec![1, 2, 3]);
}
