use std::collections::BTreeMap;
use taginode::command::{parse_command, split_tags, Command};
use taginode::opt::{get_opt_per, scan_options, usage, OptArg, OptCheck, OptError};

fn table<'a>() -> OptCheck<'a> {
    BTreeMap::from([
        (b'f', (OptArg::Mandatory("/.taginode.db"), "-f <db>")),
        (b'd', (OptArg::Mandatory(""), "-d <directory>")),
        (b'a', (OptArg::Flag, "-a")),
        (b'u', (OptArg::Flag, "-u")),
    ])
}

fn args(words: &[&str]) -> Vec<String> {
    words.iter().map(|s| s.to_string()).collect()
}

#[test]
fn split_tags_splits_at_commas() {
    assert_eq!(split_tags("hello,world"), vec!["hello", "world"]);
    assert_eq!(split_tags("one"), vec!["one"]);
    assert_eq!(split_tags(""), vec![""]);
    assert_eq!(split_tags("a,,b"), vec!["a", "", "b"]);
    assert_eq!(split_tags(",a,"), vec!["", "a", ""]);
    assert_eq!(split_tags("é,日本,x"), vec!["é", "日本", "x"]);
}

#[test]
fn commands_are_read() {
    match parse_command(&["tag", "/tmp/f", "a,b", "more"]) {
        Some(Command::Tag { path, tags }) => {
            assert_eq!(path, "/tmp/f");
            assert_eq!(tags, vec!["a", "b"]);
        },
        _ => panic!("tag was not read"),
    }
    match parse_command(&["search", "a,b"]) {
        Some(Command::Search { tags }) => assert_eq!(tags, vec!["a", "b"]),
        _ => panic!("search was not read"),
    }
    assert!(matches!(parse_command(&["list", "tags"]), Some(Command::List)));
    match parse_command(&["cat", "x", "y"]) {
        Some(Command::Cat { paths }) => assert_eq!(paths, vec!["x", "y"]),
        _ => panic!("cat was not read"),
    }
}

#[test]
fn commands_are_refused() {
    assert!(parse_command(&[]).is_none());
    assert!(parse_command(&["tag"]).is_none());
    assert!(parse_command(&["tag", "/tmp/f"]).is_none());
    assert!(parse_command(&["search"]).is_none());
    assert!(parse_command(&["search", "a", "b"]).is_none());
    assert!(parse_command(&["list"]).is_none());
    assert!(parse_command(&["list", "files"]).is_none());
    assert!(parse_command(&["cat"]).is_none());
    assert!(parse_command(&["remove", "x"]).is_none());
}

#[test]
fn options_have_defaults() {
    let t = table();
    let a = args(&["list", "tags"]);
    let (options, operands) = get_opt_per(&a, &t).unwrap();
    // an empty default does not count as given
    assert_eq!(options.len(), 1);
    assert_eq!(options.get(&b'f').copied(), Some("/.taginode.db"));
    assert_eq!(operands, vec!["list", "tags"]);
}

#[test]
fn options_take_arguments() {
    let t = table();
    let a = args(&["-f", "/tmp/a.db", "search", "-au", "-d/home/", "x,y"]);
    let (options, operands) = get_opt_per(&a, &t).unwrap();
    assert_eq!(options.get(&b'f').copied(), Some("/tmp/a.db"));
    assert_eq!(options.get(&b'd').copied(), Some("/home/"));
    assert_eq!(options.get(&b'a').copied(), Some(""));
    assert_eq!(options.get(&b'u').copied(), Some(""));
    assert_eq!(options.len(), 4);
    assert_eq!(operands, vec!["search", "x,y"]);

    // a flag and an option with its argument behind one dash
    let a = args(&["-ad", "dir", "-uf/x", "cat"]);
    let (options, operands) = get_opt_per(&a, &t).unwrap();
    assert_eq!(options.get(&b'd').copied(), Some("dir"));
    assert_eq!(options.get(&b'f').copied(), Some("/x"));
    assert_eq!(options.len(), 4);
    assert_eq!(operands, vec!["cat"]);

    // the rest of the argument is the option's, whatever it holds
    let a = args(&["-dau"]);
    let (options, operands) = get_opt_per(&a, &t).unwrap();
    assert_eq!(options.get(&b'd').copied(), Some("au"));
    assert!(options.get(&b'a').is_none());
    assert!(operands.is_empty());

    let a = args(&["-dé"]);
    let (options, _) = get_opt_per(&a, &t).unwrap();
    assert_eq!(options.get(&b'd').copied(), Some("é"));
}

#[test]
fn options_end_at_two_dashes() {
    let t = table();
    let a = args(&["-a", "--", "-u", "--", "x"]);
    let (options, operands) = get_opt_per(&a, &t).unwrap();
    assert!(options.get(&b'a').is_some());
    assert!(options.get(&b'u').is_none());
    assert_eq!(operands, vec!["-u", "--", "x"]);

    // a single dash is an operand
    let a = args(&["-", "x"]);
    let (_, operands) = get_opt_per(&a, &t).unwrap();
    assert_eq!(operands, vec!["-", "x"]);
}

#[test]
fn options_are_refused() {
    let t = table();
    let a = args(&["-ax"]);
    match get_opt_per(&a, &t) {
        Err(OptError::InvalidOption(c)) => assert_eq!(c, b'x'),
        _ => panic!("-x was taken"),
    }
    let a = args(&["search", "-d"]);
    match get_opt_per(&a, &t) {
        Err(OptError::MissingArgument(c)) => assert_eq!(c, b'd'),
        _ => panic!("-d was taken without its argument"),
    }
    let a = args(&["--all"]);
    assert!(matches!(get_opt_per(&a, &t), Err(OptError::InvalidOption(b'-'))));
    // a letter that is part of a longer character is no option
    let a = args(&["-é"]);
    assert!(matches!(get_opt_per(&a, &t), Err(OptError::InvalidOption(0xc3))));
    let mut odd = table();
    odd.insert(0xc3, (OptArg::Mandatory(""), "odd"));
    let a = args(&["-éx"]);
    assert!(matches!(get_opt_per(&a, &odd), Err(OptError::InvalidOption(0xc3))));
}

#[test]
fn errors_have_messages() {
    assert_eq!(OptError::InvalidOption(b'x').message(), "invalid option -- 'x'");
    assert_eq!(OptError::MissingArgument(b'd').message(), "option requires an argument -- 'd'");
    assert_eq!(OptError::InvalidOption(0xe9).message(), "invalid option -- 'é'");
}

#[test]
fn scan_reads_one_argument() {
    let t = table();
    let mut options = std::collections::HashMap::new();
    assert_eq!(scan_options(&t, "-au", None, &mut options).unwrap(), false);
    assert_eq!(scan_options(&t, "-d", Some("x"), &mut options).unwrap(), true);
    assert_eq!(options.get(&b'd').copied(), Some("x"));
    assert_eq!(options.len(), 3);
    assert!(matches!(
        scan_options(&t, "-d", None, &mut options),
        Err(OptError::MissingArgument(b'd'))
    ));
}

#[test]
fn usage_of_no_options_is_empty() {
    let none: OptCheck = BTreeMap::new();
    assert_eq!(usage(&none), "");
    let one: OptCheck = BTreeMap::from([(b'v', (OptArg::Flag, "-v verbose"))]);
    assert_eq!(usage(&one), "OPTIONS: \n\t-v verbose");
}
