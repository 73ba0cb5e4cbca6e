use std::collections::BTreeMap;
use taginode::opt::{get_opt_per, usage, OptArg};

#[test]
fn t_usage() {
    let opt_check = BTreeMap::from([
        (b'f', (OptArg::Mandatory("/.taginode.db"), "-f <db>        specify db path to store data, default ~/.taginode.db")),
        (b'd', (OptArg::Mandatory("."), "-d <directory> specify path to search file by tags, default \".\"")),
        (b'v', (OptArg::Flag, "-v             verbose")),
    ]);
    let usage = usage(&opt_check);
    println!("{usage}");
    assert_eq!(
        usage,
        "OPTIONS: \n\t-d <directory> specify path to search file by tags, default \".\"\n\t-f <db>        specify db path to store data, default ~/.taginode.db\n\t-v             verbose"
    );
}

#[test]
fn t_opt() {
    let opt_check = BTreeMap::from([
        (b'f', (OptArg::Mandatory("/.taginode.db"), "-f <db>        specify db path to store data, default ~/.taginode.db")),
        (b'd', (OptArg::Mandatory("."), "-d <directory> specify path to search file by tags, default \".\"")),
        (b'v', (OptArg::Flag, "-v             verbose")),
    ]);
    let args: Vec<String> = vec![
        String::from("taginode-cli"),
        String::from("search"),
        String::from("-d/home/"),
        String::from("hello,world"),
    ];
    let (options, operands) = match get_opt_per(&args[1..], &opt_check) {
        Ok(parsed) => parsed,
        Err(err) => panic!("{}: {:?}", args[0], err),
    };
    println!("{:?}", options);
    println!("{:?}", operands);
    assert_eq!(options.len(), 2);
    assert_eq!(options.get(&b'd').copied(), Some("/home/"));
    assert_eq!(options.get(&b'f').copied(), Some("/.taginode.db"));
    assert_eq!(operands, vec!["search", "hello,world"]);
}
