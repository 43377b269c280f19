use cat_trim::cli::{interpret, parse_jobs, respond, Cli, CliError, Command, Values};
use clap::builder::OsStr;

fn parse(words: &[&str]) -> Result<Cli, CliError> {
    let words: Vec<OsStr> = words.iter().map(|word| OsStr::from(word.to_string())).collect();
    Cli::try_parse_from(words, 4)
}

fn usage(words: &[&str]) -> (String, i32) {
    match parse(words) {
        Err(CliError::Usage { message, exit_code }) => (message, exit_code),
        other => panic!("{other:?}"),
    }
}

#[test]
fn parses_subcommands_and_options() {
    let cli = parse(&["InvalidCertificate", "scan", "image", "--log", "out.txt"]).unwrap();
    assert!(matches!(cli.command, Command::Scan(_)));

    let cli = parse(&["InvalidCertificate", "move", "image", "dest", "--force"]).unwrap();
    assert!(matches!(cli.command, Command::Move(_)));

    let cli = parse(&["InvalidCertificate", "delete", "image"]).unwrap();
    assert!(matches!(cli.command, Command::Delete(_)));
}

#[test]
fn rejects_invalid_option_combinations() {
    assert!(parse(&["InvalidCertificate", "move", "image"]).is_err());
    assert!(parse(&["InvalidCertificate", "scan", "image", "--force"]).is_err());
    assert!(parse(&["InvalidCertificate", "scan", "image", "--jobs", "0"]).is_err());
    assert!(parse(&["InvalidCertificate", "move", "image", "dest", "--log", "x"]).is_err());
}

#[test]
fn arguments_reach_their_fields() {
    let cli = parse(&["p", "scan", "image", "--log", "out.txt", "--jobs", "7"]).unwrap();
    match cli.command {
        Command::Scan(args) => {
            assert_eq!(args.image_root, "image");
            assert_eq!(args.jobs, 7);
            assert_eq!(args.log, Some(OsStr::from("out.txt")));
        }
        other => panic!("{other:?}"),
    }
    let cli = parse(&["p", "move", "--force", "image", "dest"]).unwrap();
    match cli.command {
        Command::Move(args) => {
            assert_eq!(args.image_root, "image");
            assert_eq!(args.destination, "dest");
            assert_eq!(args.jobs, 4);
            assert!(args.force);
        }
        other => panic!("{other:?}"),
    }
    let cli = parse(&["p", "delete", "image", "--jobs=+12"]).unwrap();
    match cli.command {
        Command::Delete(args) => {
            assert_eq!(args.image_root, "image");
            assert_eq!(args.jobs, 12);
            assert!(!args.force);
        }
        other => panic!("{other:?}"),
    }
}

#[test]
fn no_log_is_no_log() {
    match parse(&["p", "scan", "image"]).unwrap().command {
        Command::Scan(args) => assert_eq!(args.log, None),
        other => panic!("{other:?}"),
    }
}

#[test]
fn help_is_told_from_misuse() {
    let (message, exit_code) = usage(&["p", "--help"]);
    assert_eq!(exit_code, 0);
    assert!(message.contains("Find and remove CAT files"));
    assert!(message.contains("Permanently delete invalid CAT files"));
    let (message, exit_code) = usage(&["p", "scan", "--help"]);
    assert_eq!(exit_code, 0);
    assert!(message.contains("[default: 4]"));
    assert!(message.contains("<IMAGE_ROOT>"));
    assert!(message.contains("--log <PATH>"));
    assert!(message.contains("--jobs <JOBS>"));
    let (message, exit_code) = usage(&["p", "move", "--help"]);
    assert_eq!(exit_code, 0);
    assert!(message.starts_with("Move invalid CAT files to a destination directory"));
    assert!(message.contains("<DEST_DIR>"));
    assert_eq!(usage(&["p", "sweep", "image"]).1, 2);
    assert_eq!(usage(&["p"]).1, 2);
    assert_eq!(usage(&[]).1, 2);
}

#[test]
fn a_wrong_number_of_threads_is_told() {
    let (message, exit_code) = usage(&["p", "scan", "image", "--jobs", "many"]);
    assert_eq!(exit_code, 2);
    assert!(message.starts_with(
        "error: invalid value 'many' for '--jobs <JOBS>': jobs must be a positive integer\n"
    ));
    let (message, exit_code) = usage(&["p", "delete", "image", "--jobs", "0"]);
    assert_eq!(exit_code, 2);
    assert!(message.starts_with(
        "error: invalid value '0' for '--jobs <JOBS>': jobs must be greater than zero\n"
    ));
}

#[test]
fn a_wrong_number_of_threads_comes_before_help() {
    let (message, exit_code) = usage(&["p", "scan", "image", "--jobs", "0", "--help"]);
    assert_eq!(exit_code, 2);
    assert!(message.contains("jobs must be greater than zero"));
}

#[test]
fn empty_paths_are_refused() {
    let (message, exit_code) = usage(&["p", "scan", ""]);
    assert_eq!(exit_code, 2);
    assert!(message.contains("a value is required for '<IMAGE_ROOT>' but none was supplied"));
    assert_eq!(usage(&["p", "scan", "image", "--log", ""]).1, 2);
    assert_eq!(usage(&["p", "move", "image", ""]).1, 2);
}

fn values() -> Values {
    Values {
        image_root: Some(OsStr::from("C:\\mount")),
        destination: None,
        log: None,
        jobs: Some(3),
        force: Some(true),
    }
}

#[test]
fn interpretation_stands_without_a_command_line() {
    match interpret("delete".to_string(), values()).unwrap().command {
        Command::Delete(args) => {
            assert_eq!(args.image_root, "C:\\mount");
            assert_eq!(args.jobs, 3);
            assert!(args.force);
        }
        other => panic!("{other:?}"),
    }
    let with_log = Values { log: Some(OsStr::from("x.txt")), ..values() };
    match interpret("scan".to_string(), with_log).unwrap().command {
        Command::Scan(args) => assert_eq!(args.log, Some(OsStr::from("x.txt"))),
        other => panic!("{other:?}"),
    }
    let missing = |command: &str, values: Values| match interpret(command.to_string(), values) {
        Err(CliError::Missing(id)) => id,
        other => panic!("{other:?}"),
    };
    assert_eq!(missing("move", values()), "destination");
    assert_eq!(missing("scan", Values { jobs: None, ..values() }), "jobs");
    assert_eq!(missing("delete", Values { force: None, ..values() }), "force");
    assert_eq!(missing("delete", Values { image_root: None, ..values() }), "image_root");
    match interpret("sweep".to_string(), values()) {
        Err(CliError::UnknownCommand(name)) => assert_eq!(name, "sweep"),
        other => panic!("{other:?}"),
    }
}

#[test]
fn what_is_said_of_a_command_line_is_handed_on() {
    let refused = respond(Err(("no such thing".to_string(), 2))).unwrap_err();
    assert_eq!(refused.message(), "no such thing");
    assert_eq!(refused.exit_code(), 2);
    let help = respond(Err(("this is how".to_string(), 0))).unwrap_err();
    assert_eq!(help.message(), "this is how");
    assert_eq!(help.exit_code(), 0);
    let none = respond(Ok(None)).unwrap_err();
    assert_eq!(none.message(), "error: a subcommand is required but one was not provided\n");
    assert_eq!(none.exit_code(), 2);
    let some = respond(Ok(Some(("delete".to_string(), values())))).unwrap();
    assert!(matches!(some.command, Command::Delete(_)));
}

#[test]
fn refusals_are_told() {
    assert_eq!(
        CliError::Missing("force").message(),
        "error: the following required argument was not provided: force\n"
    );
    assert_eq!(
        CliError::UnknownCommand("sweep".to_string()).message(),
        "error: the subcommand 'sweep' wasn't recognized\n"
    );
    assert_eq!(CliError::Missing("force").exit_code(), 2);
}

#[test]
fn numbers_of_threads() {
    let positive = "jobs must be a positive integer".to_string();
    assert_eq!(parse_jobs("1"), Ok(1));
    assert_eq!(parse_jobs("+1"), Ok(1));
    assert_eq!(parse_jobs("007"), Ok(7));
    assert_eq!(parse_jobs(&usize::MAX.to_string()), Ok(usize::MAX));
    assert_eq!(parse_jobs("0"), Err("jobs must be greater than zero".to_string()));
    assert_eq!(parse_jobs("+0"), Err("jobs must be greater than zero".to_string()));
    for text in ["", "+", "-1", "-0", "1.5", " 1", "1 ", "one", "++1", "1+", "\u{662}"] {
        assert_eq!(parse_jobs(text), Err(positive.clone()), "{text:?}");
    }
    let beyond = format!("{}0", usize::MAX);
    assert_eq!(parse_jobs(&beyond), Err(positive.clone()));
    let next = (usize::MAX as u128 + 1).to_string();
    assert_eq!(parse_jobs(&next), Err(positive));
}

#[test]
fn every_number_of_threads_is_read_back() {
    for n in [1usize, 9, 10, 99, 100, 4096, usize::MAX - 1, usize::MAX] {
        assert_eq!(parse_jobs(&cat_trim::text::decimal(n)), Ok(n));
        assert_eq!(cat_trim::text::decimal(n), n.to_string());
    }
    assert_eq!(cat_trim::text::decimal(0), "0");
}
