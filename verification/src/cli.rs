//! The command line.

use clap::Command as Parser;
use vstd::prelude::*;
use vstd::utf8::{is_ascii_chars, is_ascii_chars_encode_utf8};

use crate::text::{
    decimal, decimal_text, decimal_value, is_digit, law_decimal_reads_back, lemma_decimal_grows,
    same_text,
};

verus! {

/// What is asked for on the command line.
#[derive(Debug)]
pub struct Cli {
    pub command: Command,
}

/// What to do with an image.
#[derive(Debug)]
pub enum Command {
    /// List the catalogs that vouch for nothing.
    Scan(ScanArgs),
    /// Move them to a directory.
    Move(MoveArgs),
    /// Delete them.
    Delete(DeleteArgs),
}

/// What to list, with how many threads, and where to.
#[derive(Debug)]
pub struct ScanArgs {
    pub image_root: clap::builder::OsStr,
    pub jobs: usize,
    pub log: Option<clap::builder::OsStr>,
}

/// What to move, where to, with how many threads, and whether in spite of errors.
#[derive(Debug)]
pub struct MoveArgs {
    pub image_root: clap::builder::OsStr,
    pub destination: clap::builder::OsStr,
    pub jobs: usize,
    pub force: bool,
}

/// What to delete, with how many threads, and whether in spite of errors.
#[derive(Debug)]
pub struct DeleteArgs {
    pub image_root: clap::builder::OsStr,
    pub jobs: usize,
    pub force: bool,
}

#[verifier::external_type_specification]
#[verifier::external_body]
pub struct ExOsStr(clap::builder::OsStr);

#[verifier::external_type_specification]
#[verifier::external_body]
pub struct ExParser(Parser);

#[verifier::external_type_specification]
#[verifier::external_body]
pub struct ExArgMatches(clap::ArgMatches);

/// Why a command line is refused.
#[derive(Debug)]
pub enum CliError {
    /// It does not have the layout of a command line, or asks for help: what to say, and the exit
    /// code.
    Usage {
        message: String,
        exit_code: i32,
    },
    /// There is no command.
    NoCommand,
    /// There is no command of that name.
    UnknownCommand(String),
    /// The argument of that name is missing.
    Missing(&'static str),
}

/// What `text` has for digits: all of it, but for a plus sign before it.
pub open spec fn unsigned(text: Seq<char>) -> Seq<char> {
    if text.len() > 0 && text[0] == '+' {
        text.skip(1)
    } else {
        text
    }
}

/// Every character of `text` is a decimal digit.
pub open spec fn all_digits(text: Seq<char>) -> bool {
    forall|i: int| 0 <= i < text.len() ==> is_digit(#[trigger] text[i])
}

/// The number that `text` gives: decimal digits, at least one, perhaps behind a plus sign.
pub open spec fn number(text: Seq<char>) -> Option<nat> {
    if unsigned(text).len() > 0 && all_digits(unsigned(text)) {
        Some(decimal_value(unsigned(text)))
    } else {
        None
    }
}

/// The number of threads that `text` gives, or what is wrong with it.
pub open spec fn jobs(text: Seq<char>) -> Result<nat, Seq<char>> {
    match number(text) {
        None => Err("jobs must be a positive integer"@),
        Some(n) => if n > usize::MAX {
            Err("jobs must be a positive integer"@)
        } else if n == 0 {
            Err("jobs must be greater than zero"@)
        } else {
            Ok(n)
        },
    }
}

/// Every positive number of threads is read back from its digits.
pub proof fn law_jobs_read_back(n: usize)
    requires
        n > 0,
    ensures
        jobs(decimal_text(n as nat)) == Ok::<nat, Seq<char>>(n as nat),
{
    law_decimal_reads_back(n as nat);
}

/// The number that `value` gives, where it is one and not too large.
fn parse_number(value: &str) -> (parsed: Option<usize>)
    ensures
        match parsed {
            Some(n) => number(value@) == Some(n as nat),
            None => match number(value@) {
                None => true,
                Some(n) => n > usize::MAX,
            },
        },
{
    let ghost text = value@;
    let ghost digits = unsigned(text);
    if !value.is_ascii() {
        proof {
            let k = choose|k: int| 0 <= k < text.len() && !('\0' <= #[trigger] text[k] <= '\u{7f}');
            if digits.len() < text.len() {
                assert(digits[k - 1] == text[k]);
            } else {
                assert(digits[k] == text[k]);
            }
        }
        return None;
    }
    let bytes = value.as_bytes();
    proof {
        is_ascii_chars_encode_utf8(text);
        assert(forall|i: int| 0 <= i < text.len() ==> (#[trigger] text[i]) as u8 == bytes@[i]);
    }
    let start: usize = if bytes.len() > 0 && bytes[0] == 0x2B {
        1
    } else {
        0
    };
    assert(digits =~= text.skip(start as int));
    let mut n: usize = 0;
    if bytes.len() == start {
        return None;
    }
    let mut i: usize = start;
    assert(digits.take(0) =~= Seq::<char>::empty());
    while i < bytes.len()
        invariant
            start <= i <= bytes@.len(),
            text == value@,
            is_ascii_chars(text),
            bytes@.len() == text.len(),
            digits == text.skip(start as int),
            digits == unsigned(text),
            forall|k: int| 0 <= k < text.len() ==> (#[trigger] text[k]) as u8 == bytes@[k],
            forall|k: int| 0 <= k < i - start ==> is_digit(#[trigger] digits[k]),
            n == decimal_value(digits.take(i - start)),
        decreases bytes.len() - i,
    {
        let byte: u8 = bytes[i];
        let ghost at = i - start;
        assert(digits[at] == text[i as int]);
        if byte < 0x30 || byte > 0x39 {
            assert(!is_digit(digits[at]));
            return None;
        }
        let digit: usize = (byte - 0x30) as usize;
        proof {
            let longer = digits.take(at + 1);
            assert(longer.drop_last() =~= digits.take(at));
            assert(longer.last() == digits[at]);
            assert(decimal_value(longer) == n * 10 + digit);
        }
        if n > (usize::MAX - digit) / 10 {
            proof {
                assert(n * 10 + digit > usize::MAX);
                if number(text) is Some {
                    lemma_decimal_grows(digits, at + 1);
                }
            }
            return None;
        }
        n = n * 10 + digit;
        i = i + 1;
    }
    assert(digits.take(digits.len() as int) =~= digits);
    Some(n)
}

/// Reads a number of threads.
pub fn parse_jobs(value: &str) -> (parsed: Result<usize, String>)
    ensures
        match parsed {
            Ok(n) => jobs(value@) == Ok::<nat, Seq<char>>(n as nat),
            Err(message) => jobs(value@) == Err::<nat, Seq<char>>(message@),
        },
{
    match parse_number(value) {
        None => Err("jobs must be a positive integer".to_owned()),
        Some(n) => if n == 0 {
            Err("jobs must be greater than zero".to_owned())
        } else {
            Ok(n)
        },
    }
}

/// An argument of a command.
pub ghost enum ArgumentView {
    /// A path, given by its place, or by its name where it has one; it is shown by its label.
    Path { id: Seq<char>, long: Option<Seq<char>>, label: Seq<char>, required: bool },
    /// A number of threads, given by its name, for which the default stands.
    Jobs { id: Seq<char>, label: Seq<char>, default: Seq<char> },
    /// A flag, given by its name.
    Flag { id: Seq<char> },
}

/// A command of a command line: its name, what it is for, and its arguments.
#[verifier::ext_equal]
pub ghost struct SubcommandView {
    pub name: Seq<char>,
    pub about: Seq<char>,
    pub arguments: Seq<ArgumentView>,
}

/// A command line: the name of the program, what it is for, its arguments and commands, and
/// whether a command must be given.
#[verifier::ext_equal]
pub ghost struct LayoutView {
    pub name: Seq<char>,
    pub about: Seq<char>,
    pub arguments: Seq<ArgumentView>,
    pub commands: Seq<SubcommandView>,
    pub command_required: bool,
}

impl LayoutView {
    /// A command line without arguments and commands.
    pub open spec fn bare(name: Seq<char>, about: Seq<char>) -> LayoutView {
        LayoutView { name, about, arguments: seq![], commands: seq![], command_required: false }
    }

    /// The same with one more argument.
    pub open spec fn with_argument(self, argument: ArgumentView) -> LayoutView {
        LayoutView { arguments: self.arguments.push(argument), ..self }
    }

    /// The same with one more command.
    pub open spec fn with_command(self, command: SubcommandView) -> LayoutView {
        LayoutView { commands: self.commands.push(command), ..self }
    }
}

/// The command line of this program, where `default_jobs` threads are the default.
pub open spec fn command_line(default_jobs: nat) -> LayoutView {
    let image_root = ArgumentView::Path {
        id: "image_root"@,
        long: None,
        label: "IMAGE_ROOT"@,
        required: true,
    };
    let destination = ArgumentView::Path {
        id: "destination"@,
        long: None,
        label: "DEST_DIR"@,
        required: true,
    };
    let log = ArgumentView::Path {
        id: "log"@,
        long: Some("log"@),
        label: "PATH"@,
        required: false,
    };
    let jobs = ArgumentView::Jobs {
        id: "jobs"@,
        label: "JOBS"@,
        default: decimal_text(default_jobs),
    };
    let force = ArgumentView::Flag { id: "force"@ };
    LayoutView {
        name: "InvalidCertificate"@,
        about: "Find and remove CAT files that match no PE or INF in an offline image"@,
        arguments: seq![],
        commands: seq![
            SubcommandView {
                name: "scan"@,
                about: "Scan an offline image and emit the invalid CAT paths"@,
                arguments: seq![image_root, jobs, log],
            },
            SubcommandView {
                name: "move"@,
                about: "Move invalid CAT files to a destination directory"@,
                arguments: seq![image_root, destination, jobs, force],
            },
            SubcommandView {
                name: "delete"@,
                about: "Permanently delete invalid CAT files"@,
                arguments: seq![image_root, jobs, force],
            },
        ],
        command_required: true,
    }
}

/// The bytes of which a `clap::builder::OsStr` is made, as the platform encodes them.
pub uninterp spec fn encoded(word: clap::builder::OsStr) -> Seq<u8>;

/// The arguments and subcommands that a `clap::Command` holds, and its settings.
pub uninterp spec fn layout_of(command: clap::Command) -> LayoutView;

/// `clap::Command::new` and `about`: a command without arguments.
#[verifier::external_body]
fn clap_command(name: &'static str, about: &'static str) -> (command: clap::Command)
    ensures
        layout_of(command) == LayoutView::bare(name@, about@),
{
    clap::Command::new(name).about(about)
}

/// `clap::Command::arg`: adds a path, which `clap` takes as it is given, unless it is empty.
#[verifier::external_body]
fn clap_add_path(
    command: clap::Command,
    id: &'static str,
    long: Option<&'static str>,
    label: &'static str,
    required: bool,
) -> (more: clap::Command)
    ensures
        layout_of(more) == layout_of(command).with_argument(
            ArgumentView::Path {
                id: id@,
                long: match long {
                    Some(long) => Some(long@),
                    None => None,
                },
                label: label@,
                required,
            },
        ),
{
    let argument = clap::Arg::new(id).long(long).value_name(label).required(required);
    command.arg(argument.value_parser(clap::builder::ValueParser::path_buf()))
}

/// `clap::Command::arg`: adds a number of threads, which `clap` has `parse_jobs` read.
#[verifier::external_body]
fn clap_add_jobs(
    command: clap::Command,
    id: &'static str,
    label: &'static str,
    default: String,
) -> (more: clap::Command)
    ensures
        layout_of(more) == layout_of(command).with_argument(
            ArgumentView::Jobs { id: id@, label: label@, default: default@ },
        ),
{
    let argument = clap::Arg::new(id).long(id).value_name(label).default_value(default);
    command.arg(argument.value_parser(parse_jobs))
}

/// `clap::Command::arg`: adds a flag.
#[verifier::external_body]
fn clap_add_flag(command: clap::Command, id: &'static str) -> (more: clap::Command)
    ensures
        layout_of(more) == layout_of(command).with_argument(ArgumentView::Flag { id: id@ }),
{
    command.arg(clap::Arg::new(id).long(id).action(clap::ArgAction::SetTrue))
}

/// `clap::Command::subcommand`: adds a subcommand, which has none of its own.
#[verifier::external_body]
fn clap_add_command(command: clap::Command, inner: clap::Command) -> (more: clap::Command)
    requires
        layout_of(inner).commands.len() == 0,
        !layout_of(inner).command_required,
    ensures
        layout_of(more) == layout_of(command).with_command(
            SubcommandView {
                name: layout_of(inner).name,
                about: layout_of(inner).about,
                arguments: layout_of(inner).arguments,
            },
        ),
{
    command.subcommand(inner)
}

/// `clap::Command::subcommand_required` and `arg_required_else_help`: a subcommand must be given,
/// and without any word there is help.
#[verifier::external_body]
fn clap_require_command(command: clap::Command) -> (same: clap::Command)
    ensures
        layout_of(same) == (LayoutView { command_required: true, ..layout_of(command) }),
{
    command.subcommand_required(true).arg_required_else_help(true)
}

/// Builds the command line of this program.
fn build_command_line(default_jobs: usize) -> (command: clap::Command)
    ensures
        layout_of(command) == command_line(default_jobs as nat),
{
    let scan = clap_command("scan", "Scan an offline image and emit the invalid CAT paths");
    let scan = clap_add_path(scan, "image_root", None, "IMAGE_ROOT", true);
    let scan = clap_add_jobs(scan, "jobs", "JOBS", decimal(default_jobs));
    let scan = clap_add_path(scan, "log", Some("log"), "PATH", false);
    let relocate = clap_command("move", "Move invalid CAT files to a destination directory");
    let relocate = clap_add_path(relocate, "image_root", None, "IMAGE_ROOT", true);
    let relocate = clap_add_path(relocate, "destination", None, "DEST_DIR", true);
    let relocate = clap_add_jobs(relocate, "jobs", "JOBS", decimal(default_jobs));
    let relocate = clap_add_flag(relocate, "force");
    let delete = clap_command("delete", "Permanently delete invalid CAT files");
    let delete = clap_add_path(delete, "image_root", None, "IMAGE_ROOT", true);
    let delete = clap_add_jobs(delete, "jobs", "JOBS", decimal(default_jobs));
    let delete = clap_add_flag(delete, "force");
    let ghost model = command_line(default_jobs as nat);
    assert(layout_of(scan).arguments =~= model.commands[0].arguments);
    assert(layout_of(relocate).arguments =~= model.commands[1].arguments);
    assert(layout_of(delete).arguments =~= model.commands[2].arguments);
    let command = clap_command(
        "InvalidCertificate",
        "Find and remove CAT files that match no PE or INF in an offline image",
    );
    let command = clap_add_command(command, scan);
    let command = clap_add_command(command, relocate);
    let command = clap_add_command(command, delete);
    let command = clap_require_command(command);
    assert(layout_of(command).commands =~= model.commands);
    assert(layout_of(command) =~= model);
    command
}

/// The values that were found for the arguments of a command, each under the name of the argument:
/// the numbers, the flags, and for all of them the word as it was given.
pub ghost struct Arguments {
    pub numbers: Map<Seq<char>, usize>,
    pub flags: Map<Seq<char>, bool>,
    pub words: Map<Seq<char>, Seq<u8>>,
}

/// The values of the arguments that `clap::ArgMatches` hold.
pub uninterp spec fn arguments(matches: clap::ArgMatches) -> Arguments;

/// The subcommand that `clap::ArgMatches` hold, and the values of its arguments.
pub uninterp spec fn matched(matches: clap::ArgMatches) -> Option<(Seq<char>, Arguments)>;

/// What `clap::Command::try_get_matches_from` makes of words on a command line of this layout: the
/// command and the values of its arguments, or an exit code.
pub uninterp spec fn parsed(layout: LayoutView, words: Seq<Seq<u8>>) -> Result<
    (Seq<char>, Arguments),
    i32,
>;

/// There is what an argument asks for: a path that must be given is there, and none is empty; a
/// number of threads is there and was read as one; whether a flag is set is there.
pub open spec fn provided(argument: ArgumentView, found: Arguments) -> bool {
    match argument {
        ArgumentView::Path { id, required, .. } => {
            &&& required ==> found.words.contains_key(id)
            &&& found.words.contains_key(id) ==> found.words[id].len() > 0
        },
        ArgumentView::Jobs { id, .. } => {
            &&& found.numbers.contains_key(id)
            &&& exists|text: Seq<char>| #[trigger]
                jobs(text) == Ok::<nat, Seq<char>>(found.numbers[id] as nat)
        },
        ArgumentView::Flag { id } => found.flags.contains_key(id),
    }
}

/// The command is one of the layout, and there is what each of its arguments asks for.
pub open spec fn complete(layout: LayoutView, command: Seq<char>, found: Arguments) -> bool {
    exists|i: int|
        0 <= i < layout.commands.len() && (#[trigger] layout.commands[i]).name == command
            && forall|j: int|
            0 <= j < layout.commands[i].arguments.len() ==> provided(
                #[trigger] layout.commands[i].arguments[j],
                found,
            )
}

/// The bytes of each of `words`.
pub open spec fn encodings(words: Seq<clap::builder::OsStr>) -> Seq<Seq<u8>> {
    words.map_values(|word: clap::builder::OsStr| encoded(word))
}

/// `clap::Command::try_get_matches_from`. What the words hold depends on them and the layout alone,
/// and so does the exit code where they are refused, which is zero for help and two otherwise.
/// Where they are accepted, the command is one of the layout and its arguments have what they ask
/// for. The message is left open: it calls the program by the last name in the path that is the
/// first word, and where that begins is up to the platform. The layout must be this program's, on
/// which `clap` finds nothing to panic about.
#[verifier::external_body]
fn clap_parse(command: clap::Command, words: Vec<clap::builder::OsStr>) -> (found: Result<
    clap::ArgMatches,
    (String, i32),
>)
    requires
        exists|default_jobs: nat|
            0 < default_jobs <= usize::MAX && layout_of(command) == #[trigger] command_line(
                default_jobs,
            ),
    ensures
        match found {
            Ok(matches) => {
                &&& matched(matches) matches Some((name, values)) && complete(
                    layout_of(command),
                    name,
                    values,
                ) && parsed(layout_of(command), encodings(words@)) == Ok::<
                    (Seq<char>, Arguments),
                    i32,
                >((name, values))
            },
            Err((_, exit_code)) => {
                &&& parsed(layout_of(command), encodings(words@)) == Err::<
                    (Seq<char>, Arguments),
                    i32,
                >(exit_code)
                &&& exit_code == 0 || exit_code == 2
            },
        },
{
    command.try_get_matches_from(words).map_err(|e| (e.to_string(), e.exit_code()))
}

/// `clap::ArgMatches::remove_subcommand`: the subcommand, with the values of its arguments.
#[verifier::external_body]
fn clap_subcommand(matches: clap::ArgMatches) -> (found: Option<(String, clap::ArgMatches)>)
    ensures
        match found {
            Some((name, inner)) => matched(matches) == Some((name@, arguments(inner))),
            None => matched(matches) is None,
        },
{
    let mut matches = matches;
    matches.remove_subcommand()
}

/// What is found under `id`, if anything is.
pub open spec fn lookup<T>(values: Map<Seq<char>, T>, id: Seq<char>) -> Option<T> {
    if values.contains_key(id) {
        Some(values[id])
    } else {
        None
    }
}

/// `clap::ArgMatches::try_get_one`: the number that is the value of the argument `id`.
#[verifier::external_body]
fn clap_number(matches: &clap::ArgMatches, id: &str) -> (value: Option<usize>)
    ensures
        value == lookup(arguments(*matches).numbers, id@),
{
    matches.try_get_one::<usize>(id).ok().flatten().copied()
}

/// `clap::ArgMatches::try_get_one`: the flag that is the value of the argument `id`.
#[verifier::external_body]
fn clap_flag(matches: &clap::ArgMatches, id: &str) -> (value: Option<bool>)
    ensures
        value == lookup(arguments(*matches).flags, id@),
{
    matches.try_get_one::<bool>(id).ok().flatten().copied()
}

/// `clap::ArgMatches::try_get_raw`: the word that is the value of the argument `id`.
#[verifier::external_body]
fn clap_word(matches: &clap::ArgMatches, id: &str) -> (value: Option<clap::builder::OsStr>)
    ensures
        match value {
            Some(word) => lookup(arguments(*matches).words, id@) == Some(encoded(word)),
            None => lookup(arguments(*matches).words, id@) is None,
        },
{
    let raw = matches.try_get_raw(id).ok().flatten();
    raw.and_then(|mut raw| raw.next()).map(|word| word.to_os_string().into())
}

/// The bytes of a word, if there is one.
pub open spec fn encoding(word: Option<clap::builder::OsStr>) -> Option<Seq<u8>> {
    match word {
        Some(word) => Some(encoded(word)),
        None => None,
    }
}

/// The values of the arguments of a command, those that it has and that were found.
#[derive(Debug)]
pub struct Values {
    pub image_root: Option<clap::builder::OsStr>,
    pub destination: Option<clap::builder::OsStr>,
    pub log: Option<clap::builder::OsStr>,
    pub jobs: Option<usize>,
    pub force: Option<bool>,
}

/// What `Values` say.
pub ghost struct ValuesView {
    pub image_root: Option<Seq<u8>>,
    pub destination: Option<Seq<u8>>,
    pub log: Option<Seq<u8>>,
    pub jobs: Option<usize>,
    pub force: Option<bool>,
}

impl View for Values {
    type V = ValuesView;

    open spec fn view(&self) -> ValuesView {
        ValuesView {
            image_root: encoding(self.image_root),
            destination: encoding(self.destination),
            log: encoding(self.log),
            jobs: self.jobs,
            force: self.force,
        }
    }
}

/// The values among `found` of the arguments that a command can have.
pub open spec fn values_in(found: Arguments) -> ValuesView {
    ValuesView {
        image_root: lookup(found.words, "image_root"@),
        destination: lookup(found.words, "destination"@),
        log: lookup(found.words, "log"@),
        jobs: lookup(found.numbers, "jobs"@),
        force: lookup(found.flags, "force"@),
    }
}

fn take_values(matches: &clap::ArgMatches) -> (values: Values)
    ensures
        values@ == values_in(arguments(*matches)),
{
    Values {
        image_root: clap_word(matches, "image_root"),
        destination: clap_word(matches, "destination"),
        log: clap_word(matches, "log"),
        jobs: clap_number(matches, "jobs"),
        force: clap_flag(matches, "force"),
    }
}

/// What a `Cli` asks for.
pub ghost enum Request {
    Scan { image_root: Seq<u8>, jobs: usize, log: Option<Seq<u8>> },
    Move { image_root: Seq<u8>, destination: Seq<u8>, jobs: usize, force: bool },
    Delete { image_root: Seq<u8>, jobs: usize, force: bool },
}

/// What a `CliError` says.
pub ghost enum Refusal {
    Usage(Seq<char>, i32),
    NoCommand,
    UnknownCommand(Seq<char>),
    Missing(Seq<char>),
}

impl View for Cli {
    type V = Request;

    open spec fn view(&self) -> Request {
        match self.command {
            Command::Scan(args) => Request::Scan {
                image_root: encoded(args.image_root),
                jobs: args.jobs,
                log: encoding(args.log),
            },
            Command::Move(args) => Request::Move {
                image_root: encoded(args.image_root),
                destination: encoded(args.destination),
                jobs: args.jobs,
                force: args.force,
            },
            Command::Delete(args) => Request::Delete {
                image_root: encoded(args.image_root),
                jobs: args.jobs,
                force: args.force,
            },
        }
    }
}

impl View for CliError {
    type V = Refusal;

    open spec fn view(&self) -> Refusal {
        match self {
            CliError::Usage { message, exit_code } => Refusal::Usage(message@, *exit_code),
            CliError::NoCommand => Refusal::NoCommand,
            CliError::UnknownCommand(name) => Refusal::UnknownCommand(name@),
            CliError::Missing(id) => Refusal::Missing(id@),
        }
    }
}

/// What is told of a refused command line.
pub open spec fn refusal_text(refusal: Refusal) -> Seq<char> {
    match refusal {
        Refusal::Usage(message, _) => message,
        Refusal::NoCommand => "error: a subcommand is required but one was not provided\n"@,
        Refusal::UnknownCommand(name) => "error: the subcommand '"@ + name
            + "' wasn't recognized\n"@,
        Refusal::Missing(id) => "error: the following required argument was not provided: "@ + id
            + "\n"@,
    }
}

impl CliError {
    /// What is told of the command line.
    pub fn message(&self) -> (text: String)
        ensures
            text@ == refusal_text(self@),
    {
        match self {
            CliError::Usage { message, .. } => message.clone(),
            CliError::NoCommand => {
                "error: a subcommand is required but one was not provided\n".to_owned()
            },
            CliError::UnknownCommand(name) => {
                let mut text = "error: the subcommand '".to_owned();
                text.push_str(name.as_str());
                text.push_str("' wasn't recognized\n");
                text
            },
            CliError::Missing(id) => {
                let mut text =
                    "error: the following required argument was not provided: ".to_owned();
                text.push_str(id);
                text.push_str("\n");
                text
            },
        }
    }

    /// The exit code of the program.
    pub fn exit_code(&self) -> (code: i32)
        ensures
            code == match self@ {
                Refusal::Usage(_, code) => code,
                _ => 2,
            },
    {
        match self {
            CliError::Usage { exit_code, .. } => *exit_code,
            _ => 2,
        }
    }
}

/// What a result says.
pub open spec fn answer(result: Result<Cli, CliError>) -> Result<Request, Refusal> {
    match result {
        Ok(cli) => Ok(cli@),
        Err(e) => Err(e@),
    }
}

/// What the command `scan` with these values asks for.
pub open spec fn scan_request(values: ValuesView) -> Result<Request, Refusal> {
    match (values.image_root, values.jobs) {
        (None, _) => Err(Refusal::Missing("image_root"@)),
        (_, None) => Err(Refusal::Missing("jobs"@)),
        (Some(image_root), Some(jobs)) => Ok(Request::Scan { image_root, jobs, log: values.log }),
    }
}

/// What the command `move` with these values asks for.
pub open spec fn move_request(values: ValuesView) -> Result<Request, Refusal> {
    match (values.image_root, values.destination, values.jobs, values.force) {
        (None, _, _, _) => Err(Refusal::Missing("image_root"@)),
        (_, None, _, _) => Err(Refusal::Missing("destination"@)),
        (_, _, None, _) => Err(Refusal::Missing("jobs"@)),
        (_, _, _, None) => Err(Refusal::Missing("force"@)),
        (Some(image_root), Some(destination), Some(jobs), Some(force)) => Ok(
            Request::Move { image_root, destination, jobs, force },
        ),
    }
}

/// What the command `delete` with these values asks for.
pub open spec fn delete_request(values: ValuesView) -> Result<Request, Refusal> {
    match (values.image_root, values.jobs, values.force) {
        (None, _, _) => Err(Refusal::Missing("image_root"@)),
        (_, None, _) => Err(Refusal::Missing("jobs"@)),
        (_, _, None) => Err(Refusal::Missing("force"@)),
        (Some(image_root), Some(jobs), Some(force)) => Ok(
            Request::Delete { image_root, jobs, force },
        ),
    }
}

/// What a command with these values asks for.
pub open spec fn request(command: Seq<char>, values: ValuesView) -> Result<Request, Refusal> {
    if command == "scan"@ {
        scan_request(values)
    } else if command == "move"@ {
        move_request(values)
    } else if command == "delete"@ {
        delete_request(values)
    } else {
        Err(Refusal::UnknownCommand(command))
    }
}

/// Reads a command and the values of its arguments.
pub fn interpret(command: String, values: Values) -> (cli: Result<Cli, CliError>)
    ensures
        answer(cli) == request(command@, values@),
        cli matches Ok(cli) ==> match cli.command {
            Command::Scan(args) => {
                &&& command@ == "scan"@
                &&& values.image_root == Some(args.image_root)
                &&& values.jobs == Some(args.jobs)
                &&& values.log == args.log
            },
            Command::Move(args) => {
                &&& command@ == "move"@
                &&& values.image_root == Some(args.image_root)
                &&& values.destination == Some(args.destination)
                &&& values.jobs == Some(args.jobs)
                &&& values.force == Some(args.force)
            },
            Command::Delete(args) => {
                &&& command@ == "delete"@
                &&& values.image_root == Some(args.image_root)
                &&& values.jobs == Some(args.jobs)
                &&& values.force == Some(args.force)
            },
        },
{
    if same_text(command.as_str(), "scan") {
        match (values.image_root, values.jobs) {
            (None, _) => Err(CliError::Missing("image_root")),
            (_, None) => Err(CliError::Missing("jobs")),
            (Some(image_root), Some(jobs)) => Ok(
                Cli { command: Command::Scan(ScanArgs { image_root, jobs, log: values.log }) },
            ),
        }
    } else if same_text(command.as_str(), "move") {
        match (values.image_root, values.destination, values.jobs, values.force) {
            (None, _, _, _) => Err(CliError::Missing("image_root")),
            (_, None, _, _) => Err(CliError::Missing("destination")),
            (_, _, None, _) => Err(CliError::Missing("jobs")),
            (_, _, _, None) => Err(CliError::Missing("force")),
            (Some(image_root), Some(destination), Some(jobs), Some(force)) => Ok(
                Cli { command: Command::Move(MoveArgs { image_root, destination, jobs, force }) },
            ),
        }
    } else if same_text(command.as_str(), "delete") {
        match (values.image_root, values.jobs, values.force) {
            (None, _, _) => Err(CliError::Missing("image_root")),
            (_, None, _) => Err(CliError::Missing("jobs")),
            (_, _, None) => Err(CliError::Missing("force")),
            (Some(image_root), Some(jobs), Some(force)) => Ok(
                Cli { command: Command::Delete(DeleteArgs { image_root, jobs, force }) },
            ),
        }
    } else {
        Err(CliError::UnknownCommand(command))
    }
}

/// Answers a command line that was taken apart: what is to be done, or why it is refused. What is
/// to be said of a command line that was refused, and its exit code, are handed on.
pub fn respond(found: Result<Option<(String, Values)>, (String, i32)>) -> (cli: Result<
    Cli,
    CliError,
>)
    ensures
        answer(cli) == match found {
            Err((message, exit_code)) => Err(Refusal::Usage(message@, exit_code)),
            Ok(None) => Err(Refusal::NoCommand),
            Ok(Some((command, values))) => request(command@, values@),
        },
{
    match found {
        Err((message, exit_code)) => Err(CliError::Usage { message, exit_code }),
        Ok(None) => Err(CliError::NoCommand),
        Ok(Some((command, values))) => interpret(command, values),
    }
}

/// What is asked for makes sense: at least one thread, and no empty path.
pub open spec fn sensible(request: Request) -> bool {
    match request {
        Request::Scan { image_root, jobs, log } => {
            &&& image_root.len() > 0
            &&& jobs > 0
            &&& log matches Some(log) ==> log.len() > 0
        },
        Request::Move { image_root, destination, jobs, .. } => {
            &&& image_root.len() > 0
            &&& destination.len() > 0
            &&& jobs > 0
        },
        Request::Delete { image_root, jobs, .. } => {
            &&& image_root.len() > 0
            &&& jobs > 0
        },
    }
}

/// Where a command of this program has what its arguments ask for, it asks for something that
/// makes sense.
proof fn lemma_complete_is_accepted(default_jobs: nat, command: Seq<char>, found: Arguments)
    requires
        complete(command_line(default_jobs), command, found),
    ensures
        request(command, values_in(found)) is Ok,
        sensible(request(command, values_in(found))->Ok_0),
{
    let layout = command_line(default_jobs);
    let i = choose|i: int|
        0 <= i < layout.commands.len() && (#[trigger] layout.commands[i]).name == command
            && forall|j: int|
            0 <= j < layout.commands[i].arguments.len() ==> provided(
                #[trigger] layout.commands[i].arguments[j],
                found,
            );
    reveal_strlit("scan");
    reveal_strlit("move");
    reveal_strlit("delete");
    assert("scan"@[0] != "move"@[0]);
    assert("scan"@.len() != "delete"@.len());
    assert("move"@.len() != "delete"@.len());
    let all = layout.commands[i].arguments;
    assert(provided(all[0], found));
    assert(provided(all[1], found));
    assert(provided(all[2], found));
    if i == 1 {
        assert(provided(all[3], found));
    }
}

impl Cli {
    /// Reads the words of a command line, the first of which is the program, where
    /// `default_jobs` threads are the default.
    pub fn try_parse_from(words: Vec<clap::builder::OsStr>, default_jobs: usize) -> (cli: Result<
        Cli,
        CliError,
    >)
        requires
            default_jobs > 0,
        ensures
            match parsed(command_line(default_jobs as nat), encodings(words@)) {
                Ok((command, found)) => {
                    &&& cli is Ok
                    &&& answer(cli) == request(command, values_in(found))
                    &&& sensible(cli->Ok_0@)
                    &&& match cli->Ok_0.command {
                        Command::Scan(args) => {
                            &&& command == "scan"@
                            &&& encoded(args.image_root) == found.words["image_root"@]
                            &&& args.jobs == found.numbers["jobs"@]
                            &&& args.log is Some <==> found.words.contains_key("log"@)
                            &&& args.log matches Some(log) ==> encoded(log) == found.words["log"@]
                        },
                        Command::Move(args) => {
                            &&& command == "move"@
                            &&& encoded(args.image_root) == found.words["image_root"@]
                            &&& encoded(args.destination) == found.words["destination"@]
                            &&& args.jobs == found.numbers["jobs"@]
                            &&& args.force == found.flags["force"@]
                        },
                        Command::Delete(args) => {
                            &&& command == "delete"@
                            &&& encoded(args.image_root) == found.words["image_root"@]
                            &&& args.jobs == found.numbers["jobs"@]
                            &&& args.force == found.flags["force"@]
                        },
                    }
                },
                Err(code) => {
                    &&& code == 0 || code == 2
                    &&& answer(cli) matches Err(Refusal::Usage(_, exit_code)) && exit_code == code
                },
            },
    {
        let found = match clap_parse(build_command_line(default_jobs), words) {
            Err(refused) => Err(refused),
            Ok(matches) => {
                proof {
                    let (command, found) = matched(matches)->Some_0;
                    lemma_complete_is_accepted(default_jobs as nat, command, found);
                }
                match clap_subcommand(matches) {
                    None => Ok(None),
                    Some((command, inner)) => Ok(Some((command, take_values(&inner)))),
                }
            },
        };
        respond(found)
    }
}

} // verus!
