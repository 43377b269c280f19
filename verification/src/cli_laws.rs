//! What holds of the command line.

use vstd::prelude::*;

use crate::cli::{
    answer, encoded, request, values_in, Arguments, Cli, CliError, Command, Values,
};

verus! {

/// What the command `move` asks for is what was found: the value of the flag `force`, the number
/// `jobs`, and the words `image_root` and `destination`, each under its own name. It asks for
/// something exactly if all of them were found, and else tells which is missing first.
pub proof fn law_move_asks_for_what_was_found(found: Arguments, cli: Result<Cli, CliError>)
    requires
        answer(cli) == request("move"@, values_in(found)),
    ensures
        cli matches Ok(cli) ==> {
            &&& cli.command matches Command::Move(args) && {
                &&& found.flags.contains_key("force"@) && args.force == found.flags["force"@]
                &&& found.numbers.contains_key("jobs"@) && args.jobs == found.numbers["jobs"@]
                &&& found.words.contains_key("image_root"@) && encoded(args.image_root)
                    == found.words["image_root"@]
                &&& found.words.contains_key("destination"@) && encoded(args.destination)
                    == found.words["destination"@]
            }
        },
        cli is Ok <==> found.flags.contains_key("force"@) && found.numbers.contains_key("jobs"@)
            && found.words.contains_key("image_root"@) && found.words.contains_key("destination"@),
        cli matches Err(e) ==> {
            &&& e matches CliError::Missing(id) && {
                ||| id@ == "image_root"@ && !found.words.contains_key("image_root"@)
                ||| id@ == "destination"@ && found.words.contains_key("image_root"@)
                    && !found.words.contains_key("destination"@)
                ||| id@ == "jobs"@ && found.words.contains_key("image_root"@)
                    && found.words.contains_key("destination"@)
                    && !found.numbers.contains_key("jobs"@)
                ||| id@ == "force"@ && found.words.contains_key("image_root"@)
                    && found.words.contains_key("destination"@)
                    && found.numbers.contains_key("jobs"@)
                    && !found.flags.contains_key("force"@)
            }
        },
{
    lemma_names_differ();
}

/// What the command `delete` asks for is what was found: the value of the flag `force`, the number
/// `jobs`, and the word `image_root`. It asks for something exactly if all of them were found, and
/// else tells which is missing first.
pub proof fn law_delete_asks_for_what_was_found(found: Arguments, cli: Result<Cli, CliError>)
    requires
        answer(cli) == request("delete"@, values_in(found)),
    ensures
        cli matches Ok(cli) ==> {
            &&& cli.command matches Command::Delete(args) && {
                &&& found.flags.contains_key("force"@) && args.force == found.flags["force"@]
                &&& found.numbers.contains_key("jobs"@) && args.jobs == found.numbers["jobs"@]
                &&& found.words.contains_key("image_root"@) && encoded(args.image_root)
                    == found.words["image_root"@]
            }
        },
        cli is Ok <==> found.flags.contains_key("force"@) && found.numbers.contains_key("jobs"@)
            && found.words.contains_key("image_root"@),
        cli matches Err(e) ==> {
            &&& e matches CliError::Missing(id) && {
                ||| id@ == "image_root"@ && !found.words.contains_key("image_root"@)
                ||| id@ == "jobs"@ && found.words.contains_key("image_root"@)
                    && !found.numbers.contains_key("jobs"@)
                ||| id@ == "force"@ && found.words.contains_key("image_root"@)
                    && found.numbers.contains_key("jobs"@)
                    && !found.flags.contains_key("force"@)
            }
        },
{
    lemma_names_differ();
}

/// What the command `scan` asks for is what was found: the number `jobs`, the word `image_root`, and
/// the word `log` if there is one. It asks for something exactly if the first two were found, and
/// else tells which is missing first.
pub proof fn law_scan_asks_for_what_was_found(found: Arguments, cli: Result<Cli, CliError>)
    requires
        answer(cli) == request("scan"@, values_in(found)),
    ensures
        cli matches Ok(cli) ==> {
            &&& cli.command matches Command::Scan(args) && {
                &&& found.numbers.contains_key("jobs"@) && args.jobs == found.numbers["jobs"@]
                &&& found.words.contains_key("image_root"@) && encoded(args.image_root)
                    == found.words["image_root"@]
                &&& args.log is Some <==> found.words.contains_key("log"@)
                &&& args.log matches Some(log) ==> encoded(log) == found.words["log"@]
            }
        },
        cli is Ok <==> found.numbers.contains_key("jobs"@) && found.words.contains_key(
            "image_root"@,
        ),
        cli matches Err(e) ==> {
            &&& e matches CliError::Missing(id) && {
                ||| id@ == "image_root"@ && !found.words.contains_key("image_root"@)
                ||| id@ == "jobs"@ && found.words.contains_key("image_root"@)
                    && !found.numbers.contains_key("jobs"@)
            }
        },
{
    lemma_names_differ();
}

/// What a command asks for are the values that it was given, each in its own place.
pub proof fn law_values_reach_their_places(
    command: Seq<char>,
    values: Values,
    cli: Result<Cli, CliError>,
)
    requires
        answer(cli) == request(command, values@),
    ensures
        cli matches Ok(cli) ==> match cli.command {
            Command::Scan(args) => {
                &&& command == "scan"@
                &&& values.image_root is Some
                &&& encoded(args.image_root) == encoded(values.image_root->Some_0)
                &&& values.jobs == Some(args.jobs)
                &&& args.log is Some <==> values.log is Some
                &&& args.log is Some ==> encoded(args.log->Some_0) == encoded(values.log->Some_0)
            },
            Command::Move(args) => {
                &&& command == "move"@
                &&& values.image_root is Some
                &&& encoded(args.image_root) == encoded(values.image_root->Some_0)
                &&& values.destination is Some
                &&& encoded(args.destination) == encoded(values.destination->Some_0)
                &&& values.jobs == Some(args.jobs)
                &&& values.force == Some(args.force)
            },
            Command::Delete(args) => {
                &&& command == "delete"@
                &&& values.image_root is Some
                &&& encoded(args.image_root) == encoded(values.image_root->Some_0)
                &&& values.jobs == Some(args.jobs)
                &&& values.force == Some(args.force)
            },
        },
{
    lemma_names_differ();
}

/// There are three commands: any other is refused by its name, whatever its values.
pub proof fn law_other_commands_are_refused(
    command: Seq<char>,
    found: Arguments,
    cli: Result<Cli, CliError>,
)
    requires
        answer(cli) == request(command, values_in(found)),
    ensures
        command == "scan"@ || command == "move"@ || command == "delete"@ || (cli matches Err(
            CliError::UnknownCommand(name),
        ) && name@ == command),
        (cli matches Err(CliError::UnknownCommand(_))) ==> command != "scan"@ && command != "move"@
            && command != "delete"@,
{
    lemma_names_differ();
}

proof fn lemma_names_differ()
    ensures
        "scan"@ != "move"@,
        "scan"@ != "delete"@,
        "move"@ != "delete"@,
{
    reveal_strlit("scan");
    reveal_strlit("move");
    reveal_strlit("delete");
    assert("scan"@[0] != "move"@[0]);
    assert("scan"@.len() != "delete"@.len());
    assert("move"@.len() != "delete"@.len());
}

} // verus!
