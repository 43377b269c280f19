//! What is printed.

use vstd::prelude::*;
use vstd::string::*;

use crate::operations::{successes, Attempt, FileRun};
use crate::path::FilePath;
use crate::report::{PathView, Report, ScanReport};
use crate::sort::shown;
use crate::text::{decimal_text, push_decimal, same_text};

verus! {

/// What Windows puts before the paths that it does not interpret.
pub const VERBATIM_PREFIX: &'static str = "\\\\?\\";

/// A path without the verbatim prefix, if it has it.
pub open spec fn plain_path(path: Seq<char>) -> Seq<char> {
    if VERBATIM_PREFIX@.is_prefix_of(path) {
        path.skip(VERBATIM_PREFIX@.len() as int)
    } else {
        path
    }
}

/// Each of `paths` without the verbatim prefix, on a line of its own.
pub open spec fn path_lines(paths: Seq<Seq<char>>) -> Seq<char>
    decreases paths.len(),
{
    if paths.len() == 0 {
        Seq::empty()
    } else {
        path_lines(paths.drop_last()) + plain_path(paths.last()).push('\n')
    }
}

/// A path without the verbatim prefix, if it has it.
fn strip_verbatim(path: &str) -> (plain: &str)
    ensures
        plain@ == plain_path(path@),
{
    let count: usize = path.unicode_len();
    let prefix_count: usize = VERBATIM_PREFIX.unicode_len();
    if count < prefix_count {
        return path;
    }
    let prefix = path.substring_char(0, prefix_count);
    if same_text(prefix, VERBATIM_PREFIX) {
        let plain = path.substring_char(prefix_count, count);
        assert(plain@ =~= path@.skip(VERBATIM_PREFIX@.len() as int));
        plain
    } else {
        path
    }
}

/// The invalid catalogs, given by their paths as text, one on each line.
pub fn render_invalid_paths(paths: &Vec<String>) -> (text: String)
    ensures
        text@ == path_lines(paths@.map_values(|p: String| p@)),
{
    let ghost all = paths@.map_values(|p: String| p@);
    let mut text = String::new();
    for i in 0..paths.len()
        invariant
            all == paths@.map_values(|p: String| p@),
            text@ == path_lines(all.take(i as int)),
    {
        proof {
            assert(all.take(i + 1).drop_last() =~= all.take(i as int));
            assert(all.take(i + 1).last() == paths@[i as int]@);
        }
        let ghost before = text@;
        text.push_str(strip_verbatim(paths[i].as_str()));
        text.push('\n');
        assert(text@ =~= before + plain_path(paths@[i as int]@).push('\n'));
    }
    assert(all.take(all.len() as int) =~= all);
    text
}

/// A line that tells a number.
pub open spec fn count_line(label: Seq<char>, number: nat) -> Seq<char> {
    label + decimal_text(number) + "\n"@
}

/// A line for each failure: the label, the path as text, and the message.
pub open spec fn failure_lines(
    label: Seq<char>,
    paths: Seq<Seq<char>>,
    failures: Seq<(PathView, Seq<char>)>,
) -> Seq<char>
    decreases failures.len(),
{
    if failures.len() == 0 {
        Seq::empty()
    } else {
        failure_lines(label, paths, failures.drop_last()) + label + paths[failures.len() - 1]
            + ": "@ + failures.last().1 + "\n"@
    }
}

/// How many files there were of each kind, on a line.
pub open spec fn kinds_line(report: Report) -> Seq<char> {
    "PE: "@ + decimal_text(report.pe_count) + ", INF: "@ + decimal_text(report.inf_count)
        + ", ignored: "@ + decimal_text(report.ignored_count) + "\n"@
}

/// What is told of a report besides the invalid catalogs, where `parse_paths` and `hash_paths`
/// stand for the paths of its failures.
pub open spec fn diagnostics(
    report: Report,
    parse_paths: Seq<Seq<char>>,
    hash_paths: Seq<Seq<char>>,
) -> Seq<char> {
    count_line("CAT total: "@, report.cats.len() + report.parse_errors.len()) + count_line(
        "Valid CAT: "@,
        (report.cats.len() - report.invalid.len()) as nat,
    ) + count_line("Invalid CAT: "@, report.invalid.len()) + count_line(
        "Parse errors: "@,
        report.parse_errors.len(),
    ) + kinds_line(report) + failure_lines("CAT parse error: "@, parse_paths, report.parse_errors)
        + failure_lines("Hash error: "@, hash_paths, report.hash_errors)
}

fn push_count_line(text: &mut String, label: &str, number: usize)
    ensures
        final(text)@ == old(text)@ + count_line(label@, number as nat),
{
    let ghost before = text@;
    text.push_str(label);
    push_decimal(text, number);
    text.push_str("\n");
    assert(text@ =~= before + count_line(label@, number as nat));
}

fn push_failure_lines(
    text: &mut String,
    label: &str,
    paths: &Vec<String>,
    failures: &Vec<(FilePath, String)>,
)
    requires
        paths@.len() == failures@.len(),
    ensures
        final(text)@ == old(text)@ + failure_lines(
            label@,
            paths@.map_values(|p: String| p@),
            shown(failures@),
        ),
{
    let ghost before = text@;
    let ghost names = paths@.map_values(|p: String| p@);
    let ghost views = shown(failures@);
    assert(text@ =~= before + failure_lines(label@, names, views.take(0)));
    for i in 0..failures.len()
        invariant
            paths@.len() == failures@.len(),
            names == paths@.map_values(|p: String| p@),
            views == shown(failures@),
            text@ == before + failure_lines(label@, names, views.take(i as int)),
    {
        let ghost so_far = text@;
        proof {
            assert(views.take(i + 1).drop_last() =~= views.take(i as int));
            assert(views.take(i + 1).last() == failures@[i as int]@);
        }
        text.push_str(label);
        text.push_str(paths[i].as_str());
        text.push_str(": ");
        text.push_str(failures[i].1.as_str());
        text.push_str("\n");
        assert(text@ =~= before + failure_lines(label@, names, views.take(i + 1)));
    }
    assert(views.take(views.len() as int) =~= views);
}

/// What is to be told of a report besides the invalid catalogs, where `parse_paths` and
/// `hash_paths` are the paths of its failures as text.
pub fn render_diagnostics(
    report: &ScanReport,
    parse_paths: &Vec<String>,
    hash_paths: &Vec<String>,
) -> (text: String)
    requires
        report.wf(),
        parse_paths@.len() == report.parse_errors@.len(),
        hash_paths@.len() == report.hash_errors@.len(),
    ensures
        text@ == diagnostics(
            report@,
            parse_paths@.map_values(|p: String| p@),
            hash_paths@.map_values(|p: String| p@),
        ),
{
    let mut text = String::new();
    push_count_line(&mut text, "CAT total: ", report.cats.len() + report.parse_errors.len());
    push_count_line(&mut text, "Valid CAT: ", report.cats.len() - report.invalid.len());
    push_count_line(&mut text, "Invalid CAT: ", report.invalid.len());
    push_count_line(&mut text, "Parse errors: ", report.parse_errors.len());
    let ghost counts = text@;
    text.push_str("PE: ");
    push_decimal(&mut text, report.pe_count);
    text.push_str(", INF: ");
    push_decimal(&mut text, report.inf_count);
    text.push_str(", ignored: ");
    push_decimal(&mut text, report.ignored_count);
    text.push_str("\n");
    assert(text@ =~= counts + kinds_line(report@));
    push_failure_lines(&mut text, "CAT parse error: ", parse_paths, &report.parse_errors);
    push_failure_lines(&mut text, "Hash error: ", hash_paths, &report.hash_errors);
    assert(text@ =~= diagnostics(
        report@,
        parse_paths@.map_values(|p: String| p@),
        hash_paths@.map_values(|p: String| p@),
    ));
    text
}

/// What is told when files are not moved or deleted because of errors.
pub const REFUSED: &'static str =
    "Scan errors detected; file operations were not performed. If you accept the risks, please use --force.";

/// What is told of a catalog that is not moved because something is at `target`.
pub fn move_skipped(target: &str) -> (text: String)
    ensures
        text@ == "Move skipped (target exists): "@ + target@,
{
    let mut text = "Move skipped (target exists): ".to_owned();
    text.push_str(target);
    text
}

/// What is told of a catalog that could not be moved from `source` to `target`.
pub fn move_failed(source: &str, target: &str, error: &str) -> (text: String)
    ensures
        text@ == "Move failed: "@ + source@ + " -> "@ + target@ + ": "@ + error@,
{
    let mut text = "Move failed: ".to_owned();
    text.push_str(source);
    text.push_str(" -> ");
    text.push_str(target);
    text.push_str(": ");
    text.push_str(error);
    text
}

/// What is told of a catalog that could not be deleted from `source`.
pub fn delete_failed(source: &str, error: &str) -> (text: String)
    ensures
        text@ == "Delete failed: "@ + source@ + ": "@ + error@,
{
    let mut text = "Delete failed: ".to_owned();
    text.push_str(source);
    text.push_str(": ");
    text.push_str(error);
    text
}

/// What is told of all attempts, where `done` says what was tried.
pub open spec fn summary(done: Seq<char>, attempts: Seq<Attempt>) -> Seq<char> {
    done + ": "@ + decimal_text(successes(attempts)) + ", failed: "@ + decimal_text(
        (attempts.len() - successes(attempts)) as nat,
    )
}

/// What is told at the end of moving or deleting, where `done` is `Moved` or `Deleted`.
pub fn render_summary(done: &str, run: &FileRun) -> (text: String)
    requires
        run.wf(),
    ensures
        text@ == summary(done@, run@),
{
    let mut text = String::new();
    text.push_str(done);
    text.push_str(": ");
    push_decimal(&mut text, run.succeeded());
    text.push_str(", failed: ");
    push_decimal(&mut text, run.failed());
    assert(text@ =~= summary(done@, run@));
    text
}

} // verus!
