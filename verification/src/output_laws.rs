//! What holds of what is printed.

use vstd::prelude::*;

use crate::operations::{successes, Attempt};
use crate::output::{
    diagnostics, failure_lines, path_lines, plain_path, summary, VERBATIM_PREFIX,
};
use crate::report::{PathView, ScanReport};
use crate::sort::shown;
use crate::text::decimal_text;

verus! {

/// The text begins with two backslashes, a question mark and a backslash.
pub open spec fn is_verbatim(path: Seq<char>) -> bool {
    path.len() >= 4 && path[0] as int == 92 && path[1] as int == 92 && path[2] as int == 63
        && path[3] as int == 92
}

/// A path is printed without two backslashes, a question mark and a backslash before it, and
/// otherwise as it is.
pub proof fn law_paths_are_printed_plainly(path: Seq<char>)
    ensures
        plain_path(path) == if is_verbatim(path) {
            path.subrange(4, path.len() as int)
        } else {
            path
        },
{
    reveal_strlit("\\\\?\\");
    assert(VERBATIM_PREFIX@.len() == 4);
    assert(VERBATIM_PREFIX@[0] as int == 92 && VERBATIM_PREFIX@[1] as int == 92);
    assert(VERBATIM_PREFIX@[2] as int == 63 && VERBATIM_PREFIX@[3] as int == 92);
    if is_verbatim(path) {
        assert(path.take(4) =~= VERBATIM_PREFIX@);
        assert(VERBATIM_PREFIX@.is_prefix_of(path));
        assert(path.skip(4) =~= path.subrange(4, path.len() as int));
    } else if VERBATIM_PREFIX@.is_prefix_of(path) {
        let start = path.subrange(0, 4);
        assert(start =~= VERBATIM_PREFIX@);
        assert(start[0] == path[0] && start[1] == path[1] && start[2] == path[2] && start[3]
            == path[3]);
    }
}

/// Each path is printed on a line of its own, in the order given: one path is itself and a line
/// feed, and the lines of a list are those of its first part and those of the rest.
pub proof fn law_paths_are_printed_one_on_a_line(
    path: Seq<char>,
    first: Seq<Seq<char>>,
    rest: Seq<Seq<char>>,
)
    ensures
        path_lines(Seq::empty()) == Seq::<char>::empty(),
        path_lines(seq![path]) == plain_path(path).push('\n'),
        path_lines(first + rest) == path_lines(first) + path_lines(rest),
    decreases rest.len(),
{
    reveal_with_fuel(path_lines, 2);
    assert(seq![path].drop_last() =~= Seq::<Seq<char>>::empty());
    assert(path_lines(seq![path]) =~= plain_path(path).push('\n'));
    if rest.len() == 0 {
        assert(first + rest =~= first);
        assert(path_lines(first) + path_lines(rest) =~= path_lines(first));
    } else {
        let whole = first + rest;
        law_paths_are_printed_one_on_a_line(path, first, rest.drop_last());
        assert(whole.drop_last() =~= first + rest.drop_last());
        assert(whole.last() == rest.last());
        assert(path_lines(whole) =~= path_lines(first) + path_lines(rest));
    }
}

/// Each failure is told on a line of its own, in the order of the report: the label, the path, a
/// colon and a space, and the message.
pub proof fn law_failures_are_told_one_by_one(
    label: Seq<char>,
    paths: Seq<Seq<char>>,
    failures: Seq<(PathView, Seq<char>)>,
    path: Seq<char>,
    failure: (PathView, Seq<char>),
)
    requires
        paths.len() == failures.len(),
    ensures
        failure_lines(label, Seq::empty(), Seq::empty()) == Seq::<char>::empty(),
        failure_lines(label, paths.push(path), failures.push(failure)) == failure_lines(
            label,
            paths,
            failures,
        ) + (label + path + seq![':', ' '] + failure.1 + seq!['\n']),
{
    reveal_strlit(": ");
    reveal_strlit("\n");
    let more = failures.push(failure);
    assert(more.drop_last() =~= failures);
    assert(more.last() == failure);
    assert(paths.push(path)[more.len() - 1] == path);
    lemma_more_paths(label, paths, paths.push(path), failures);
    assert(failure_lines(label, paths.push(path), more) =~= failure_lines(label, paths, failures)
        + (label + path + seq![':', ' '] + failure.1 + seq!['\n']));
}

proof fn lemma_more_paths(
    label: Seq<char>,
    paths: Seq<Seq<char>>,
    more: Seq<Seq<char>>,
    failures: Seq<(PathView, Seq<char>)>,
)
    requires
        failures.len() <= paths.len() <= more.len(),
        forall|i: int| 0 <= i < paths.len() ==> #[trigger] paths[i] == more[i],
    ensures
        failure_lines(label, paths, failures) == failure_lines(label, more, failures),
    decreases failures.len(),
{
    if failures.len() > 0 {
        lemma_more_paths(label, paths, more, failures.drop_last());
        assert(paths[failures.len() - 1] == more[failures.len() - 1]);
    }
}

/// What is told of a report: how many catalogs there were, how many of them match a file, how many
/// none, and how many could not be read; how many files there were of each kind; and the failures,
/// those of the catalogs before those of the files.
pub proof fn law_what_is_told_of_a_report(
    report: ScanReport,
    parse_paths: Seq<Seq<char>>,
    hash_paths: Seq<Seq<char>>,
    text: String,
)
    requires
        report.wf(),
        text@ == diagnostics(report@, parse_paths, hash_paths),
    ensures
        text@ == "CAT total: "@ + decimal_text(report.cats@.len() + report.parse_errors@.len())
            + "\nValid CAT: "@ + decimal_text((report.cats@.len() - report.invalid@.len()) as nat)
            + "\nInvalid CAT: "@ + decimal_text(report.invalid@.len()) + "\nParse errors: "@
            + decimal_text(report.parse_errors@.len()) + "\nPE: "@ + decimal_text(
            report.pe_count as nat,
        ) + ", INF: "@ + decimal_text(report.inf_count as nat) + ", ignored: "@ + decimal_text(
            report.ignored_count as nat,
        ) + "\n"@ + failure_lines("CAT parse error: "@, parse_paths, shown(report.parse_errors@))
            + failure_lines("Hash error: "@, hash_paths, shown(report.hash_errors@)),
{
    reveal_strlit("\n");
    reveal_strlit("Valid CAT: ");
    reveal_strlit("\nValid CAT: ");
    reveal_strlit("Invalid CAT: ");
    reveal_strlit("\nInvalid CAT: ");
    reveal_strlit("Parse errors: ");
    reveal_strlit("\nParse errors: ");
    reveal_strlit("PE: ");
    reveal_strlit("\nPE: ");
    assert("\nValid CAT: "@ =~= "\n"@ + "Valid CAT: "@);
    assert("\nInvalid CAT: "@ =~= "\n"@ + "Invalid CAT: "@);
    assert("\nParse errors: "@ =~= "\n"@ + "Parse errors: "@);
    assert("\nPE: "@ =~= "\n"@ + "PE: "@);
}

/// What is told at the end: how many attempts succeeded, and how many did not.
pub proof fn law_what_is_told_at_the_end(done: Seq<char>, attempts: Seq<Attempt>, text: String)
    requires
        text@ == summary(done, attempts),
    ensures
        text@ == done + seq![':', ' '] + decimal_text(
            attempts.filter(|a: Attempt| a is Succeeded).len(),
        ) + ", failed: "@ + decimal_text(attempts.filter(|a: Attempt| !(a is Succeeded)).len()),
{
    reveal_strlit(": ");
    assert(": "@ =~= seq![':', ' ']);
    lemma_the_rest_failed(attempts);
}

proof fn lemma_the_rest_failed(attempts: Seq<Attempt>)
    ensures
        successes(attempts) == attempts.filter(|a: Attempt| a is Succeeded).len(),
        attempts.len() - successes(attempts) == attempts.filter(
            |a: Attempt| !(a is Succeeded),
        ).len(),
    decreases attempts.len(),
{
    reveal(Seq::filter);
    if attempts.len() > 0 {
        lemma_the_rest_failed(attempts.drop_last());
    }
}

} // verus!
