//! What holds of moving and deleting.

use vstd::prelude::*;

use crate::operations::{
    law_success_is_of_every_attempt, may_proceed, move_attempt, moved_to, moving, step_for,
    successes, Attempt, MoveStep, Moved,
};
use crate::path::file_name;
use crate::report::{has_errors, PathView, ScanReport};
use crate::report_laws::law_errors_are_failures;

verus! {

/// Something stands in the way of the `i`th source: it was there at first, or an earlier source of
/// the same name was moved.
pub open spec fn in_the_way(
    sources: Seq<PathView>,
    destination: PathView,
    there: Set<PathView>,
    attempts: Seq<Attempt>,
    i: int,
) -> bool {
    ||| there.contains(destination.push(sources[i].last()))
    ||| exists|j: int|
        0 <= j < i && #[trigger] attempts[j] == Attempt::Succeeded && sources[j].last()
            == sources[i].last()
}

/// A source is left exactly if something stands in its way. It is moved exactly if nothing does and
/// it can be renamed, and fails exactly if nothing does and it cannot. All that is there afterwards
/// was there at first, or was moved there under its own name.
pub proof fn law_what_each_attempt_comes_to(
    sources: Seq<PathView>,
    destination: PathView,
    there: Set<PathView>,
    renames: Seq<bool>,
)
    requires
        renames.len() == sources.len(),
        forall|i: int| 0 <= i < sources.len() ==> file_name(#[trigger] sources[i]) is Some,
    ensures
        ({
            let (attempts, now) = moving(sources, destination, there, renames);
            &&& attempts.len() == sources.len()
            &&& forall|i: int|
                0 <= i < sources.len() ==> {
                    let blocked = in_the_way(sources, destination, there, attempts, i);
                    &&& #[trigger] attempts[i] == Attempt::TargetExists <==> blocked
                    &&& attempts[i] == Attempt::Succeeded <==> !blocked && renames[i]
                    &&& attempts[i] == Attempt::Failed <==> !blocked && !renames[i]
                }
            &&& forall|p: PathView| #[trigger]
                now.contains(p) <==> there.contains(p) || exists|i: int|
                    0 <= i < sources.len() && #[trigger] attempts[i] == Attempt::Succeeded && p
                        == destination.push(sources[i].last())
        }),
{
    lemma_attempts(sources, destination, there, renames);
}

proof fn lemma_attempts(
    sources: Seq<PathView>,
    destination: PathView,
    there: Set<PathView>,
    renames: Seq<bool>,
)
    requires
        sources.len() <= renames.len(),
        forall|i: int| 0 <= i < sources.len() ==> file_name(#[trigger] sources[i]) is Some,
    ensures
        ({
            let (attempts, now) = moving(sources, destination, there, renames);
            &&& attempts.len() == sources.len()
            &&& forall|i: int|
                0 <= i < sources.len() ==> {
                    let blocked = in_the_way(sources, destination, there, attempts, i);
                    &&& #[trigger] attempts[i] == Attempt::TargetExists <==> blocked
                    &&& attempts[i] == Attempt::Succeeded <==> !blocked && renames[i]
                    &&& attempts[i] == Attempt::Failed <==> !blocked && !renames[i]
                }
            &&& forall|p: PathView| #[trigger]
                now.contains(p) <==> there.contains(p) || exists|i: int|
                    0 <= i < sources.len() && #[trigger] attempts[i] == Attempt::Succeeded && p
                        == destination.push(sources[i].last())
        }),
    decreases sources.len(),
{
    if sources.len() > 0 {
        let less = sources.drop_last();
        let last = sources.len() - 1;
        let (before, was) = moving(less, destination, there, renames);
        let (attempts, now) = moving(sources, destination, there, renames);
        assert(forall|i: int| 0 <= i < last ==> #[trigger] less[i] == sources[i]);
        lemma_attempts(less, destination, there, renames);
        let target = destination.push(sources[last].last());
        assert(file_name(sources[last]) is Some);
        assert(moved_to(sources.last(), destination) == Some(target));
        assert(attempts.drop_last() =~= before);
        assert(forall|i: int| 0 <= i < last ==> #[trigger] attempts[i] == before[i]);
        assert forall|i: int| 0 <= i < last implies in_the_way(
            sources,
            destination,
            there,
            attempts,
            i,
        ) == #[trigger] in_the_way(less, destination, there, before, i) by {
            assert(less[i] == sources[i]);
            if in_the_way(sources, destination, there, attempts, i) && !there.contains(
                destination.push(sources[i].last()),
            ) {
                let j = choose|j: int|
                    0 <= j < i && #[trigger] attempts[j] == Attempt::Succeeded && sources[j].last()
                        == sources[i].last();
                assert(before[j] == Attempt::Succeeded && less[j] == sources[j]);
            }
            if in_the_way(less, destination, there, before, i) && !there.contains(
                destination.push(less[i].last()),
            ) {
                let j = choose|j: int|
                    0 <= j < i && #[trigger] before[j] == Attempt::Succeeded && less[j].last()
                        == less[i].last();
                assert(attempts[j] == Attempt::Succeeded && less[j] == sources[j]);
            }
        }
        assert forall|p: PathView| #[trigger] was.contains(p) <==> there.contains(p) || exists|
            i: int,
        |
            0 <= i < last && #[trigger] attempts[i] == Attempt::Succeeded && p == destination.push(
                sources[i].last(),
            ) by {
            if exists|i: int|
                0 <= i < less.len() && #[trigger] before[i] == Attempt::Succeeded && p
                    == destination.push(less[i].last()) {
                let i = choose|i: int|
                    0 <= i < less.len() && #[trigger] before[i] == Attempt::Succeeded && p
                        == destination.push(less[i].last());
                assert(attempts[i] == Attempt::Succeeded && less[i] == sources[i]);
            }
            if exists|i: int|
                0 <= i < last && #[trigger] attempts[i] == Attempt::Succeeded && p
                    == destination.push(sources[i].last()) {
                let i = choose|i: int|
                    0 <= i < last && #[trigger] attempts[i] == Attempt::Succeeded && p
                        == destination.push(sources[i].last());
                assert(before[i] == Attempt::Succeeded && less[i] == sources[i]);
            }
        }
        assert(was.contains(target) <==> in_the_way(sources, destination, there, attempts, last))
            by {
            if exists|i: int|
                0 <= i < last && #[trigger] attempts[i] == Attempt::Succeeded && target
                    == destination.push(sources[i].last()) {
                let i = choose|i: int|
                    0 <= i < last && #[trigger] attempts[i] == Attempt::Succeeded && target
                        == destination.push(sources[i].last());
                assert(destination.push(sources[i].last()).last() == target.last());
                assert(sources[i].last() == sources[last].last());
            }
        }
        assert(attempts[last] == move_attempt(
            was.contains(target),
            step_for(was.contains(target)) == MoveStep::Rename && renames[last],
        ));
        assert forall|i: int| 0 <= i < sources.len() implies {
            let blocked = in_the_way(sources, destination, there, attempts, i);
            &&& #[trigger] attempts[i] == Attempt::TargetExists <==> blocked
            &&& attempts[i] == Attempt::Succeeded <==> !blocked && renames[i]
            &&& attempts[i] == Attempt::Failed <==> !blocked && !renames[i]
        } by {
            if i < last {
                assert(before[i] == attempts[i]);
                assert(in_the_way(less, destination, there, before, i) == in_the_way(
                    sources,
                    destination,
                    there,
                    attempts,
                    i,
                ));
            }
        }
        assert forall|p: PathView| #[trigger] now.contains(p) <==> there.contains(p) || exists|
            i: int,
        |
            0 <= i < sources.len() && #[trigger] attempts[i] == Attempt::Succeeded && p
                == destination.push(sources[i].last()) by {
            assert(was.contains(p) <==> there.contains(p) || exists|i: int|
                0 <= i < last && #[trigger] attempts[i] == Attempt::Succeeded && p
                    == destination.push(sources[i].last()));
            if now.contains(p) && !was.contains(p) {
                assert(attempts[last] == Attempt::Succeeded && p == target);
            }
        }
    }
}

/// Files are moved or deleted exactly if nothing went wrong in the scan, or that is accepted: one
/// catalog that could not be read, or one file that could not be hashed, stops it without force.
pub proof fn law_errors_stop_what_is_not_forced(report: ScanReport, force: bool)
    ensures
        may_proceed(has_errors(report@), force) <==> force || report.parse_errors@.len() == 0
            && report.hash_errors@.len() == 0,
{
    law_errors_are_failures(report);
}

/// Nothing is renamed to where something is, and all else is; what was renamed succeeded.
pub proof fn law_only_what_is_renamed_succeeds(target_exists: bool, renamed: bool)
    ensures
        step_for(target_exists) == MoveStep::Rename <==> !target_exists,
        move_attempt(target_exists, renamed) == Attempt::Succeeded <==> !target_exists && renamed,
        move_attempt(target_exists, renamed) == Attempt::TargetExists <==> target_exists,
{
}

/// Successes count one by one.
pub proof fn law_successes_count_one_by_one(attempts: Seq<Attempt>, attempt: Attempt)
    ensures
        successes(Seq::empty()) == 0,
        attempt is Succeeded ==> successes(attempts.push(attempt)) == successes(attempts) + 1,
        !(attempt is Succeeded) ==> successes(attempts.push(attempt)) == successes(attempts),
{
    reveal(Seq::filter);
    assert(attempts.push(attempt).drop_last() =~= attempts);
}

/// Moving is a success exactly if nothing went wrong in the scan and every attempt succeeded.
pub proof fn law_a_move_succeeds_as_a_whole(report: ScanReport, moved: Moved)
    requires
        moved.attempts@.len() == report.invalid@.len(),
        moved.success == (!has_errors(report@) && successes(moved.attempts@)
            == report.invalid@.len()),
    ensures
        moved.success <==> report.parse_errors@.len() == 0 && report.hash_errors@.len() == 0
            && forall|i: int|
            0 <= i < moved.attempts@.len() ==> #[trigger] moved.attempts@[i] is Succeeded,
{
    law_errors_are_failures(report);
    law_success_is_of_every_attempt(moved.attempts@);
}

/// A catalog that is moved keeps its name, and goes into the destination.
pub proof fn law_moved_files_keep_their_names(
    folder: PathView,
    name: Seq<u8>,
    destination: PathView,
)
    requires
        !(name.len() == 2 && name[0] == 0x2E && name[1] == 0x2E),
    ensures
        moved_to(folder.push(name), destination) == Some(destination.push(name)),
{
    assert(folder.push(name).last() == name);
}

} // verus!
