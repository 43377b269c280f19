//! Moving and deleting what a scan lists.

use vstd::prelude::*;

use crate::order::Rank;
use crate::output::{render_summary, summary};
use crate::path::{file_name, FilePath};
use crate::report::{has_errors, PathView, ScanReport};
use crate::sort::{shown, Ordered};

verus! {

/// What an attempt to move or delete a catalog came to.
#[derive(Clone, Copy, Debug, PartialEq, Eq, Structural)]
pub enum Attempt {
    /// It is done.
    Succeeded,
    /// It was not tried, because something is where the catalog was to go.
    TargetExists,
    /// It failed.
    Failed,
}

/// How many of `attempts` succeeded.
pub open spec fn successes(attempts: Seq<Attempt>) -> nat {
    attempts.filter(|a: Attempt| a == Attempt::Succeeded).len()
}

/// What to do with a catalog that is to be moved.
#[derive(Clone, Copy, Debug, PartialEq, Eq, Structural)]
pub enum MoveStep {
    /// Leave it, because something is where it was to go.
    Skip,
    /// Rename it to where it is to go.
    Rename,
}

/// What to do with a catalog that is to be moved to a place where something is, or is not.
pub open spec fn step_for(target_exists: bool) -> MoveStep {
    if target_exists {
        MoveStep::Skip
    } else {
        MoveStep::Rename
    }
}

/// What an attempt to move a catalog came to.
pub open spec fn move_attempt(target_exists: bool, renamed: bool) -> Attempt {
    if target_exists {
        Attempt::TargetExists
    } else if renamed {
        Attempt::Succeeded
    } else {
        Attempt::Failed
    }
}

/// Decides what to do with a catalog that is to be moved: nothing is ever put where something is.
pub fn move_step(target_exists: bool) -> (step: MoveStep)
    ensures
        step == step_for(target_exists),
{
    if target_exists {
        MoveStep::Skip
    } else {
        MoveStep::Rename
    }
}

/// Where a catalog goes that is moved to `destination`: it keeps its name.
pub open spec fn moved_to(source: PathView, destination: PathView) -> Option<PathView> {
    match file_name(source) {
        Some(name) => Some(destination.push(name)),
        None => None,
    }
}

/// Files may be moved or deleted after this scan: nothing went wrong in it, or that is accepted.
pub open spec fn may_proceed(errors: bool, force: bool) -> bool {
    !errors || force
}

/// Moves or deletes the invalid catalogs of a report, one after another. Its view is what the
/// attempts so far came to.
pub struct FileRun<'a> {
    report: &'a ScanReport,
    succeeded: usize,
    failed: usize,
    attempts: Ghost<Seq<Attempt>>,
}

impl<'a> View for FileRun<'a> {
    type V = Seq<Attempt>;

    closed spec fn view(&self) -> Seq<Attempt> {
        self.attempts@
    }
}

impl<'a> FileRun<'a> {
    /// The report whose invalid catalogs are moved or deleted.
    pub closed spec fn of(self) -> ScanReport {
        *self.report
    }

    /// The attempts are counted, and there are no more than there are invalid catalogs.
    pub closed spec fn wf(self) -> bool {
        &&& self.succeeded == successes(self@)
        &&& self.succeeded + self.failed == self@.len()
        &&& self@.len() <= self.report.invalid@.len()
    }

    /// Begins with the invalid catalogs of `report`, unless something went wrong in the scan and
    /// `force` does not accept that.
    pub fn begin(report: &'a ScanReport, force: bool) -> (run: Option<FileRun<'a>>)
        ensures
            match run {
                Some(run) => {
                    &&& may_proceed(has_errors(report@), force)
                    &&& run.wf()
                    &&& run.of() == *report
                    &&& run@ == Seq::<Attempt>::empty()
                },
                None => !may_proceed(has_errors(report@), force),
            },
    {
        if report.has_errors() && !force {
            return None;
        }
        assert(successes(Seq::<Attempt>::empty()) == 0) by {
            reveal(Seq::filter);
        }
        Some(FileRun { report, succeeded: 0, failed: 0, attempts: Ghost(Seq::empty()) })
    }

    /// The catalog that is next, if there is one left.
    pub fn next_source(&self) -> (source: Option<&'a FilePath>)
        requires
            self.wf(),
        ensures
            match source {
                Some(source) => {
                    &&& self@.len() < self.of().invalid@.len()
                    &&& *source == self.of().invalid@[self@.len() as int]
                },
                None => self@.len() == self.of().invalid@.len(),
            },
    {
        let count: usize = self.report.invalid.len();
        let done: usize = self.succeeded + self.failed;
        if done < count {
            Some(&self.report.invalid[done])
        } else {
            None
        }
    }

    /// Where the next catalog goes when it is moved to `destination`, if it has a name.
    pub fn target(&self, destination: &FilePath) -> (target: Option<FilePath>)
        requires
            self.wf(),
            self@.len() < self.of().invalid@.len(),
        ensures
            moved_to(self.of().invalid@[self@.len() as int]@, destination@) == match target {
                Some(target) => Some(target@),
                None => None,
            },
    {
        let count: usize = self.report.invalid.len();
        let source = &self.report.invalid[self.succeeded + self.failed];
        match source.file_name() {
            Some(name) => Some(destination.join(name)),
            None => None,
        }
    }

    /// Takes down what moving the next catalog came to: whether something was where it was to go,
    /// and if not, whether it was renamed.
    pub fn record_move(&mut self, target_exists: bool, renamed: bool)
        requires
            old(self).wf(),
            old(self)@.len() < old(self).of().invalid@.len(),
            target_exists ==> !renamed,
        ensures
            final(self).wf(),
            final(self).of() == old(self).of(),
            final(self)@ == old(self)@.push(move_attempt(target_exists, renamed)),
    {
        let attempt = if target_exists {
            Attempt::TargetExists
        } else if renamed {
            Attempt::Succeeded
        } else {
            Attempt::Failed
        };
        self.record(attempt);
    }

    /// Takes down what the attempt on the next catalog came to.
    pub fn record(&mut self, attempt: Attempt)
        requires
            old(self).wf(),
            old(self)@.len() < old(self).of().invalid@.len(),
        ensures
            final(self).wf(),
            final(self).of() == old(self).of(),
            final(self)@ == old(self)@.push(attempt),
    {
        let ghost before = self.attempts@;
        let len: usize = self.report.invalid.len();
        assert(successes(before.push(attempt)) == successes(before) + if attempt
            == Attempt::Succeeded {
            1nat
        } else {
            0nat
        }) by {
            reveal(Seq::filter);
            assert(before.push(attempt).drop_last() =~= before);
        }
        if attempt == Attempt::Succeeded {
            self.succeeded = self.succeeded + 1;
        } else {
            self.failed = self.failed + 1;
        }
        self.attempts = Ghost(before.push(attempt));
    }

    /// How many attempts succeeded.
    pub fn succeeded(&self) -> (count: usize)
        requires
            self.wf(),
        ensures
            count == successes(self@),
    {
        self.succeeded
    }

    /// How many attempts did not succeed.
    pub fn failed(&self) -> (count: usize)
        requires
            self.wf(),
        ensures
            count == self@.len() - successes(self@),
    {
        self.failed
    }

    /// Whether nothing went wrong, in the scan or since.
    pub fn is_success(&self) -> (success: bool)
        requires
            self.wf(),
        ensures
            success == (!has_errors(self.of()@) && successes(self@) == self@.len()),
    {
        !self.report.has_errors() && self.failed == 0
    }
}

/// No more attempts succeed than are made, and all succeed exactly if each does.
pub proof fn law_success_is_of_every_attempt(attempts: Seq<Attempt>)
    ensures
        successes(attempts) <= attempts.len(),
        successes(attempts) == attempts.len() <==> forall|i: int|
            0 <= i < attempts.len() ==> #[trigger] attempts[i] == Attempt::Succeeded,
    decreases attempts.len(),
{
    reveal(Seq::filter);
    if attempts.len() > 0 {
        let less = attempts.drop_last();
        law_success_is_of_every_attempt(less);
        assert forall|i: int| 0 <= i < less.len() implies less[i] == #[trigger] attempts[i] by {}
        if successes(attempts) == attempts.len() {
            assert(forall|i: int| 0 <= i < less.len() ==> #[trigger] less[i] == Attempt::Succeeded);
        }
    }
}

/// What moving `sources` to `destination`, one after another, comes to: what each attempt came to,
/// and what is there afterwards, where `there` is there at first and `renames` says of each source
/// whether it can be renamed.
pub open spec fn moving(
    sources: Seq<PathView>,
    destination: PathView,
    there: Set<PathView>,
    renames: Seq<bool>,
) -> (Seq<Attempt>, Set<PathView>)
    decreases sources.len(),
{
    if sources.len() == 0 {
        (seq![], there)
    } else {
        let (attempts, now) = moving(sources.drop_last(), destination, there, renames);
        let target = moved_to(sources.last(), destination)->Some_0;
        let renamed = step_for(now.contains(target)) == MoveStep::Rename && renames[sources.len()
            - 1];
        (
            attempts.push(move_attempt(now.contains(target), renamed)),
            if renamed {
                now.insert(target)
            } else {
                now
            },
        )
    }
}

/// Moving goes step by step: where the attempts so far are those of moving the first sources, and
/// the next source is skipped or renamed as what is then at its target says, the attempts are those
/// of moving one source more, and what is there is what was and, if it was renamed, its target.
pub proof fn law_moving_goes_step_by_step(
    sources: Seq<PathView>,
    destination: PathView,
    there: Set<PathView>,
    renames: Seq<bool>,
    k: int,
    attempts: Seq<Attempt>,
    target: PathView,
    target_exists: bool,
    renamed: bool,
)
    requires
        0 <= k < sources.len(),
        renames.len() == sources.len(),
        attempts == moving(sources.take(k), destination, there, renames).0,
        moved_to(sources[k], destination) == Some(target),
        target_exists == moving(sources.take(k), destination, there, renames).1.contains(target),
        renamed == (step_for(target_exists) == MoveStep::Rename && renames[k]),
    ensures
        attempts.push(move_attempt(target_exists, renamed)) == moving(
            sources.take(k + 1),
            destination,
            there,
            renames,
        ).0,
        moving(sources.take(k + 1), destination, there, renames).1 == if renamed {
            moving(sources.take(k), destination, there, renames).1.insert(target)
        } else {
            moving(sources.take(k), destination, there, renames).1
        },
{
    assert(sources.take(k + 1).drop_last() =~= sources.take(k));
    assert(sources.take(k + 1).last() == sources[k]);
}

/// Why catalogs are not moved, or not all of them.
#[derive(Clone, Copy, Debug, PartialEq, Eq, Structural)]
pub enum MoveRefusal {
    /// Something went wrong in the scan, and that is not accepted.
    ScanErrors,
    /// A catalog has no file name.
    NoFileName,
}

/// What moving catalogs came to: what each attempt came to, what is there afterwards, what is told
/// of it, and whether nothing went wrong.
#[derive(Debug)]
pub struct Moved {
    pub attempts: Vec<Attempt>,
    pub there: Vec<FilePath>,
    pub text: String,
    pub success: bool,
}

/// Whether `path` is one of `paths`.
fn is_among(paths: &Vec<FilePath>, path: &FilePath) -> (found: bool)
    ensures
        found == shown(paths@).to_set().contains(path@),
{
    let ghost views = shown(paths@);
    for i in 0..paths.len()
        invariant
            views == shown(paths@),
            forall|k: int| 0 <= k < i ==> #[trigger] views[k] != path@,
    {
        assert(views[i as int] == paths@[i as int]@);
        if let Rank::Same = paths[i].compare(path) {
            return true;
        }
    }
    false
}

/// Moves the invalid catalogs of a report to `destination`, one after another, where `there` is
/// there at first and `renames` says of each catalog whether it can be renamed.
pub fn run_move(
    report: &ScanReport,
    force: bool,
    destination: &FilePath,
    there: Vec<FilePath>,
    renames: &Vec<bool>,
) -> (moved: Result<Moved, MoveRefusal>)
    requires
        renames@.len() == report.invalid@.len(),
    ensures
        match moved {
            Err(MoveRefusal::ScanErrors) => !may_proceed(has_errors(report@), force),
            Err(MoveRefusal::NoFileName) => may_proceed(has_errors(report@), force) && exists|
                i: int,
            |
                0 <= i < report.invalid@.len() && file_name(
                    #[trigger] report@.invalid[i],
                ) is None,
            Ok(moved) => {
                &&& may_proceed(has_errors(report@), force)
                &&& forall|i: int|
                    0 <= i < report.invalid@.len() ==> file_name(
                        #[trigger] report@.invalid[i],
                    ) is Some
                &&& (moved.attempts@, shown(moved.there@).to_set()) == moving(
                    report@.invalid,
                    destination@,
                    shown(there@).to_set(),
                    renames@,
                )
                &&& moved.text@ == summary("Moved"@, moved.attempts@)
                &&& moved.success == (!has_errors(report@) && successes(moved.attempts@)
                    == report.invalid@.len())
            },
        },
{
    let mut run = match FileRun::begin(report, force) {
        None => {
            return Err(MoveRefusal::ScanErrors);
        },
        Some(run) => run,
    };
    let ghost sources = report@.invalid;
    let ghost at_first = shown(there@).to_set();
    let mut there = there;
    let mut attempts: Vec<Attempt> = Vec::new();
    assert(sources.take(0) =~= Seq::<PathView>::empty());
    for k in 0..report.invalid.len()
        invariant
            may_proceed(has_errors(report@), force),
            renames@.len() == report.invalid@.len(),
            sources == report@.invalid,
            run.wf(),
            run.of() == *report,
            run@ == attempts@,
            attempts@.len() == k,
            (attempts@, shown(there@).to_set()) == moving(
                sources.take(k as int),
                destination@,
                at_first,
                renames@,
            ),
            forall|i: int| 0 <= i < k ==> file_name(#[trigger] sources[i]) is Some,
    {
        let ghost before = shown(there@);
        assert(sources[k as int] == report.invalid@[k as int]@);
        let target = match run.target(destination) {
            None => {
                return Err(MoveRefusal::NoFileName);
            },
            Some(target) => target,
        };
        let target_exists = is_among(&there, &target);
        let renamed = match move_step(target_exists) {
            MoveStep::Skip => false,
            MoveStep::Rename => renames[k],
        };
        run.record_move(target_exists, renamed);
        let ghost tried = attempts@;
        attempts.push(
            if target_exists {
                Attempt::TargetExists
            } else if renamed {
                Attempt::Succeeded
            } else {
                Attempt::Failed
            },
        );
        proof {
            law_moving_goes_step_by_step(
                sources,
                destination@,
                at_first,
                renames@,
                k as int,
                tried,
                target@,
                target_exists,
                renamed,
            );
        }
        if renamed {
            let ghost path = target@;
            there.push(target);
            proof {
                let after = shown(there@);
                assert(after =~= before.push(path));
                assert forall|p: PathView| #[trigger] after.to_set().contains(p)
                    <==> before.to_set().insert(path).contains(p) by {
                    if before.contains(p) {
                        assert(after[before.index_of(p)] == p);
                    }
                    assert(after[before.len() as int] == path);
                    if after.contains(p) {
                        let i = after.index_of(p);
                        if i < before.len() {
                            assert(before[i] == p);
                        }
                    }
                }
                assert(after.to_set() =~= before.to_set().insert(path));
            }
        }
    }
    assert(sources.take(sources.len() as int) =~= sources);
    let text = render_summary("Moved", &run);
    let success = run.is_success();
    Ok(Moved { attempts, there, text, success })
}

/// Nothing is overwritten: a catalog that is moved goes to a place where nothing was at first and
/// where no catalog before it went. What was there stays, and all that is new are the catalogs that
/// were moved.
pub proof fn law_nothing_is_overwritten(
    sources: Seq<PathView>,
    destination: PathView,
    there: Set<PathView>,
    renames: Seq<bool>,
)
    requires
        renames.len() == sources.len(),
        forall|i: int| 0 <= i < sources.len() ==> file_name(#[trigger] sources[i]) is Some,
    ensures
        ({
            let (attempts, now) = moving(sources, destination, there, renames);
            &&& attempts.len() == sources.len()
            &&& forall|i: int|
                0 <= i < sources.len() && #[trigger] attempts[i] == Attempt::Succeeded
                    ==> !there.contains(moved_to(sources[i], destination)->Some_0)
            &&& forall|i: int, j: int|
                0 <= i < j < sources.len() && #[trigger] attempts[i] == Attempt::Succeeded
                    && #[trigger] attempts[j] == Attempt::Succeeded ==> moved_to(
                    sources[i],
                    destination,
                ) != moved_to(sources[j], destination)
            &&& forall|p: PathView| #[trigger]
                now.contains(p) <==> there.contains(p) || exists|i: int|
                    0 <= i < sources.len() && #[trigger] attempts[i] == Attempt::Succeeded
                        && moved_to(sources[i], destination) == Some(p)
        }),
    decreases sources.len(),
{
    if sources.len() > 0 {
        let less = sources.drop_last();
        let last = sources.len() - 1;
        let (before, then_there) = moving(less, destination, there, renames);
        let (attempts, now) = moving(sources, destination, there, renames);
        let target = moved_to(sources.last(), destination)->Some_0;
        lemma_moving_ignores_more(less, destination, there, renames.drop_last(), renames);
        law_nothing_is_overwritten(less, destination, there, renames.drop_last());
        assert(forall|i: int| 0 <= i < last ==> #[trigger] attempts[i] == before[i]);
        assert(forall|i: int| 0 <= i < last ==> #[trigger] sources[i] == less[i]);
        assert(sources[last] == sources.last());
        assert forall|i: int, j: int|
            0 <= i < j < sources.len() && #[trigger] attempts[i] == Attempt::Succeeded
                && #[trigger] attempts[j] == Attempt::Succeeded implies moved_to(
            sources[i],
            destination,
        ) != moved_to(sources[j], destination) by {
            assert(before[i] == attempts[i]);
            if j < last {
                assert(before[j] == attempts[j]);
            } else {
                assert(!then_there.contains(target));
            }
        }
        assert forall|p: PathView| #[trigger] now.contains(p) <==> there.contains(p) || exists|
            i: int,
        |
            0 <= i < sources.len() && #[trigger] attempts[i] == Attempt::Succeeded && moved_to(
                sources[i],
                destination,
            ) == Some(p) by {
            assert(then_there.contains(p) <==> there.contains(p) || exists|i: int|
                0 <= i < less.len() && #[trigger] before[i] == Attempt::Succeeded && moved_to(
                    less[i],
                    destination,
                ) == Some(p));
            if then_there.contains(p) && !there.contains(p) {
                let i = choose|i: int|
                    0 <= i < less.len() && #[trigger] before[i] == Attempt::Succeeded && moved_to(
                        less[i],
                        destination,
                    ) == Some(p);
                assert(attempts[i] == Attempt::Succeeded);
            }
            if exists|i: int|
                0 <= i < sources.len() && #[trigger] attempts[i] == Attempt::Succeeded && moved_to(
                    sources[i],
                    destination,
                ) == Some(p) {
                let i = choose|i: int|
                    0 <= i < sources.len() && #[trigger] attempts[i] == Attempt::Succeeded
                        && moved_to(sources[i], destination) == Some(p);
                if i < last {
                    assert(before[i] == Attempt::Succeeded);
                    assert(then_there.contains(p));
                } else {
                    assert(now.contains(p));
                }
            }
            if now.contains(p) && !then_there.contains(p) {
                assert(attempts[last] == Attempt::Succeeded);
                assert(p == target);
            }
        }
    }
}

/// What comes of the first sources does not depend on whether later ones can be renamed.
proof fn lemma_moving_ignores_more(
    sources: Seq<PathView>,
    destination: PathView,
    there: Set<PathView>,
    renames: Seq<bool>,
    more: Seq<bool>,
)
    requires
        sources.len() <= renames.len() <= more.len(),
        forall|i: int| 0 <= i < renames.len() ==> #[trigger] renames[i] == more[i],
    ensures
        moving(sources, destination, there, renames) == moving(sources, destination, there, more),
    decreases sources.len(),
{
    if sources.len() > 0 {
        lemma_moving_ignores_more(sources.drop_last(), destination, there, renames, more);
        assert(renames[sources.len() - 1] == more[sources.len() - 1]);
    }
}

} // verus!
