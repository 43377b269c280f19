//! What a scan of an image comes to.

use vstd::prelude::*;

use crate::catalog::CatRecord;
use crate::digest::Digest;
use crate::digest_set::{digest_views, DigestSet};
use crate::path::{lemma_path_total, path_le, FilePath};
use crate::report_laws::law_every_catalog_is_counted;
use crate::sort::{lemma_sorted_order, shown, sort_by_keys, sorted_items, sorted_order};

verus! {

/// The names that a path leads through.
pub type PathView = Seq<Seq<u8>>;

impl View for CatRecord {
    type V = (PathView, Set<Seq<u8>>);

    open spec fn view(&self) -> (PathView, Set<Seq<u8>>) {
        (self.path@, self.members@)
    }
}

/// What a file was taken for.
#[derive(Clone, Copy, Debug, PartialEq, Eq, Structural)]
pub enum FileHashResult {
    /// An executable.
    Pe,
    /// A setup information file.
    Inf,
    /// Neither.
    Ignored,
}

/// What hashing a file came to: what it was taken for, and its digests, or why there are none.
#[derive(Debug)]
pub struct FileOutcome {
    pub path: FilePath,
    pub kind: FileHashResult,
    pub digests: Result<Vec<Digest>, String>,
}

/// The path of a file, what it was taken for, and its digests, or why there are none.
pub type FileView = (PathView, FileHashResult, Result<Seq<Seq<u8>>, Seq<char>>);

impl View for FileOutcome {
    type V = FileView;

    open spec fn view(&self) -> FileView {
        (
            self.path@,
            self.kind,
            match self.digests {
                Ok(digests) => Ok(digest_views(digests@)),
                Err(message) => Err(message@),
            },
        )
    }
}

/// What reading a catalog came to: its path and members, or its path and why it has none.
pub type CatalogView = Result<(PathView, Set<Seq<u8>>), (PathView, Seq<char>)>;

/// What reading a catalog came to.
pub open spec fn catalog_view(outcome: Result<CatRecord, (FilePath, String)>) -> CatalogView {
    match outcome {
        Ok(record) => Ok(record@),
        Err(failure) => Err(failure@),
    }
}

/// What reading each catalog came to.
pub open spec fn catalog_views(
    outcomes: Seq<Result<CatRecord, (FilePath, String)>>,
) -> Seq<CatalogView> {
    outcomes.map_values(|outcome: Result<CatRecord, (FilePath, String)>| catalog_view(outcome))
}

/// What a scan came to: the catalogs that could be read, the paths of those among them that vouch
/// for no file, what went wrong, and how many files there were of each kind.
#[derive(Debug)]
pub struct ScanReport {
    pub cats: Vec<CatRecord>,
    pub invalid: Vec<FilePath>,
    pub parse_errors: Vec<(FilePath, String)>,
    pub hash_errors: Vec<(FilePath, String)>,
    pub pe_count: usize,
    pub inf_count: usize,
    pub ignored_count: usize,
}

/// What a `ScanReport` says.
#[verifier::ext_equal]
pub ghost struct Report {
    pub cats: Seq<(PathView, Set<Seq<u8>>)>,
    pub invalid: Seq<PathView>,
    pub parse_errors: Seq<(PathView, Seq<char>)>,
    pub hash_errors: Seq<(PathView, Seq<char>)>,
    pub pe_count: nat,
    pub inf_count: nat,
    pub ignored_count: nat,
}

impl View for ScanReport {
    type V = Report;

    open spec fn view(&self) -> Report {
        Report {
            cats: shown(self.cats@),
            invalid: shown(self.invalid@),
            parse_errors: shown(self.parse_errors@),
            hash_errors: shown(self.hash_errors@),
            pe_count: self.pe_count as nat,
            inf_count: self.inf_count as nat,
            ignored_count: self.ignored_count as nat,
        }
    }
}

impl Default for ScanReport {
    /// The report of a scan that came by nothing.
    fn default() -> (report: ScanReport)
        ensures
            report@ == (Report {
                cats: seq![],
                invalid: seq![],
                parse_errors: seq![],
                hash_errors: seq![],
                pe_count: 0,
                inf_count: 0,
                ignored_count: 0,
            }),
            report.wf(),
    {
        let report = ScanReport {
            cats: Vec::new(),
            invalid: Vec::new(),
            parse_errors: Vec::new(),
            hash_errors: Vec::new(),
            pe_count: 0,
            inf_count: 0,
            ignored_count: 0,
        };
        assert(report@.cats =~= seq![]);
        assert(report@.invalid =~= seq![]);
        assert(report@.parse_errors =~= seq![]);
        assert(report@.hash_errors =~= seq![]);
        report
    }
}

impl ScanReport {
    /// The numbers of catalogs can be told: there are no more invalid ones than there are, and the
    /// catalogs and the failures can be counted together.
    pub open spec fn wf(self) -> bool {
        &&& self.cats@.len() + self.parse_errors@.len() <= usize::MAX
        &&& self.invalid@.len() <= self.cats@.len()
    }

    /// Whether something went wrong.
    pub fn has_errors(&self) -> (errors: bool)
        ensures
            errors == has_errors(self@),
    {
        self.parse_errors.len() > 0 || self.hash_errors.len() > 0
    }
}

/// A catalog could not be read, or a file could not be hashed.
pub open spec fn has_errors(report: Report) -> bool {
    report.parse_errors.len() > 0 || report.hash_errors.len() > 0
}

/// The catalogs that could be read.
pub open spec fn readable(catalogs: Seq<CatalogView>) -> Seq<(PathView, Set<Seq<u8>>)> {
    catalogs.filter(|c: CatalogView| c is Ok).map_values(|c: CatalogView| c->Ok_0)
}

/// The catalogs that could not be read.
pub open spec fn unreadable(catalogs: Seq<CatalogView>) -> Seq<(PathView, Seq<char>)> {
    catalogs.filter(|c: CatalogView| c is Err).map_values(|c: CatalogView| c->Err_0)
}

/// The files that could not be hashed.
pub open spec fn unhashed(files: Seq<FileView>) -> Seq<(PathView, Seq<char>)> {
    files.filter(|f: FileView| f.2 is Err).map_values(|f: FileView| (f.0, f.2->Err_0))
}

/// Whether a file was taken for `kind` and could be hashed.
pub open spec fn hashed_as(kind: FileHashResult) -> spec_fn(FileView) -> bool {
    |f: FileView| f.2 is Ok && f.1 == kind
}

/// The files of a kind that could be hashed.
pub open spec fn hashed(files: Seq<FileView>, kind: FileHashResult) -> Seq<FileView> {
    files.filter(hashed_as(kind))
}

/// The digests of all files that could be hashed.
pub open spec fn file_digests(files: Seq<FileView>) -> Set<Seq<u8>> {
    Set::new(
        |d: Seq<u8>|
            exists|i: int|
                0 <= i < files.len() && (#[trigger] files[i]).2 is Ok && files[i].2->Ok_0.contains(
                    d,
                ),
    )
}

/// The paths of the catalogs that list none of `digests`.
pub open spec fn unmatched(
    cats: Seq<(PathView, Set<Seq<u8>>)>,
    digests: Set<Seq<u8>>,
) -> Seq<PathView> {
    cats.filter(|c: (PathView, Set<Seq<u8>>)| c.1.disjoint(digests)).map_values(
        |c: (PathView, Set<Seq<u8>>)| c.0,
    )
}

/// Catalogs in the order of their paths.
pub open spec fn cats_by_path(cats: Seq<(PathView, Set<Seq<u8>>)>) -> Seq<
    (PathView, Set<Seq<u8>>),
> {
    sorted_items(cats, |c: (PathView, Set<Seq<u8>>)| c.0, path_le())
}

/// Failures in the order of their paths.
pub open spec fn failures_by_path(failures: Seq<(PathView, Seq<char>)>) -> Seq<
    (PathView, Seq<char>),
> {
    sorted_items(failures, |f: (PathView, Seq<char>)| f.0, path_le())
}

/// What a scan that read `catalogs` and hashed `files` comes to.
pub open spec fn report_of(catalogs: Seq<CatalogView>, files: Seq<FileView>) -> Report {
    Report {
        cats: cats_by_path(readable(catalogs)),
        invalid: unmatched(cats_by_path(readable(catalogs)), file_digests(files)),
        parse_errors: failures_by_path(unreadable(catalogs)),
        hash_errors: failures_by_path(unhashed(files)),
        pe_count: hashed(files, FileHashResult::Pe).len(),
        inf_count: hashed(files, FileHashResult::Inf).len(),
        ignored_count: hashed(files, FileHashResult::Ignored).len(),
    }
}

/// Filtering one item more.
pub proof fn lemma_filter_step<A>(items: Seq<A>, i: int, keep: spec_fn(A) -> bool)
    requires
        0 <= i < items.len(),
    ensures
        items.take(i + 1).filter(keep) == if keep(items[i]) {
            items.take(i).filter(keep).push(items[i])
        } else {
            items.take(i).filter(keep)
        },
{
    reveal(Seq::filter);
    assert(items.take(i + 1).drop_last() =~= items.take(i));
    assert(items.take(i + 1).last() == items[i]);
}

/// Tells the catalogs that could be read from those that could not.
fn split_catalogs(catalogs: Vec<Result<CatRecord, (FilePath, String)>>) -> (split: (
    Vec<CatRecord>,
    Vec<(FilePath, String)>,
))
    ensures
        shown(split.0@) == readable(catalog_views(catalogs@)),
        shown(split.1@) == unreadable(catalog_views(catalogs@)),
{
    let ghost views = catalog_views(catalogs@);
    let ghost ok = |c: CatalogView| c is Ok;
    let ghost failed = |c: CatalogView| c is Err;
    let mut cats: Vec<CatRecord> = Vec::new();
    let mut failures: Vec<(FilePath, String)> = Vec::new();
    assert(views.take(0).filter(ok) =~= Seq::<CatalogView>::empty()) by {
        reveal(Seq::filter);
    }
    assert(views.take(0).filter(failed) =~= Seq::<CatalogView>::empty()) by {
        reveal(Seq::filter);
    }
    for outcome in outcomes: catalogs
        invariant
            views == catalog_views(outcomes.seq()),
            ok == (|c: CatalogView| c is Ok),
            failed == (|c: CatalogView| c is Err),
            shown(cats@) =~= views.take(outcomes.index()).filter(ok).map_values(
                |c: CatalogView| c->Ok_0,
            ),
            shown(failures@) =~= views.take(outcomes.index()).filter(failed).map_values(
                |c: CatalogView| c->Err_0,
            ),
    {
        let ghost i = outcomes.index();
        let ghost before = (shown(cats@), shown(failures@));
        proof {
            lemma_filter_step(views, i, ok);
            lemma_filter_step(views, i, failed);
            assert(views[i] == catalog_view(outcome));
        }
        match outcome {
            Ok(record) => {
                cats.push(record);
                assert(shown(cats@) =~= before.0.push(record@));
            },
            Err(failure) => {
                failures.push(failure);
                assert(shown(failures@) =~= before.1.push(failure@));
            },
        }
    }
    assert(views.take(views.len() as int) =~= views);
    (cats, failures)
}

/// Sorts items by the paths at the same places.
proof fn lemma_sorted_shown<T: View>(
    items: Seq<T>,
    sorted: Seq<T>,
    paths: Seq<PathView>,
    key: spec_fn(T::V) -> PathView,
)
    requires
        paths == shown(items).map_values(key),
        sorted == sorted_order(paths, path_le()).map_values(|i: int| items[i]),
    ensures
        shown(sorted) == sorted_items(shown(items), key, path_le()),
{
    lemma_path_total();
    lemma_sorted_order(paths, path_le());
    assert(shown(sorted) =~= sorted_items(shown(items), key, path_le()));
}

/// Sorts catalogs by their paths.
fn sort_cats(cats: Vec<CatRecord>) -> (sorted: Vec<CatRecord>)
    ensures
        shown(sorted@) == cats_by_path(shown(cats@)),
{
    let ghost key = |c: (PathView, Set<Seq<u8>>)| c.0;
    let mut paths: Vec<FilePath> = Vec::new();
    for i in 0..cats.len()
        invariant
            paths@.len() == i,
            forall|k: int| 0 <= k < i ==> (#[trigger] paths@[k])@ == cats@[k].path@,
    {
        paths.push(cats[i].path.copy());
    }
    assert(shown(paths@) =~= shown(cats@).map_values(key));
    let sorted = sort_by_keys(&paths, cats);
    proof {
        lemma_sorted_shown(cats@, sorted@, shown(paths@), key);
    }
    sorted
}

/// Sorts failures by their paths.
fn sort_failures(failures: Vec<(FilePath, String)>) -> (sorted: Vec<(FilePath, String)>)
    ensures
        shown(sorted@) == failures_by_path(shown(failures@)),
{
    let ghost key = |f: (PathView, Seq<char>)| f.0;
    let mut paths: Vec<FilePath> = Vec::new();
    for i in 0..failures.len()
        invariant
            paths@.len() == i,
            forall|k: int| 0 <= k < i ==> (#[trigger] paths@[k])@ == failures@[k].0@,
    {
        paths.push(failures[i].0.copy());
    }
    assert(shown(paths@) =~= shown(failures@).map_values(key));
    let sorted = sort_by_keys(&paths, failures);
    proof {
        lemma_sorted_shown(failures@, sorted@, shown(paths@), key);
    }
    sorted
}

/// Whether no digest of `members` is in `digests`.
fn lists_none(members: &DigestSet, digests: &DigestSet) -> (none: bool)
    ensures
        none == members@.disjoint(digests@),
{
    let listed = members.as_slice();
    let ghost keys = digest_views(listed@);
    for i in 0..listed.len()
        invariant
            keys == digest_views(listed@),
            keys.to_set() == members@,
            forall|k: int| 0 <= k < i ==> !digests@.contains(#[trigger] keys[k]),
    {
        assert(keys[i as int] == listed@[i as int]@);
        if digests.contains(&listed[i]) {
            assert(keys.contains(keys[i as int]));
            assert(members@.contains(keys[i as int]));
            return false;
        }
    }
    assert forall|d: Seq<u8>| members@.contains(d) implies !digests@.contains(d) by {
        assert(keys.to_set().contains(d));
        let k = keys.index_of(d);
        assert(keys[k] == d);
    }
    true
}

/// The paths of the catalogs that list none of `digests`.
fn find_unmatched(cats: &Vec<CatRecord>, digests: &DigestSet) -> (paths: Vec<FilePath>)
    ensures
        shown(paths@) == unmatched(shown(cats@), digests@),
        paths@.len() <= cats@.len(),
{
    let ghost keep = |c: (PathView, Set<Seq<u8>>)| c.1.disjoint(digests@);
    let ghost path = |c: (PathView, Set<Seq<u8>>)| c.0;
    let ghost views = shown(cats@);
    let mut paths: Vec<FilePath> = Vec::new();
    assert(views.take(0).filter(keep) =~= Seq::<(PathView, Set<Seq<u8>>)>::empty()) by {
        reveal(Seq::filter);
    }
    for i in 0..cats.len()
        invariant
            views == shown(cats@),
            keep == (|c: (PathView, Set<Seq<u8>>)| c.1.disjoint(digests@)),
            path == (|c: (PathView, Set<Seq<u8>>)| c.0),
            shown(paths@) =~= views.take(i as int).filter(keep).map_values(path),
            paths@.len() <= i,
    {
        let ghost before = shown(paths@);
        proof {
            lemma_filter_step(views, i as int, keep);
            assert(views[i as int] == cats@[i as int]@);
        }
        if lists_none(&cats[i].members, digests) {
            paths.push(cats[i].path.copy());
            assert(shown(paths@) =~= before.push(cats@[i as int].path@));
        }
    }
    assert(views.take(views.len() as int) =~= views);
    paths
}

/// What hashing the files of an image came to.
struct Tally {
    digests: Vec<Digest>,
    failures: Vec<(FilePath, String)>,
    pe_count: usize,
    inf_count: usize,
    ignored_count: usize,
}

/// The digests of `files` that could be hashed.
proof fn lemma_file_digests_step(files: Seq<FileView>, i: int)
    requires
        0 <= i < files.len(),
    ensures
        file_digests(files.take(i + 1)) == match files[i].2 {
            Ok(digests) => file_digests(files.take(i)).union(digests.to_set()),
            Err(_) => file_digests(files.take(i)),
        },
{
    let more = files.take(i + 1);
    let less = files.take(i);
    assert forall|d: Seq<u8>| #[trigger] file_digests(more).contains(d) <==> match files[i].2 {
        Ok(digests) => file_digests(less).union(digests.to_set()),
        Err(_) => file_digests(less),
    }.contains(d) by {
        if file_digests(more).contains(d) {
            let k = choose|k: int|
                0 <= k < more.len() && (#[trigger] more[k]).2 is Ok && more[k].2->Ok_0.contains(d);
            if k < i {
                assert(less[k] == more[k]);
            } else {
                assert(more[k] == files[i]);
            }
        }
        if file_digests(less).contains(d) {
            let k = choose|k: int|
                0 <= k < less.len() && (#[trigger] less[k]).2 is Ok && less[k].2->Ok_0.contains(d);
            assert(less[k] == more[k]);
        }
        if files[i].2 is Ok && files[i].2->Ok_0.contains(d) {
            assert(more[i] == files[i]);
        }
    }
    assert(file_digests(more) =~= match files[i].2 {
        Ok(digests) => file_digests(less).union(digests.to_set()),
        Err(_) => file_digests(less),
    });
}

/// Putting digests behind others puts them in the set.
proof fn lemma_digests_appended(before: Seq<Digest>, after: Seq<Digest>, more: Seq<Digest>)
    requires
        after == before + more,
    ensures
        digest_views(after).to_set() == digest_views(before).to_set().union(
            digest_views(more).to_set(),
        ),
{
    let x = digest_views(before);
    let y = digest_views(more);
    let z = digest_views(after);
    assert(z =~= x + y);
    assert forall|d: Seq<u8>| #[trigger] z.to_set().contains(d) <==> x.to_set().union(
        y.to_set(),
    ).contains(d) by {
        if x.contains(d) {
            assert(z[x.index_of(d)] == d);
        }
        if y.contains(d) {
            assert(z[x.len() + y.index_of(d)] == d);
        }
        if z.contains(d) {
            let k = z.index_of(d);
            if k < x.len() {
                assert(x[k] == d);
            } else {
                assert(y[k - x.len()] == d);
            }
        }
    }
    assert(z.to_set() =~= x.to_set().union(y.to_set()));
}

/// Counts what hashing the files came to, and gathers their digests and what went wrong.
fn tally_files(files: Vec<FileOutcome>) -> (tally: Tally)
    ensures
        digest_views(tally.digests@).to_set() == file_digests(shown(files@)),
        shown(tally.failures@) == unhashed(shown(files@)),
        tally.pe_count == hashed(shown(files@), FileHashResult::Pe).len(),
        tally.inf_count == hashed(shown(files@), FileHashResult::Inf).len(),
        tally.ignored_count == hashed(shown(files@), FileHashResult::Ignored).len(),
{
    let ghost views = shown(files@);
    let ghost failed = |f: FileView| f.2 is Err;
    let ghost failure = |f: FileView| (f.0, f.2->Err_0);
    let count: usize = files.len();
    let mut digests: Vec<Digest> = Vec::new();
    let mut failures: Vec<(FilePath, String)> = Vec::new();
    let mut pe_count: usize = 0;
    let mut inf_count: usize = 0;
    let mut ignored_count: usize = 0;
    proof {
        reveal(Seq::filter);
        let none = views.take(0);
        assert(none.filter(failed) =~= Seq::<FileView>::empty());
        assert(hashed(none, FileHashResult::Pe).len() == 0);
        assert(hashed(none, FileHashResult::Inf).len() == 0);
        assert(hashed(none, FileHashResult::Ignored).len() == 0);
        assert(file_digests(none) =~= digest_views(digests@).to_set());
    }
    for outcome in outcomes: files
        invariant
            views == shown(outcomes.seq()),
            count == outcomes.seq().len(),
            failed == (|f: FileView| f.2 is Err),
            failure == (|f: FileView| (f.0, f.2->Err_0)),
            digest_views(digests@).to_set() == file_digests(views.take(outcomes.index())),
            shown(failures@) =~= views.take(outcomes.index()).filter(failed).map_values(failure),
            pe_count == hashed(views.take(outcomes.index()), FileHashResult::Pe).len(),
            inf_count == hashed(views.take(outcomes.index()), FileHashResult::Inf).len(),
            ignored_count == hashed(views.take(outcomes.index()), FileHashResult::Ignored).len(),
            pe_count <= outcomes.index() <= count,
            inf_count <= outcomes.index(),
            ignored_count <= outcomes.index(),
    {
        let ghost i = outcomes.index();
        let ghost before = shown(failures@);
        proof {
            lemma_filter_step(views, i, failed);
            lemma_filter_step(views, i, hashed_as(FileHashResult::Pe));
            lemma_filter_step(views, i, hashed_as(FileHashResult::Inf));
            lemma_filter_step(views, i, hashed_as(FileHashResult::Ignored));
            lemma_file_digests_step(views, i);
            assert(views[i] == outcome@);
        }
        let FileOutcome { path, kind, digests: result } = outcome;
        match result {
            Ok(more) => {
                match kind {
                    FileHashResult::Pe => {
                        pe_count = pe_count + 1;
                    },
                    FileHashResult::Inf => {
                        inf_count = inf_count + 1;
                    },
                    FileHashResult::Ignored => {
                        ignored_count = ignored_count + 1;
                    },
                }
                let ghost old_digests = digests@;
                let mut more = more;
                let ghost added = more@;
                digests.append(&mut more);
                proof {
                    lemma_digests_appended(old_digests, digests@, added);
                }
            },
            Err(message) => {
                failures.push((path, message));
                assert(shown(failures@) =~= before.push((path@, message@)));
            },
        }
    }
    assert(views.take(views.len() as int) =~= views);
    Tally { digests, failures, pe_count, inf_count, ignored_count }
}

/// Puts together what a scan came to that read `catalogs` and hashed `files`.
pub fn assemble(
    catalogs: Vec<Result<CatRecord, (FilePath, String)>>,
    files: Vec<FileOutcome>,
) -> (report: ScanReport)
    ensures
        report@ == report_of(catalog_views(catalogs@), shown(files@)),
        report.wf(),
{
    let count: usize = catalogs.len();
    proof {
        law_every_catalog_is_counted(catalog_views(catalogs@), shown(files@));
    }
    let (cats, parse_errors) = split_catalogs(catalogs);
    let cats = sort_cats(cats);
    let parse_errors = sort_failures(parse_errors);
    let tally = tally_files(files);
    let found = DigestSet::from_digests(&tally.digests);
    let invalid = find_unmatched(&cats, &found);
    let hash_errors = sort_failures(tally.failures);
    let report = ScanReport {
        cats,
        invalid,
        parse_errors,
        hash_errors,
        pe_count: tally.pe_count,
        inf_count: tally.inf_count,
        ignored_count: tally.ignored_count,
    };
    assert(report@.cats.len() + report@.parse_errors.len() == count);
    report
}

} // verus!
