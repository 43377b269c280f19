//! What holds of every scan.

use vstd::prelude::*;
use vstd::utf8::{encode_utf8, is_ascii_chars_encode_utf8};

use crate::catalog::{catalog_members, CatError, CatRecord};
use crate::hashing::{sha1_of, sha256_of};
use crate::path::{cat_root, file_name, path_le, FilePath};
use crate::path_laws::{
    ends_in, law_paths_are_ordered_by_their_first_difference, lemma_three_letters, path_before,
};
use crate::pe::{authenticode, PeError};
use crate::report::{
    file_digests, report_of, CatalogView, FileHashResult, FileOutcome, FileView, PathView, Report,
    ScanReport,
};
use crate::report_laws::{
    catalog_path, distinct, law_invalid_is_what_matches_nothing, law_order_does_not_matter,
    lemma_filter_contains, lemma_filter_distinct, lemma_sorted_ascends, lemma_sorted_contains,
    outcome_path,
};
use crate::scan::{
    catalog_entries, catalog_outcome, catalogs_in, file_entries, file_outcome, files_in, is_catalog,
    is_file, named_cat, named_inf, scanned, sorted_paths, EntryKind, ImageEntry, ImageEntryView,
    KindView, ScanError, Walk, WalkView,
};

verus! {

/// One of the two hashes of `data` is listed.
pub open spec fn lists_hash_of(members: Set<Seq<u8>>, data: Seq<u8>) -> bool {
    members.contains(sha1_of(data)) || members.contains(sha256_of(data))
}

/// A catalog that lists `members` vouches for the file `entry`: of a file that is named as setup
/// information it lists a hash of the content, and of an executable one of what of it is hashed. It
/// vouches for no other file, and for none that cannot be read.
pub open spec fn vouches_for(members: Set<Seq<u8>>, entry: ImageEntryView) -> bool {
    entry.1 matches KindView::File(Ok(data)) && if ends_in(entry.0, 0x69, 0x6E, 0x66) {
        lists_hash_of(members, data)
    } else {
        authenticode(data) matches Ok(Some(bytes)) && lists_hash_of(members, bytes)
    }
}

/// `entry` is a catalog that can be read and vouches for no file of the image.
pub open spec fn vouches_for_nothing(image: Seq<ImageEntryView>, entry: ImageEntryView) -> bool {
    &&& entry.1 is File
    &&& ends_in(entry.0, 0x63, 0x61, 0x74)
    &&& entry.1->File_0 is Ok
    &&& catalog_members(entry.1->File_0->Ok_0) is Ok
    &&& forall|i: int|
        0 <= i < image.len() ==> !vouches_for(
            catalog_members(entry.1->File_0->Ok_0)->Ok_0,
            #[trigger] image[i],
        )
}

/// A file is named as a catalog exactly if its name is something, a dot, and `cat` in any case, and as
/// setup information if it is something, a dot, and `inf` in any case.
pub proof fn law_names_tell_catalogs_and_setup_files(path: PathView)
    ensures
        named_cat(path) <==> ends_in(path, 0x63, 0x61, 0x74),
        named_inf(path) <==> ends_in(path, 0x69, 0x6E, 0x66),
{
    reveal_strlit("cat");
    reveal_strlit("inf");
    is_ascii_chars_encode_utf8("cat"@);
    is_ascii_chars_encode_utf8("inf"@);
    assert(encode_utf8("cat"@) =~= seq![0x63u8, 0x61, 0x74]);
    assert(encode_utf8("inf"@) =~= seq![0x69u8, 0x6E, 0x66]);
    lemma_three_letters(path, 0x63, 0x61, 0x74);
    lemma_three_letters(path, 0x69, 0x6E, 0x66);
}

/// What a file is taken for, and its digests: a file that is named as setup information has the hashes
/// of its content, an executable those of what of it is hashed, and any other file none; what cannot
/// be read, and an executable that cannot be hashed, fail, and the latter counts as an executable.
pub proof fn law_what_a_file_is_taken_for(path: PathView, content: Result<Seq<u8>, Seq<char>>)
    ensures
        ({
            let outcome = file_outcome(path, content);
            let setup = ends_in(path, 0x69, 0x6E, 0x66);
            &&& outcome.0 == path
            &&& content matches Err(message) ==> outcome.2 == Err::<Seq<Seq<u8>>, Seq<char>>(
                message,
            )
            &&& setup ==> outcome.1 == FileHashResult::Inf
            &&& setup && content is Ok ==> outcome.2 == Ok::<Seq<Seq<u8>>, Seq<char>>(
                seq![sha1_of(content->Ok_0), sha256_of(content->Ok_0)],
            )
            &&& !setup && content is Err ==> outcome.1 == FileHashResult::Pe
            &&& !setup && content is Ok ==> match authenticode(content->Ok_0) {
                Ok(Some(bytes)) => outcome.1 == FileHashResult::Pe && outcome.2 == Ok::<
                    Seq<Seq<u8>>,
                    Seq<char>,
                >(seq![sha1_of(bytes), sha256_of(bytes)]),
                Ok(None) => outcome.1 == FileHashResult::Ignored && outcome.2 == Ok::<
                    Seq<Seq<u8>>,
                    Seq<char>,
                >(seq![]),
                Err(e) => outcome.1 == FileHashResult::Pe && outcome.2 == Err::<
                    Seq<Seq<u8>>,
                    Seq<char>,
                >(e.text()),
            }
        }),
{
    law_names_tell_catalogs_and_setup_files(path);
}

/// What reading a catalog comes to: its path with its members, or with why it cannot be read.
pub proof fn law_what_a_catalog_comes_to(path: PathView, content: Result<Seq<u8>, Seq<char>>)
    ensures
        match content {
            Err(message) => catalog_outcome(path, content) == Err::<
                (PathView, Set<Seq<u8>>),
                (PathView, Seq<char>),
            >((path, message)),
            Ok(data) => match catalog_members(data) {
                Ok(members) => catalog_outcome(path, content) == Ok::<
                    (PathView, Set<Seq<u8>>),
                    (PathView, Seq<char>),
                >((path, members)),
                Err(e) => catalog_outcome(path, content) == Err::<
                    (PathView, Set<Seq<u8>>),
                    (PathView, Seq<char>),
                >((path, e.text())),
            },
        },
{
}

/// A list of outcomes grows by one with each file, and with each catalog: with nothing that is no file,
/// and with no file that is not named as a catalog.
pub proof fn law_entries_count_one_by_one(entries: Seq<ImageEntryView>, entry: ImageEntryView)
    ensures
        files_in(Seq::empty()) == Seq::<FileView>::empty(),
        catalogs_in(Seq::empty()) == Seq::<CatalogView>::empty(),
        files_in(entries.push(entry)) == match entry.1 {
            KindView::File(content) => files_in(entries).push(file_outcome(entry.0, content)),
            KindView::Other => files_in(entries),
        },
        catalogs_in(entries.push(entry)) == match entry.1 {
            KindView::File(content) => if ends_in(entry.0, 0x63, 0x61, 0x74) {
                catalogs_in(entries).push(catalog_outcome(entry.0, content))
            } else {
                catalogs_in(entries)
            },
            KindView::Other => catalogs_in(entries),
        },
{
    reveal(Seq::filter);
    law_names_tell_catalogs_and_setup_files(entry.0);
    let more = entries.push(entry);
    assert(more.drop_last() =~= entries);
    assert(more.last() == entry);
    let hash = |e: ImageEntryView| file_outcome(e.0, e.1->File_0);
    let read = |e: ImageEntryView| catalog_outcome(e.0, e.1->File_0);
    let files = entries.filter(is_file());
    let cats = entries.filter(is_catalog());
    assert(files.push(entry).map_values(hash) =~= files.map_values(hash).push(hash(entry)));
    assert(cats.push(entry).map_values(read) =~= cats.map_values(read).push(read(entry)));
    assert(files_in(Seq::empty()) =~= Seq::<FileView>::empty());
    assert(catalogs_in(Seq::empty()) =~= Seq::<CatalogView>::empty());
}

/// A scan is refused without threads; else where the directory of the catalogs is not there; else where
/// no file in it is named as a catalog; and for no other reason.
pub proof fn law_why_a_scan_is_refused(image: WalkView, catalogs: WalkView, jobs: nat)
    ensures
        ({
            let any = exists|i: int|
                0 <= i < catalogs.entries.len() && (#[trigger] catalogs.entries[i]).1 is File
                    && ends_in(catalogs.entries[i].0, 0x63, 0x61, 0x74);
            &&& scanned(image, catalogs, jobs) == Err::<Report, ScanError>(ScanError::ZeroJobs)
                <==> jobs == 0
            &&& scanned(image, catalogs, jobs) == Err::<Report, ScanError>(ScanError::MissingCatRoot)
                <==> jobs > 0 && !catalogs.is_dir
            &&& scanned(image, catalogs, jobs) == Err::<Report, ScanError>(ScanError::NoCatalogs)
                <==> jobs > 0 && catalogs.is_dir && !any
            &&& scanned(image, catalogs, jobs) is Ok <==> jobs > 0 && catalogs.is_dir && any
        }),
{
    let walked = catalogs.entries;
    let cats = walked.filter(is_catalog());
    if cats.len() > 0 {
        assert(cats.contains(cats[0]));
        lemma_filter_contains(walked, is_catalog(), cats[0]);
        let i = walked.index_of(cats[0]);
        law_names_tell_catalogs_and_setup_files(walked[i].0);
        assert(walked[i].1 is File);
    }
    if exists|i: int|
        0 <= i < walked.len() && (#[trigger] walked[i]).1 is File && ends_in(
            walked[i].0,
            0x63,
            0x61,
            0x74,
        ) {
        let i = choose|i: int|
            0 <= i < walked.len() && (#[trigger] walked[i]).1 is File && ends_in(
                walked[i].0,
                0x63,
                0x61,
                0x74,
            );
        law_names_tell_catalogs_and_setup_files(walked[i].0);
        lemma_filter_contains(walked, is_catalog(), walked[i]);
        assert(cats.len() > 0);
    }
}

/// The catalogs to read are the files that a walk came by and that are named as catalogs, and the files
/// to hash are all that it came by, each as often as it came by it.
pub proof fn law_paths_are_those_walked(entries: Seq<(PathView, bool)>, path: PathView, is_file: bool)
    ensures
        catalog_entries(Seq::empty()) == Seq::<PathView>::empty(),
        file_entries(Seq::empty()) == Seq::<PathView>::empty(),
        catalog_entries(entries.push((path, is_file))) == if is_file && ends_in(
            path,
            0x63,
            0x61,
            0x74,
        ) {
            catalog_entries(entries).push(path)
        } else {
            catalog_entries(entries)
        },
        file_entries(entries.push((path, is_file))) == if is_file {
            file_entries(entries).push(path)
        } else {
            file_entries(entries)
        },
{
    reveal(Seq::filter);
    law_names_tell_catalogs_and_setup_files(path);
    let entry = (path, is_file);
    let more = entries.push(entry);
    assert(more.drop_last() =~= entries);
    assert(more.last() == entry);
    let named = |e: (PathView, bool)| e.1 && named_cat(e.0);
    let any = |e: (PathView, bool)| e.1;
    let out = |e: (PathView, bool)| e.0;
    assert(entries.filter(named).push(entry).map_values(out) =~= entries.filter(named).map_values(
        out,
    ).push(path));
    assert(entries.filter(any).push(entry).map_values(out) =~= entries.filter(any).map_values(
        out,
    ).push(path));
    assert(catalog_entries(Seq::empty()) =~= Seq::<PathView>::empty());
    assert(file_entries(Seq::empty()) =~= Seq::<PathView>::empty());
}

/// Sorting paths keeps them, and puts each before those behind it.
pub proof fn law_sorted_paths_are_the_paths_in_order(paths: Seq<PathView>, path: PathView)
    ensures
        sorted_paths(paths).len() == paths.len(),
        sorted_paths(paths).contains(path) <==> paths.contains(path),
        forall|i: int, j: int|
            0 <= i < j < paths.len() ==> #[trigger] sorted_paths(paths)[i]
                == #[trigger] sorted_paths(paths)[j] || path_before(
                sorted_paths(paths)[i],
                sorted_paths(paths)[j],
            ),
{
    let same = |p: PathView| p;
    let sorted = sorted_paths(paths);
    lemma_sorted_contains(paths, same, path);
    lemma_sorted_ascends(paths, same);
    assert forall|i: int, j: int| 0 <= i < j < paths.len() implies #[trigger] sorted[i]
        == #[trigger] sorted[j] || path_before(sorted[i], sorted[j]) by {
        let keys = sorted.map_values(same);
        assert(path_le()(keys[i], keys[j]));
        law_paths_are_ordered_by_their_first_difference(sorted[i], sorted[j]);
    }
}

/// The digests of the files of an image are those of each of its files that can be hashed.
proof fn lemma_image_digests(image: Seq<ImageEntryView>, members: Set<Seq<u8>>)
    ensures
        members.disjoint(file_digests(files_in(image))) <==> forall|i: int|
            0 <= i < image.len() ==> !vouches_for(members, #[trigger] image[i]),
{
    let hash = |e: ImageEntryView| file_outcome(e.0, e.1->File_0);
    let entries = image.filter(is_file());
    let files = files_in(image);
    assert forall|e: ImageEntryView| #[trigger] vouches_for(members, e) <==> e.1 is File && hash(
        e,
    ).2 is Ok && exists|d: Seq<u8>|
        hash(e).2->Ok_0.contains(d) && #[trigger] members.contains(d) by {
        lemma_vouching(members, e);
    }
    if members.disjoint(file_digests(files)) {
        assert forall|i: int| 0 <= i < image.len() implies !vouches_for(
            members,
            #[trigger] image[i],
        ) by {
            if vouches_for(members, image[i]) {
                let outcome = hash(image[i]);
                let d = choose|d: Seq<u8>|
                    outcome.2->Ok_0.contains(d) && #[trigger] members.contains(d);
                lemma_filter_contains(image, is_file(), image[i]);
                let k = entries.index_of(image[i]);
                assert(files[k] == outcome);
                assert(file_digests(files).contains(d));
            }
        }
    } else {
        let d = choose|d: Seq<u8>| #[trigger]
            members.contains(d) && file_digests(files).contains(d);
        let k = choose|k: int|
            0 <= k < files.len() && (#[trigger] files[k]).2 is Ok && files[k].2->Ok_0.contains(d);
        let entry = entries[k];
        assert(entries.contains(entry));
        lemma_filter_contains(image, is_file(), entry);
        let i = image.index_of(entry);
        assert(files[k] == hash(entry));
        assert(hash(entry).2->Ok_0.contains(d) && members.contains(d));
        assert(vouches_for(members, image[i]));
    }
}

proof fn lemma_vouching(members: Set<Seq<u8>>, entry: ImageEntryView)
    ensures
        vouches_for(members, entry) <==> {
            let outcome = file_outcome(entry.0, entry.1->File_0);
            &&& entry.1 is File
            &&& outcome.2 is Ok
            &&& exists|d: Seq<u8>| outcome.2->Ok_0.contains(d) && #[trigger] members.contains(d)
        },
{
    if entry.1 is File {
        let content = entry.1->File_0;
        let outcome = file_outcome(entry.0, content);
        law_what_a_file_is_taken_for(entry.0, content);
        if content is Ok && outcome.2 is Ok {
            let data = content->Ok_0;
            let setup = ends_in(entry.0, 0x69, 0x6E, 0x66);
            if setup || authenticode(data)->Ok_0 is Some {
                let bytes = if setup {
                    data
                } else {
                    authenticode(data)->Ok_0->Some_0
                };
                let both = seq![sha1_of(bytes), sha256_of(bytes)];
                assert(outcome.2->Ok_0 == both);
                assert(both[0] == sha1_of(bytes) && both[1] == sha256_of(bytes));
                assert(both.contains(sha1_of(bytes)) && both.contains(sha256_of(bytes)));
                if exists|d: Seq<u8>| both.contains(d) && #[trigger] members.contains(d) {
                    let d = choose|d: Seq<u8>| both.contains(d) && #[trigger] members.contains(d);
                    let k = both.index_of(d);
                    assert(k == 0 || k == 1);
                }
            }
        }
    }
}

/// A scan lists a path exactly if a catalog is there, in the directory of the catalogs, that can be
/// read and vouches for no file of the image.
pub proof fn law_scan_lists_what_vouches_for_nothing(
    image: WalkView,
    catalogs: WalkView,
    jobs: nat,
    path: PathView,
)
    requires
        scanned(image, catalogs, jobs) is Ok,
    ensures
        scanned(image, catalogs, jobs)->Ok_0.invalid.contains(path) <==> exists|i: int|
            0 <= i < catalogs.entries.len() && (#[trigger] catalogs.entries[i]).0 == path
                && vouches_for_nothing(image.entries, catalogs.entries[i]),
{
    let report = scanned(image, catalogs, jobs)->Ok_0;
    let read = |e: ImageEntryView| catalog_outcome(e.0, e.1->File_0);
    let walked = catalogs.entries;
    let entries = walked.filter(is_catalog());
    let outcomes = catalogs_in(walked);
    let digests = file_digests(files_in(image.entries));
    law_invalid_is_what_matches_nothing(outcomes, files_in(image.entries), path);
    if report.invalid.contains(path) {
        let k = choose|k: int|
            0 <= k < outcomes.len() && (#[trigger] outcomes[k]) is Ok && outcomes[k]->Ok_0.0 == path
                && outcomes[k]->Ok_0.1.disjoint(digests);
        let entry = entries[k];
        assert(entries.contains(entry));
        lemma_filter_contains(walked, is_catalog(), entry);
        law_names_tell_catalogs_and_setup_files(entry.0);
        assert(outcomes[k] == read(entry));
        lemma_image_digests(image.entries, outcomes[k]->Ok_0.1);
        let i = walked.index_of(entry);
        assert(walked[i].0 == path && vouches_for_nothing(image.entries, walked[i]));
    }
    if exists|i: int|
        0 <= i < walked.len() && (#[trigger] walked[i]).0 == path && vouches_for_nothing(
            image.entries,
            walked[i],
        ) {
        let i = choose|i: int|
            0 <= i < walked.len() && (#[trigger] walked[i]).0 == path && vouches_for_nothing(
                image.entries,
                walked[i],
            );
        law_names_tell_catalogs_and_setup_files(walked[i].0);
        lemma_filter_contains(walked, is_catalog(), walked[i]);
        let k = entries.index_of(walked[i]);
        assert(outcomes[k] == read(walked[i]));
        lemma_image_digests(image.entries, outcomes[k]->Ok_0.1);
        assert(outcomes[k] is Ok && outcomes[k]->Ok_0.0 == path);
    }
}

/// Every path that a scan lists is in the directory of the catalogs, is named as a catalog, and has
/// a file name.
pub proof fn law_listed_paths_are_catalogs(
    image: WalkView,
    catalogs: WalkView,
    jobs: nat,
    path: PathView,
)
    requires
        catalogs.path == cat_root(image.path),
        forall|i: int|
            0 <= i < catalogs.entries.len() ==> catalogs.path.is_prefix_of(
                (#[trigger] catalogs.entries[i]).0,
            ),
        scanned(image, catalogs, jobs) is Ok,
        scanned(image, catalogs, jobs)->Ok_0.invalid.contains(path),
    ensures
        cat_root(image.path).is_prefix_of(path),
        named_cat(path),
        file_name(path) is Some,
{
    law_scan_lists_what_vouches_for_nothing(image, catalogs, jobs, path);
    law_names_tell_catalogs_and_setup_files(path);
}

/// An executable keeps the catalogs that list its hash: where a file that is not named as setup
/// information is an executable, and a catalog lists the SHA-1 or the SHA-256 hash of what of it is
/// hashed, the catalog is not listed.
pub proof fn law_executables_keep_their_catalogs(
    image: WalkView,
    catalogs: WalkView,
    jobs: nat,
    file: int,
    catalog: int,
    content: Seq<u8>,
    bytes: Seq<u8>,
    members: Set<Seq<u8>>,
    data: Seq<u8>,
)
    requires
        scanned(image, catalogs, jobs) is Ok,
        distinct(catalogs.entries, |e: ImageEntryView| e.0),
        0 <= file < image.entries.len(),
        image.entries[file].1 == KindView::File(Ok(content)),
        !ends_in(image.entries[file].0, 0x69, 0x6E, 0x66),
        authenticode(content) == Ok::<Option<Seq<u8>>, PeError>(Some(bytes)),
        0 <= catalog < catalogs.entries.len(),
        catalogs.entries[catalog].1 == KindView::File(Ok(data)),
        catalog_members(data) == Ok::<Set<Seq<u8>>, CatError>(members),
        members.contains(sha1_of(bytes)) || members.contains(sha256_of(bytes)),
    ensures
        !scanned(image, catalogs, jobs)->Ok_0.invalid.contains(catalogs.entries[catalog].0),
{
    assert(vouches_for(members, image.entries[file]));
    law_a_match_keeps_a_catalog(image, catalogs, jobs, catalog, file);
}

/// A setup information file keeps the catalogs that list its hash.
pub proof fn law_setup_files_keep_their_catalogs(
    image: WalkView,
    catalogs: WalkView,
    jobs: nat,
    file: int,
    catalog: int,
    content: Seq<u8>,
    members: Set<Seq<u8>>,
    data: Seq<u8>,
)
    requires
        scanned(image, catalogs, jobs) is Ok,
        distinct(catalogs.entries, |e: ImageEntryView| e.0),
        0 <= file < image.entries.len(),
        image.entries[file].1 == KindView::File(Ok(content)),
        ends_in(image.entries[file].0, 0x69, 0x6E, 0x66),
        0 <= catalog < catalogs.entries.len(),
        catalogs.entries[catalog].1 == KindView::File(Ok(data)),
        catalog_members(data) == Ok::<Set<Seq<u8>>, CatError>(members),
        members.contains(sha1_of(content)) || members.contains(sha256_of(content)),
    ensures
        !scanned(image, catalogs, jobs)->Ok_0.invalid.contains(catalogs.entries[catalog].0),
{
    assert(vouches_for(members, image.entries[file]));
    law_a_match_keeps_a_catalog(image, catalogs, jobs, catalog, file);
}

/// A catalog that lists no hash of any executable, nor of any setup information file, is listed.
pub proof fn law_what_matches_nothing_is_listed(
    image: WalkView,
    catalogs: WalkView,
    jobs: nat,
    catalog: int,
    members: Set<Seq<u8>>,
    data: Seq<u8>,
)
    requires
        scanned(image, catalogs, jobs) is Ok,
        0 <= catalog < catalogs.entries.len(),
        catalogs.entries[catalog].1 == KindView::File(Ok(data)),
        ends_in(catalogs.entries[catalog].0, 0x63, 0x61, 0x74),
        catalog_members(data) == Ok::<Set<Seq<u8>>, CatError>(members),
        forall|i: int|
            0 <= i < image.entries.len() ==> ((#[trigger] image.entries[i]).1 matches KindView::File(
                Ok(content),
            ) ==> if ends_in(image.entries[i].0, 0x69, 0x6E, 0x66) {
                !members.contains(sha1_of(content)) && !members.contains(sha256_of(content))
            } else {
                authenticode(content) matches Ok(Some(bytes)) ==> !members.contains(sha1_of(bytes))
                    && !members.contains(sha256_of(bytes))
            }),
    ensures
        scanned(image, catalogs, jobs)->Ok_0.invalid.contains(catalogs.entries[catalog].0),
{
    law_scan_lists_what_vouches_for_nothing(image, catalogs, jobs, catalogs.entries[catalog].0);
    assert(vouches_for_nothing(image.entries, catalogs.entries[catalog]));
}

/// A catalog that lists `members` vouches for the file that a walk came by.
pub open spec fn covers(members: Set<Seq<u8>>, entry: ImageEntry) -> bool {
    entry.kind matches EntryKind::File(Ok(data)) && if ends_in(entry.path@, 0x69, 0x6E, 0x66) {
        members.contains(sha1_of(data@)) || members.contains(sha256_of(data@))
    } else {
        authenticode(data@) matches Ok(Some(bytes)) && (members.contains(sha1_of(bytes))
            || members.contains(sha256_of(bytes)))
    }
}

/// What a scan lists: the path of each catalog that can be read and vouches for no file, and nothing
/// else.
pub proof fn law_what_a_scan_lists(
    image: Walk,
    catalogs: Walk,
    jobs: usize,
    report: ScanReport,
    path: PathView,
)
    requires
        scanned(image@, catalogs@, jobs as nat) == Ok::<Report, ScanError>(report@),
    ensures
        (exists|n: int| 0 <= n < report.invalid@.len() && (#[trigger] report.invalid@[n])@ == path)
            <==> exists|i: int|
            0 <= i < catalogs.entries@.len() && (#[trigger] catalogs.entries@[i]).path@ == path
                && ends_in(path, 0x63, 0x61, 0x74) && (catalogs.entries@[i].kind
                matches EntryKind::File(Ok(data)) && catalog_members(data@) matches Ok(members)
                && forall|j: int|
                0 <= j < image.entries@.len() ==> !covers(members, #[trigger] image.entries@[j])),
{
    law_scan_lists_what_vouches_for_nothing(image@, catalogs@, jobs as nat, path);
    let invalid = report@.invalid;
    assert(invalid.len() == report.invalid@.len());
    assert forall|n: int| 0 <= n < invalid.len() implies #[trigger] invalid[n]
        == report.invalid@[n]@ by {}
    assert((exists|n: int|
        0 <= n < report.invalid@.len() && (#[trigger] report.invalid@[n])@ == path)
        <==> invalid.contains(path)) by {
        if invalid.contains(path) {
            let n = invalid.index_of(path);
            assert(report.invalid@[n]@ == path);
        }
        if exists|n: int|
            0 <= n < report.invalid@.len() && (#[trigger] report.invalid@[n])@ == path {
            let n = choose|n: int|
                0 <= n < report.invalid@.len() && (#[trigger] report.invalid@[n])@ == path;
            assert(invalid[n] == path);
        }
    }
    let walked = catalogs@.entries;
    let files = image@.entries;
    assert forall|i: int| 0 <= i < walked.len() implies #[trigger] walked[i]
        == catalogs.entries@[i]@ by {}
    assert forall|j: int| 0 <= j < files.len() implies #[trigger] files[j] == image.entries@[j]@ by {}
    if invalid.contains(path) {
        let i = choose|i: int|
            0 <= i < walked.len() && (#[trigger] walked[i]).0 == path && vouches_for_nothing(
                files,
                walked[i],
            );
        let members = catalog_members(walked[i].1->File_0->Ok_0)->Ok_0;
        assert(catalogs.entries@[i].path@ == path);
        assert forall|j: int| 0 <= j < image.entries@.len() implies !covers(
            members,
            #[trigger] image.entries@[j],
        ) by {
            assert(!vouches_for(members, files[j]));
        }
    }
    if exists|i: int|
        0 <= i < catalogs.entries@.len() && (#[trigger] catalogs.entries@[i]).path@ == path
            && ends_in(path, 0x63, 0x61, 0x74) && (catalogs.entries@[i].kind
            matches EntryKind::File(Ok(data)) && catalog_members(data@) matches Ok(members)
            && forall|j: int|
            0 <= j < image.entries@.len() ==> !covers(members, #[trigger] image.entries@[j])) {
        let i = choose|i: int|
            0 <= i < catalogs.entries@.len() && (#[trigger] catalogs.entries@[i]).path@ == path
                && ends_in(path, 0x63, 0x61, 0x74) && (catalogs.entries@[i].kind
                matches EntryKind::File(Ok(data)) && catalog_members(data@) matches Ok(members)
                && forall|j: int|
                0 <= j < image.entries@.len() ==> !covers(members, #[trigger] image.entries@[j]));
        let members = catalog_members(walked[i].1->File_0->Ok_0)->Ok_0;
        assert forall|j: int| 0 <= j < files.len() implies !vouches_for(
            members,
            #[trigger] files[j],
        ) by {
            assert(!covers(members, image.entries@[j]));
        }
        assert(vouches_for_nothing(files, walked[i]));
    }
}

/// A catalog that cannot be read is not listed.
pub proof fn law_unreadable_catalogs_are_not_listed(
    image: WalkView,
    catalogs: WalkView,
    jobs: nat,
    catalog: int,
)
    requires
        scanned(image, catalogs, jobs) is Ok,
        distinct(catalogs.entries, |e: ImageEntryView| e.0),
        0 <= catalog < catalogs.entries.len(),
        catalogs.entries[catalog].1 is File,
        catalog_outcome(
            catalogs.entries[catalog].0,
            catalogs.entries[catalog].1->File_0,
        ) is Err,
    ensures
        !scanned(image, catalogs, jobs)->Ok_0.invalid.contains(catalogs.entries[catalog].0),
{
    law_scan_lists_what_vouches_for_nothing(
        image,
        catalogs,
        jobs,
        catalogs.entries[catalog].0,
    );
}

/// A file that a catalog lists the digest of keeps the catalog from being listed.
pub proof fn law_a_match_keeps_a_catalog(
    image: WalkView,
    catalogs: WalkView,
    jobs: nat,
    catalog: int,
    file: int,
)
    requires
        scanned(image, catalogs, jobs) is Ok,
        distinct(catalogs.entries, |e: ImageEntryView| e.0),
        0 <= catalog < catalogs.entries.len(),
        0 <= file < image.entries.len(),
        catalogs.entries[catalog].1 is File && catalogs.entries[catalog].1->File_0 is Ok,
        catalog_members(catalogs.entries[catalog].1->File_0->Ok_0) is Ok,
        vouches_for(
            catalog_members(catalogs.entries[catalog].1->File_0->Ok_0)->Ok_0,
            image.entries[file],
        ),
    ensures
        !scanned(image, catalogs, jobs)->Ok_0.invalid.contains(catalogs.entries[catalog].0),
{
    law_scan_lists_what_vouches_for_nothing(
        image,
        catalogs,
        jobs,
        catalogs.entries[catalog].0,
    );
}

/// Reading the catalogs and hashing the files of an image in whatever order comes to what a scan of
/// it comes to.
pub proof fn law_steps_come_to_the_scan(
    image: WalkView,
    catalogs: WalkView,
    jobs: nat,
    read: Seq<CatalogView>,
    hashed: Seq<FileView>,
)
    requires
        scanned(image, catalogs, jobs) is Ok,
        distinct(image.entries, |e: ImageEntryView| e.0),
        distinct(catalogs.entries, |e: ImageEntryView| e.0),
        distinct(read, catalog_path()),
        distinct(hashed, outcome_path()),
        forall|c: CatalogView| #[trigger]
            read.contains(c) <==> catalogs_in(catalogs.entries).contains(c),
        forall|f: FileView| #[trigger] hashed.contains(f) <==> files_in(image.entries).contains(f),
    ensures
        report_of(read, hashed) == scanned(image, catalogs, jobs)->Ok_0,
{
    let path = |e: ImageEntryView| e.0;
    lemma_filter_distinct(
        catalogs.entries,
        is_catalog(),
        path,
        |e: ImageEntryView| catalog_outcome(e.0, e.1->File_0),
        catalog_path(),
    );
    lemma_filter_distinct(
        image.entries,
        is_file(),
        path,
        |e: ImageEntryView| file_outcome(e.0, e.1->File_0),
        outcome_path(),
    );
    law_order_does_not_matter(read, catalogs_in(catalogs.entries), hashed, files_in(image.entries));
}

/// The number of threads does not bear on what a scan comes to, as long as there are any.
pub proof fn law_jobs_do_not_matter(image: WalkView, catalogs: WalkView, jobs: nat, other: nat)
    requires
        jobs > 0,
        other > 0,
    ensures
        scanned(image, catalogs, jobs) == scanned(image, catalogs, other),
{
}

/// What hashing a file, and reading a catalog, came to says what its parts say; a path says its names.
pub proof fn law_outcomes_show_their_parts(outcome: FileOutcome, record: CatRecord, path: FilePath)
    ensures
        outcome@.0 == outcome.path@,
        outcome@.1 == outcome.kind,
        match outcome.digests {
            Ok(digests) => {
                &&& outcome@.2 matches Ok(shown) && shown.len() == digests@.len() && forall|i: int|
                    0 <= i < shown.len() ==> #[trigger] shown[i] == digests@[i]@
            },
            Err(message) => outcome@.2 == Err::<Seq<Seq<u8>>, Seq<char>>(message@),
        },
        record@.0 == record.path@,
        record@.1 == record.members@,
        path@.len() == path.parts@.len(),
        forall|i: int| 0 <= i < path@.len() ==> #[trigger] path@[i] == path.parts@[i]@,
{
}

} // verus!
