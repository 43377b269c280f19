//! Scanning an image, step by step and all at once.

use vstd::prelude::*;
use vstd::utf8::encode_utf8;

use crate::catalog::{catalog_members, parse_cat, CatRecord};
use crate::digest::Digest;
use crate::digest_set::digest_views;
use crate::hashing::{hash_file, sha1_of, sha256_of, MAX_HASHED};
use crate::path::{
    cat_root, has_extension, lemma_path_total, locate_cat_root, path_le, FilePath,
};
use crate::pe::{authenticode, hash_pe_authenticode};
use crate::report::{
    assemble, catalog_view, catalog_views, lemma_filter_step, report_of, CatalogView,
    FileHashResult, FileOutcome, FileView, PathView, Report, ScanReport,
};
use crate::sort::{lemma_sorted_order, shown, sort_order, sorted_items, sorted_order};

verus! {

/// Why an image is not scanned.
#[derive(Clone, Copy, Debug, PartialEq, Eq, Structural)]
pub enum ScanError {
    /// There are no threads to scan with.
    ZeroJobs,
    /// The directory of the catalogs is not there.
    MissingCatRoot,
    /// There is no catalog in it.
    NoCatalogs,
}

impl ScanError {
    /// What the error says, where `cat_root` stands for the directory of the catalogs.
    pub open spec fn text(self, cat_root: Seq<char>) -> Seq<char> {
        match self {
            ScanError::ZeroJobs => "--jobs must be greater than zero"@,
            ScanError::MissingCatRoot => "CAT directory does not exist: "@ + cat_root,
            ScanError::NoCatalogs => "CAT directory contains no .cat files: "@ + cat_root,
        }
    }

    /// What the error says, where `cat_root` stands for the directory of the catalogs.
    pub fn message(&self, cat_root: &str) -> (message: String)
        ensures
            message@ == self.text(cat_root@),
    {
        match self {
            ScanError::ZeroJobs => "--jobs must be greater than zero".to_owned(),
            ScanError::MissingCatRoot => {
                let mut message = "CAT directory does not exist: ".to_owned();
                message.push_str(cat_root);
                message
            },
            ScanError::NoCatalogs => {
                let mut message = "CAT directory contains no .cat files: ".to_owned();
                message.push_str(cat_root);
                message
            },
        }
    }
}

/// What a walk through a directory comes by: a path, and whether a file is there.
#[derive(Debug)]
pub struct Entry {
    pub path: FilePath,
    pub is_file: bool,
}

impl View for Entry {
    type V = (PathView, bool);

    open spec fn view(&self) -> (PathView, bool) {
        (self.path@, self.is_file)
    }
}

/// Paths in their order.
pub open spec fn sorted_paths(paths: Seq<PathView>) -> Seq<PathView> {
    sorted_items(paths, |p: PathView| p, path_le())
}

/// The path is that of a catalog, by its name.
pub open spec fn named_cat(path: PathView) -> bool {
    has_extension(path, encode_utf8("cat"@))
}

/// The path is that of a setup information file, by its name.
pub open spec fn named_inf(path: PathView) -> bool {
    has_extension(path, encode_utf8("inf"@))
}

/// The paths of the files among `entries` that are named as catalogs.
pub open spec fn catalog_entries(entries: Seq<(PathView, bool)>) -> Seq<PathView> {
    entries.filter(|e: (PathView, bool)| e.1 && named_cat(e.0)).map_values(
        |e: (PathView, bool)| e.0,
    )
}

/// The paths of the files among `entries`.
pub open spec fn file_entries(entries: Seq<(PathView, bool)>) -> Seq<PathView> {
    entries.filter(|e: (PathView, bool)| e.1).map_values(|e: (PathView, bool)| e.0)
}

/// Sorts paths.
fn sort_paths(paths: Vec<FilePath>) -> (sorted: Vec<FilePath>)
    ensures
        shown(sorted@) == sorted_paths(shown(paths@)),
{
    let order = sort_order(&paths);
    let ghost keys = shown(paths@);
    let ghost places = sorted_order(keys, path_le());
    proof {
        lemma_path_total();
        lemma_sorted_order(keys, path_le());
        assert(keys.map_values(|p: PathView| p) =~= keys);
        assert(forall|k: int| 0 <= k < order@.len() ==> (#[trigger] order@[k]) as int == places[k]);
    }
    let mut sorted: Vec<FilePath> = Vec::new();
    for i in 0..order.len()
        invariant
            keys == shown(paths@),
            order@.len() == places.len(),
            places.len() == keys.len(),
            forall|k: int| 0 <= k < keys.len() ==> 0 <= #[trigger] places[k] < keys.len(),
            forall|k: int| 0 <= k < order@.len() ==> (#[trigger] order@[k]) as int == places[k],
            sorted@.len() == i,
            forall|k: int| 0 <= k < i ==> (#[trigger] sorted@[k])@ == keys[places[k]],
    {
        sorted.push(paths[order[i]].copy());
    }
    assert(shown(sorted@) =~= sorted_paths(keys));
    sorted
}

/// Whether the file at `path` is named as a catalog.
pub fn is_cat(path: &FilePath) -> (named: bool)
    ensures
        named == named_cat(path@),
{
    path.has_extension("cat".as_bytes())
}

/// Whether the file at `path` is named as a setup information file.
pub fn is_inf(path: &FilePath) -> (named: bool)
    ensures
        named == named_inf(path@),
{
    path.has_extension("inf".as_bytes())
}

/// The paths of the catalogs that a walk through their directory came by, in their order.
pub fn cat_paths(entries: &Vec<Entry>) -> (paths: Vec<FilePath>)
    ensures
        shown(paths@) == sorted_paths(catalog_entries(shown(entries@))),
{
    let ghost keep = |e: (PathView, bool)| e.1 && named_cat(e.0);
    let ghost path = |e: (PathView, bool)| e.0;
    let ghost views = shown(entries@);
    let mut paths: Vec<FilePath> = Vec::new();
    assert(views.take(0).filter(keep) =~= Seq::<(PathView, bool)>::empty()) by {
        reveal(Seq::filter);
    }
    for i in 0..entries.len()
        invariant
            views == shown(entries@),
            keep == (|e: (PathView, bool)| e.1 && named_cat(e.0)),
            path == (|e: (PathView, bool)| e.0),
            shown(paths@) =~= views.take(i as int).filter(keep).map_values(path),
    {
        let ghost before = shown(paths@);
        proof {
            lemma_filter_step(views, i as int, keep);
            assert(views[i as int] == entries@[i as int]@);
        }
        if entries[i].is_file && is_cat(&entries[i].path) {
            paths.push(entries[i].path.copy());
            assert(shown(paths@) =~= before.push(entries@[i as int].path@));
        }
    }
    assert(views.take(views.len() as int) =~= views);
    sort_paths(paths)
}

/// The paths of the files that a walk through an image came by, in their order.
pub fn image_files(entries: &Vec<Entry>) -> (paths: Vec<FilePath>)
    ensures
        shown(paths@) == sorted_paths(file_entries(shown(entries@))),
{
    let ghost keep = |e: (PathView, bool)| e.1;
    let ghost path = |e: (PathView, bool)| e.0;
    let ghost views = shown(entries@);
    let mut paths: Vec<FilePath> = Vec::new();
    assert(views.take(0).filter(keep) =~= Seq::<(PathView, bool)>::empty()) by {
        reveal(Seq::filter);
    }
    for i in 0..entries.len()
        invariant
            views == shown(entries@),
            keep == (|e: (PathView, bool)| e.1),
            path == (|e: (PathView, bool)| e.0),
            shown(paths@) =~= views.take(i as int).filter(keep).map_values(path),
    {
        let ghost before = shown(paths@);
        proof {
            lemma_filter_step(views, i as int, keep);
            assert(views[i as int] == entries@[i as int]@);
        }
        if entries[i].is_file {
            paths.push(entries[i].path.copy());
            assert(shown(paths@) =~= before.push(entries@[i as int].path@));
        }
    }
    assert(views.take(views.len() as int) =~= views);
    sort_paths(paths)
}

/// The directory of the catalogs of the image at `image_root`, to be scanned with `jobs` threads.
pub fn begin_scan(image_root: &FilePath, jobs: usize) -> (root: Result<FilePath, ScanError>)
    ensures
        match root {
            Ok(root) => jobs > 0 && root@ == cat_root(image_root@),
            Err(e) => jobs == 0 && e == ScanError::ZeroJobs,
        },
{
    if jobs == 0 {
        return Err(ScanError::ZeroJobs);
    }
    Ok(locate_cat_root(image_root))
}

/// The paths of the catalogs to read, in their order, if their directory is there and a walk
/// through it came by any.
pub fn select_catalogs(cat_root_is_dir: bool, entries: &Vec<Entry>) -> (paths: Result<
    Vec<FilePath>,
    ScanError,
>)
    ensures
        match paths {
            Ok(paths) => {
                &&& cat_root_is_dir
                &&& catalog_entries(shown(entries@)).len() > 0
                &&& shown(paths@) == sorted_paths(catalog_entries(shown(entries@)))
            },
            Err(ScanError::MissingCatRoot) => !cat_root_is_dir,
            Err(ScanError::NoCatalogs) => cat_root_is_dir && catalog_entries(
                shown(entries@),
            ).len() == 0,
            Err(ScanError::ZeroJobs) => false,
        },
{
    if !cat_root_is_dir {
        return Err(ScanError::MissingCatRoot);
    }
    let paths = cat_paths(entries);
    proof {
        lemma_path_total();
        let found = catalog_entries(shown(entries@));
        lemma_sorted_order(found.map_values(|p: PathView| p), path_le());
        assert(shown(paths@).len() == found.len());
    }
    if paths.len() == 0 {
        return Err(ScanError::NoCatalogs);
    }
    Ok(paths)
}

/// The bytes of a file, or why it could not be read.
pub open spec fn content_view(content: Result<Vec<u8>, String>) -> Result<Seq<u8>, Seq<char>> {
    match content {
        Ok(data) => Ok(data@),
        Err(message) => Err(message@),
    }
}

/// What reading a catalog with this content comes to.
pub open spec fn catalog_outcome(
    path: PathView,
    content: Result<Seq<u8>, Seq<char>>,
) -> CatalogView {
    match content {
        Err(message) => Err((path, message)),
        Ok(data) => match catalog_members(data) {
            Err(e) => Err((path, e.text())),
            Ok(members) => Ok((path, members)),
        },
    }
}

/// Reads the catalog at `path`, if its content could be had.
pub fn read_catalog(path: &FilePath, content: &Result<Vec<u8>, String>) -> (outcome: Result<
    CatRecord,
    (FilePath, String),
>)
    ensures
        catalog_view(outcome) == catalog_outcome(path@, content_view(*content)),
{
    match content {
        Err(message) => Err((path.copy(), message.clone())),
        Ok(data) => match parse_cat(path, data.as_slice()) {
            Err(e) => Err((path.copy(), e.message())),
            Ok(record) => Ok(record),
        },
    }
}

/// The SHA-1 and the SHA-256 hash of `data`.
pub open spec fn both_hashes(data: Seq<u8>) -> Seq<Seq<u8>> {
    seq![sha1_of(data), sha256_of(data)]
}

/// What hashing a setup information file came to.
pub fn inf_outcome(path: &FilePath, digests: Result<Vec<Digest>, String>) -> (outcome: FileOutcome)
    ensures
        outcome@ == (
            path@,
            FileHashResult::Inf,
            match digests {
                Ok(digests) => Ok::<Seq<Seq<u8>>, Seq<char>>(digest_views(digests@)),
                Err(message) => Err(message@),
            },
        ),
{
    FileOutcome { path: path.copy(), kind: FileHashResult::Inf, digests }
}

/// What hashing any other file came to. A file that is no executable has no digests; one that
/// could not be hashed counts as an executable.
pub fn pe_outcome(path: &FilePath, result: Result<Option<Vec<Digest>>, String>) -> (outcome:
    FileOutcome)
    ensures
        outcome@ == match result {
            Ok(Some(digests)) => (
                path@,
                FileHashResult::Pe,
                Ok::<Seq<Seq<u8>>, Seq<char>>(digest_views(digests@)),
            ),
            Ok(None) => (path@, FileHashResult::Ignored, Ok(Seq::empty())),
            Err(message) => (path@, FileHashResult::Pe, Err(message@)),
        },
{
    match result {
        Ok(Some(digests)) => FileOutcome {
            path: path.copy(),
            kind: FileHashResult::Pe,
            digests: Ok(digests),
        },
        Ok(None) => {
            let digests: Vec<Digest> = Vec::new();
            assert(digest_views(digests@) =~= Seq::<Seq<u8>>::empty());
            FileOutcome {
                path: path.copy(),
                kind: FileHashResult::Ignored,
                digests: Ok(digests),
            }
        },
        Err(message) => FileOutcome {
            path: path.copy(),
            kind: FileHashResult::Pe,
            digests: Err(message),
        },
    }
}

/// What hashing a file with this content comes to.
pub open spec fn file_outcome(path: PathView, content: Result<Seq<u8>, Seq<char>>) -> FileView {
    if named_inf(path) {
        (
            path,
            FileHashResult::Inf,
            match content {
                Ok(data) => Ok(both_hashes(data)),
                Err(message) => Err(message),
            },
        )
    } else {
        match content {
            Err(message) => (path, FileHashResult::Pe, Err(message)),
            Ok(data) => match authenticode(data) {
                Ok(Some(bytes)) => (path, FileHashResult::Pe, Ok(both_hashes(bytes))),
                Ok(None) => (path, FileHashResult::Ignored, Ok(Seq::empty())),
                Err(e) => (path, FileHashResult::Pe, Err(e.text())),
            },
        }
    }
}

/// The content of a file can be hashed.
pub open spec fn hashable(content: Result<Seq<u8>, Seq<char>>) -> bool {
    content is Ok ==> content->Ok_0.len() <= MAX_HASHED
}

/// Hashes the file at `path`, if its content could be had.
pub fn hash_image_file(path: &FilePath, content: &Result<Vec<u8>, String>) -> (outcome: FileOutcome)
    requires
        hashable(content_view(*content)),
    ensures
        outcome@ == file_outcome(path@, content_view(*content)),
{
    if is_inf(path) {
        let digests = match content {
            Err(message) => Err(message.clone()),
            Ok(data) => {
                let digests = hash_file(data.as_slice());
                assert(digest_views(digests@) =~= both_hashes(data@));
                Ok(digests)
            },
        };
        return inf_outcome(path, digests);
    }
    let result = match content {
        Err(message) => Err(message.clone()),
        Ok(data) => match hash_pe_authenticode(data.as_slice()) {
            Err(e) => Err(e.message()),
            Ok(None) => Ok(None),
            Ok(Some(digests)) => {
                assert(digest_views(digests@) =~= both_hashes(authenticode(data@)->Ok_0->Some_0));
                Ok(Some(digests))
            },
        },
    };
    pe_outcome(path, result)
}

/// What is at a path of an image.
#[derive(Debug)]
pub enum EntryKind {
    /// A file, with its content or why it could not be read.
    File(Result<Vec<u8>, String>),
    /// Something else, such as a directory or a link.
    Other,
}

/// What a walk comes by: a path, and what is there.
#[derive(Debug)]
pub struct ImageEntry {
    pub path: FilePath,
    pub kind: EntryKind,
}

/// A walk: where it begins, whether a directory is there or what a link there leads to is one, and
/// what it comes by.
#[derive(Debug)]
pub struct Walk {
    pub path: FilePath,
    pub is_dir: bool,
    pub entries: Vec<ImageEntry>,
}

/// What an `EntryKind` says.
pub ghost enum KindView {
    File(Result<Seq<u8>, Seq<char>>),
    Other,
}

/// What an `ImageEntry` says.
pub type ImageEntryView = (PathView, KindView);

/// What a `Walk` says.
pub ghost struct WalkView {
    pub path: PathView,
    pub is_dir: bool,
    pub entries: Seq<ImageEntryView>,
}

impl View for ImageEntry {
    type V = ImageEntryView;

    open spec fn view(&self) -> ImageEntryView {
        (
            self.path@,
            match self.kind {
                EntryKind::File(content) => KindView::File(content_view(content)),
                EntryKind::Other => KindView::Other,
            },
        )
    }
}

impl View for Walk {
    type V = WalkView;

    open spec fn view(&self) -> WalkView {
        WalkView { path: self.path@, is_dir: self.is_dir, entries: shown(self.entries@) }
    }
}

/// Whether an entry is a file that is named as a catalog.
pub open spec fn is_catalog() -> spec_fn(ImageEntryView) -> bool {
    |e: ImageEntryView| e.1 is File && named_cat(e.0)
}

/// Whether an entry is a file.
pub open spec fn is_file() -> spec_fn(ImageEntryView) -> bool {
    |e: ImageEntryView| e.1 is File
}

/// What reading the catalogs among `entries` comes to.
pub open spec fn catalogs_in(entries: Seq<ImageEntryView>) -> Seq<CatalogView> {
    entries.filter(is_catalog()).map_values(
        |e: ImageEntryView| catalog_outcome(e.0, e.1->File_0),
    )
}

/// What hashing the files among `entries` comes to.
pub open spec fn files_in(entries: Seq<ImageEntryView>) -> Seq<FileView> {
    entries.filter(is_file()).map_values(|e: ImageEntryView| file_outcome(e.0, e.1->File_0))
}

/// What scanning an image with `jobs` threads comes to, where `catalogs` is a walk through the
/// directory of its catalogs.
pub open spec fn scanned(image: WalkView, catalogs: WalkView, jobs: nat) -> Result<
    Report,
    ScanError,
> {
    if jobs == 0 {
        Err(ScanError::ZeroJobs)
    } else if !catalogs.is_dir {
        Err(ScanError::MissingCatRoot)
    } else if catalogs_in(catalogs.entries).len() == 0 {
        Err(ScanError::NoCatalogs)
    } else {
        Ok(report_of(catalogs_in(catalogs.entries), files_in(image.entries)))
    }
}

/// Reads the catalogs among `entries`.
fn read_catalogs(entries: &Vec<ImageEntry>) -> (catalogs: Vec<
    Result<CatRecord, (FilePath, String)>,
>)
    ensures
        catalog_views(catalogs@) == catalogs_in(shown(entries@)),
{
    let ghost views = shown(entries@);
    let ghost read = |e: ImageEntryView| catalog_outcome(e.0, e.1->File_0);
    let mut catalogs: Vec<Result<CatRecord, (FilePath, String)>> = Vec::new();
    assert(views.take(0).filter(is_catalog()) =~= Seq::<ImageEntryView>::empty()) by {
        reveal(Seq::filter);
    }
    for i in 0..entries.len()
        invariant
            views == shown(entries@),
            read == (|e: ImageEntryView| catalog_outcome(e.0, e.1->File_0)),
            catalog_views(catalogs@) =~= views.take(i as int).filter(is_catalog()).map_values(read),
    {
        let entry = &entries[i];
        let ghost before = catalog_views(catalogs@);
        proof {
            lemma_filter_step(views, i as int, is_catalog());
            assert(views[i as int] == entry@);
        }
        if let EntryKind::File(content) = &entry.kind {
            if is_cat(&entry.path) {
                let outcome = read_catalog(&entry.path, content);
                catalogs.push(outcome);
                assert(catalog_views(catalogs@) =~= before.push(catalog_view(outcome)));
            }
        }
    }
    assert(views.take(views.len() as int) =~= views);
    catalogs
}

/// Hashes the files among `entries`.
fn hash_files(entries: &Vec<ImageEntry>) -> (files: Vec<FileOutcome>)
    requires
        forall|i: int|
            0 <= i < entries@.len() ==> ((#[trigger] entries@[i])@.1 is File ==> hashable(
                entries@[i]@.1->File_0,
            )),
    ensures
        shown(files@) == files_in(shown(entries@)),
{
    let ghost views = shown(entries@);
    let ghost hash = |e: ImageEntryView| file_outcome(e.0, e.1->File_0);
    let mut files: Vec<FileOutcome> = Vec::new();
    assert(views.take(0).filter(is_file()) =~= Seq::<ImageEntryView>::empty()) by {
        reveal(Seq::filter);
    }
    for i in 0..entries.len()
        invariant
            forall|k: int|
                0 <= k < entries@.len() ==> ((#[trigger] entries@[k])@.1 is File ==> hashable(
                    entries@[k]@.1->File_0,
                )),
            views == shown(entries@),
            hash == (|e: ImageEntryView| file_outcome(e.0, e.1->File_0)),
            shown(files@) =~= views.take(i as int).filter(is_file()).map_values(hash),
    {
        let entry = &entries[i];
        let ghost before = shown(files@);
        proof {
            lemma_filter_step(views, i as int, is_file());
            assert(views[i as int] == entry@);
        }
        if let EntryKind::File(content) = &entry.kind {
            let outcome = hash_image_file(&entry.path, content);
            files.push(outcome);
            assert(shown(files@) =~= before.push(outcome@));
        }
    }
    assert(views.take(views.len() as int) =~= views);
    files
}

/// Scans an image with `jobs` threads, from a walk through it and one through the directory of its
/// catalogs.
pub fn scan(image: &Walk, catalogs: &Walk, jobs: usize) -> (report: Result<ScanReport, ScanError>)
    requires
        catalogs.path@ == cat_root(image.path@),
        forall|i: int|
            0 <= i < image.entries@.len() ==> ((#[trigger] image.entries@[i])@.1 is File
                ==> hashable(image.entries@[i]@.1->File_0)),
    ensures
        match report {
            Ok(report) => report.wf() && scanned(image@, catalogs@, jobs as nat) == Ok::<
                Report,
                ScanError,
            >(report@),
            Err(e) => scanned(image@, catalogs@, jobs as nat) == Err::<Report, ScanError>(e),
        },
{
    if jobs == 0 {
        return Err(ScanError::ZeroJobs);
    }
    if !catalogs.is_dir {
        return Err(ScanError::MissingCatRoot);
    }
    let read = read_catalogs(&catalogs.entries);
    assert(read@.len() == catalog_views(read@).len());
    if read.len() == 0 {
        return Err(ScanError::NoCatalogs);
    }
    Ok(assemble(read, hash_files(&image.entries)))
}

} // verus!
