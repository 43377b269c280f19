use cat_trim::catalog::CatRecord;
use cat_trim::digest::Digest;
use cat_trim::digest_set::DigestSet;
use cat_trim::hashing::hash_file;
use cat_trim::operations::{move_step, run_move, Attempt, FileRun, MoveRefusal, MoveStep};
use cat_trim::output::{
    delete_failed, move_failed, move_skipped, render_diagnostics, render_invalid_paths,
    render_summary, REFUSED,
};
use cat_trim::path::{locate_cat_root, FilePath, CAT_GUID};
use cat_trim::report::{assemble, FileHashResult, FileOutcome, ScanReport};
use cat_trim::scan::{
    begin_scan, cat_paths, hash_image_file, image_files, inf_outcome, is_cat, is_inf, pe_outcome,
    read_catalog, scan, select_catalogs, Entry, EntryKind, ImageEntry, ScanError, Walk,
};
use cat_trim::sort::{sort_by_keys, sort_order, Ordered};

const MEMBER2_OID: &[u8] = &[0x2B, 0x06, 0x01, 0x04, 0x01, 0x82, 0x37, 0x0C, 0x01, 0x03];

fn path(text: &str) -> FilePath {
    FilePath {
        parts: text
            .split('/')
            .filter(|part| !part.is_empty())
            .map(|part| part.as_bytes().to_vec())
            .collect(),
    }
}

fn text(path: &FilePath) -> String {
    let parts: Vec<String> = path
        .parts
        .iter()
        .map(|part| String::from_utf8(part.clone()).unwrap())
        .collect();
    parts.join("/")
}

fn texts(paths: &[FilePath]) -> Vec<String> {
    paths.iter().map(text).collect()
}

fn tlv(tag: u8, content: &[u8]) -> Vec<u8> {
    let mut result = vec![tag, 0x82, (content.len() >> 8) as u8, content.len() as u8];
    result.extend_from_slice(content);
    result
}

fn catalog(members: &[Digest]) -> Vec<u8> {
    let octets: Vec<u8> = members
        .iter()
        .flat_map(|digest| tlv(0x04, digest.as_bytes()))
        .collect();
    let listed = [tlv(0x06, MEMBER2_OID), tlv(0x30, &octets)].concat();
    tlv(0x30, &listed)
}

fn file(name: &str, content: &[u8]) -> ImageEntry {
    ImageEntry { path: path(name), kind: EntryKind::File(Ok(content.to_vec())) }
}

fn unreadable(name: &str, message: &str) -> ImageEntry {
    ImageEntry { path: path(name), kind: EntryKind::File(Err(message.to_string())) }
}

fn in_root(name: &str) -> String {
    format!("Windows/System32/CatRoot/{CAT_GUID}/{name}")
}

fn entry(name: &str, is_file: bool) -> Entry {
    Entry { path: path(name), is_file }
}

fn record(name: &str, members: &[Digest]) -> Result<CatRecord, (FilePath, String)> {
    let mut set = DigestSet::new();
    for member in members {
        set.insert(*member);
    }
    Ok(CatRecord { path: path(name), members: set })
}

fn outcome(name: &str, kind: FileHashResult, digests: &[Digest]) -> FileOutcome {
    FileOutcome { path: path(name), kind, digests: Ok(digests.to_vec()) }
}

fn failure(name: &str) -> FileOutcome {
    FileOutcome {
        path: path(name),
        kind: FileHashResult::Pe,
        digests: Err("broken".to_string()),
    }
}

fn one(byte: u8) -> Digest {
    Digest::Sha1([byte; 20])
}

#[test]
fn the_directory_of_the_catalogs() {
    assert_eq!(
        text(&locate_cat_root(&path("mount/image"))),
        "mount/image/Windows/System32/CatRoot/{F750E6C3-38EE-11D1-85E5-00C04FC295EE}"
    );
    assert_eq!(text(&locate_cat_root(&path(""))), in_root("").trim_end_matches('/'));
}

#[test]
fn extensions_are_told_in_any_case() {
    for name in ["a.cat", "a.CAT", "dir/x.y.Cat", "..cat.cAt", "a..cat"] {
        assert!(is_cat(&path(name)), "{name}");
    }
    for name in ["", "cat", ".cat", "a.cats", "a.ca", "a.cat.txt", "a.cat/b", "a.", "..", "acat"] {
        assert!(!is_cat(&path(name)), "{name}");
    }
    assert!(is_inf(&path("x/oem0.INF")));
    assert!(!is_inf(&path("x/oem0.cat")));
}

#[test]
fn file_names_are_the_last_part() {
    assert_eq!(path("a/b.cat").file_name(), Some(b"b.cat".as_slice()));
    assert_eq!(path("").file_name(), None);
    assert_eq!(path("a/..").file_name(), None);
    assert_eq!(path("a/...").file_name(), Some(b"...".as_slice()));
}

#[test]
fn paths_lead_on_to_names() {
    assert_eq!(text(&path("a").join(b"c")), "a/c");
    assert_eq!(text(&path("a/b").copy()), "a/b");
}

#[test]
fn paths_are_ordered_part_by_part() {
    let paths: Vec<FilePath> =
        ["b", "a/z", "a", "a-b", "a/b/c", "B"].iter().map(|p| path(p)).collect();
    let order = sort_order(&paths);
    let sorted: Vec<String> = order.iter().map(|i| text(&paths[*i])).collect();
    assert_eq!(sorted, ["B", "a", "a/b/c", "a/z", "a-b", "b"]);
    let mut expected: Vec<std::path::PathBuf> =
        paths.iter().map(|p| std::path::PathBuf::from(text(p))).collect();
    expected.sort();
    let expected: Vec<String> = expected.iter().map(|p| p.to_string_lossy().into_owned()).collect();
    assert_eq!(sorted, expected);
    assert!(matches!(path("a").compare(&path("a")), cat_trim::order::Rank::Same));
}

#[test]
fn sorting_keeps_the_order_of_equals() {
    let keys: Vec<FilePath> = ["b", "a", "b", "a", "c"].iter().map(|p| path(p)).collect();
    assert_eq!(sort_by_keys(&keys, vec![0, 1, 2, 3, 4]), [1, 3, 0, 2, 4]);
    assert_eq!(sort_order(&Vec::<FilePath>::new()), Vec::<usize>::new());
}

#[test]
fn walks_are_narrowed_to_files_in_order() {
    let entries = vec![
        entry("c/z.cat", true),
        entry("c", false),
        entry("c/d.cat", false),
        entry("c/a.CAT", true),
        entry("c/a.txt", true),
    ];
    assert_eq!(texts(&cat_paths(&entries)), ["c/a.CAT", "c/z.cat"]);
    assert_eq!(texts(&image_files(&entries)), ["c/a.CAT", "c/a.txt", "c/z.cat"]);
}

#[test]
fn the_steps_of_a_scan_refuse_in_turn() {
    assert_eq!(begin_scan(&path("i"), 0).unwrap_err(), ScanError::ZeroJobs);
    assert_eq!(text(&begin_scan(&path(""), 3).unwrap()), in_root("").trim_end_matches('/'));
    let none = vec![entry("x.txt", true), entry("x.cat", false)];
    let some = vec![entry("x.cat", true)];
    assert_eq!(select_catalogs(false, &some).unwrap_err(), ScanError::MissingCatRoot);
    assert_eq!(select_catalogs(true, &none).unwrap_err(), ScanError::NoCatalogs);
    assert_eq!(texts(&select_catalogs(true, &some).unwrap()), ["x.cat"]);
    assert_eq!(ScanError::ZeroJobs.message("r"), "--jobs must be greater than zero");
    assert_eq!(ScanError::MissingCatRoot.message("r"), "CAT directory does not exist: r");
    assert_eq!(ScanError::NoCatalogs.message("r"), "CAT directory contains no .cat files: r");
}

#[test]
fn outcomes_of_reading_and_hashing() {
    let (failed, message) =
        read_catalog(&path("a.cat"), &Err("read CAT a.cat: gone".to_string())).unwrap_err();
    assert_eq!((text(&failed), message.as_str()), ("a.cat".to_string(), "read CAT a.cat: gone"));
    let (_, message) = read_catalog(&path("a.cat"), &Ok(vec![1, 2])).unwrap_err();
    assert_eq!(message, "CAT does not start with ASN.1 SEQUENCE");
    let read = read_catalog(&path("a.cat"), &Ok(catalog(&[one(5)]))).unwrap();
    assert_eq!(text(&read.path), "a.cat");
    assert_eq!(read.members.as_slice(), &[one(5)]);

    let inf = inf_outcome(&path("a.inf"), Ok(vec![one(1)]));
    assert_eq!((inf.kind, inf.digests), (FileHashResult::Inf, Ok(vec![one(1)])));
    let inf = inf_outcome(&path("a.inf"), Err("gone".to_string()));
    assert_eq!((inf.kind, inf.digests), (FileHashResult::Inf, Err("gone".to_string())));
    let pe = pe_outcome(&path("a.exe"), Ok(Some(vec![one(1)])));
    assert_eq!((pe.kind, pe.digests), (FileHashResult::Pe, Ok(vec![one(1)])));
    let pe = pe_outcome(&path("a.txt"), Ok(None));
    assert_eq!((pe.kind, pe.digests), (FileHashResult::Ignored, Ok(vec![])));
    let pe = pe_outcome(&path("a.exe"), Err("broken".to_string()));
    assert_eq!((pe.kind, pe.digests), (FileHashResult::Pe, Err("broken".to_string())));
}

#[test]
fn a_report_puts_everything_in_order() {
    let report = assemble(
        vec![
            record("z.cat", &[one(1)]),
            Err((path("y.cat"), "second".to_string())),
            record("b.cat", &[one(2), one(9)]),
            Err((path("x.cat"), "first".to_string())),
            record("a.cat", &[]),
            record("m.cat", &[one(3)]),
        ],
        vec![
            failure("q.exe"),
            outcome("1.exe", FileHashResult::Pe, &[one(7), one(9)]),
            outcome("2.inf", FileHashResult::Inf, &[one(8)]),
            outcome("3.txt", FileHashResult::Ignored, &[]),
            outcome("4.txt", FileHashResult::Ignored, &[]),
            failure("p.exe"),
        ],
    );
    let cats: Vec<String> = report.cats.iter().map(|c| text(&c.path)).collect();
    assert_eq!(cats, ["a.cat", "b.cat", "m.cat", "z.cat"]);
    assert_eq!(texts(&report.invalid), ["a.cat", "m.cat", "z.cat"]);
    let errors: Vec<(String, String)> =
        report.parse_errors.iter().map(|(p, m)| (text(p), m.clone())).collect();
    assert_eq!(
        errors,
        [("x.cat".to_string(), "first".to_string()), ("y.cat".to_string(), "second".to_string())]
    );
    let errors: Vec<String> = report.hash_errors.iter().map(|(p, _)| text(p)).collect();
    assert_eq!(errors, ["p.exe", "q.exe"]);
    assert_eq!((report.pe_count, report.inf_count, report.ignored_count), (1, 1, 2));
    assert!(report.has_errors());
    assert_eq!(report.cats.len() + report.parse_errors.len(), 6);
    let hashed = report.pe_count + report.inf_count + report.ignored_count;
    assert_eq!(hashed + report.hash_errors.len(), 6);
}

#[test]
fn a_file_that_could_not_be_hashed_matches_nothing() {
    let report = assemble(vec![record("a.cat", &[one(1)])], vec![failure("a.exe")]);
    assert_eq!(texts(&report.invalid), ["a.cat"]);
    let report = assemble(
        vec![record("a.cat", &[one(1)])],
        vec![failure("a.exe"), outcome("b.exe", FileHashResult::Pe, &[one(1)])],
    );
    assert!(report.invalid.is_empty());
}

#[test]
fn the_order_of_outcomes_does_not_matter() {
    let catalogs = || {
        vec![
            record("a.cat", &[one(1)]),
            record("b.cat", &[one(2)]),
            Err((path("c.cat"), "x".to_string())),
        ]
    };
    let files = || {
        vec![
            outcome("1", FileHashResult::Pe, &[one(2)]),
            failure("2"),
            outcome("3", FileHashResult::Inf, &[]),
        ]
    };
    let forward = assemble(catalogs(), files());
    let backward = assemble(
        catalogs().into_iter().rev().collect(),
        files().into_iter().rev().collect(),
    );
    assert_eq!(format!("{forward:?}"), format!("{backward:?}"));
}

#[test]
fn a_report_without_failures_has_no_errors() {
    let report = assemble(vec![record("a.cat", &[])], vec![]);
    assert!(!report.has_errors());
    assert!(assemble(vec![Err((path("a.cat"), "x".to_string()))], vec![]).has_errors());
    assert!(assemble(vec![], vec![failure("a.exe")]).has_errors());
}

fn root() -> String {
    in_root("").trim_end_matches('/').to_string()
}

fn inf() -> Vec<u8> {
    b"[Version]\r\n".to_vec()
}

fn catalogs() -> Vec<ImageEntry> {
    vec![
        ImageEntry { path: path(&root()), kind: EntryKind::Other },
        file(&in_root("sub/used.CAT"), &catalog(&hash_file(&inf())[..1])),
        file(&in_root("idle.cat"), &catalog(&[one(4)])),
        file(&in_root("empty.cat"), &catalog(&[])),
        file(&in_root("notes.txt"), b"nothing"),
        ImageEntry { path: path(&in_root("link.cat")), kind: EntryKind::Other },
    ]
}

fn image() -> Vec<ImageEntry> {
    let mut entries = catalogs();
    entries.push(file("elsewhere/stray.cat", &catalog(&[one(4)])));
    entries.push(file("Windows/INF/oem0.inf", &inf()));
    entries
}

fn walk(start: &str, entries: Vec<ImageEntry>) -> Walk {
    Walk { path: path(start), is_dir: true, entries }
}

fn scanned(image: Vec<ImageEntry>, catalogs: Vec<ImageEntry>) -> Result<ScanReport, ScanError> {
    scan(&walk("", image), &walk(&root(), catalogs), 2)
}

#[test]
fn a_scan_lists_the_catalogs_that_match_nothing() {
    let report = scanned(image(), catalogs()).unwrap();
    assert_eq!(texts(&report.invalid), [in_root("empty.cat"), in_root("idle.cat")]);
    let cats: Vec<String> = report.cats.iter().map(|c| text(&c.path)).collect();
    assert_eq!(cats, [in_root("empty.cat"), in_root("idle.cat"), in_root("sub/used.CAT")]);
    assert_eq!((report.pe_count, report.inf_count, report.ignored_count), (0, 1, 5));
    assert!(!report.has_errors());
}

#[test]
fn the_directory_of_the_catalogs_may_be_a_link() {
    let files = vec![
        ImageEntry { path: path(&root()), kind: EntryKind::Other },
        file("Windows/INF/oem0.inf", &inf()),
    ];
    let report = scanned(files, catalogs()).unwrap();
    assert_eq!(texts(&report.invalid), [in_root("empty.cat"), in_root("idle.cat")]);
    assert_eq!((report.pe_count, report.inf_count, report.ignored_count), (0, 1, 0));
}

#[test]
fn the_number_of_threads_does_not_matter() {
    let one = scan(&walk("", image()), &walk(&root(), catalogs()), 1).unwrap();
    let many = scan(&walk("", image()), &walk(&root(), catalogs()), 64).unwrap();
    assert_eq!(format!("{one:?}"), format!("{many:?}"));
}

#[test]
fn the_steps_come_to_the_scan() {
    let image = image();
    let content = |wanted: &FilePath| {
        let found = image.iter().find(|e| e.path.parts == wanted.parts).unwrap();
        match &found.kind {
            EntryKind::File(content) => content,
            other => panic!("{other:?}"),
        }
    };
    let entries = |walked: &[ImageEntry]| -> Vec<Entry> {
        walked
            .iter()
            .map(|e| Entry {
                path: e.path.copy(),
                is_file: matches!(e.kind, EntryKind::File(_)),
            })
            .collect()
    };
    assert_eq!(text(&begin_scan(&path(""), 2).unwrap()), root());
    let read = select_catalogs(true, &entries(&catalogs())).unwrap();
    let read = read.iter().map(|p| read_catalog(p, content(p))).collect();
    let hashed = image_files(&entries(&image));
    let hashed = hashed.iter().map(|p| hash_image_file(p, content(p))).collect();
    let stepped = assemble(read, hashed);
    let whole = scanned(self::image(), catalogs()).unwrap();
    assert_eq!(format!("{stepped:?}"), format!("{whole:?}"));
}

#[test]
fn a_scan_tells_what_went_wrong() {
    let bad = || {
        vec![
            file(&in_root("broken.cat"), b"\x30"),
            unreadable(&in_root("locked.cat"), "read CAT: locked"),
        ]
    };
    let mut truncated = vec![0u8; 64];
    truncated[0..2].copy_from_slice(b"MZ");
    truncated[0x3c] = 0x40;
    let mut files = image();
    files.extend(bad());
    files.push(file("a.exe", &truncated));
    files.push(unreadable("b.inf", "open: locked"));
    let mut cats = catalogs();
    cats.extend(bad());
    let report = scanned(files, cats).unwrap();
    let errors: Vec<(String, String)> =
        report.parse_errors.iter().map(|(p, m)| (text(p), m.clone())).collect();
    assert_eq!(
        errors,
        [
            (in_root("broken.cat"), "truncated ASN.1 TLV header".to_string()),
            (in_root("locked.cat"), "read CAT: locked".to_string()),
        ]
    );
    let errors: Vec<(String, String)> =
        report.hash_errors.iter().map(|(p, m)| (text(p), m.clone())).collect();
    assert_eq!(
        errors,
        [
            (in_root("locked.cat"), "read CAT: locked".to_string()),
            ("a.exe".to_string(), "truncated PE header".to_string()),
            ("b.inf".to_string(), "open: locked".to_string()),
        ]
    );
    assert!(report.has_errors());
    assert_eq!(texts(&report.invalid), [in_root("empty.cat"), in_root("idle.cat")]);
}

#[test]
fn a_scan_needs_threads_a_directory_and_catalogs() {
    let files = walk("", image());
    let there = walk(&root(), catalogs());
    assert_eq!(scan(&files, &there, 0).unwrap_err(), ScanError::ZeroJobs);
    let gone = Walk { is_dir: false, ..walk(&root(), vec![]) };
    assert_eq!(scan(&files, &gone, 1).unwrap_err(), ScanError::MissingCatRoot);
    assert_eq!(scanned(image(), vec![]).unwrap_err(), ScanError::NoCatalogs);
    let notes = vec![file(&in_root("notes.txt"), b"nothing")];
    assert_eq!(scanned(image(), notes).unwrap_err(), ScanError::NoCatalogs);
}

fn report(parse_errors: usize) -> ScanReport {
    let mut catalogs = vec![record("a.cat", &[]), record("b.cat", &[]), record("c.cat", &[one(1)])];
    for i in 0..parse_errors {
        catalogs.push(Err((path(&format!("bad{i}.cat")), format!("error {i}"))));
    }
    assemble(catalogs, vec![outcome("x.exe", FileHashResult::Pe, &[one(1)])])
}

#[test]
fn errors_stop_what_is_not_forced() {
    let bad = report(1);
    let good = report(0);
    assert!(FileRun::begin(&bad, false).is_none());
    assert!(FileRun::begin(&bad, true).is_some());
    assert!(FileRun::begin(&good, false).is_some());
    assert!(FileRun::begin(&good, true).is_some());
}

#[test]
fn every_listed_catalog_is_tried_once() {
    let good = report(0);
    let mut run = FileRun::begin(&good, false).unwrap();
    assert_eq!(text(run.next_source().unwrap()), "a.cat");
    run.record(Attempt::Succeeded);
    assert_eq!(text(run.next_source().unwrap()), "b.cat");
    run.record(Attempt::TargetExists);
    assert!(run.next_source().is_none());
    assert_eq!((run.succeeded(), run.failed()), (1, 1));
    assert!(!run.is_success());
    assert_eq!(render_summary("Moved", &run), "Moved: 1, failed: 1");
}

#[test]
fn a_catalog_keeps_its_name_where_it_is_moved() {
    let names = assemble(
        vec![record("D/a/x.cat", &[]), record("D/b/y.cat", &[])],
        vec![],
    );
    let mut run = FileRun::begin(&names, false).unwrap();
    assert_eq!(text(&run.target(&path("dest")).unwrap()), "dest/x.cat");
    run.record_move(false, true);
    assert_eq!(text(&run.target(&path("other/place")).unwrap()), "other/place/y.cat");
    let nameless = assemble(vec![record("", &[])], vec![]);
    let run = FileRun::begin(&nameless, false).unwrap();
    assert!(run.target(&path("dest")).is_none());
}

#[test]
fn nothing_is_overwritten() {
    assert_eq!(move_step(true), MoveStep::Skip);
    assert_eq!(move_step(false), MoveStep::Rename);
    let twins = assemble(
        vec![record("D/a/x.cat", &[]), record("D/b/x.cat", &[])],
        vec![],
    );
    let mut run = FileRun::begin(&twins, false).unwrap();
    let mut there: Vec<String> = Vec::new();
    let mut moved: Vec<String> = Vec::new();
    while let Some(source) = run.next_source() {
        let target = text(&run.target(&path("dest")).unwrap());
        let exists = there.contains(&target);
        let renamed = match move_step(exists) {
            MoveStep::Skip => false,
            MoveStep::Rename => {
                moved.push(text(source));
                there.push(target);
                true
            }
        };
        run.record_move(exists, renamed);
    }
    assert_eq!(moved, ["D/a/x.cat"]);
    assert_eq!(render_summary("Moved", &run), "Moved: 1, failed: 1");
    assert!(!run.is_success());
}

#[test]
fn a_rename_that_fails_does_not_stop_the_rest() {
    let good = report(0);
    let mut run = FileRun::begin(&good, false).unwrap();
    run.record_move(false, false);
    run.record_move(false, true);
    assert!(run.next_source().is_none());
    assert_eq!((run.succeeded(), run.failed()), (1, 1));
}

#[test]
fn success_needs_a_scan_without_errors() {
    let good = report(0);
    let mut run = FileRun::begin(&good, true).unwrap();
    run.record(Attempt::Succeeded);
    run.record(Attempt::Succeeded);
    assert!(run.is_success());
    assert_eq!(render_summary("Deleted", &run), "Deleted: 2, failed: 0");
    let bad = report(1);
    let mut run = FileRun::begin(&bad, true).unwrap();
    run.record(Attempt::Succeeded);
    run.record(Attempt::Succeeded);
    assert!(!run.is_success());
    let mut run = FileRun::begin(&good, true).unwrap();
    run.record(Attempt::Failed);
    run.record(Attempt::Succeeded);
    assert!(!run.is_success());
}

#[test]
fn invalid_paths_are_listed_without_the_verbatim_prefix() {
    let paths = vec![
        "\\\\?\\C:\\mount\\a.cat".to_string(),
        "/mnt/b.cat".to_string(),
        "\\\\?\\\\\\?\\twice".to_string(),
        "\\\\?".to_string(),
        String::new(),
        "\\\\?\\\u{e9}.cat".to_string(),
    ];
    assert_eq!(
        render_invalid_paths(&paths),
        "C:\\mount\\a.cat\n/mnt/b.cat\n\\\\?\\twice\n\\\\?\n\n\u{e9}.cat\n"
    );
    assert_eq!(render_invalid_paths(&vec![]), "");
}

#[test]
fn diagnostics_are_told_line_by_line() {
    let mut bad = report(2);
    bad.hash_errors.push((path("y.exe"), "truncated PE header".to_string()));
    let text = render_diagnostics(
        &bad,
        &vec!["/i/bad0.cat".to_string(), "/i/bad1.cat".to_string()],
        &vec!["/i/y.exe".to_string()],
    );
    assert_eq!(
        text,
        "CAT total: 5\nValid CAT: 1\nInvalid CAT: 2\nParse errors: 2\nPE: 1, INF: 0, ignored: 0\n\
         CAT parse error: /i/bad0.cat: error 0\nCAT parse error: /i/bad1.cat: error 1\n\
         Hash error: /i/y.exe: truncated PE header\n"
    );
}

#[test]
fn what_goes_wrong_with_a_file_is_told() {
    assert_eq!(move_skipped("d/a.cat"), "Move skipped (target exists): d/a.cat");
    assert_eq!(move_failed("s/a.cat", "d/a.cat", "denied"), "Move failed: s/a.cat -> d/a.cat: denied");
    assert_eq!(delete_failed("s/a.cat", "denied"), "Delete failed: s/a.cat: denied");
    assert_eq!(
        REFUSED,
        "Scan errors detected; file operations were not performed. If you accept the risks, please use --force."
    );
}

#[test]
fn moving_leaves_what_is_there() {
    let twins = assemble(
        vec![record("D/a/x.cat", &[]), record("D/b/x.cat", &[]), record("D/b/y.cat", &[])],
        vec![],
    );
    let there = vec![path("dest/y.cat")];
    let moved = run_move(&twins, false, &path("dest"), there, &vec![true; 3]).unwrap();
    assert_eq!(
        moved.attempts,
        [Attempt::Succeeded, Attempt::TargetExists, Attempt::TargetExists]
    );
    assert_eq!(texts(&moved.there), ["dest/y.cat", "dest/x.cat"]);
    assert_eq!(moved.text, "Moved: 1, failed: 2");
    assert!(!moved.success);
    let again = run_move(&twins, false, &path("dest"), vec![], &vec![false, true, true]).unwrap();
    assert_eq!(again.attempts, [Attempt::Failed, Attempt::Succeeded, Attempt::Succeeded]);
    assert_eq!(texts(&again.there), ["dest/x.cat", "dest/y.cat"]);
}

#[test]
fn moving_is_refused() {
    let bad = report(1);
    let renames = vec![true; 2];
    let refused = run_move(&bad, false, &path("dest"), vec![], &renames).unwrap_err();
    assert_eq!(refused, MoveRefusal::ScanErrors);
    let forced = run_move(&bad, true, &path("dest"), vec![], &renames).unwrap();
    assert_eq!(forced.text, "Moved: 2, failed: 0");
    assert!(!forced.success);
    let good = run_move(&report(0), false, &path("dest"), vec![], &renames).unwrap();
    assert!(good.success);
    let nameless = assemble(vec![record("", &[])], vec![]);
    let refused = run_move(&nameless, false, &path("dest"), vec![], &vec![true]).unwrap_err();
    assert_eq!(refused, MoveRefusal::NoFileName);
}

#[test]
fn a_report_is_empty_at_first() {
    let report = ScanReport::default();
    assert!(report.cats.is_empty() && report.invalid.is_empty());
    assert!(!report.has_errors());
    assert_eq!((report.pe_count, report.inf_count, report.ignored_count), (0, 0, 0));
}
