//! What holds of every report.

use vstd::prelude::*;
use vstd::relations::*;
use vstd::seq_lib::*;

use crate::path::{lemma_path_total, path_le};
use crate::report::{
    cats_by_path, file_digests, has_errors, hashed, hashed_as, readable, report_of, unhashed,
    unreadable, CatalogView, FileHashResult, FileView, PathView, ScanReport,
};
use crate::sort::{
    lemma_places_sorted, lemma_sorted_order, place_le, shown, sorted_items, sorted_order,
};

verus! {

/// What is kept and what is not are all there is.
proof fn lemma_filter_both<A>(items: Seq<A>, keep: spec_fn(A) -> bool, drop: spec_fn(A) -> bool)
    requires
        forall|a: A| #[trigger] keep(a) <==> !drop(a),
    ensures
        items.filter(keep).len() + items.filter(drop).len() == items.len(),
    decreases items.len(),
{
    reveal(Seq::filter);
    if items.len() > 0 {
        lemma_filter_both(items.drop_last(), keep, drop);
    }
}

/// What a filter keeps is what is there and is to be kept.
pub proof fn lemma_filter_contains<A>(items: Seq<A>, keep: spec_fn(A) -> bool, a: A)
    ensures
        items.filter(keep).contains(a) <==> items.contains(a) && keep(a),
    decreases items.len(),
{
    reveal(Seq::filter);
    if items.len() > 0 {
        let less = items.drop_last();
        lemma_filter_contains(less, keep, a);
        if items.contains(a) {
            let i = items.index_of(a);
            if i < less.len() {
                assert(less[i] == a);
            } else {
                assert(items.last() == a);
                if keep(a) {
                    assert(items.filter(keep).last() == a);
                }
            }
        }
        if less.contains(a) {
            assert(items[less.index_of(a)] == a);
        }
        if less.filter(keep).contains(a) {
            let i = less.filter(keep).index_of(a);
            assert(items.filter(keep)[i] == a);
        }
        if items.filter(keep).contains(a) {
            let i = items.filter(keep).index_of(a);
            if i < less.filter(keep).len() {
                assert(less.filter(keep)[i] == a);
            } else {
                assert(items.last() == a);
                assert(items[items.len() - 1] == a);
            }
        }
    }
}

/// Sorting keeps the items.
pub proof fn lemma_sorted_contains<A>(items: Seq<A>, key: spec_fn(A) -> PathView, a: A)
    ensures
        sorted_items(items, key, path_le()).len() == items.len(),
        sorted_items(items, key, path_le()).contains(a) <==> items.contains(a),
{
    let keys = items.map_values(key);
    let order = sorted_order(keys, path_le());
    let sorted = sorted_items(items, key, path_le());
    lemma_path_total();
    lemma_sorted_order(keys, path_le());
    if items.contains(a) {
        let p = items.index_of(a);
        assert(order.contains(p));
        assert(sorted[order.index_of(p)] == a);
    }
    if sorted.contains(a) {
        let i = sorted.index_of(a);
        assert(items[order[i]] == a);
    }
}

/// Each path comes before those behind it, or is the same.
pub open spec fn ascending(paths: Seq<PathView>) -> bool {
    forall|i: int, j: int|
        0 <= i <= j < paths.len() ==> path_le()(#[trigger] paths[i], #[trigger] paths[j])
}

/// Sorting puts the keys in order.
pub proof fn lemma_sorted_ascends<A>(items: Seq<A>, key: spec_fn(A) -> PathView)
    ensures
        ascending(sorted_items(items, key, path_le()).map_values(key)),
{
    let keys = items.map_values(key);
    let order = sorted_order(keys, path_le());
    let sorted = sorted_items(items, key, path_le()).map_values(key);
    lemma_path_total();
    lemma_sorted_order(keys, path_le());
    assert forall|i: int, j: int| 0 <= i <= j < sorted.len() implies path_le()(
        #[trigger] sorted[i],
        #[trigger] sorted[j],
    ) by {
        assert(sorted[i] == keys[order[i]] && sorted[j] == keys[order[j]]);
    }
}

/// A filter keeps the order of what it keeps.
proof fn lemma_filter_ascends<A>(
    items: Seq<A>,
    keep: spec_fn(A) -> bool,
    key: spec_fn(A) -> PathView,
)
    requires
        ascending(items.map_values(key)),
    ensures
        ascending(items.filter(keep).map_values(key)),
    decreases items.len(),
{
    reveal(Seq::filter);
    if items.len() > 0 {
        let less = items.drop_last();
        let keys = items.map_values(key);
        assert forall|i: int, j: int| 0 <= i <= j < less.len() implies path_le()(
            #[trigger] less.map_values(key)[i],
            #[trigger] less.map_values(key)[j],
        ) by {
            assert(path_le()(keys[i], keys[j]));
        }
        lemma_filter_ascends(less, keep, key);
        if keep(items.last()) {
            let kept = less.filter(keep);
            let all = items.filter(keep).map_values(key);
            assert forall|i: int, j: int| 0 <= i <= j < all.len() implies path_le()(
                #[trigger] all[i],
                #[trigger] all[j],
            ) by {
                if j < kept.len() {
                    assert(path_le()(kept.map_values(key)[i], kept.map_values(key)[j]));
                } else if i < kept.len() {
                    lemma_filter_contains(less, keep, kept[i]);
                    assert(kept.contains(kept[i]));
                    let p = less.index_of(kept[i]);
                    assert(path_le()(keys[p], keys[items.len() - 1]));
                } else {
                    lemma_path_total();
                }
            }
        }
    }
}

/// Every catalog is either among the catalogs of the report or among its failures.
pub proof fn law_every_catalog_is_counted(catalogs: Seq<CatalogView>, files: Seq<FileView>)
    ensures
        ({
            let report = report_of(catalogs, files);
            &&& report.cats.len() + report.parse_errors.len() == catalogs.len()
            &&& report.invalid.len() <= report.cats.len()
        }),
{
    let ok = |c: CatalogView| c is Ok;
    let failed = |c: CatalogView| c is Err;
    lemma_filter_both(catalogs, ok, failed);
    let cats = cats_by_path(readable(catalogs));
    lemma_path_total();
    lemma_sorted_order(
        readable(catalogs).map_values(|c: (PathView, Set<Seq<u8>>)| c.0),
        path_le(),
    );
    lemma_sorted_order(unreadable(catalogs).map_values(|f: (PathView, Seq<char>)| f.0), path_le());
    cats.lemma_filter_len(|c: (PathView, Set<Seq<u8>>)| c.1.disjoint(file_digests(files)));
}

/// Every file is counted once: as an executable, as a setup information file, as neither, or among
/// the failures.
pub proof fn law_every_file_is_counted(catalogs: Seq<CatalogView>, files: Seq<FileView>)
    ensures
        ({
            let report = report_of(catalogs, files);
            report.pe_count + report.inf_count + report.ignored_count + report.hash_errors.len()
                == files.len()
        }),
{
    lemma_path_total();
    lemma_sorted_order(unhashed(files).map_values(|f: (PathView, Seq<char>)| f.0), path_le());
    lemma_kinds_add_up(files);
}

proof fn lemma_kinds_add_up(files: Seq<FileView>)
    ensures
        hashed(files, FileHashResult::Pe).len() + hashed(files, FileHashResult::Inf).len() + hashed(
            files,
            FileHashResult::Ignored,
        ).len() + unhashed(files).len() == files.len(),
    decreases files.len(),
{
    reveal(Seq::filter);
    if files.len() > 0 {
        lemma_kinds_add_up(files.drop_last());
    }
}

/// A path is among the invalid ones exactly if a catalog could be read there that lists no digest
/// of any file.
pub proof fn law_invalid_is_what_matches_nothing(
    catalogs: Seq<CatalogView>,
    files: Seq<FileView>,
    path: PathView,
)
    ensures
        report_of(catalogs, files).invalid.contains(path) <==> exists|i: int|
            0 <= i < catalogs.len() && (#[trigger] catalogs[i]) is Ok && catalogs[i]->Ok_0.0 == path
                && catalogs[i]->Ok_0.1.disjoint(file_digests(files)),
{
    let report = report_of(catalogs, files);
    let ok = |c: CatalogView| c is Ok;
    let none = |c: (PathView, Set<Seq<u8>>)| c.1.disjoint(file_digests(files));
    let key = |c: (PathView, Set<Seq<u8>>)| c.0;
    let kept = report.cats.filter(none);
    if report.invalid.contains(path) {
        let k = report.invalid.index_of(path);
        let cat = kept[k];
        assert(kept.contains(cat));
        lemma_filter_contains(report.cats, none, cat);
        lemma_sorted_contains(readable(catalogs), key, cat);
        let m = readable(catalogs).index_of(cat);
        let outcome = catalogs.filter(ok)[m];
        assert(catalogs.filter(ok).contains(outcome));
        lemma_filter_contains(catalogs, ok, outcome);
        assert(catalogs[catalogs.index_of(outcome)] == outcome);
    }
    if exists|i: int|
        0 <= i < catalogs.len() && (#[trigger] catalogs[i]) is Ok && catalogs[i]->Ok_0.0 == path
            && catalogs[i]->Ok_0.1.disjoint(file_digests(files)) {
        let i = choose|i: int|
            0 <= i < catalogs.len() && (#[trigger] catalogs[i]) is Ok && catalogs[i]->Ok_0.0 == path
                && catalogs[i]->Ok_0.1.disjoint(file_digests(files));
        let cat = catalogs[i]->Ok_0;
        lemma_filter_contains(catalogs, ok, catalogs[i]);
        let m = catalogs.filter(ok).index_of(catalogs[i]);
        assert(readable(catalogs)[m] == cat);
        lemma_sorted_contains(readable(catalogs), key, cat);
        lemma_filter_contains(report.cats, none, cat);
        assert(report.invalid[kept.index_of(cat)] == path);
    }
}

/// A catalog that lists nothing is invalid, whatever the files are.
pub proof fn law_empty_catalogs_are_invalid(
    catalogs: Seq<CatalogView>,
    files: Seq<FileView>,
    path: PathView,
)
    requires
        catalogs.contains(Ok((path, Set::<Seq<u8>>::empty()))),
    ensures
        report_of(catalogs, files).invalid.contains(path),
{
    law_invalid_is_what_matches_nothing(catalogs, files, path);
    let i = catalogs.index_of(Ok((path, Set::<Seq<u8>>::empty())));
    assert(catalogs[i]->Ok_0.1.disjoint(file_digests(files)));
}

/// More files make no more catalogs invalid.
pub proof fn law_more_files_keep_more_catalogs(
    catalogs: Seq<CatalogView>,
    files: Seq<FileView>,
    more: Seq<FileView>,
    path: PathView,
)
    requires
        report_of(catalogs, files + more).invalid.contains(path),
    ensures
        report_of(catalogs, files).invalid.contains(path),
{
    law_invalid_is_what_matches_nothing(catalogs, files, path);
    law_invalid_is_what_matches_nothing(catalogs, files + more, path);
    let all = files + more;
    assert forall|d: Seq<u8>| file_digests(files).contains(d) implies #[trigger] file_digests(
        all,
    ).contains(d) by {
        let k = choose|k: int|
            0 <= k < files.len() && (#[trigger] files[k]).2 is Ok && files[k].2->Ok_0.contains(d);
        assert(all[k] == files[k]);
    }
}

/// The catalogs, the invalid ones and the failures are each in the order of their paths.
pub proof fn law_reports_are_sorted(catalogs: Seq<CatalogView>, files: Seq<FileView>)
    ensures
        ({
            let report = report_of(catalogs, files);
            &&& ascending(report.cats.map_values(|c: (PathView, Set<Seq<u8>>)| c.0))
            &&& ascending(report.invalid)
            &&& ascending(report.parse_errors.map_values(|f: (PathView, Seq<char>)| f.0))
            &&& ascending(report.hash_errors.map_values(|f: (PathView, Seq<char>)| f.0))
        }),
{
    let report = report_of(catalogs, files);
    let cat_path = |c: (PathView, Set<Seq<u8>>)| c.0;
    let failure_path = |f: (PathView, Seq<char>)| f.0;
    lemma_sorted_ascends(readable(catalogs), cat_path);
    lemma_sorted_ascends(unreadable(catalogs), failure_path);
    lemma_sorted_ascends(unhashed(files), failure_path);
    lemma_filter_ascends(
        report.cats,
        |c: (PathView, Set<Seq<u8>>)| c.1.disjoint(file_digests(files)),
        cat_path,
    );
}

/// A report has errors exactly if a catalog could not be read or a file could not be hashed.
pub proof fn law_errors_are_told(catalogs: Seq<CatalogView>, files: Seq<FileView>)
    ensures
        has_errors(report_of(catalogs, files)) <==> ((exists|i: int|
            0 <= i < catalogs.len() && (#[trigger] catalogs[i]) is Err) || (exists|i: int|
            0 <= i < files.len() && (#[trigger] files[i]).2 is Err)),
{
    let report = report_of(catalogs, files);
    let bad_catalog = |c: CatalogView| c is Err;
    let bad_file = |f: FileView| f.2 is Err;
    lemma_path_total();
    lemma_sorted_order(unreadable(catalogs).map_values(|f: (PathView, Seq<char>)| f.0), path_le());
    lemma_sorted_order(unhashed(files).map_values(|f: (PathView, Seq<char>)| f.0), path_le());
    if report.parse_errors.len() > 0 {
        let c = catalogs.filter(bad_catalog)[0];
        assert(catalogs.filter(bad_catalog).contains(c));
        lemma_filter_contains(catalogs, bad_catalog, c);
        assert(catalogs[catalogs.index_of(c)] is Err);
    }
    if report.hash_errors.len() > 0 {
        let f = files.filter(bad_file)[0];
        assert(files.filter(bad_file).contains(f));
        lemma_filter_contains(files, bad_file, f);
        assert(files[files.index_of(f)].2 is Err);
    }
    if exists|i: int| 0 <= i < catalogs.len() && (#[trigger] catalogs[i]) is Err {
        let i = choose|i: int| 0 <= i < catalogs.len() && (#[trigger] catalogs[i]) is Err;
        lemma_filter_contains(catalogs, bad_catalog, catalogs[i]);
        assert(catalogs.filter(bad_catalog).len() > 0);
    }
    if exists|i: int| 0 <= i < files.len() && (#[trigger] files[i]).2 is Err {
        let i = choose|i: int| 0 <= i < files.len() && (#[trigger] files[i]).2 is Err;
        lemma_filter_contains(files, bad_file, files[i]);
        assert(files.filter(bad_file).len() > 0);
    }
}

/// No two items have the same key.
pub open spec fn distinct<A>(items: Seq<A>, key: spec_fn(A) -> PathView) -> bool {
    forall|i: int, j: int|
        0 <= i < j < items.len() ==> key(#[trigger] items[i]) != key(#[trigger] items[j])
}

/// Sequences without repetition that have the same items are the same multiset.
proof fn lemma_same_multiset<A>(a: Seq<A>, b: Seq<A>)
    requires
        a.no_duplicates(),
        b.no_duplicates(),
        forall|x: A| #[trigger] a.contains(x) <==> b.contains(x),
    ensures
        a.to_multiset() == b.to_multiset(),
{
    broadcast use group_to_multiset_ensures;

    a.lemma_multiset_has_no_duplicates();
    b.lemma_multiset_has_no_duplicates();
    assert forall|x: A| #[trigger] a.to_multiset().count(x) == b.to_multiset().count(x) by {
        assert(a.contains(x) <==> a.to_multiset().count(x) > 0);
        assert(b.contains(x) <==> b.to_multiset().count(x) > 0);
        if a.contains(x) {
            assert(a.to_multiset().contains(x) && b.to_multiset().contains(x));
        }
    }
    assert(a.to_multiset() =~= b.to_multiset());
}

/// Items with distinct keys are sorted the same way from whatever order.
proof fn lemma_sorting_forgets_order<A>(a: Seq<A>, b: Seq<A>, key: spec_fn(A) -> PathView)
    requires
        distinct(a, key),
        distinct(b, key),
        forall|x: A| #[trigger] a.contains(x) <==> b.contains(x),
    ensures
        sorted_items(a, key, path_le()) == sorted_items(b, key, path_le()),
{
    let x = sorted_items(a, key, path_le());
    let y = sorted_items(b, key, path_le());
    let p = x.map_values(key);
    let q = y.map_values(key);
    lemma_path_total();
    lemma_sorted_keys(a, key);
    lemma_sorted_keys(b, key);
    assert forall|k: PathView| #[trigger] p.contains(k) <==> q.contains(k) by {
        if p.contains(k) {
            let item = x[p.index_of(k)];
            assert(x.contains(item));
            lemma_sorted_contains(a, key, item);
            lemma_sorted_contains(b, key, item);
            assert(q[y.index_of(item)] == k);
        }
        if q.contains(k) {
            let item = y[q.index_of(k)];
            assert(y.contains(item));
            lemma_sorted_contains(b, key, item);
            assert(a.contains(item));
            lemma_sorted_contains(a, key, item);
            assert(p[x.index_of(item)] == k);
        }
    }
    lemma_same_multiset(p, q);
    lemma_sorted_unique(p, q, path_le());
    assert(p =~= q);
    assert forall|i: int| 0 <= i < x.len() implies x[i] == #[trigger] y[i] by {
        assert(y.contains(y[i]));
        lemma_sorted_contains(b, key, y[i]);
        assert(a.contains(y[i]));
        lemma_sorted_contains(a, key, y[i]);
        let j = x.index_of(y[i]);
        assert(p[j] == q[i] && p[i] == q[i]);
    }
    assert(x =~= y);
}

/// Sorting items with distinct keys puts each key once and in order.
proof fn lemma_sorted_keys<A>(items: Seq<A>, key: spec_fn(A) -> PathView)
    requires
        distinct(items, key),
    ensures
        sorted_items(items, key, path_le()).map_values(key).no_duplicates(),
        sorted_by(sorted_items(items, key, path_le()).map_values(key), path_le()),
{
    let keys = items.map_values(key);
    let order = sorted_order(keys, path_le());
    let sorted = sorted_items(items, key, path_le()).map_values(key);
    lemma_path_total();
    lemma_sorted_order(keys, path_le());
    lemma_sorted_ascends(items, key);
    assert forall|i: int, j: int| 0 <= i < j < sorted.len() implies sorted[i] != sorted[j] by {
        assert(order[i] != order[j]);
        assert(items[order[i]] == sorted_items(items, key, path_le())[i]);
        assert(items[order[j]] == sorted_items(items, key, path_le())[j]);
        if order[i] < order[j] {
            assert(key(items[order[i]]) != key(items[order[j]]));
        } else {
            assert(key(items[order[j]]) != key(items[order[i]]));
        }
    }
    let le = path_le();
    assert forall|i: int, j: int| 0 <= i < j < sorted.len() implies #[trigger] le(
        sorted[i],
        sorted[j],
    ) by {
        assert(path_le()(sorted[i], sorted[j]));
    }
}

/// A filter keeps keys apart, those of items of another form too.
pub proof fn lemma_filter_distinct<A, B>(
    items: Seq<A>,
    keep: spec_fn(A) -> bool,
    key: spec_fn(A) -> PathView,
    form: spec_fn(A) -> B,
    form_key: spec_fn(B) -> PathView,
)
    requires
        distinct(items, key),
        forall|a: A| #[trigger] keep(a) ==> form_key(form(a)) == key(a),
    ensures
        distinct(items.filter(keep), key),
        distinct(items.filter(keep).map_values(form), form_key),
    decreases items.len(),
{
    reveal(Seq::filter);
    if items.len() > 0 {
        let less = items.drop_last();
        assert(distinct(less, key)) by {
            assert forall|i: int, j: int| 0 <= i < j < less.len() implies key(#[trigger] less[i])
                != key(#[trigger] less[j]) by {
                assert(less[i] == items[i] && less[j] == items[j]);
            }
        }
        lemma_filter_distinct(less, keep, key, form, form_key);
        let kept = less.filter(keep);
        let all = items.filter(keep);
        assert forall|i: int, j: int| 0 <= i < j < all.len() implies key(#[trigger] all[i]) != key(
            #[trigger] all[j],
        ) by {
            if j < kept.len() {
                assert(all[i] == kept[i] && all[j] == kept[j]);
            } else {
                assert(all[i] == kept[i]);
                assert(kept.contains(kept[i]));
                lemma_filter_contains(less, keep, kept[i]);
                let p = less.index_of(kept[i]);
                assert(items[p] == kept[i]);
            }
        }
    }
    let kept = items.filter(keep);
    let formed = kept.map_values(form);
    assert forall|i: int, j: int| 0 <= i < j < formed.len() implies form_key(#[trigger] formed[i])
        != form_key(#[trigger] formed[j]) by {
        assert(kept.contains(kept[i]) && kept.contains(kept[j]));
        lemma_filter_contains(items, keep, kept[i]);
        lemma_filter_contains(items, keep, kept[j]);
        assert(formed[i] == form(kept[i]) && formed[j] == form(kept[j]));
        assert(keep(kept[i]) && keep(kept[j]));
    }
}

/// What is kept of the same items, in another form, is the same.
proof fn lemma_filter_same<A, B>(
    a: Seq<A>,
    b: Seq<A>,
    keep: spec_fn(A) -> bool,
    form: spec_fn(A) -> B,
)
    requires
        forall|x: A| #[trigger] a.contains(x) <==> b.contains(x),
    ensures
        forall|y: B| #[trigger]
            a.filter(keep).map_values(form).contains(y) <==> b.filter(keep).map_values(
                form,
            ).contains(y),
{
    assert forall|y: B| #[trigger]
        a.filter(keep).map_values(form).contains(y) <==> b.filter(keep).map_values(form).contains(
        y,
    ) by {
        if a.filter(keep).map_values(form).contains(y) {
            lemma_formed_contains(a, b, keep, form, y);
        }
        if b.filter(keep).map_values(form).contains(y) {
            assert forall|x: A| #[trigger] b.contains(x) <==> a.contains(x) by {
                assert(a.contains(x) <==> b.contains(x));
            }
            lemma_formed_contains(b, a, keep, form, y);
        }
    }
}

proof fn lemma_formed_contains<A, B>(
    a: Seq<A>,
    b: Seq<A>,
    keep: spec_fn(A) -> bool,
    form: spec_fn(A) -> B,
    y: B,
)
    requires
        forall|x: A| #[trigger] a.contains(x) <==> b.contains(x),
        a.filter(keep).map_values(form).contains(y),
    ensures
        b.filter(keep).map_values(form).contains(y),
{
    let x = a.filter(keep)[a.filter(keep).map_values(form).index_of(y)];
    assert(a.filter(keep).contains(x));
    lemma_filter_contains(a, keep, x);
    lemma_filter_contains(b, keep, x);
    assert(b.filter(keep).map_values(form)[b.filter(keep).index_of(x)] == y);
}

/// The path of a catalog, whether it could be read or not.
pub open spec fn catalog_path() -> spec_fn(CatalogView) -> PathView {
    |c: CatalogView|
        match c {
            Ok(record) => record.0,
            Err(failure) => failure.0,
        }
}

/// The path of a file.
pub open spec fn outcome_path() -> spec_fn(FileView) -> PathView {
    |f: FileView| f.0
}

/// As many files of a kind are hashed in whatever order.
proof fn lemma_count_forgets_order(a: Seq<FileView>, b: Seq<FileView>, kind: FileHashResult)
    requires
        distinct(a, outcome_path()),
        distinct(b, outcome_path()),
        forall|f: FileView| #[trigger] a.contains(f) <==> b.contains(f),
    ensures
        hashed(a, kind).len() == hashed(b, kind).len(),
{
    let keep = hashed_as(kind);
    let key = outcome_path();
    lemma_filter_distinct(a, keep, key, |f: FileView| f, key);
    lemma_filter_distinct(b, keep, key, |f: FileView| f, key);
    let x = hashed(a, kind);
    let y = hashed(b, kind);
    assert(x.no_duplicates()) by {
        assert forall|i: int, j: int| 0 <= i < j < x.len() implies x[i] != x[j] by {
            assert(key(x[i]) != key(x[j]));
        }
    }
    assert(y.no_duplicates()) by {
        assert forall|i: int, j: int| 0 <= i < j < y.len() implies y[i] != y[j] by {
            assert(key(y[i]) != key(y[j]));
        }
    }
    assert forall|f: FileView| #[trigger] x.contains(f) <==> y.contains(f) by {
        lemma_filter_contains(a, keep, f);
        lemma_filter_contains(b, keep, f);
        assert(a.contains(f) <==> b.contains(f));
    }
    lemma_same_multiset(x, y);
    broadcast use group_to_multiset_ensures;

    assert(x.len() == x.to_multiset().len());
    assert(y.len() == y.to_multiset().len());
}

/// The order in which catalogs are read and files are hashed does not matter: from the same
/// outcomes, each of a path of its own, comes the same report.
pub proof fn law_order_does_not_matter(
    catalogs: Seq<CatalogView>,
    other_catalogs: Seq<CatalogView>,
    files: Seq<FileView>,
    other_files: Seq<FileView>,
)
    requires
        distinct(catalogs, catalog_path()),
        distinct(other_catalogs, catalog_path()),
        distinct(files, outcome_path()),
        distinct(other_files, outcome_path()),
        forall|c: CatalogView| #[trigger] catalogs.contains(c) <==> other_catalogs.contains(c),
        forall|f: FileView| #[trigger] files.contains(f) <==> other_files.contains(f),
    ensures
        report_of(catalogs, files) == report_of(other_catalogs, other_files),
{
    let ok = |c: CatalogView| c is Ok;
    let failed = |c: CatalogView| c is Err;
    let record = |c: CatalogView| c->Ok_0;
    let failure = |c: CatalogView| c->Err_0;
    let unhashable = |f: FileView| f.2 is Err;
    let file_failure = |f: FileView| (f.0, f.2->Err_0);
    let record_path = |c: (PathView, Set<Seq<u8>>)| c.0;
    let failure_path = |f: (PathView, Seq<char>)| f.0;

    lemma_filter_distinct(catalogs, ok, catalog_path(), record, record_path);
    lemma_filter_distinct(other_catalogs, ok, catalog_path(), record, record_path);
    lemma_filter_same(catalogs, other_catalogs, ok, record);
    lemma_sorting_forgets_order(readable(catalogs), readable(other_catalogs), record_path);

    lemma_filter_distinct(catalogs, failed, catalog_path(), failure, failure_path);
    lemma_filter_distinct(other_catalogs, failed, catalog_path(), failure, failure_path);
    lemma_filter_same(catalogs, other_catalogs, failed, failure);
    lemma_sorting_forgets_order(unreadable(catalogs), unreadable(other_catalogs), failure_path);

    lemma_filter_distinct(files, unhashable, outcome_path(), file_failure, failure_path);
    lemma_filter_distinct(other_files, unhashable, outcome_path(), file_failure, failure_path);
    lemma_filter_same(files, other_files, unhashable, file_failure);
    lemma_sorting_forgets_order(unhashed(files), unhashed(other_files), failure_path);

    lemma_count_forgets_order(files, other_files, FileHashResult::Pe);
    lemma_count_forgets_order(files, other_files, FileHashResult::Inf);
    lemma_count_forgets_order(files, other_files, FileHashResult::Ignored);

    assert forall|d: Seq<u8>| #[trigger] file_digests(files).contains(d) <==> file_digests(
        other_files,
    ).contains(d) by {
        if file_digests(files).contains(d) {
            let k = choose|k: int|
                0 <= k < files.len() && (#[trigger] files[k]).2 is Ok && files[k].2->Ok_0.contains(
                    d,
                );
            assert(files.contains(files[k]));
            assert(other_files[other_files.index_of(files[k])] == files[k]);
        }
        if file_digests(other_files).contains(d) {
            let k = choose|k: int|
                0 <= k < other_files.len() && (#[trigger] other_files[k]).2 is Ok
                    && other_files[k].2->Ok_0.contains(d);
            assert(other_files.contains(other_files[k]));
            assert(files.contains(other_files[k]));
            assert(files[files.index_of(other_files[k])] == other_files[k]);
        }
    }
    assert(file_digests(files) =~= file_digests(other_files));
}

/// Each path comes before those behind it, and is none of them.
pub open spec fn strictly_ascending_paths(paths: Seq<PathView>) -> bool {
    forall|i: int, j: int|
        0 <= i < j < paths.len() ==> path_le()(#[trigger] paths[i], #[trigger] paths[j]) && paths[i]
            != paths[j]
}

/// Where every catalog and every file has a path of its own, the catalogs, the invalid ones and the
/// failures are each in strictly ascending order of their paths.
pub proof fn law_reports_are_strictly_sorted(catalogs: Seq<CatalogView>, files: Seq<FileView>)
    requires
        distinct(catalogs, catalog_path()),
        distinct(files, outcome_path()),
    ensures
        ({
            let report = report_of(catalogs, files);
            &&& strictly_ascending_paths(
                report.cats.map_values(|c: (PathView, Set<Seq<u8>>)| c.0),
            )
            &&& strictly_ascending_paths(report.invalid)
            &&& strictly_ascending_paths(
                report.parse_errors.map_values(|f: (PathView, Seq<char>)| f.0),
            )
            &&& strictly_ascending_paths(
                report.hash_errors.map_values(|f: (PathView, Seq<char>)| f.0),
            )
        }),
{
    let report = report_of(catalogs, files);
    let record_path = |c: (PathView, Set<Seq<u8>>)| c.0;
    let failure_path = |f: (PathView, Seq<char>)| f.0;
    law_reports_are_sorted(catalogs, files);
    lemma_filter_distinct(
        catalogs,
        |c: CatalogView| c is Ok,
        catalog_path(),
        |c: CatalogView| c->Ok_0,
        record_path,
    );
    lemma_sorted_keys(readable(catalogs), record_path);
    lemma_filter_distinct(
        catalogs,
        |c: CatalogView| c is Err,
        catalog_path(),
        |c: CatalogView| c->Err_0,
        failure_path,
    );
    lemma_sorted_keys(unreadable(catalogs), failure_path);
    lemma_filter_distinct(
        files,
        |f: FileView| f.2 is Err,
        outcome_path(),
        |f: FileView| (f.0, f.2->Err_0),
        failure_path,
    );
    lemma_sorted_keys(unhashed(files), failure_path);
    let paths = report.cats.map_values(record_path);
    assert(distinct(report.cats, record_path)) by {
        assert forall|i: int, j: int| 0 <= i < j < report.cats.len() implies record_path(
            #[trigger] report.cats[i],
        ) != record_path(#[trigger] report.cats[j]) by {
            assert(paths[i] != paths[j]);
        }
    }
    let same = |p: PathView| p;
    lemma_filter_distinct(
        report.cats,
        |c: (PathView, Set<Seq<u8>>)| c.1.disjoint(file_digests(files)),
        record_path,
        record_path,
        same,
    );
    assert forall|i: int, j: int| 0 <= i < j < report.invalid.len() implies path_le()(
        #[trigger] report.invalid[i],
        #[trigger] report.invalid[j],
    ) && report.invalid[i] != report.invalid[j] by {
        assert(same(report.invalid[i]) != same(report.invalid[j]));
    }
}

/// A catalog lists a digest of a file that could be hashed.
pub open spec fn matches(members: Set<Seq<u8>>, file: FileView) -> bool {
    file.2 matches Ok(digests) && exists|k: int|
        0 <= k < digests.len() && members.contains(#[trigger] digests[k])
}

/// A report lists exactly the paths at which a catalog was read that lists none of the digests of any
/// file: not of one that was taken for an executable, nor of any other that could be hashed.
pub proof fn law_a_report_lists_what_matches_no_file(
    report: ScanReport,
    catalogs: Seq<CatalogView>,
    files: Seq<FileView>,
    path: PathView,
)
    requires
        report@ == report_of(catalogs, files),
    ensures
        (exists|n: int| 0 <= n < report.invalid@.len() && (#[trigger] report.invalid@[n])@ == path)
            <==> exists|i: int|
            0 <= i < catalogs.len() && (#[trigger] catalogs[i]) is Ok && catalogs[i]->Ok_0.0 == path
                && forall|j: int|
                0 <= j < files.len() ==> !matches(catalogs[i]->Ok_0.1, #[trigger] files[j]),
{
    let invalid = report@.invalid;
    law_invalid_is_what_matches_nothing(catalogs, files, path);
    if exists|n: int| 0 <= n < report.invalid@.len() && (#[trigger] report.invalid@[n])@ == path {
        let n = choose|n: int|
            0 <= n < report.invalid@.len() && (#[trigger] report.invalid@[n])@ == path;
        assert(invalid[n] == path);
        assert(invalid.contains(path));
    }
    if invalid.contains(path) {
        let n = invalid.index_of(path);
        assert(report.invalid@[n]@ == path);
    }
    assert forall|members: Set<Seq<u8>>| #[trigger] members.disjoint(file_digests(files))
        <==> forall|j: int| 0 <= j < files.len() ==> !matches(members, #[trigger] files[j]) by {
        if members.disjoint(file_digests(files)) {
            assert forall|j: int| 0 <= j < files.len() implies !matches(
                members,
                #[trigger] files[j],
            ) by {
                if matches(members, files[j]) {
                    let digests = files[j].2->Ok_0;
                    let k = choose|k: int|
                        0 <= k < digests.len() && members.contains(#[trigger] digests[k]);
                    assert(digests.contains(digests[k]));
                    assert(file_digests(files).contains(digests[k]));
                }
            }
        } else {
            let d = choose|d: Seq<u8>| #[trigger]
                members.contains(d) && file_digests(files).contains(d);
            let j = choose|j: int|
                0 <= j < files.len() && (#[trigger] files[j]).2 is Ok && files[j].2->Ok_0.contains(
                    d,
                );
            let k = files[j].2->Ok_0.index_of(d);
            assert(files[j].2->Ok_0[k] == d);
            assert(matches(members, files[j]));
        }
    }
    if exists|i: int|
        0 <= i < catalogs.len() && (#[trigger] catalogs[i]) is Ok && catalogs[i]->Ok_0.0 == path
            && forall|j: int|
            0 <= j < files.len() ==> !matches(catalogs[i]->Ok_0.1, #[trigger] files[j]) {
        let i = choose|i: int|
            0 <= i < catalogs.len() && (#[trigger] catalogs[i]) is Ok && catalogs[i]->Ok_0.0 == path
                && forall|j: int|
                0 <= j < files.len() ==> !matches(catalogs[i]->Ok_0.1, #[trigger] files[j]);
        assert(catalogs[i]->Ok_0.1.disjoint(file_digests(files)));
    }
}

/// A report has each catalog that was read, with its members, and each failure, with its message; and
/// no others.
pub proof fn law_a_report_keeps_what_was_found(
    report: ScanReport,
    catalogs: Seq<CatalogView>,
    files: Seq<FileView>,
    path: PathView,
    members: Set<Seq<u8>>,
    message: Seq<char>,
)
    requires
        report@ == report_of(catalogs, files),
    ensures
        (exists|n: int|
            0 <= n < report.cats@.len() && (#[trigger] report.cats@[n]).path@ == path
                && report.cats@[n].members@ == members) <==> catalogs.contains(
            Ok((path, members)),
        ),
        (exists|n: int|
            0 <= n < report.parse_errors@.len() && (#[trigger] report.parse_errors@[n]).0@ == path
                && report.parse_errors@[n].1@ == message) <==> catalogs.contains(
            Err((path, message)),
        ),
        (exists|n: int|
            0 <= n < report.hash_errors@.len() && (#[trigger] report.hash_errors@[n]).0@ == path
                && report.hash_errors@[n].1@ == message) <==> exists|j: int|
            0 <= j < files.len() && (#[trigger] files[j]).0 == path && files[j].2 == Err::<
                Seq<Seq<u8>>,
                Seq<char>,
            >(message),
{
    let ok = |c: CatalogView| c is Ok;
    let failed = |c: CatalogView| c is Err;
    let unhashable = |f: FileView| f.2 is Err;
    let record_path = |c: (PathView, Set<Seq<u8>>)| c.0;
    let failure_path = |f: (PathView, Seq<char>)| f.0;
    let cat = (path, members);
    let failure = (path, message);
    lemma_sorted_contains(readable(catalogs), record_path, cat);
    lemma_sorted_contains(unreadable(catalogs), failure_path, failure);
    lemma_sorted_contains(unhashed(files), failure_path, failure);
    lemma_filter_contains(catalogs, ok, Ok(cat));
    lemma_filter_contains(catalogs, failed, Err(failure));
    lemma_shown_contains(report.cats@, cat);
    lemma_shown_contains(report.parse_errors@, failure);
    lemma_shown_contains(report.hash_errors@, failure);
    if readable(catalogs).contains(cat) {
        let c = catalogs.filter(ok)[readable(catalogs).index_of(cat)];
        assert(catalogs.filter(ok).contains(c));
        lemma_filter_contains(catalogs, ok, c);
        assert(c == Ok::<(PathView, Set<Seq<u8>>), (PathView, Seq<char>)>(cat));
    }
    if catalogs.contains(Ok(cat)) {
        let k = catalogs.filter(ok).index_of(Ok(cat));
        assert(readable(catalogs)[k] == cat);
    }
    if unreadable(catalogs).contains(failure) {
        let c = catalogs.filter(failed)[unreadable(catalogs).index_of(failure)];
        assert(catalogs.filter(failed).contains(c));
        lemma_filter_contains(catalogs, failed, c);
        assert(c == Err::<(PathView, Set<Seq<u8>>), (PathView, Seq<char>)>(failure));
    }
    if catalogs.contains(Err(failure)) {
        let k = catalogs.filter(failed).index_of(Err(failure));
        assert(unreadable(catalogs)[k] == failure);
    }
    if unhashed(files).contains(failure) {
        let f = files.filter(unhashable)[unhashed(files).index_of(failure)];
        assert(files.filter(unhashable).contains(f));
        lemma_filter_contains(files, unhashable, f);
        assert(files[files.index_of(f)] == f);
    }
    if exists|j: int|
        0 <= j < files.len() && (#[trigger] files[j]).0 == path && files[j].2 == Err::<
            Seq<Seq<u8>>,
            Seq<char>,
        >(message) {
        let j = choose|j: int|
            0 <= j < files.len() && (#[trigger] files[j]).0 == path && files[j].2 == Err::<
                Seq<Seq<u8>>,
                Seq<char>,
            >(message);
        lemma_filter_contains(files, unhashable, files[j]);
        let k = files.filter(unhashable).index_of(files[j]);
        assert(unhashed(files)[k] == failure);
    }
    assert((exists|n: int|
        0 <= n < report.cats@.len() && (#[trigger] report.cats@[n]).path@ == path
            && report.cats@[n].members@ == members) <==> exists|n: int|
        0 <= n < report.cats@.len() && (#[trigger] report.cats@[n])@ == cat);
    assert((exists|n: int|
        0 <= n < report.parse_errors@.len() && (#[trigger] report.parse_errors@[n]).0@ == path
            && report.parse_errors@[n].1@ == message) <==> exists|n: int|
        0 <= n < report.parse_errors@.len() && (#[trigger] report.parse_errors@[n])@ == failure);
    assert((exists|n: int|
        0 <= n < report.hash_errors@.len() && (#[trigger] report.hash_errors@[n]).0@ == path
            && report.hash_errors@[n].1@ == message) <==> exists|n: int|
        0 <= n < report.hash_errors@.len() && (#[trigger] report.hash_errors@[n])@ == failure);
}

proof fn lemma_shown_contains<T: View>(items: Seq<T>, v: T::V)
    ensures
        shown(items).contains(v) <==> exists|n: int|
            0 <= n < items.len() && (#[trigger] items[n])@ == v,
{
    if shown(items).contains(v) {
        let n = shown(items).index_of(v);
        assert(items[n]@ == v);
    }
    if exists|n: int| 0 <= n < items.len() && (#[trigger] items[n])@ == v {
        let n = choose|n: int| 0 <= n < items.len() && (#[trigger] items[n])@ == v;
        assert(shown(items)[n] == v);
    }
}

/// One more file that could be hashed counts once, for what it was taken for, and one that could not
/// be counts among the failures alone. Without files there is nothing to count.
pub proof fn law_files_count_one_by_one(
    catalogs: Seq<CatalogView>,
    files: Seq<FileView>,
    file: FileView,
    before: ScanReport,
    after: ScanReport,
)
    requires
        before@ == report_of(catalogs, files),
        after@ == report_of(catalogs, files.push(file)),
    ensures
        after.pe_count == before.pe_count + if file.2 is Ok && file.1 == FileHashResult::Pe {
            1int
        } else {
            0
        },
        after.inf_count == before.inf_count + if file.2 is Ok && file.1 == FileHashResult::Inf {
            1int
        } else {
            0
        },
        after.ignored_count == before.ignored_count + if file.2 is Ok && file.1
            == FileHashResult::Ignored {
            1int
        } else {
            0
        },
        after.hash_errors@.len() == before.hash_errors@.len() + if file.2 is Err {
            1int
        } else {
            0
        },
        files.len() == 0 ==> before.pe_count == 0 && before.inf_count == 0 && before.ignored_count
            == 0 && before.hash_errors@.len() == 0,
{
    reveal(Seq::filter);
    let all = files.push(file);
    assert(all.drop_last() =~= files);
    lemma_path_total();
    lemma_sorted_order(unhashed(files).map_values(|f: (PathView, Seq<char>)| f.0), path_le());
    lemma_sorted_order(unhashed(all).map_values(|f: (PathView, Seq<char>)| f.0), path_le());
    assert(before@.hash_errors.len() == before.hash_errors@.len());
    assert(after@.hash_errors.len() == after.hash_errors@.len());
}

/// Sorting by paths keeps the order of what has the same path.
pub proof fn law_sorting_is_stable(keys: Seq<PathView>, i: int, j: int)
    requires
        0 <= i < j < keys.len(),
    ensures
        ({
            let order = sorted_order(keys, path_le());
            keys[order[i]] == keys[order[j]] ==> order[i] < order[j]
        }),
{
    let order = sorted_order(keys, path_le());
    lemma_path_total();
    lemma_sorted_order(keys, path_le());
    lemma_places_sorted(keys, path_le());
    let place = place_le(keys, path_le());
    assert(place(order[i], order[j]));
    if keys[order[i]] == keys[order[j]] {
        assert(order[i] <= order[j]);
        assert(order[i] != order[j]);
    }
}

/// A report has errors exactly if it tells of a failure.
pub proof fn law_errors_are_failures(report: ScanReport)
    ensures
        has_errors(report@) <==> report.parse_errors@.len() + report.hash_errors@.len() > 0,
{
    assert(report@.parse_errors.len() == report.parse_errors@.len());
    assert(report@.hash_errors.len() == report.hash_errors@.len());
}

} // verus!
