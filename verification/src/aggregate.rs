//! Merging the answers of all batches and selecting the files to archive.

use crate::paths::{excluded_specially, is_under_dir, vcs_dir, vcs_dir_of};
use vstd::hash_set::StringHashSet;
use vstd::prelude::*;

verus! {

/// The paths that at least one batch reported as ignored.
///
/// The union does not depend on the order of the batches, nor on a path being
/// reported more than once.
pub open spec fn ignored_union(results: Seq<Seq<Seq<char>>>) -> Set<Seq<char>> {
    Set::new(
        |path: Seq<char>|
            exists|k: int| 0 <= k < results.len() && (#[trigger] results[k]).contains(path),
    )
}

/// Whether `path` is archived: it is neither ignored nor part of the
/// version-control metadata of the tree rooted at `base`.
pub open spec fn is_selected(
    base: Seq<char>,
    ignored: Set<Seq<char>>,
    path: Seq<char>,
    windows: bool,
) -> bool {
    !ignored.contains(path) && !excluded_specially(base, path, windows)
}

/// [`is_selected`] as a predicate on paths.
pub open spec fn selection(base: Seq<char>, ignored: Set<Seq<char>>, windows: bool) -> spec_fn(
    Seq<char>,
) -> bool {
    |path: Seq<char>| is_selected(base, ignored, path, windows)
}

/// The files to archive: those of `all_files`, in their order, that are
/// neither ignored nor version-control metadata.
pub open spec fn valid_files(
    base: Seq<char>,
    all_files: Seq<Seq<char>>,
    ignored: Set<Seq<char>>,
    windows: bool,
) -> Seq<Seq<char>> {
    all_files.filter(selection(base, ignored, windows))
}

/// The union of what the batches reported.
pub fn merge_ignored(results: &Vec<Vec<String>>) -> (ignored: StringHashSet)
    ensures
        ignored@ == ignored_union(results.deep_view()),
{
    let ghost all = results.deep_view();
    let mut ignored = StringHashSet::new();
    let mut k: usize = 0;
    assert(ignored@ =~= ignored_union(all.take(0)));
    while k < results.len()
        invariant
            k <= results.len(),
            all == results.deep_view(),
            ignored@ == ignored_union(all.take(k as int)),
        decreases results.len() - k,
    {
        let batch = &results[k];
        let ghost reported = all[k as int];
        let ghost before = ignored_union(all.take(k as int));
        let mut j: usize = 0;
        while j < batch.len()
            invariant
                j <= batch.len(),
                reported == batch.deep_view(),
                ignored@ == before.union(reported.take(j as int).to_set()),
            decreases batch.len() - j,
        {
            assert(reported.take(j + 1) =~= reported.take(j as int).push(batch[j as int]@));
            assert(reported.take(j + 1).to_set() =~= reported.take(j as int).to_set().insert(
                batch[j as int]@,
            )) by {
                lemma_push_to_set(reported.take(j as int), batch[j as int]@);
            }
            ignored.insert(batch[j].clone());
            j = j + 1;
        }
        proof {
            assert(reported.take(batch.len() as int) =~= reported);
            lemma_union_of_one_more(all, k as int);
        }
        k = k + 1;
    }
    assert(all.take(results.len() as int) =~= all);
    ignored
}

/// Pushing an item onto a sequence inserts it into the set of its items.
proof fn lemma_push_to_set(s: Seq<Seq<char>>, x: Seq<char>)
    ensures
        s.push(x).to_set() =~= s.to_set().insert(x),
{
    assert forall|y: Seq<char>| s.push(x).to_set().contains(y) <==> s.to_set().insert(x).contains(
        y,
    ) by {
        if s.push(x).contains(y) {
            let i = choose|i: int| 0 <= i < s.push(x).len() && s.push(x)[i] == y;
            if i < s.len() {
                assert(s[i] == y);
            }
        }
        if s.contains(y) {
            let i = choose|i: int| 0 <= i < s.len() && s[i] == y;
            assert(s.push(x)[i] == y);
        }
        if y == x {
            assert(s.push(x)[s.len() as int] == y);
        }
    }
}

/// The union over one batch more is the union so far together with the paths
/// of that batch.
proof fn lemma_union_of_one_more(results: Seq<Seq<Seq<char>>>, k: int)
    requires
        0 <= k < results.len(),
    ensures
        ignored_union(results.take(k + 1)) =~= ignored_union(results.take(k)).union(
            results[k].to_set(),
        ),
{
    let shorter = results.take(k);
    let longer = results.take(k + 1);
    assert forall|path: Seq<char>|
        ignored_union(longer).contains(path) <==> ignored_union(shorter).union(
            results[k].to_set(),
        ).contains(path) by {
        if ignored_union(longer).contains(path) {
            let i = choose|i: int| 0 <= i < longer.len() && (#[trigger] longer[i]).contains(path);
            if i < k {
                assert(shorter[i].contains(path));
            }
        }
        if ignored_union(shorter).contains(path) {
            let i = choose|i: int| 0 <= i < shorter.len() && (#[trigger] shorter[i]).contains(path);
            assert(longer[i].contains(path));
        }
        if results[k].contains(path) {
            assert(longer[k].contains(path));
        }
    }
}

/// The files to archive: those of `all_files` that no batch reported as
/// ignored and that are not version-control metadata of the tree rooted at
/// `current_dir`.
///
/// `ignored` holds what each batch reported, in any order. The result keeps
/// the order of `all_files`. `windows` says whether the paths follow the rules
/// of Windows or those of POSIX systems.
pub fn filter_valid_files(
    current_dir: &str,
    all_files: &Vec<String>,
    ignored: &Vec<Vec<String>>,
    windows: bool,
) -> (valid: Vec<String>)
    ensures
        valid.deep_view() == valid_files(
            current_dir@,
            all_files.deep_view(),
            ignored_union(ignored.deep_view()),
            windows,
        ),
        forall|path: Seq<char>|
            valid.deep_view().contains(path) <==> all_files.deep_view().contains(path)
                && !ignored_union(ignored.deep_view()).contains(path) && !excluded_specially(
                current_dir@,
                path,
                windows,
            ),
        all_files.deep_view().no_duplicates() ==> valid.deep_view().no_duplicates(),
{
    let ghost all = all_files.deep_view();
    let ghost base = current_dir@;
    let ghost reported = ignored_union(ignored.deep_view());
    let ghost keep = selection(base, reported, windows);
    let ignored_set = merge_ignored(ignored);
    let metadata = vcs_dir_of(current_dir, windows);
    let mut valid: Vec<String> = Vec::new();
    let mut i: usize = 0;
    proof {
        reveal(Seq::filter);
        assert(all.take(0).filter(keep) =~= Seq::<Seq<char>>::empty());
        assert(valid.deep_view() =~= Seq::<Seq<char>>::empty());
    }
    while i < all_files.len()
        invariant
            i <= all_files.len(),
            all == all_files.deep_view(),
            base == current_dir@,
            keep == selection(base, reported, windows),
            ignored_set@ == reported,
            metadata@ == vcs_dir(base, windows),
            valid.deep_view() == all.take(i as int).filter(keep),
        decreases all_files.len() - i,
    {
        let path = &all_files[i];
        let ghost before = valid.deep_view();
        proof {
            assert(all.take(i + 1) =~= all.take(i as int).push(path@));
            all.take(i as int).lemma_filter_push(path@, keep);
        }
        let ignored_here = ignored_set.contains(path.as_str());
        if !ignored_here && !is_under_dir(&metadata, path.as_str(), windows) {
            valid.push(path.clone());
            assert(valid.deep_view() =~= before.push(path@));
        }
        i = i + 1;
    }
    proof {
        assert(all.take(all_files.len() as int) =~= all);
        lemma_valid_files_members(base, all, reported, windows);
        if all.no_duplicates() {
            lemma_selection_has_no_duplicates(base, all, reported, windows);
        }
    }
    valid
}

/// A path is selected exactly if it is in the file list, not ignored and not
/// version-control metadata.
pub proof fn lemma_valid_files_members(
    base: Seq<char>,
    all_files: Seq<Seq<char>>,
    ignored: Set<Seq<char>>,
    windows: bool,
)
    ensures
        forall|path: Seq<char>|
            valid_files(base, all_files, ignored, windows).contains(path) <==> all_files.contains(
                path,
            ) && is_selected(base, ignored, path, windows),
{
    let keep = selection(base, ignored, windows);
    let valid = all_files.filter(keep);
    assert forall|path: Seq<char>|
        valid.contains(path) <==> all_files.contains(path) && is_selected(
            base,
            ignored,
            path,
            windows,
        ) by {
        if valid.contains(path) {
            let j = choose|j: int| 0 <= j < valid.len() && valid[j] == path;
            all_files.lemma_filter_pred(keep, j);
            all_files.lemma_filter_contains_rev(keep, path);
        }
        if all_files.contains(path) && is_selected(base, ignored, path, windows) {
            let j = choose|j: int| 0 <= j < all_files.len() && all_files[j] == path;
            all_files.lemma_filter_contains(keep, j);
        }
    }
}

/// The selection from a file list in which no path occurs twice holds no path
/// twice.
pub proof fn lemma_selection_has_no_duplicates(
    base: Seq<char>,
    all_files: Seq<Seq<char>>,
    ignored: Set<Seq<char>>,
    windows: bool,
)
    requires
        all_files.no_duplicates(),
    ensures
        valid_files(base, all_files, ignored, windows).no_duplicates(),
    decreases all_files.len(),
{
    reveal(Seq::filter);
    if all_files.len() > 0 {
        let keep = selection(base, ignored, windows);
        let shorter = all_files.drop_last();
        let last = all_files.last();
        lemma_selection_has_no_duplicates(base, shorter, ignored, windows);
        if shorter.filter(keep).contains(last) {
            shorter.lemma_filter_contains_rev(keep, last);
            let j = choose|j: int| 0 <= j < shorter.len() && shorter[j] == last;
            assert(all_files[j] == all_files[all_files.len() - 1]);
        }
    }
}

/// Version-control metadata is never selected, whether or not the ignore check
/// reported it.
pub proof fn lemma_metadata_is_never_selected(
    base: Seq<char>,
    all_files: Seq<Seq<char>>,
    ignored: Set<Seq<char>>,
    path: Seq<char>,
    windows: bool,
)
    requires
        excluded_specially(base, path, windows),
    ensures
        !valid_files(base, all_files, ignored, windows).contains(path),
{
    lemma_valid_files_members(base, all_files, ignored, windows);
}

/// A file list of which every path is selected is selected whole, in its
/// order.
pub proof fn lemma_selected_files_are_kept(
    base: Seq<char>,
    all_files: Seq<Seq<char>>,
    ignored: Set<Seq<char>>,
    windows: bool,
)
    requires
        forall|i: int|
            0 <= i < all_files.len() ==> is_selected(
                base,
                ignored,
                #[trigger] all_files[i],
                windows,
            ),
    ensures
        valid_files(base, all_files, ignored, windows) == all_files,
    decreases all_files.len(),
{
    reveal(Seq::filter);
    if all_files.len() > 0 {
        let shorter = all_files.drop_last();
        assert forall|i: int| 0 <= i < shorter.len() implies is_selected(
            base,
            ignored,
            #[trigger] shorter[i],
            windows,
        ) by {
            assert(shorter[i] == all_files[i]);
        }
        lemma_selected_files_are_kept(base, shorter, ignored, windows);
        assert(is_selected(base, ignored, all_files[all_files.len() - 1], windows));
        assert(shorter.push(all_files.last()) =~= all_files);
    }
}

/// Where the ignore checks report no path of the file list, and the list holds
/// no version-control metadata, the selection is the whole list. This covers
/// checks that report nothing at all.
pub proof fn lemma_nothing_ignored_keeps_all(
    base: Seq<char>,
    all_files: Seq<Seq<char>>,
    results: Seq<Seq<Seq<char>>>,
    windows: bool,
)
    requires
        forall|k: int, j: int|
            0 <= k < results.len() && 0 <= j < results[k].len() ==> !all_files.contains(
                #[trigger] results[k][j],
            ),
        forall|i: int|
            0 <= i < all_files.len() ==> !excluded_specially(
                base,
                #[trigger] all_files[i],
                windows,
            ),
    ensures
        valid_files(base, all_files, ignored_union(results), windows) == all_files,
{
    let ignored = ignored_union(results);
    assert forall|i: int| 0 <= i < all_files.len() implies is_selected(
        base,
        ignored,
        #[trigger] all_files[i],
        windows,
    ) by {
        if ignored.contains(all_files[i]) {
            let k = choose|k: int|
                0 <= k < results.len() && (#[trigger] results[k]).contains(all_files[i]);
            let j = choose|j: int| 0 <= j < results[k].len() && results[k][j] == all_files[i];
            assert(all_files.contains(results[k][j]));
        }
    }
    lemma_selected_files_are_kept(base, all_files, ignored, windows);
}

/// The selection does not depend on the order in which the batches' answers
/// arrive: two sequences of answers that hold the same answers, each as often
/// as the other, give the same union and the same selection.
pub proof fn lemma_selection_ignores_arrival_order(
    base: Seq<char>,
    all_files: Seq<Seq<char>>,
    first: Seq<Seq<Seq<char>>>,
    second: Seq<Seq<Seq<char>>>,
    windows: bool,
)
    requires
        first.to_multiset() == second.to_multiset(),
    ensures
        ignored_union(first) == ignored_union(second),
        valid_files(base, all_files, ignored_union(first), windows) == valid_files(
            base,
            all_files,
            ignored_union(second),
            windows,
        ),
{
    first.to_multiset_ensures();
    second.to_multiset_ensures();
    assert forall|path: Seq<char>|
        ignored_union(first).contains(path) <==> ignored_union(second).contains(path) by {
        if ignored_union(first).contains(path) {
            let k = choose|k: int| 0 <= k < first.len() && (#[trigger] first[k]).contains(path);
            assert(first.contains(first[k]));
            assert(first.to_multiset().count(first[k]) > 0);
            assert(second.to_multiset().count(first[k]) > 0);
            let m = choose|m: int| 0 <= m < second.len() && second[m] == first[k];
            assert(second[m].contains(path));
        }
        if ignored_union(second).contains(path) {
            let k = choose|k: int| 0 <= k < second.len() && (#[trigger] second[k]).contains(path);
            assert(second.contains(second[k]));
            assert(second.to_multiset().count(second[k]) > 0);
            assert(first.to_multiset().count(second[k]) > 0);
            let m = choose|m: int| 0 <= m < first.len() && first[m] == second[k];
            assert(first[m].contains(path));
        }
    }
    assert(ignored_union(first) =~= ignored_union(second));
}

} // verus!
