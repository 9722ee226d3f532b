//! Cutting the list of files into batches of bounded size.

use vstd::prelude::*;

verus! {

/// Number of paths handed to one ignore check by default.
pub const BATCH_CAPACITY: usize = 50;

/// `items` cut into consecutive batches of `capacity` items; only the last
/// batch may hold fewer. No batch is empty, so an empty list gives no batch.
pub open spec fn chunks<T>(items: Seq<T>, capacity: nat) -> Seq<Seq<T>>
    decreases items.len(),
{
    if items.len() == 0 || capacity == 0 {
        Seq::empty()
    } else if items.len() <= capacity {
        seq![items]
    } else {
        seq![items.take(capacity as int)] + chunks(items.skip(capacity as int), capacity)
    }
}

/// No item occurs in both `a` and `b`.
pub open spec fn disjoint<T>(a: Seq<T>, b: Seq<T>) -> bool {
    forall|x: T| !(a.contains(x) && b.contains(x))
}

/// A copy of `files[start..end]`.
fn copy_range(files: &Vec<String>, start: usize, end: usize) -> (batch: Vec<String>)
    requires
        start <= end <= files.len(),
    ensures
        batch.deep_view() == files.deep_view().subrange(start as int, end as int),
{
    let mut batch: Vec<String> = Vec::new();
    let mut i: usize = start;
    while i < end
        invariant
            start <= i <= end <= files.len(),
            batch.len() == i - start,
            forall|k: int| 0 <= k < batch.len() ==> batch[k]@ == files[start + k]@,
        decreases end - i,
    {
        batch.push(files[i].clone());
        i = i + 1;
    }
    assert(batch.deep_view() =~= files.deep_view().subrange(start as int, end as int));
    batch
}

/// Cuts `files` into batches of at most `capacity` paths.
///
/// The batches follow the order of `files`: the first holds the first
/// `capacity` paths, the second the next ones, and so on; every batch but the
/// last is full.
pub fn partition(files: &Vec<String>, capacity: usize) -> (batches: Vec<Vec<String>>)
    requires
        capacity > 0,
    ensures
        batches.deep_view() == chunks(files.deep_view(), capacity as nat),
        batches.deep_view().flatten() == files.deep_view(),
        batches.len() == 0 <==> files.len() == 0,
        forall|k: int|
            0 <= k < batches.len() ==> 1 <= (#[trigger] batches.deep_view()[k]).len() <= capacity,
        files.deep_view().no_duplicates() ==> forall|k1: int, k2: int|
            0 <= k1 < batches.len() && 0 <= k2 < batches.len() && k1 != k2 ==> disjoint(
                #[trigger] batches.deep_view()[k1],
                #[trigger] batches.deep_view()[k2],
            ),
{
    let ghost all = files.deep_view();
    let mut batches: Vec<Vec<String>> = Vec::new();
    let mut start: usize = 0;
    assert(batches.deep_view() =~= Seq::<Seq<Seq<char>>>::empty());
    assert(all.skip(0) =~= all);
    while start < files.len()
        invariant
            capacity > 0,
            start <= files.len(),
            all == files.deep_view(),
            chunks(all, capacity as nat) == batches.deep_view() + chunks(
                all.skip(start as int),
                capacity as nat,
            ),
        decreases files.len() - start,
    {
        let end: usize = if files.len() - start <= capacity {
            files.len()
        } else {
            start + capacity
        };
        let batch = copy_range(files, start, end);
        proof {
            let rest = all.skip(start as int);
            let done = batches.deep_view();
            if rest.len() <= capacity {
                assert(rest =~= all.subrange(start as int, end as int));
                assert(all.skip(end as int).len() == 0);
                assert(done + seq![rest] =~= done.push(rest) + Seq::<Seq<Seq<char>>>::empty());
            } else {
                assert(rest.take(capacity as int) =~= all.subrange(start as int, end as int));
                assert(rest.skip(capacity as int) =~= all.skip(end as int));
                let first = rest.take(capacity as int);
                let tail = chunks(all.skip(end as int), capacity as nat);
                assert(done + (seq![first] + tail) =~= done.push(first) + tail);
            }
        }
        let ghost before = batches.deep_view();
        batches.push(batch);
        assert(batches.deep_view() =~= before.push(batch.deep_view()));
        start = end;
    }
    proof {
        assert(batches.deep_view() + Seq::<Seq<Seq<char>>>::empty() =~= batches.deep_view());
        lemma_chunks_flatten_to_list(all, capacity as nat);
        assert forall|k: int| 0 <= k < batches.len() implies 1 <= (
        #[trigger] batches.deep_view()[k]).len() <= capacity by {
            lemma_chunk_sizes(all, capacity as nat, k);
        }
        if all.no_duplicates() {
            lemma_chunks_part_the_list(all, capacity as nat);
        }
    }
    batches
}

/// Every item of a batch is an item of the list that was cut.
pub proof fn lemma_chunk_items_come_from_list<T>(items: Seq<T>, capacity: nat, k: int, x: T)
    requires
        0 <= k < chunks(items, capacity).len(),
        chunks(items, capacity)[k].contains(x),
    ensures
        items.contains(x),
    decreases items.len(),
{
    if items.len() <= capacity {
    } else if k == 0 {
        let first = items.take(capacity as int);
        let j = choose|j: int| 0 <= j < first.len() && first[j] == x;
        assert(items[j] == x);
    } else {
        let rest = items.skip(capacity as int);
        assert(chunks(items, capacity)[k] == chunks(rest, capacity)[k - 1]);
        lemma_chunk_items_come_from_list(rest, capacity, k - 1, x);
        let j = choose|j: int| 0 <= j < rest.len() && rest[j] == x;
        assert(items[j + capacity] == x);
    }
}

/// Every item of the list is in one of the batches.
pub proof fn lemma_list_items_reach_a_chunk<T>(items: Seq<T>, capacity: nat, x: T)
    requires
        capacity > 0,
        items.contains(x),
    ensures
        exists|k: int|
            0 <= k < chunks(items, capacity).len() && (#[trigger] chunks(
                items,
                capacity,
            )[k]).contains(x),
    decreases items.len(),
{
    let parts = chunks(items, capacity);
    let i = choose|i: int| 0 <= i < items.len() && items[i] == x;
    if items.len() <= capacity {
        assert(parts[0].contains(x));
    } else if i < capacity {
        assert(items.take(capacity as int)[i] == x);
        assert(parts[0].contains(x));
    } else {
        let rest = items.skip(capacity as int);
        assert(rest[i - capacity] == x);
        lemma_list_items_reach_a_chunk(rest, capacity, x);
        let tail = chunks(rest, capacity);
        let k = choose|k: int| 0 <= k < tail.len() && (#[trigger] tail[k]).contains(x);
        assert(parts[k + 1] == tail[k]);
        assert(parts[k + 1].contains(x));
    }
}

/// The batches, put one after the other, are the list that was cut: nothing is
/// dropped, nothing added, nothing moved.
pub proof fn lemma_chunks_flatten_to_list<T>(items: Seq<T>, capacity: nat)
    requires
        capacity > 0,
    ensures
        chunks(items, capacity).flatten() == items,
    decreases items.len(),
{
    let parts = chunks(items, capacity);
    if items.len() == 0 {
        assert(parts.flatten() =~= items);
    } else if items.len() <= capacity {
        parts.lemma_flatten_one_element();
    } else {
        let rest = items.skip(capacity as int);
        lemma_chunks_flatten_to_list(rest, capacity);
        assert(parts.drop_first() =~= chunks(rest, capacity));
        assert(parts.first() == items.take(capacity as int));
        assert(parts.flatten() =~= items);
    }
}

/// No batch is empty or holds more than `capacity` items, and every batch but
/// the last is full.
pub proof fn lemma_chunk_sizes<T>(items: Seq<T>, capacity: nat, k: int)
    requires
        capacity > 0,
        0 <= k < chunks(items, capacity).len(),
    ensures
        1 <= chunks(items, capacity)[k].len() <= capacity,
        k + 1 < chunks(items, capacity).len() ==> chunks(items, capacity)[k].len() == capacity,
    decreases items.len(),
{
    if items.len() > capacity {
        let rest = items.skip(capacity as int);
        if k > 0 {
            assert(chunks(items, capacity)[k] == chunks(rest, capacity)[k - 1]);
            lemma_chunk_sizes(rest, capacity, k - 1);
        }
    }
}

/// There are as many batches as it takes to hold every item: one batch fewer
/// would be too few.
pub proof fn lemma_chunk_count<T>(items: Seq<T>, capacity: nat)
    requires
        capacity > 0,
    ensures
        items.len() == 0 <==> chunks(items, capacity).len() == 0,
        items.len() <= chunks(items, capacity).len() * capacity,
        items.len() > 0 ==> (chunks(items, capacity).len() - 1) * capacity < items.len(),
    decreases items.len(),
{
    let count = chunks(items, capacity).len() as int;
    let width = capacity as int;
    if items.len() == 0 {
    } else if items.len() <= capacity {
        assert(count == 1);
        assert(1 * width == width && 0 * width == 0);
    } else {
        let rest = items.skip(capacity as int);
        lemma_chunk_count(rest, capacity);
        let fewer = chunks(rest, capacity).len() as int;
        assert(count == fewer + 1);
        assert((fewer + 1) * width == fewer * width + width) by (nonlinear_arith);
        assert((fewer - 1) * width + width == fewer * width) by (nonlinear_arith);
    }
}

/// Of a list in which nothing occurs twice, two different batches share no
/// item.
pub proof fn lemma_chunks_are_disjoint<T>(items: Seq<T>, capacity: nat, k1: int, k2: int)
    requires
        capacity > 0,
        items.no_duplicates(),
        0 <= k1 < k2 < chunks(items, capacity).len(),
    ensures
        disjoint(chunks(items, capacity)[k1], chunks(items, capacity)[k2]),
    decreases items.len(),
{
    let parts = chunks(items, capacity);
    let rest = items.skip(capacity as int);
    assert(items.len() > capacity);
    assert(parts[k2] == chunks(rest, capacity)[k2 - 1]);
    if k1 == 0 {
        let first = items.take(capacity as int);
        assert forall|x: T| !(parts[k1].contains(x) && parts[k2].contains(x)) by {
            if parts[k1].contains(x) && parts[k2].contains(x) {
                lemma_chunk_items_come_from_list(rest, capacity, k2 - 1, x);
                let a = choose|a: int| 0 <= a < first.len() && first[a] == x;
                let b = choose|b: int| 0 <= b < rest.len() && rest[b] == x;
                assert(items[a] == x);
                assert(items[b + capacity] == x);
            }
        }
    } else {
        assert(parts[k1] == chunks(rest, capacity)[k1 - 1]);
        assert(rest.no_duplicates()) by {
            assert forall|i: int, j: int|
                0 <= i < rest.len() && 0 <= j < rest.len() && i != j implies rest[i] != rest[j] by {
                assert(rest[i] == items[i + capacity]);
                assert(rest[j] == items[j + capacity]);
            }
        }
        lemma_chunks_are_disjoint(rest, capacity, k1 - 1, k2 - 1);
    }
}

/// The batches of a list in which nothing occurs twice part it: they are
/// pairwise disjoint and together hold exactly the items of the list.
pub proof fn lemma_chunks_part_the_list<T>(items: Seq<T>, capacity: nat)
    requires
        capacity > 0,
        items.no_duplicates(),
    ensures
        forall|k1: int, k2: int|
            0 <= k1 < chunks(items, capacity).len() && 0 <= k2 < chunks(items, capacity).len() && k1
                != k2 ==> disjoint(
                #[trigger] chunks(items, capacity)[k1],
                #[trigger] chunks(items, capacity)[k2],
            ),
        forall|x: T|
            items.contains(x) <==> exists|k: int|
                0 <= k < chunks(items, capacity).len() && (#[trigger] chunks(
                    items,
                    capacity,
                )[k]).contains(x),
        chunks(items, capacity).flatten() == items,
{
    let parts = chunks(items, capacity);
    assert forall|k1: int, k2: int|
        0 <= k1 < parts.len() && 0 <= k2 < parts.len() && k1 != k2 implies disjoint(
        #[trigger] parts[k1],
        #[trigger] parts[k2],
    ) by {
        if k1 < k2 {
            lemma_chunks_are_disjoint(items, capacity, k1, k2);
        } else {
            lemma_chunks_are_disjoint(items, capacity, k2, k1);
        }
    }
    assert forall|x: T|
        items.contains(x) <==> exists|k: int|
            0 <= k < parts.len() && (#[trigger] parts[k]).contains(x) by {
        if items.contains(x) {
            lemma_list_items_reach_a_chunk(items, capacity, x);
        }
        if exists|k: int| 0 <= k < parts.len() && (#[trigger] parts[k]).contains(x) {
            let k = choose|k: int| 0 <= k < parts.len() && (#[trigger] parts[k]).contains(x);
            lemma_chunk_items_come_from_list(items, capacity, k, x);
        }
    }
    lemma_chunks_flatten_to_list(items, capacity);
}

} // verus!
