use zip_source::batches::{partition, BATCH_CAPACITY};

fn files(n: usize) -> Vec<String> {
    (0..n).map(|i| format!("/repo/file{}.rs", i)).collect()
}

#[test]
fn no_files_give_no_batch() {
    assert_eq!(partition(&files(0), 50), Vec::<Vec<String>>::new());
}

#[test]
fn batches_follow_the_list() {
    let all = files(5);
    assert_eq!(
        partition(&all, 2),
        vec![
            vec![all[0].clone(), all[1].clone()],
            vec![all[2].clone(), all[3].clone()],
            vec![all[4].clone()],
        ]
    );
}

#[test]
fn a_full_last_batch_is_not_followed_by_an_empty_one() {
    let all = files(100);
    let batches = partition(&all, BATCH_CAPACITY);
    assert_eq!(batches.len(), 2);
    assert_eq!(batches[0].len(), 50);
    assert_eq!(batches[1].len(), 50);
}

#[test]
fn batch_sizes_for_the_default_capacity() {
    for (n, sizes) in [
        (1usize, vec![1usize]),
        (49, vec![49]),
        (50, vec![50]),
        (51, vec![50, 1]),
        (120, vec![50, 50, 20]),
    ] {
        let batches = partition(&files(n), BATCH_CAPACITY);
        let got: Vec<usize> = batches.iter().map(|b| b.len()).collect();
        assert_eq!(got, sizes, "{} files", n);
    }
}

#[test]
fn batches_part_the_list() {
    for capacity in [1usize, 3, 7, 50, 1000] {
        let all = files(123);
        let batches = partition(&all, capacity);
        let joined: Vec<String> = batches.iter().flatten().cloned().collect();
        assert_eq!(joined, all);
        for (k1, first) in batches.iter().enumerate() {
            assert!(!first.is_empty() && first.len() <= capacity);
            for (k2, second) in batches.iter().enumerate() {
                if k1 != k2 {
                    assert!(first.iter().all(|path| !second.contains(path)));
                }
            }
        }
    }
}
