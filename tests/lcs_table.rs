use lcs::DiffComponent::{Deletion, Insertion, Unchanged};
use lcs::LcsTable;

#[test]
fn test_lcs_table() {
    // Worked example of the longest common subsequence problem.
    let a: Vec<_> = "gac".chars().collect();
    let b: Vec<_> = "agcat".chars().collect();

    let table = LcsTable::new(&a, &b);
    let actual_lengths = table.lengths().clone();
    let expected_lengths = vec![
        vec![0, 0, 0, 0, 0, 0],
        vec![0, 0, 1, 1, 1, 1],
        vec![0, 1, 1, 1, 2, 2],
        vec![0, 1, 1, 2, 2, 2],
    ];

    assert_eq!(expected_lengths, actual_lengths);
}

#[test]
fn test_lcs_lcs() {
    let a: Vec<_> = "XXXaXXXbXXXc".chars().collect();
    let b: Vec<_> = "YYaYYbYYc".chars().collect();

    let table = LcsTable::new(&a, &b);
    let lcs = table.longest_common_subsequence();
    assert_eq!(vec![(&'a', &'a'), (&'b', &'b'), (&'c', &'c')], lcs);
    assert_eq!(3, table.length());
}

#[test]
fn test_longest_common_subsequences() {
    let a: Vec<_> = "gac".chars().collect();
    let b: Vec<_> = "agcat".chars().collect();

    let table = LcsTable::new(&a, &b);
    let subsequences = table.longest_common_subsequences();
    assert_eq!(3, subsequences.len());
    assert!(subsequences.contains(&vec![(&'a', &'a'), (&'c', &'c')]));
    assert!(subsequences.contains(&vec![(&'g', &'g'), (&'a', &'a')]));
    assert!(subsequences.contains(&vec![(&'g', &'g'), (&'c', &'c')]));
    assert_eq!(2, table.length());
}

#[test]
fn test_diff() {
    let a: Vec<_> = "axb".chars().collect();
    let b: Vec<_> = "abc".chars().collect();

    let table = LcsTable::new(&a, &b);
    let diff = table.diff();
    assert_eq!(
        diff,
        vec![
            Unchanged(&'a', &'a'),
            Deletion(&'x'),
            Unchanged(&'b', &'b'),
            Insertion(&'c')
        ]
    );
}

#[test]
fn test_empty_one() {
    let a: Vec<_> = "".chars().collect();
    let b: Vec<_> = "abc".chars().collect();
    let table = LcsTable::new(&a, &b);

    let seq = table.longest_common_subsequence();
    let seq_all = table.longest_common_subsequences();
    let diff = table.diff();
    assert_eq!(seq.len(), 0);
    assert_eq!(seq_all.len(), 1);
    assert!(seq_all.contains(&vec![]));
    assert_eq!(diff, vec![Insertion(&'a'), Insertion(&'b'), Insertion(&'c')]);
}

#[test]
fn test_empty_both() {
    let a: Vec<_> = "".chars().collect();
    let b: Vec<_> = "".chars().collect();
    let table = LcsTable::new(&a, &b);

    let seq = table.longest_common_subsequence();
    let seq_all = table.longest_common_subsequences();
    let diff = table.diff();
    assert_eq!(seq.len(), 0);
    assert_eq!(seq_all.len(), 1);
    assert!(seq_all.contains(&vec![]));
    assert_eq!(diff.len(), 0);
}
