use lcs::subsequence::DiffComponent;
use lcs::subsequence::DiffComponent::{Deletion, Insertion, Unchanged};
use lcs::Subsequence;

fn vec_ptr_eq<T>(a: &Vec<&T>, b: &Vec<&T>) -> bool {
    if a.len() != b.len() {
        return false;
    }
    for i in a.iter().zip(b.iter()) {
        if !std::ptr::eq(*i.0, *i.1) {
            return false;
        }
    }
    true
}

fn vec_ptr_eq_pair<T>(a: &Vec<(&T, &T)>, b: &Vec<(&T, &T)>) -> bool {
    if a.len() != b.len() {
        return false;
    }
    for i in a.iter().zip(b.iter()) {
        if !std::ptr::eq((i.0).0, (i.1).0) {
            return false;
        }
        if !std::ptr::eq((i.0).1, (i.1).1) {
            return false;
        }
    }
    true
}

fn vec2_ptr_eq<T>(a: &Vec<Vec<&T>>, b: &Vec<Vec<&T>>) -> bool {
    if a.len() != b.len() {
        return false;
    }
    for i in a.iter() {
        let found = b.iter().find(|j| vec_ptr_eq(i, j));
        if found.is_none() {
            return false;
        }
    }
    true
}

fn vec2_ptr_eq_pair<T>(a: &Vec<Vec<(&T, &T)>>, b: &Vec<Vec<(&T, &T)>>) -> bool {
    if a.len() != b.len() {
        return false;
    }
    for i in a.iter() {
        let found = b.iter().find(|j| vec_ptr_eq_pair(i, j));
        if found.is_none() {
            return false;
        }
    }
    true
}

#[test]
fn test_subsequence_table() {
    // Worked example of the longest common subsequence problem.
    let a: Vec<_> = "gac".chars().collect();
    let b: Vec<_> = "agcat".chars().collect();

    let table = Subsequence::new(&a, &b);
    let actual_lengths = table.lengths().clone();
    let expected_lengths = vec![
        vec![0, 0, 0, 0, 0, 0],
        vec![0, 0, 1, 1, 1, 1],
        vec![0, 1, 1, 1, 2, 2],
        vec![0, 1, 1, 2, 2, 2],
    ];

    assert_eq!(expected_lengths, actual_lengths);
}

#[test]
fn test_subsequence_best() {
    let a: Vec<_> = "XXXaXXXbXXXc".chars().collect();
    let b: Vec<_> = "YYaYYbYYc".chars().collect();

    let ref_a: Vec<&char> = vec![&a[3], &a[7], &a[11]];
    let ref_b: Vec<&char> = vec![&b[2], &b[5], &b[8]];
    let ref_both = ref_a
        .iter()
        .zip(ref_b.iter())
        .map(|e| (*e.0, *e.1))
        .collect::<Vec<(&char, &char)>>();

    let table = Subsequence::new(&a, &b);
    assert!(vec_ptr_eq(&ref_a, &table.as_ref_a()));
    assert!(vec_ptr_eq(&ref_b, &table.as_ref_b()));
    assert!(vec_ptr_eq_pair(&ref_both, &table.as_ref_both()));
}

#[test]
fn test_subsequence_all() {
    let a: Vec<_> = "gac".chars().collect();
    let b: Vec<_> = "agcat".chars().collect();
    let ref_a: Vec<Vec<&char>> = vec![vec![&a[1], &a[2]], vec![&a[0], &a[2]], vec![&a[0], &a[1]]];
    let ref_b: Vec<Vec<&char>> = vec![vec![&b[0], &b[2]], vec![&b[1], &b[2]], vec![&b[1], &b[3]]];
    let ref_both = ref_a
        .iter()
        .zip(ref_b.iter())
        .map(|v| {
            v.0.iter()
                .zip(v.1.iter())
                .map(|e| (*e.0, *e.1))
                .collect::<Vec<(&char, &char)>>()
        })
        .collect::<Vec<Vec<(&char, &char)>>>();

    let table = Subsequence::new(&a, &b);
    assert!(vec2_ptr_eq(&ref_a, &table.all_as_ref_a()));
    assert!(vec2_ptr_eq(&ref_b, &table.all_as_ref_b()));
    assert!(vec2_ptr_eq_pair(&ref_both, &table.all_as_ref_both()));
}

#[test]
fn test_subsequence_diff() {
    let a: Vec<_> = "axb".chars().collect();
    let b: Vec<_> = "abc".chars().collect();

    let table = Subsequence::new(&a, &b);
    let diff = table.diff();
    assert_eq!(
        diff,
        vec![
            Unchanged(&'a', &'a'),
            Deletion(&'x'),
            Unchanged(&'b', &'b'),
            Insertion(&'c')
        ]
    );
}

#[test]
fn subsequence_repeated_values_are_distinct_results() {
    let a: Vec<_> = "xaay".chars().collect();
    let b: Vec<_> = "ab".chars().collect();
    let table = Subsequence::new(&a, &b);
    let all = table.all_as_ref_a();
    assert_eq!(all.len(), 2);
    assert!(vec2_ptr_eq(&vec![vec![&a[1]], vec![&a[2]]], &all));
    assert_eq!(table.len(), 1);
}

#[test]
fn subsequence_tie_drops_element_of_a() {
    let a: Vec<_> = "ab".chars().collect();
    let b: Vec<_> = "ba".chars().collect();
    let table = Subsequence::new(&a, &b);
    assert!(vec_ptr_eq_pair(&vec![(&a[0], &b[1])], &table.as_ref_both()));
    assert_eq!(
        table.diff(),
        vec![
            DiffComponent::Insertion(&'b'),
            DiffComponent::Unchanged(&'a', &'a'),
            DiffComponent::Deletion(&'b')
        ]
    );
}
