use lcs::{DiffComponent, LcsTable, Substring};

fn chars(s: &str) -> Vec<char> {
    s.chars().collect()
}

fn inputs() -> Vec<(Vec<char>, Vec<char>)> {
    vec![
        (chars("gac"), chars("agcat")),
        (chars("axb"), chars("abc")),
        (chars("XXXaXXXbXXXc"), chars("YYaYYbYYc")),
        (chars("aaaa"), chars("aa")),
        (chars("abcabba"), chars("cbabac")),
        (chars(""), chars("xyz")),
        (chars("xyz"), chars("")),
        (chars(""), chars("")),
    ]
}

fn a_side<'a>(diff: &[DiffComponent<&'a char>]) -> String {
    diff.iter()
        .filter_map(|c| match c {
            DiffComponent::Insertion(_) => None,
            DiffComponent::Unchanged(x, _) => Some(**x),
            DiffComponent::Deletion(x) => Some(**x),
        })
        .collect()
}

fn b_side<'a>(diff: &[DiffComponent<&'a char>]) -> String {
    diff.iter()
        .filter_map(|c| match c {
            DiffComponent::Insertion(y) => Some(**y),
            DiffComponent::Unchanged(_, y) => Some(**y),
            DiffComponent::Deletion(_) => None,
        })
        .collect()
}

#[test]
fn length_equals_best_subsequence_length() {
    for (a, b) in inputs() {
        let table = LcsTable::new(&a, &b);
        assert_eq!(table.length(), table.longest_common_subsequence().len());
    }
}

#[test]
fn all_subsequences_are_tied_and_hold_the_best() {
    for (a, b) in inputs() {
        let table = LcsTable::new(&a, &b);
        let all = table.longest_common_subsequences();
        for s in all.iter() {
            assert_eq!(s.len(), table.length());
        }
        let best = table.longest_common_subsequence();
        assert!(all.iter().any(|s| s.len() == best.len()
            && s.iter().zip(best.iter()).all(|(x, y)| std::ptr::eq(x.0, y.0) && std::ptr::eq(x.1, y.1))));
    }
}

#[test]
fn diff_rebuilds_both_inputs() {
    for (a, b) in inputs() {
        let table = LcsTable::new(&a, &b);
        let diff = table.diff();
        assert_eq!(a_side(&diff), a.iter().collect::<String>());
        assert_eq!(b_side(&diff), b.iter().collect::<String>());
        let kept: Vec<(&char, &char)> = diff
            .iter()
            .filter_map(|c| match c {
                DiffComponent::Unchanged(x, y) => Some((*x, *y)),
                _ => None,
            })
            .collect();
        assert_eq!(kept, table.longest_common_subsequence());
    }
}

#[test]
fn queries_repeat_exactly() {
    for (a, b) in inputs() {
        let table = LcsTable::new(&a, &b);
        assert_eq!(table.length(), table.length());
        assert_eq!(table.longest_common_subsequence(), table.longest_common_subsequence());
        assert_eq!(table.diff(), table.diff());
        assert_eq!(table.longest_common_subsequences(), table.longest_common_subsequences());
    }
}

#[test]
fn empty_second_input_deletes_everything() {
    let a = chars("xyz");
    let b: Vec<char> = vec![];
    let table = LcsTable::new(&a, &b);
    assert_eq!(table.length(), 0);
    assert_eq!(table.longest_common_subsequence().len(), 0);
    let all = table.longest_common_subsequences();
    assert_eq!(all.len(), 1);
    assert!(all[0].is_empty());
    assert_eq!(
        table.diff(),
        vec![
            DiffComponent::Deletion(&'x'),
            DiffComponent::Deletion(&'y'),
            DiffComponent::Deletion(&'z')
        ]
    );
}

#[test]
fn gac_agcat_value_projections() {
    let a = chars("gac");
    let b = chars("agcat");
    let table = LcsTable::new(&a, &b);
    assert_eq!(table.length(), 2);
    let mut values: Vec<String> = table
        .longest_common_subsequences()
        .iter()
        .map(|s| s.iter().map(|p| *p.0).collect::<String>())
        .collect();
    values.sort();
    assert_eq!(values, vec!["ac".to_string(), "ga".to_string(), "gc".to_string()]);
}

#[test]
fn repeated_values_count_as_distinct_subsequences() {
    let a = chars("xaay");
    let b = chars("ab");
    let table = LcsTable::new(&a, &b);
    let all = table.longest_common_subsequences();
    assert_eq!(all.len(), 2);
    assert!(all.iter().all(|s| s.len() == 1 && *s[0].0 == 'a'));
    assert!(all.iter().any(|s| std::ptr::eq(s[0].0, &a[1])));
    assert!(all.iter().any(|s| std::ptr::eq(s[0].0, &a[2])));
}

#[test]
fn equal_last_elements_are_always_paired() {
    let a = chars("aaaa");
    let b = chars("aa");
    let table = LcsTable::new(&a, &b);
    let all = table.longest_common_subsequences();
    assert_eq!(all.len(), 1);
    assert!(std::ptr::eq(all[0][0].0, &a[2]));
    assert!(std::ptr::eq(all[0][1].0, &a[3]));
    assert_eq!(table.length(), 2);
}

#[test]
fn tie_drops_element_of_a_in_best_and_diff() {
    let a = chars("ab");
    let b = chars("ba");
    let table = LcsTable::new(&a, &b);
    let best = table.longest_common_subsequence();
    assert_eq!(best.len(), 1);
    assert!(std::ptr::eq(best[0].0, &a[0]));
    assert!(std::ptr::eq(best[0].1, &b[1]));
    assert_eq!(
        table.diff(),
        vec![
            DiffComponent::Insertion(&'b'),
            DiffComponent::Unchanged(&'a', &'a'),
            DiffComponent::Deletion(&'b')
        ]
    );
}

#[test]
fn integer_elements() {
    let a = vec![1, 2, 3, 4, 1];
    let b = vec![3, 4, 1, 2, 1, 3];
    let table = LcsTable::new(&a, &b);
    assert_eq!(table.length(), 3);
    let best = table.longest_common_subsequence();
    assert_eq!(best.len(), 3);
    let values: Vec<i32> = best.iter().map(|p| *p.0).collect();
    assert_eq!(values, vec![1, 2, 3]);
}

#[test]
fn substring_scenario() {
    let a = chars("0123456");
    let b = chars("456789");
    let substr = Substring::new(&a, &b);
    assert_eq!(substr.to_string(), "456");
    assert_eq!(substr.sub_a(), 4..7);
    assert_eq!(substr.sub_b(), 0..3);
    assert_eq!(substr.len(), 3);
}
