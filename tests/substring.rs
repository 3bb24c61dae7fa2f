use lcs::Substring;

fn ref_slice_eq<T>(a: &[T], b: &[T]) {
    assert_eq!(a.len(), b.len());
    for i in a.iter().zip(b.iter()) {
        assert!(std::ptr::eq(i.0, i.1));
    }
}

#[test]
fn test_substring_idx() {
    let a: Vec<_> = "0123456".chars().collect();
    let b: Vec<_> = "456789".chars().collect();
    let substr = Substring::new(&a, &b);
    assert_eq!(substr.sub_a(), 4..7);
    assert_eq!(substr.sub_b(), 0..3);
}

#[test]
fn test_substring_idx_no_overlap() {
    let a: Vec<_> = "12345".chars().collect();
    let b: Vec<_> = "67890".chars().collect();
    let substr = Substring::new(&a, &b);
    assert_eq!(substr.sub_a(), 0..0);
    assert_eq!(substr.sub_b(), 0..0);
}

#[test]
fn test_substring_idx_empty() {
    let a: Vec<_> = "".chars().collect();
    let b: Vec<_> = "".chars().collect();
    let substr = Substring::new(&a, &b);
    assert_eq!(substr.sub_a(), 0..0);
    assert_eq!(substr.sub_b(), 0..0);
}

#[test]
fn test_substring_len() {
    let a: Vec<_> = "0123456".chars().collect();
    let b: Vec<_> = "456789".chars().collect();
    let substr = Substring::new(&a, &b);
    assert_eq!(substr.len(), 3);
}

#[test]
fn test_substring() {
    let a: Vec<_> = "0123456".chars().collect();
    let b: Vec<_> = "456789".chars().collect();
    let ref_a = &a[4..7];
    let ref_b = &b[0..3];

    let lcs = Substring::new(&a, &b);
    ref_slice_eq(ref_a, lcs.as_ref_a());
    ref_slice_eq(ref_b, lcs.as_ref_b());

    let ref_both = lcs.as_ref_both();
    assert_eq!(ref_a.len(), ref_both.len());
    assert_eq!(ref_b.len(), ref_both.len());
    for i in ref_both.iter().zip(ref_a.iter().zip(ref_b.iter())) {
        assert_eq!((i.0).0, (i.1).0);
        assert_eq!((i.0).1, (i.1).1);
    }
}

#[test]
fn test_substring_cloned() {
    let a: Vec<_> = "0123456".chars().collect();
    let b: Vec<_> = "456789".chars().collect();
    let lcs = Substring::new(&a, &b);
    let lcs_str = lcs.cloned().into_iter().collect::<String>();
    assert_eq!("456", lcs_str);
}

#[test]
fn test_substring_to_string() {
    let a: Vec<_> = "0123456".chars().collect();
    let b: Vec<_> = "456789".chars().collect();
    let s = "456".to_string();
    let lcs = Substring::new(&a, &b);
    assert_eq!(s, lcs.to_string());
    assert_eq!(s, String::from(&lcs));

    let is: String = (&lcs).into();
    assert_eq!(s, is);

    assert_eq!(s, String::from(lcs));
}

#[test]
fn substring_first_longest_run_wins() {
    let a = vec![1, 2, 9, 1, 2];
    let b = vec![1, 2];
    let substr = Substring::new(&a, &b);
    assert_eq!(substr.sub_a(), 0..2);
    assert_eq!(substr.sub_b(), 0..2);
    assert_eq!(substr.cloned(), vec![1, 2]);
}

#[test]
fn substring_longer_run_later_replaces_earlier() {
    let a = vec![5, 1, 2, 3];
    let b = vec![5, 0, 1, 2, 3];
    let substr = Substring::new(&a, &b);
    assert_eq!(substr.sub_a(), 1..4);
    assert_eq!(substr.sub_b(), 2..5);
    assert_eq!(substr.len(), 3);
    let pairs = substr.as_ref_both();
    assert!(std::ptr::eq(pairs[0].0, &a[1]));
    assert!(std::ptr::eq(pairs[0].1, &b[2]));
}

#[test]
fn substring_one_side_empty() {
    let a: Vec<u8> = vec![];
    let b = vec![1u8, 2];
    let substr = Substring::new(&a, &b);
    assert_eq!(substr.len(), 0);
    assert!(substr.as_ref_a().is_empty());
    assert!(substr.as_ref_b().is_empty());
}
