use blob_gen::{get_blob, get_lorem, get_rng_blob, get_string, FillError};

#[test]
fn lorem_test() {
    let test_val = get_lorem(1024, true);
    let test_val_len = test_val.as_bytes().len();
    assert_eq!(test_val_len, 1024);
}

#[test]
fn non_lorem_test() {
    let template = "test";
    let test_val = get_string(1024, template, false).unwrap();
    assert_eq!(test_val.as_bytes().len(), 1024);
    assert!(test_val.contains(template));
    let empty_test = test_val.replace(template, "");
    assert_eq!(empty_test.len(), 0);
}

#[test]
fn blob_test() {
    let template = &[1, 2, 3];
    let test_val = get_blob(1024, template).unwrap();
    assert!(test_val.len() >= 1024);
    let bytes = get_blob(6, template).unwrap();
    assert_eq!(bytes, &[1, 2, 3, 1, 2, 3]);
}

#[test]
fn rng_blob_test() {
    let test_val = get_rng_blob(1024);
    assert_eq!(test_val.len(), 1024);
}

#[test]
fn blob_has_exact_length() {
    for n in [0usize, 1, 2, 3, 4, 5, 100, 1000] {
        assert_eq!(get_blob(n, &[9, 8]).unwrap().len(), n);
        assert_eq!(get_string(n, "abc", true).unwrap().len(), n);
        assert_eq!(get_string(n, "abc", false).unwrap().len(), n);
    }
}

#[test]
fn blob_cuts_the_last_repetition() {
    assert_eq!(get_blob(7, &[1, 2, 3]).unwrap(), vec![1, 2, 3, 1, 2, 3, 1]);
    assert_eq!(get_blob(2, &[1, 2, 3]).unwrap(), vec![1, 2]);
    assert_eq!(get_blob(4, &[5]).unwrap(), vec![5, 5, 5, 5]);
}

#[test]
fn blob_is_prefix_of_repeated_template() {
    let t = [4u8, 7, 1, 9];
    let out = get_blob(10, &t).unwrap();
    assert_eq!(&out[..4], &t);
    for (i, b) in out.iter().enumerate() {
        assert_eq!(*b, t[i % t.len()]);
    }
}

#[test]
fn empty_requests_give_empty_results() {
    assert_eq!(get_blob(0, &[1, 2, 3]).unwrap(), Vec::<u8>::new());
    assert_eq!(get_string(0, "abc", true).unwrap(), "");
    assert_eq!(get_string(0, "abc", false).unwrap(), "");
    assert_eq!(get_lorem(0, false), "");
    assert_eq!(get_rng_blob(0), Vec::<u8>::new());
}

#[test]
fn empty_template_is_refused() {
    assert_eq!(get_blob(10, &[]), Err(FillError::InvalidTemplate));
    assert_eq!(get_blob(0, &[]), Err(FillError::InvalidTemplate));
    assert_eq!(get_string(10, "", false), Err(FillError::InvalidTemplate));
    assert_eq!(get_string(10, "", true), Err(FillError::InvalidTemplate));
}

#[test]
fn numbered_text_starts_with_zero() {
    let s = get_string(1024, "test", true).unwrap();
    assert!(s.starts_with("0. test"));
    assert!(get_lorem(100, true).starts_with("0. Lorem ipsum"));
}

#[test]
fn numbered_text_exact() {
    assert_eq!(get_string(20, "ab", true).unwrap(), "0. ab1. ab2. ab3. ab");
    assert_eq!(get_string(22, "ab", true).unwrap(), "0. ab1. ab2. ab3. ab4.");
    let s = get_string(60, "x", true).unwrap();
    assert_eq!(&s[36..], "9. x10. x11. x12. x13. x");
}

#[test]
fn plain_text_exact() {
    assert_eq!(get_string(7, "abc", false).unwrap(), "abcabca");
    assert_eq!(get_lorem(11, false), "Lorem ipsum");
}

#[test]
fn plain_text_matches_blob_of_its_bytes() {
    let s = get_string(50, "hello", false).unwrap();
    assert_eq!(s.as_bytes(), get_blob(50, "hello".as_bytes()).unwrap().as_slice());
}

#[test]
fn multibyte_template_cut_between_characters() {
    assert_eq!(get_string(4, "é", false).unwrap(), "éé");
    assert_eq!(get_string(6, "aé", false).unwrap(), "aéaé");
}
