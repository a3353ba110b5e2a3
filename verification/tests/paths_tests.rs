use kvs::paths::{gen_of_name, new_log_path, sorted_gen_list};

#[test]
fn log_names_are_decimal_with_extension() {
    assert_eq!(new_log_path(0), "0.log");
    assert_eq!(new_log_path(42), "42.log");
    assert_eq!(new_log_path(u64::MAX), format!("{}.log", u64::MAX));
}

#[test]
fn gen_of_name_inverts_new_log_path() {
    for g in [0u64, 1, 9, 10, 12345, u64::MAX] {
        assert_eq!(gen_of_name(&new_log_path(g)), Some(g));
    }
}

#[test]
fn non_segment_names_are_ignored() {
    assert_eq!(gen_of_name(&"x.log".to_string()), None);
    assert_eq!(gen_of_name(&"42.txt".to_string()), None);
    assert_eq!(gen_of_name(&"42log".to_string()), None);
    assert_eq!(gen_of_name(&".log".to_string()), None);
    assert_eq!(gen_of_name(&"99999999999999999999999.log".to_string()), None);
}

#[test]
fn sorted_gen_list_sorts_and_dedups() {
    let names = vec![
        "10.log".to_string(),
        "2.log".to_string(),
        "notes.txt".to_string(),
        "3.log".to_string(),
        "2.log".to_string(),
    ];
    assert_eq!(sorted_gen_list(&names), vec![2, 3, 10]);
}

#[test]
fn sorted_gen_list_of_no_segments_is_empty() {
    let names = vec!["a".to_string(), "b.txt".to_string()];
    assert_eq!(sorted_gen_list(&names), Vec::<u64>::new());
}
