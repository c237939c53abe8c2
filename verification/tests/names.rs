use kvs::{create_path, segment_generation, sorted_file_idx_list};

#[test]
fn a_segment_file_is_named_by_its_generation() {
    assert_eq!(create_path(0), "0.log");
    assert_eq!(create_path(7), "7.log");
    assert_eq!(create_path(10), "10.log");
    assert_eq!(create_path(1234567890), "1234567890.log");
    assert_eq!(create_path(u64::MAX), "18446744073709551615.log");
}

#[test]
fn the_name_of_a_generation_gives_the_generation() {
    for generation in [0u64, 1, 9, 10, 99, 100, 4096, u64::MAX - 1, u64::MAX] {
        assert_eq!(segment_generation(&create_path(generation)), Some(generation));
    }
}

#[test]
fn other_names_give_no_generation() {
    for name in [
        "", ".log", "log", "7", "7.", "7.lo", "7.txt", "7.log.log", "7.LOG", "a.log", "-1.log",
        "+7.log", " 7.log", "7 .log", "07.log", "00.log", "1_0.log", "0x10.log", "7.log ",
        "٣.log", "7.logs", "18446744073709551616.log", "99999999999999999999.log",
        "184467440737095516150.log",
    ] {
        assert_eq!(segment_generation(name), None, "{:?}", name);
    }
}

#[test]
fn the_generations_of_a_directory_come_sorted() {
    let names: Vec<String> = ["10.log", "2.log", "notes.txt", "0.log", "33.log", "1.log"]
        .iter()
        .map(|s| s.to_string())
        .collect();
    assert_eq!(sorted_file_idx_list(&names), vec![0, 1, 2, 10, 33]);
}

#[test]
fn an_empty_directory_has_no_generations() {
    assert_eq!(sorted_file_idx_list(&Vec::new()), Vec::<u64>::new());
    let names: Vec<String> = vec!["readme".to_string(), "1.txt".to_string()];
    assert_eq!(sorted_file_idx_list(&names), Vec::<u64>::new());
}

#[test]
fn a_name_that_comes_twice_counts_once() {
    let names: Vec<String> = ["3.log", "1.log", "3.log"].iter().map(|s| s.to_string()).collect();
    assert_eq!(sorted_file_idx_list(&names), vec![1, 3]);
}
