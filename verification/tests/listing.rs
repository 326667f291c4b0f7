use rust_sem::ls::order::{precedes, SortKey};
use rust_sem::ls::sorting::{sort_by, sort_my_files};
use rust_sem::ls::{format_row, Entry, COLUMN_WIDTH};

fn entry(name: &str, size: u64) -> Entry {
    Entry { name: name.as_bytes().to_vec(), size, is_dir: false }
}

fn names(files: &Vec<Entry>) -> Vec<String> {
    files.iter().map(|e| String::from_utf8(e.name.clone()).unwrap()).collect()
}

fn sample() -> Vec<Entry> {
    vec![entry("a", 30), entry("b", 10), entry("c", 20)]
}

#[test]
fn size_flag_orders_by_ascending_size() {
    let mut files = sample();
    sort_my_files(true, false, &mut files);
    assert_eq!(names(&files), vec!["b", "c", "a"]);
    let sizes: Vec<u64> = files.iter().map(|e| e.size).collect();
    assert_eq!(sizes, vec![10, 20, 30]);
}

#[test]
fn name_flag_orders_by_name() {
    let mut files = vec![entry("c", 20), entry("a", 30), entry("b", 10)];
    sort_my_files(false, true, &mut files);
    assert_eq!(names(&files), vec!["a", "b", "c"]);
}

#[test]
fn both_flags_order_by_size() {
    let mut files = sample();
    sort_my_files(true, true, &mut files);
    assert_eq!(names(&files), vec!["b", "c", "a"]);
}

#[test]
fn no_flag_keeps_the_order() {
    let mut files = vec![entry("c", 20), entry("a", 30), entry("b", 10)];
    sort_my_files(false, false, &mut files);
    assert_eq!(names(&files), vec!["c", "a", "b"]);
}

#[test]
fn sort_of_nothing_and_of_one() {
    let mut none: Vec<Entry> = Vec::new();
    sort_my_files(true, false, &mut none);
    assert!(none.is_empty());
    let mut one = vec![entry("only", 7)];
    sort_my_files(false, true, &mut one);
    assert_eq!(names(&one), vec!["only"]);
}

#[test]
fn equal_sizes_keep_their_order() {
    let mut files = vec![
        entry("z", 5),
        entry("y", 1),
        entry("x", 5),
        entry("w", 1),
        entry("v", 5),
        entry("u", 0),
    ];
    sort_by(&mut files, SortKey::Size);
    assert_eq!(names(&files), vec!["u", "y", "w", "z", "x", "v"]);
}

#[test]
fn equal_names_keep_their_order() {
    let mut files = vec![entry("b", 1), entry("a", 2), entry("b", 3), entry("a", 4)];
    sort_by(&mut files, SortKey::Name);
    let sizes: Vec<u64> = files.iter().map(|e| e.size).collect();
    assert_eq!(sizes, vec![2, 4, 1, 3]);
}

#[test]
fn names_are_ordered_byte_by_byte() {
    let mut files = vec![
        entry("b", 0),
        entry("ab", 0),
        entry("", 0),
        entry("a", 0),
        entry("B", 0),
        entry("abc", 0),
        entry("aa", 0),
    ];
    sort_by(&mut files, SortKey::Name);
    assert_eq!(names(&files), vec!["", "B", "a", "aa", "ab", "abc", "b"]);
}

#[test]
fn names_that_are_no_text_are_ordered_too() {
    let mut files = vec![
        Entry { name: vec![0xff, 0x00], size: 1, is_dir: false },
        Entry { name: vec![0x80], size: 2, is_dir: true },
        Entry { name: vec![0x7f, 0xff], size: 3, is_dir: false },
    ];
    sort_by(&mut files, SortKey::Name);
    let sizes: Vec<u64> = files.iter().map(|e| e.size).collect();
    assert_eq!(sizes, vec![3, 2, 1]);
    assert!(files[1].is_dir);
}

#[test]
fn sort_agrees_with_the_standard_stable_sort() {
    let mut seed: u64 = 0x2545_f491_4f6c_dd1d;
    let mut files: Vec<Entry> = Vec::new();
    let mut expected: Vec<(u64, usize)> = Vec::new();
    for i in 0..500usize {
        seed ^= seed << 13;
        seed ^= seed >> 7;
        seed ^= seed << 17;
        let size = seed % 16;
        files.push(Entry { name: format!("{i}").into_bytes(), size, is_dir: false });
        expected.push((size, i));
    }
    expected.sort_by_key(|p| p.0);
    sort_by(&mut files, SortKey::Size);
    let got: Vec<(u64, usize)> = files
        .iter()
        .map(|e| (e.size, String::from_utf8(e.name.clone()).unwrap().parse().unwrap()))
        .collect();
    assert_eq!(got, expected);
}

#[test]
fn precedes_compares_by_the_key() {
    let small = entry("zz", 1);
    let large = entry("aa", 2);
    assert!(precedes(SortKey::Size, &small, &large));
    assert!(!precedes(SortKey::Size, &large, &small));
    assert!(precedes(SortKey::Name, &large, &small));
    assert!(!precedes(SortKey::Name, &small, &large));
    assert!(precedes(SortKey::Size, &small, &small));
    assert!(precedes(SortKey::Name, &entry("a", 0), &entry("ab", 0)));
    assert!(!precedes(SortKey::Name, &entry("ab", 0), &entry("a", 0)));
}

#[test]
fn row_pads_each_column() {
    assert_eq!(COLUMN_WIDTH, 15);
    let row = format_row("a", false, "30 B");
    assert_eq!(row, "a               false           30 B           ");
    assert_eq!(row, format!("{:<15} {:<15} {:<15}", "a", false, "30 B"));
}

#[test]
fn row_of_a_directory() {
    let row = format_row("src", true, "4.1 KiB");
    assert_eq!(row, format!("{:<15} {:<15} {:<15}", "src", true, "4.1 KiB"));
    assert_eq!(row.len(), 47);
}

#[test]
fn row_does_not_cut_long_names() {
    let name = "a_name_longer_than_a_column";
    let row = format_row(name, false, "0 B");
    assert_eq!(row, format!("{:<15} {:<15} {:<15}", name, false, "0 B"));
    assert!(row.starts_with("a_name_longer_than_a_column false"));
}

#[test]
fn row_counts_characters_not_bytes() {
    let row = format_row("caf\u{e9}", false, "1 B");
    assert_eq!(row, format!("{:<15} {:<15} {:<15}", "caf\u{e9}", false, "1 B"));
    assert_eq!(row.chars().count(), 47);
}

#[test]
fn row_of_a_name_as_wide_as_the_column() {
    let row = format_row("exactly15chars!", true, "");
    assert_eq!(row, format!("{:<15} {:<15} {:<15}", "exactly15chars!", true, ""));
}
