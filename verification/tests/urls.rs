use vc::urls::sort_natural;
use vc::{raw_url_for, select_output_files, urls_index_content, RAW_BASE, URLS_FILE_NAME};

#[test]
fn raw_url_joins_base_and_name() {
    assert_eq!(
        raw_url_for("1-3.txt"),
        "https://raw.githubusercontent.com/woolster2020/vc/refs/heads/main/output/1-3.txt"
    );
}

#[test]
fn natural_order_puts_2_before_10_and_2_before_2_10() {
    let names: Vec<String> = vec!["10-1.txt", "2-10.txt", "2-2.txt", "1-3.txt", "11.txt"]
        .into_iter()
        .map(String::from)
        .collect();
    let names = sort_natural(names);
    assert_eq!(
        names,
        vec!["1-3.txt", "2-2.txt", "2-10.txt", "10-1.txt", "11.txt"]
    );
}

#[test]
fn natural_order_ties_on_value_go_by_text() {
    let names: Vec<String> = vec!["a02", "a2", "a1", "b", "a"].into_iter().map(String::from).collect();
    assert_eq!(sort_natural(names), vec!["a", "a1", "a02", "a2", "b"]);
}

#[test]
fn select_output_files_skips_index_non_txt_and_dirs() {
    let entries = vec![
        ("2-10.txt".to_string(), true),
        ("2-2.txt".to_string(), true),
        ("urls.txt".to_string(), true),
        ("notes.md".to_string(), true),
        ("1-1.txt".to_string(), false),
    ];
    assert_eq!(select_output_files(entries), vec!["2-2.txt".to_string(), "2-10.txt".to_string()]);
}

#[test]
fn index_has_one_link_per_line() {
    let names = vec!["1-3.txt".to_string(), "2.txt".to_string()];
    assert_eq!(
        urls_index_content(&names),
        "https://raw.githubusercontent.com/woolster2020/vc/refs/heads/main/output/1-3.txt\n\
         https://raw.githubusercontent.com/woolster2020/vc/refs/heads/main/output/2.txt\n"
    );
    assert_eq!(urls_index_content(&Vec::new()), "");
}

#[test]
fn index_constants() {
    assert_eq!(URLS_FILE_NAME, "urls.txt");
    assert_eq!(format!("{RAW_BASE}/5.txt"), raw_url_for("5.txt"));
}

#[test]
fn saved_parts_are_listed_in_index_order() {
    let content: String = (0..23).map(|i| format!("vless://u{i}@h:1#n{i}\n")).collect();
    let saver = vc::FileSaver::with_max_per_file("", 10);
    let mut entries: Vec<(String, bool)> = saver
        .plan_save("2", &content)
        .files
        .into_iter()
        .map(|f| (f.0, true))
        .collect();
    entries.extend(saver.plan_save("1", "vless://a@b:1#x\n").files.into_iter().map(|f| (f.0, true)));
    entries.push(("urls.txt".to_string(), true));
    assert_eq!(
        select_output_files(entries),
        vec!["1.txt", "2-1.txt", "2-2.txt", "2-3.txt"]
    );
}

#[test]
fn zero_runs_count_as_zero() {
    let names: Vec<String> = vec!["1.txt", "00.txt", "10.txt", "0.txt"]
        .into_iter()
        .map(String::from)
        .collect();
    assert_eq!(sort_natural(names), vec!["0.txt", "00.txt", "1.txt", "10.txt"]);
}

#[test]
fn numbers_beyond_u64_compare_as_numbers() {
    let names: Vec<String> = vec![
        "100000000000000000000",
        "18446744073709551616",
        "0099999999999999999999",
        "18446744073709551615",
    ]
    .into_iter()
    .map(String::from)
    .collect();
    assert_eq!(
        sort_natural(names),
        vec![
            "18446744073709551615",
            "18446744073709551616",
            "0099999999999999999999",
            "100000000000000000000",
        ]
    );
}
