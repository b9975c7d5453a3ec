use vc::splitter::{MAX_PART_BYTES, DEFAULT_MAX_PER_FILE};
use vc::{
    count_configs, part_file_name, plan_file_split, select_large_files, split_by_config_count,
    split_content,
};

fn numbered_lines(count: usize) -> String {
    (0..count)
        .map(|i| format!("vless://user{i}@host:443#node-{i}\n"))
        .collect()
}

#[test]
fn small_content_stays_single_part() {
    let content = numbered_lines(10);
    let parts = split_content(&content, MAX_PART_BYTES);
    assert_eq!(parts, vec![content]);
}

#[test]
fn empty_content_is_single_empty_part() {
    assert_eq!(split_content("", 100), vec![String::new()]);
}

#[test]
fn splits_by_lines_and_reassembles_exactly() {
    let content = numbered_lines(1000);
    let max = 1024;
    let parts = split_content(&content, max);
    assert!(parts.len() > 1);
    for part in &parts {
        assert!(part.len() <= max, "part of {} bytes", part.len());
        assert!(part.ends_with('\n'));
    }
    assert_eq!(parts.concat(), content);
}

#[test]
fn last_part_holds_remainder() {
    let content = numbered_lines(10);
    let line_len = "vless://user0@host:443#node-0\n".len();
    let parts = split_content(&content, line_len * 3);
    assert_eq!(parts.len(), 4);
    assert_eq!(parts[3].lines().count(), 1);
    assert_eq!(parts.concat(), content);
}

#[test]
fn oversized_single_line_is_not_torn() {
    let long = format!("vless://{}@host:443#big\n", "x".repeat(500));
    let content = format!("{long}vless://a@b:443#s\n");
    let parts = split_content(&content, 100);
    assert_eq!(parts.len(), 2);
    assert_eq!(parts[0], long);
    assert_eq!(parts.concat(), content);
}

#[test]
fn preserves_missing_trailing_newline() {
    let content = "vless://a@b:443#one\ntrojan://p@h:443#two".to_string();
    let parts = split_content(&content, 24);
    assert_eq!(parts.concat(), content);
    assert!(!parts.last().unwrap().ends_with('\n'));
}

#[test]
fn exact_limit_fits_in_one_part() {
    let content = "vless://a@b:1#x\n".to_string();
    let parts = split_content(&content, content.len());
    assert_eq!(parts, vec![content]);
}

#[test]
fn part_names_are_one_based() {
    assert_eq!(part_file_name("1", 1), "1-1.txt");
    assert_eq!(part_file_name("21", 12), "21-12.txt");
}

#[test]
fn split_content_counts_bytes_of_multibyte_text() {
    // "ж" takes two bytes: lines of 6 bytes fit two per 12 bytes, one per 11.
    let content = "жжa\nжжb\nжжc\n";
    assert_eq!(split_content(content, 11).len(), 3);
    let parts = split_content(content, 12);
    assert_eq!(parts, vec!["жжa\nжжb\n".to_string(), "жжc\n".to_string()]);
}

#[test]
fn split_content_zero_limit_acts_as_one() {
    let parts = split_content("a\nb\n", 0);
    assert_eq!(parts, vec!["a\n".to_string(), "b\n".to_string()]);
}

#[test]
fn split_content_keeps_crlf_endings() {
    let content = "a\r\nb\r\nc";
    let parts = split_content(content, 3);
    assert_eq!(parts, vec!["a\r\n".to_string(), "b\r\n".to_string(), "c".to_string()]);
}

#[test]
fn count_configs_skips_blank_lines() {
    assert_eq!(count_configs(""), 0);
    assert_eq!(count_configs("a\n\n  \nb\nc"), 3);
    assert_eq!(count_configs(&numbered_lines(7)), 7);
}

#[test]
fn split_by_config_count_gives_full_parts_then_remainder() {
    let content = numbered_lines(20);
    let parts = split_by_config_count(&content, 7);
    let counts: Vec<usize> = parts.iter().map(|p| count_configs(p)).collect();
    assert_eq!(counts, vec![7, 7, 6]);
    assert_eq!(parts.concat(), content);
}

#[test]
fn split_by_config_count_keeps_blank_lines_with_previous_part() {
    let parts = split_by_config_count("a\nb\n\nc\n", 2);
    assert_eq!(parts, vec!["a\nb\n\n".to_string(), "c\n".to_string()]);
}

#[test]
fn default_limit_is_five_hundred() {
    assert_eq!(DEFAULT_MAX_PER_FILE, 500);
    assert_eq!(MAX_PART_BYTES, 1024 * 1024);
}

#[test]
fn select_large_files_skips_parts_small_and_non_txt() {
    let entries = vec![
        ("2.txt".to_string(), 50),
        ("10.txt".to_string(), 200),
        ("1.txt".to_string(), 200),
        ("1-1.txt".to_string(), 500),
        ("notes.md".to_string(), 500),
        (".txt".to_string(), 500),
    ];
    assert_eq!(select_large_files(entries, 100), vec!["1.txt".to_string(), "10.txt".to_string()]);
}

#[test]
fn plan_file_split_names_parts_after_the_stem() {
    let content = numbered_lines(5);
    let line_len = "vless://user0@host:443#node-0\n".len();
    let parts = plan_file_split(Some("9.txt"), &content, line_len * 2);
    let names: Vec<&str> = parts.iter().map(|p| p.0.as_str()).collect();
    assert_eq!(names, vec!["9-1.txt", "9-2.txt", "9-3.txt"]);
    let joined: String = parts.iter().map(|p| p.1.as_str()).collect();
    assert_eq!(joined, content);
    let unnamed = plan_file_split(None, "x\n", 10);
    assert_eq!(unnamed, vec![("output-1.txt".to_string(), "x\n".to_string())]);
}

#[test]
fn parts_close_only_when_the_next_line_does_not_fit() {
    let parts = split_content("a\nbb\nccc\n", 5);
    assert_eq!(parts, vec!["a\nbb\n".to_string(), "ccc\n".to_string()]);
    for (k, part) in parts.iter().enumerate() {
        assert!(!part.is_empty());
        if k + 1 < parts.len() {
            assert!(part.ends_with('\n'));
            let next_line = parts[k + 1].split_inclusive('\n').next().unwrap();
            assert!(part.len() + next_line.len() > 5);
        }
    }
}
