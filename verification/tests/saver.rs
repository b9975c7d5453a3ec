use vc::{count_configs, FileSaver};

fn numbered_lines(count: usize) -> String {
    (0..count)
        .map(|i| format!("vless://user{i}@host:443#node-{i}\n"))
        .collect()
}

#[test]
fn paths_join_directory_and_name() {
    let saver = FileSaver::new("out");
    assert_eq!(saver.path_for("7"), "out/7.txt");
    assert_eq!(saver.part_path_for("7", 3), "out/7-3.txt");
    let slash = FileSaver::new("out/");
    assert_eq!(slash.path_for("7"), "out/7.txt");
    let empty = FileSaver::new("");
    assert_eq!(empty.path_for("7"), "7.txt");
}

#[test]
fn small_content_is_planned_as_one_file() {
    let saver = FileSaver::with_max_per_file("out", 10);
    let plan = saver.plan_save("5", "vless://uuid@host:443#one\n");
    assert_eq!(plan.files, vec![("out/5.txt".to_string(), "vless://uuid@host:443#one\n".to_string())]);
    assert_eq!(plan.last_part, 0);
    assert!(!plan.remove_single);
}

#[test]
fn large_content_is_planned_as_parts() {
    let saver = FileSaver::with_max_per_file("out", 7);
    let content = numbered_lines(20);
    let plan = saver.plan_save("1", &content);
    let names: Vec<&str> = plan.files.iter().map(|f| f.0.as_str()).collect();
    assert_eq!(names, vec!["out/1-1.txt", "out/1-2.txt", "out/1-3.txt"]);
    let counts: Vec<usize> = plan.files.iter().map(|f| count_configs(&f.1)).collect();
    assert_eq!(counts, vec![7, 7, 6]);
    let joined: String = plan.files.iter().map(|f| f.1.as_str()).collect();
    assert_eq!(joined, content);
    assert_eq!(plan.last_part, 3);
    assert!(plan.remove_single);
}

#[test]
fn zero_limit_means_one_per_file() {
    let saver = FileSaver::with_max_per_file("o", 0);
    let plan = saver.plan_save("2", "a\nb\n");
    assert_eq!(plan.files.len(), 2);
}

#[test]
fn part_count_is_the_ceiling_of_configs_over_limit() {
    let saver = FileSaver::with_max_per_file("out", 10);
    for n in [11usize, 20, 21, 30, 95] {
        let content = numbered_lines(n);
        let plan = saver.plan_save("7", &content);
        assert_eq!(plan.files.len(), (n + 9) / 10);
        let last = &plan.files.last().unwrap().1;
        assert_eq!(count_configs(last), n - (plan.files.len() - 1) * 10);
    }
}
