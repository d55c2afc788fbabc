use log_aggregator::pipeline::aggregate;
use log_aggregator::report::{is_target_file, render_report};
use log_aggregator::sorting::{compare_text, entry_column, entry_le, sort_entries};

fn strings(v: &[&str]) -> Vec<String> {
    v.iter().map(|s| s.to_string()).collect()
}

#[test]
fn earlier_date_comes_first() {
    let sorted = sort_entries(strings(&[
        "n1 ERROR [t] 2024-01-02 08:00:00 later",
        "n2 WARN [t] 2024-01-01 23:00:00 earlier",
    ]));
    assert_eq!(
        sorted,
        strings(&["n2 WARN [t] 2024-01-01 23:00:00 earlier", "n1 ERROR [t] 2024-01-02 08:00:00 later"])
    );
}

#[test]
fn equal_dates_order_by_time() {
    let a = "n1 ERROR [t] 2024-01-01 10:00:00 ten";
    let b = "n1 ERROR [t] 2024-01-01 09:00:00 nine";
    assert_eq!(sort_entries(strings(&[a, b])), strings(&[b, a]));
    assert_eq!(sort_entries(strings(&[b, a])), strings(&[b, a]));
}

#[test]
fn equal_keys_keep_their_order() {
    let a = "n1 ERROR [t] 2024-01-01 10:00:00 first";
    let b = "n2 WARN [u] 2024-01-01 10:00:00 second";
    let c = "n3 WARN [u] 2024-01-01 10:00:00 third";
    assert_eq!(sort_entries(strings(&[a, b, c])), strings(&[a, b, c]));
    assert_eq!(sort_entries(strings(&[c, a, b])), strings(&[c, a, b]));
}

#[test]
fn missing_columns_sort_as_empty() {
    let short = "n1 ERROR [t]";
    let dated = "n1 ERROR [t] 2024-01-01";
    let full = "n1 ERROR [t] 2024-01-01 00:00:01 x";
    assert_eq!(entry_column(short, 3), "");
    assert_eq!(entry_column(full, 4), "00:00:01");
    assert_eq!(entry_column(full, 0), "n1");
    assert_eq!(sort_entries(strings(&[full, dated, short])), strings(&[short, dated, full]));
    assert_eq!(sort_entries(Vec::new()), Vec::<String>::new());
}

#[test]
fn comparison_is_lexicographic() {
    assert_eq!(compare_text(&vec!['a', 'b'], &vec!['a', 'c']), -1);
    assert_eq!(compare_text(&vec!['a', 'b'], &vec!['a', 'b']), 0);
    assert_eq!(compare_text(&vec!['b'], &vec!['a', 'z']), 1);
    assert_eq!(compare_text(&vec![], &vec!['a']), -1);
    assert!(entry_le("n ERROR [t] 2024-01-01 10:00:00", "n ERROR [t] 2024-01-01 10:00:00"));
    assert!(entry_le("n ERROR [t] 2024-01-01 11:00:00", "n ERROR [t] 2024-01-02 10:00:00"));
    assert!(!entry_le("n ERROR [t] 2024-01-01 11:00:00", "n ERROR [t] 2024-01-01 10:00:00"));
}

#[test]
fn report_has_one_line_per_entry() {
    assert_eq!(render_report(&strings(&["a b", "c"])), "a b\nc\n");
    assert_eq!(render_report(&Vec::new()), "");
}

#[test]
fn only_exact_file_names_are_taken() {
    assert!(is_target_file("system.log", "system.log"));
    assert!(!is_target_file("system.log.1", "system.log"));
    assert!(!is_target_file("System.log", "system.log"));
}

#[test]
fn two_files_both_present_once() {
    let files = vec![
        (
            "./a/10.0.0.1/system.log".to_string(),
            strings(&["ERROR [t] 2024-01-02 10:00:00 from a", "INFO 2024-01-01 00:00:00 skip"]),
        ),
        ("./b/nodeB/system.log".to_string(), strings(&["WARN 2024-01-01 12:00:00 from b"])),
    ];
    let out = aggregate(&files);
    assert_eq!(
        out,
        strings(&[
            "./b/nodeB/system.log WARN [No_Thread] 2024-01-01 12:00:00 from b",
            "10.0.0.1 ERROR [t] 2024-01-02 10:00:00 from a",
        ])
    );
}

#[test]
fn whole_run_drops_other_lines() {
    let files = vec![(
        "/var/log/10.0.0.5/system.log".to_string(),
        strings(&[
            "INFO 2024-01-01 10:00:00 hello",
            "WARN 2024-01-01 09:00:00 w",
            "ERROR [abc def] 2024-01-01 08:00:00 e",
            "TRACE ERROR x",
        ]),
    )];
    let out = aggregate(&files);
    assert_eq!(
        render_report(&out),
        "10.0.0.5 ERROR [abc_def] 2024-01-01 08:00:00 e\n10.0.0.5 WARN [No_Thread] 2024-01-01 09:00:00 w\n"
    );
}
