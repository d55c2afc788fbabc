use log_aggregator::brackets::{bracket_span, replace_spaces_in_brackets};
use log_aggregator::classify::{
    contains_char, insert_thread_placeholder, is_candidate_line, placeholder_tag, process_line,
    process_log_file,
};
use log_aggregator::node::{extract_ip_address, identity_from, node_identity};
use log_aggregator::text::{is_whitespace, join_columns, split_columns, string_of};

fn strings(v: &[&str]) -> Vec<String> {
    v.iter().map(|s| s.to_string()).collect()
}

#[test]
fn candidate_lines_begin_with_error_or_warn() {
    assert!(is_candidate_line("ERROR [t1] 2024-01-01 10:00:00 disk full"));
    assert!(is_candidate_line("WARN 2024-01-01 10:00:00 low memory"));
    assert!(is_candidate_line("ERRORS counted"));
    assert!(!is_candidate_line("INFO 2024-01-01 10:00:00 started"));
    assert!(!is_candidate_line(" ERROR leading space"));
    assert!(!is_candidate_line("error lower case"));
    assert!(!is_candidate_line("ARNING"));
    assert!(!is_candidate_line(""));
}

#[test]
fn whitespace_follows_unicode() {
    assert!(is_whitespace(' '));
    assert!(is_whitespace('\t'));
    assert!(is_whitespace('\n'));
    assert!(is_whitespace('\u{a0}'));
    assert!(is_whitespace('\u{3000}'));
    assert!(!is_whitespace('_'));
    assert!(!is_whitespace('a'));
    for c in ['\u{9}', '\u{b}', '\u{85}', '\u{1680}', '\u{2005}', '\u{2028}', '\u{205f}', 'x', '0'] {
        assert_eq!(is_whitespace(c), c.is_whitespace());
    }
}

#[test]
fn columns_split_on_whitespace_runs() {
    assert_eq!(split_columns("  ERROR\t[a]   b \n"), strings(&["ERROR", "[a]", "b"]));
    assert_eq!(split_columns(""), Vec::<String>::new());
    assert_eq!(split_columns("   "), Vec::<String>::new());
    assert_eq!(join_columns(&strings(&["a", "b", "c"])), "a b c");
    assert_eq!(join_columns(&Vec::new()), "");
    assert_eq!(string_of(&vec!['a', 'b']), "ab");
}

#[test]
fn placeholder_inserted_when_second_column_has_no_bracket() {
    assert_eq!(
        insert_thread_placeholder("WARN 2024-01-01 10:00:00 low  memory").unwrap(),
        "WARN [No_Thread] 2024-01-01 10:00:00 low memory"
    );
    assert_eq!(
        insert_thread_placeholder("ERROR [worker 3] 2024-01-01 10:00:00 x").unwrap(),
        "ERROR [worker 3] 2024-01-01 10:00:00 x"
    );
    assert_eq!(insert_thread_placeholder("ERROR x").unwrap(), "ERROR [No_Thread] x");
    assert_eq!(placeholder_tag(), "[No_Thread]");
    assert!(contains_char("a[b", '['));
    assert!(!contains_char("ab", '['));
}

#[test]
fn lines_of_fewer_than_two_columns_are_skipped() {
    assert_eq!(insert_thread_placeholder("ERROR"), None);
    assert_eq!(insert_thread_placeholder("   "), None);
    assert_eq!(process_line("10.0.0.5", "ERROR"), None);
    assert_eq!(process_line("10.0.0.5", "WARN   "), None);
}

#[test]
fn brackets_lose_their_spaces() {
    assert_eq!(replace_spaces_in_brackets("ERROR [abc def] something"), "ERROR [abc_def] something");
    assert_eq!(replace_spaces_in_brackets("[a b] c d [e f g]"), "[a_b] c d [e_f_g]");
    assert_eq!(replace_spaces_in_brackets("no brackets here"), "no brackets here");
    assert_eq!(replace_spaces_in_brackets("open [a b"), "open [a b");
    assert_eq!(replace_spaces_in_brackets("[a [b c] d]"), "[a_[b_c] d]");
    assert_eq!(replace_spaces_in_brackets("a] [b c"), "a] [b c");
    assert_eq!(replace_spaces_in_brackets("[]"), "[]");
    assert_eq!(replace_spaces_in_brackets(""), "");
    assert_eq!(bracket_span("x y z"), "[x_y_z]");
}

#[test]
fn normalizing_twice_changes_nothing_more() {
    for s in ["ERROR [abc def] something", "[a [b c] d] [e f", "]] [ [ ] x", "", "[ ]  [  ]"] {
        let once = replace_spaces_in_brackets(s);
        assert_eq!(replace_spaces_in_brackets(&once), once);
    }
}

#[test]
fn dotted_quad_is_found_in_paths() {
    assert_eq!(extract_ip_address("/var/log/10.0.0.5/system.log").unwrap(), "10.0.0.5");
    assert_eq!(extract_ip_address("/var/log/nodeA/system.log"), None);
    assert_eq!(extract_ip_address("/x/123-45_6x7/y").unwrap(), "123-45_6x7");
    assert_eq!(extract_ip_address("/a/1.2.3.4/b/5.6.7.8").unwrap(), "1.2.3.4");
    assert_eq!(node_identity("/var/log/10.0.0.5/system.log"), "10.0.0.5");
    assert_eq!(node_identity("/var/log/nodeA/system.log"), "/var/log/nodeA/system.log");
    assert_eq!(identity_from("/p", None), "/p");
    assert_eq!(identity_from("/p", Some("1.2.3.4".to_string())), "1.2.3.4");
}

#[test]
fn candidate_line_becomes_entry() {
    assert_eq!(
        process_line("10.0.0.5", "ERROR 2024-01-01 10:00:00 disk full").unwrap(),
        "10.0.0.5 ERROR [No_Thread] 2024-01-01 10:00:00 disk full"
    );
    assert_eq!(
        process_line("nodeA", "WARN [pool 1] 2024-01-02 09:00:00 slow  reply").unwrap(),
        "nodeA WARN [pool_1] 2024-01-02 09:00:00 slow reply"
    );
}

#[test]
fn other_lines_make_no_entry() {
    assert_eq!(process_line("10.0.0.5", "INFO 2024-01-01 10:00:00 fine"), None);
    assert_eq!(process_line("10.0.0.5", "DEBUG ERROR [t] x"), None);
    assert_eq!(process_line("10.0.0.5", ""), None);
}

#[test]
fn third_column_is_placeholder_without_thread() {
    let e = process_line("10.0.0.5", "WARN 2024-01-01 10:00:00 something odd").unwrap();
    let cols: Vec<&str> = e.split_whitespace().collect();
    assert_eq!(cols[2], "[No_Thread]");
    let e = process_line("n1", "ERROR x y z").unwrap();
    assert_eq!(e.split_whitespace().nth(2).unwrap(), "[No_Thread]");
}

#[test]
fn file_lines_are_appended_in_order() {
    let mut entries = strings(&["earlier"]);
    let lines = strings(&[
        "ERROR [t1] 2024-01-01 10:00:00 a",
        "INFO 2024-01-01 10:00:01 b",
        "WARN 2024-01-01 10:00:02 c",
        "ERROR",
    ]);
    process_log_file("/logs/192.168.1.7/system.log", &lines, &mut entries);
    assert_eq!(
        entries,
        strings(&[
            "earlier",
            "192.168.1.7 ERROR [t1] 2024-01-01 10:00:00 a",
            "192.168.1.7 WARN [No_Thread] 2024-01-01 10:00:02 c",
        ])
    );
}
