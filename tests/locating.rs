use stackdump::locator::{
    chars_of, contains_chars, first_field_of, last_field_of, listing_pid, locate_stacks,
    stack_token, ProcessMaps,
};

fn lines(v: &[&str]) -> Vec<String> {
    v.iter().map(|s| s.to_string()).collect()
}

#[test]
fn finds_substrings() {
    let s = chars_of("abc [stack] def");
    assert!(contains_chars(&s, &chars_of("[stack]")));
    assert!(contains_chars(&s, &chars_of("")));
    assert!(!contains_chars(&s, &chars_of("[heap]")));
    assert!(!contains_chars(&chars_of("ab"), &chars_of("abc")));
}

#[test]
fn first_and_last_fields() {
    assert_eq!(first_field_of("  7f00-7f01 rw-p 0 [stack]"), "7f00-7f01");
    assert_eq!(first_field_of("single"), "single");
    assert_eq!(first_field_of("   "), "");
    assert_eq!(last_field_of("dr-xr-xr-x 9 root root 0 Oct 19 10:00 1234  "), "1234");
    assert_eq!(last_field_of("\t"), "");
}

#[test]
fn pid_from_directory_line() {
    assert_eq!(
        listing_pid("dr-xr-xr-x  9 root root 0 Oct 19 10:00 1234"),
        Some("1234".to_string())
    );
    assert_eq!(listing_pid("-r--r--r--  1 root root 0 Oct 19 10:00 cpuinfo"), None);
    assert_eq!(listing_pid("total 0"), None);
}

#[test]
fn first_stack_line_wins() {
    let maps = lines(&[
        "55d0-55d1 r--p 00000000 08:01 1 /usr/bin/cat",
        "7ffd0000a000-7ffd0002b000 rw-p 00000000 00:00 0                          [stack]",
        "7ffe0000a000-7ffe0002b000 rw-p 00000000 00:00 0                          [stack]",
    ]);
    assert_eq!(stack_token(&maps), Some("7ffd0000a000-7ffd0002b000".to_string()));
}

#[test]
fn no_stack_line_gives_nothing() {
    let maps = lines(&["55d0-55d1 r--p 00000000 08:01 1 /usr/bin/cat", "7f-80 rw-p 0 0:0 0 [heap]"]);
    assert_eq!(stack_token(&maps), None);
    assert_eq!(stack_token(&Vec::new()), None);
}

#[test]
fn processes_without_stack_keep_pairs_aligned() {
    let procs = vec![
        ProcessMaps { pid: "100".to_string(), map_lines: lines(&["7f0000001000-7f0000002000 rw-p 0 0:0 0 [stack]"]) },
        ProcessMaps { pid: "150".to_string(), map_lines: lines(&["55d0-55d1 r--p 0 0:0 0 /bin/x"]) },
        ProcessMaps { pid: "200".to_string(), map_lines: lines(&["7f0000003000-7f0000004000 rw-p 0 0:0 0 [stack]"]) },
    ];
    let entries = locate_stacks(&procs);
    assert_eq!(entries.len(), 2);
    assert_eq!(entries[0].pid, "100");
    assert_eq!(entries[0].token, "7f0000001000-7f0000002000");
    assert_eq!(entries[1].pid, "200");
    assert_eq!(entries[1].token, "7f0000003000-7f0000004000");
}

#[test]
fn fields_split_on_unicode_whitespace() {
    assert_eq!(first_field_of("a\u{a0}b [stack]"), "a");
    assert_eq!(last_field_of("dr-x 1234\u{a0}5678"), "5678");
    assert_eq!(first_field_of("\u{3000}\u{2009}x\u{85}y"), "x");
    assert_eq!(last_field_of("x\u{2028}y\u{202f}"), "y");
    let maps = vec!["7f00a\u{a0}b rw-p 0 0:0 0 [stack]".to_string()];
    assert_eq!(stack_token(&maps), Some("7f00a".to_string()));
}
