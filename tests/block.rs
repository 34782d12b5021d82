use confible::block::{
    end_marker_of, render_block, start_marker_of, strip_managed_block, sync_content,
};
use confible::text::{contains, join_lines, split_lines};

fn strings(v: &[&str]) -> Vec<String> {
    v.iter().map(|s| s.to_string()).collect()
}

#[test]
fn appends_block_after_existing_lines() {
    let out = sync_content("export PATH=/usr/bin\n", "#", "export FOO=bar");
    assert_eq!(
        out,
        "export PATH=/usr/bin\n\n# CONFIBLE START\nexport FOO=bar\n\n# CONFIBLE END\n"
    );
}

#[test]
fn rerun_reproduces_same_output() {
    let once = sync_content("export PATH=/usr/bin\n", "#", "export FOO=bar");
    let twice = sync_content(&once, "#", "export FOO=bar");
    assert_eq!(once, twice);
}

#[test]
fn sync_is_idempotent_on_varied_files() {
    let inputs = [
        "",
        "a\nb\n",
        "no newline at end",
        "\n\n\n",
        "x\n\n// CONFIBLE START\nold\n\n// CONFIBLE END\ny\n",
    ];
    for input in inputs.iter() {
        let once = sync_content(input, "//", "line one\nline two\n");
        let twice = sync_content(&once, "//", "line one\nline two\n");
        assert_eq!(once, twice, "input {:?}", input);
    }
}

#[test]
fn preserves_lines_in_order() {
    let out = sync_content("one\ntwo\n\nthree", "#", "X");
    assert_eq!(out, "one\ntwo\n\nthree\n\n# CONFIBLE START\nX\n\n# CONFIBLE END\n");
}

#[test]
fn replaces_block_instead_of_accumulating() {
    let with_a = sync_content("top\n", "#", "A");
    let with_b = sync_content(&with_a, "#", "B");
    assert_eq!(with_b, "top\n\n# CONFIBLE START\nB\n\n# CONFIBLE END\n");
    assert_eq!(with_b.matches("CONFIBLE START").count(), 1);
}

#[test]
fn block_in_the_middle_moves_to_the_end() {
    let content = "head\n\n# CONFIBLE START\nold\n\n# CONFIBLE END\ntail\n";
    let out = sync_content(content, "#", "new");
    assert_eq!(out, "head\ntail\n\n# CONFIBLE START\nnew\n\n# CONFIBLE END\n");
}

#[test]
fn empty_file_gets_only_the_block() {
    assert_eq!(
        sync_content("", ";", ""),
        "\n; CONFIBLE START\n\n\n; CONFIBLE END\n"
    );
}

#[test]
fn dangling_start_drops_the_rest() {
    let content = "keep\n# CONFIBLE START\nlost\nalso lost\n";
    assert_eq!(
        sync_content(content, "#", "v"),
        "keep\n\n# CONFIBLE START\nv\n\n# CONFIBLE END\n"
    );
}

#[test]
fn start_removes_only_a_blank_line_before_it() {
    let lines = strings(&["a", "# CONFIBLE START", "x", "# CONFIBLE END"]);
    assert_eq!(strip_managed_block(&lines, "#"), strings(&["a"]));
    let lines = strings(&["a", "", "", "# CONFIBLE START", "# CONFIBLE END", "b"]);
    assert_eq!(strip_managed_block(&lines, "#"), strings(&["a", "", "b"]));
}

#[test]
fn other_comment_markers_are_kept() {
    let lines = strings(&["// CONFIBLE START", "x", "// CONFIBLE END"]);
    assert_eq!(strip_managed_block(&lines, "#"), lines);
}

#[test]
fn end_without_start_is_dropped() {
    let lines = strings(&["a", "# CONFIBLE END", "b"]);
    assert_eq!(strip_managed_block(&lines, "#"), strings(&["a", "b"]));
}

#[test]
fn sentinel_matches_inside_a_line() {
    let lines = strings(&["a", "", "  # CONFIBLE START here", "x", "-- # CONFIBLE END --", "b"]);
    assert_eq!(strip_managed_block(&lines, "#"), strings(&["a", "b"]));
}

#[test]
fn crlf_lines_are_normalized() {
    assert_eq!(
        sync_content("a\r\nb\r\n", "#", "z"),
        "a\nb\n\n# CONFIBLE START\nz\n\n# CONFIBLE END\n"
    );
}

#[test]
fn renders_block_and_markers() {
    assert_eq!(start_marker_of("--"), "-- CONFIBLE START");
    assert_eq!(end_marker_of("--"), "-- CONFIBLE END");
    assert_eq!(
        render_block("#", "a\nb\n"),
        "\n# CONFIBLE START\na\nb\n\n\n# CONFIBLE END\n"
    );
}

#[test]
fn splits_lines() {
    assert_eq!(split_lines(""), Vec::<String>::new());
    assert_eq!(split_lines("a"), strings(&["a"]));
    assert_eq!(split_lines("a\n"), strings(&["a"]));
    assert_eq!(split_lines("a\r\nb"), strings(&["a", "b"]));
    assert_eq!(split_lines("\n\nx\n"), strings(&["", "", "x"]));
    assert_eq!(split_lines("é€\nü"), strings(&["é€", "ü"]));
    assert_eq!(split_lines("a\rb\n"), strings(&["a\rb"]));
}

#[test]
fn joins_lines() {
    assert_eq!(join_lines(&strings(&[])), "");
    assert_eq!(join_lines(&strings(&["a", "", "b"])), "a\n\nb\n");
}

#[test]
fn finds_substrings() {
    assert!(contains("abc", ""));
    assert!(contains("abc", "bc"));
    assert!(contains("abc", "abc"));
    assert!(!contains("abc", "abcd"));
    assert!(!contains("abc", "cb"));
    assert!(!contains("", "a"));
    assert!(contains("ßx€y", "€y"));
}
