use atlas::diff::physics_log_in_diff;

#[test]
fn hi() {
    let enable = "Set,ConsistencyTracker.LogPhysicsEnabled,true";
    let disable = "Set,ConsistencyTracker.LogPhysicsEnabled,false";

    let result = physics_log_in_diff(
        "# Start
190
1,J
# lvl_1
2,J
# lvl_2
3,J
15,U,R,X
10,L
# lvl_end
4,J
ChapterTime:
",
        "# Start
190
1,J
# lvl_1
2,J
# lvl_2
10,U,R,X
2,R,K,G
10,L
# lvl_end
4,J
ChapterTime:
",
        (enable.into(), disable.into()),
    );
    println!("{}", result);
    assert_eq!(
        result,
        "Set,ConsistencyTracker.LogPhysicsEnabled,false
# Start
190
1,J
# lvl_1
2,J
# lvl_2
Set,ConsistencyTracker.LogPhysicsEnabled,true
10,U,R,X
2,R,K,G
Set,ConsistencyTracker.LogPhysicsEnabled,false
10,L
# lvl_end
4,J
ChapterTime:
"
    )
}

fn pair() -> (String, String) {
    ("ENABLE".to_string(), "DISABLE".to_string())
}

#[test]
fn literal_case_with_short_directives() {
    let old = "#Start\n190\n1,J\n#lvl_1\n2,J\n#lvl_2\n3,J\n15,U,R,X\n10,L\n#lvl_end\n4,J\nChapterTime:\n";
    let new = "#Start\n190\n1,J\n#lvl_1\n2,J\n#lvl_2\n10,U,R,X\n2,R,K,G\n10,L\n#lvl_end\n4,J\nChapterTime:\n";
    let out = physics_log_in_diff(old, new, pair());
    assert_eq!(
        out,
        "DISABLE\n#Start\n190\n1,J\n#lvl_1\n2,J\n#lvl_2\nENABLE\n10,U,R,X\n2,R,K,G\nDISABLE\n10,L\n#lvl_end\n4,J\nChapterTime:\n"
    );
}

#[test]
fn only_comments_and_metadata_changed_gives_new_back() {
    let old = "# a\n1,J\nChapterTime: 0:01.000(60)\nRecordCount: 3\n  #x\n";
    let new = "# b\n1,J\nChapterTime: 0:02.000(120)\nRecordCount: 4\n  #y\n";
    assert_eq!(physics_log_in_diff(old, new, pair()), new);
}

#[test]
fn segment_of_own_output_is_identity() {
    let old = "1,J\n2,R\n";
    let new = "1,J\n3,R\n";
    let out = physics_log_in_diff(old, new, pair());
    assert_eq!(out, "DISABLE\n1,J\nENABLE\n3,R\nDISABLE\n");
    assert_eq!(physics_log_in_diff(&out, &out, pair()), out);
    assert_eq!(physics_log_in_diff(new, new, pair()), new);
}

#[test]
fn identical_texts_are_returned_verbatim_without_final_newline() {
    let s = "1,J\r\n2,R";
    assert_eq!(physics_log_in_diff(s, s, pair()), s);
}

#[test]
fn change_in_extra_trailing_lines_is_not_seen() {
    let old = "1,J\n";
    let new = "1,J\n5,R\n";
    assert_eq!(physics_log_in_diff(old, new, pair()), new);
}

#[test]
fn crlf_lines_and_empty_old() {
    assert_eq!(physics_log_in_diff("", "1,J\n", pair()), "1,J\n");
    let out = physics_log_in_diff("1,J\r\n", "2,J\r\n", pair());
    assert_eq!(out, "DISABLE\nENABLE\n2,J\nDISABLE\n");
}

#[test]
fn file_time_lines_are_ignored_after_whitespace() {
    let old = "  FileTime: 1\n1,J\n";
    let new = "\tFileTime: 2\n1,J\n";
    assert_eq!(physics_log_in_diff(old, new, pair()), new);
}

#[test]
fn unicode_whitespace_before_comment_is_skipped() {
    let old = "\u{a0}\u{3000}# c\n1,J\n";
    let new = "\u{a0}\u{3000}# d\n1,J\n";
    assert_eq!(physics_log_in_diff(old, new, pair()), new);
    let old = "\u{200b}# c\n";
    let new = "\u{200b}# d\n";
    assert_eq!(physics_log_in_diff(old, new, pair()), "DISABLE\nENABLE\n\u{200b}# d\nDISABLE\n");
}
