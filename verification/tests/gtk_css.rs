use web_app_hub::gtk_css::{managed_block, merge_block, BLOCK_BEGIN, BLOCK_END};

#[test]
fn appends_to_empty() {
    let out = merge_block("", &managed_block());
    assert!(out.contains(BLOCK_BEGIN));
    assert!(out.contains("min-height: 46px"));
    assert!(out.ends_with('\n'));
}

#[test]
fn appends_after_user_content_with_newline() {
    let user = "window { background: red; }\n";
    let out = merge_block(user, &managed_block());
    assert!(out.starts_with(user));
    assert!(out.contains(BLOCK_BEGIN));
}

#[test]
fn appends_after_user_content_without_trailing_newline() {
    let user = "window { background: red; }";
    let out = merge_block(user, &managed_block());
    assert!(out.starts_with("window { background: red; }\n"));
    assert!(out.contains(BLOCK_BEGIN));
}

#[test]
fn replaces_existing_block_and_keeps_surrounding_content() {
    let user = format!(
        "header {{ a: b; }}\n{BLOCK_BEGIN}\nheaderbar {{ min-height: 99px; }}\n{BLOCK_END}\nfooter {{ c: d; }}\n"
    );
    let out = merge_block(&user, &managed_block());
    assert!(out.contains("header { a: b; }"));
    assert!(out.contains("footer { c: d; }"));
    assert!(out.contains("min-height: 46px"));
    assert!(!out.contains("min-height: 99px"));
    // Only one managed block remains.
    assert_eq!(out.matches(BLOCK_BEGIN).count(), 1);
}

#[test]
fn is_idempotent() {
    let once = merge_block("", &managed_block());
    let twice = merge_block(&once, &managed_block());
    assert_eq!(once, twice);
}

#[test]
fn managed_block_is_the_header_bar_rule_between_markers() {
    assert_eq!(
        managed_block(),
        format!("{BLOCK_BEGIN}\nheaderbar, .titlebar {{ min-height: 46px; }}\n{BLOCK_END}")
    );
}

#[test]
fn replacing_keeps_exact_surroundings() {
    let user = format!("a\n{BLOCK_BEGIN}\nold\n{BLOCK_END}\nb");
    let out = merge_block(&user, "NEW");
    assert_eq!(out, "a\nNEW\nb");
}

#[test]
fn appending_to_text_ending_a_line_adds_no_blank_line() {
    assert_eq!(merge_block("x\n", "B"), "x\nB\n");
    assert_eq!(merge_block("x", "B"), "x\nB\n");
    assert_eq!(merge_block("", "B"), "B\n");
}

#[test]
fn stray_end_marker_before_block_is_left_alone() {
    let user = format!("{BLOCK_END}\n{BLOCK_BEGIN}\nold\n{BLOCK_END}\n");
    let out = merge_block(&user, &managed_block());
    assert_eq!(out, format!("{BLOCK_END}\n{}\n", managed_block()));
    assert_eq!(out.matches(BLOCK_BEGIN).count(), 1);
    assert!(!out.contains("old"));
    assert_eq!(merge_block(&out, &managed_block()), out);
}

#[test]
fn begin_marker_without_end_marker_after_it_appends() {
    let user = format!("{BLOCK_END}\n{BLOCK_BEGIN}\n");
    let out = merge_block(&user, "B");
    assert_eq!(out, format!("{user}B\n"));
}

#[test]
fn begin_marker_alone_appends() {
    let user = format!("{BLOCK_BEGIN}\nrest");
    let out = merge_block(&user, "B");
    assert_eq!(out, format!("{user}\nB\n"));
}

#[test]
fn idempotent_after_replacing_an_old_block() {
    let user = format!("top\n{BLOCK_BEGIN}\nheaderbar {{ min-height: 10px; }}\n{BLOCK_END}\nbottom\n");
    let once = merge_block(&user, &managed_block());
    let twice = merge_block(&once, &managed_block());
    assert_eq!(once, twice);
    assert_eq!(
        once,
        format!("top\n{}\nbottom\n", managed_block())
    );
}

#[test]
fn markers_with_non_ascii_content_before_are_found() {
    let user = format!("é ü —\n{BLOCK_BEGIN}\nx\n{BLOCK_END}");
    let out = merge_block(&user, "Z");
    assert_eq!(out, "é ü —\nZ");
}

#[test]
fn lone_end_marker_is_settled_by_merging() {
    let user = format!("{BLOCK_END}\n");
    let once = merge_block(&user, &managed_block());
    let twice = merge_block(&once, &managed_block());
    assert_eq!(once, twice);
    assert_eq!(once, format!("{user}{}\n", managed_block()));
}

#[test]
fn lone_begin_marker_is_not_settled_by_merging() {
    let user = format!("{BLOCK_BEGIN}\n");
    let once = merge_block(&user, &managed_block());
    let twice = merge_block(&once, &managed_block());
    assert_ne!(once, twice);
}
