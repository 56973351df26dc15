use gitsync::conflict::{
    build_resolved_content, conflict_detail, parse_conflict_content, resolve_conflict_content,
};

#[test]
fn parses_simple_conflict() {
    let content = "line1\n<<<<<<< HEAD\nours line\n=======\ntheirs line\n>>>>>>> feature\nline2\n";
    let parsed = parse_conflict_content(content);
    assert_eq!(parsed.blocks.len(), 1);
    assert_eq!(parsed.blocks[0].ours_text, "ours line");
    assert_eq!(parsed.blocks[0].theirs_text, "theirs line");
    assert_eq!(
        parsed.merged_parts,
        vec!["line1\n".to_string(), "line2\n".to_string()]
    );
}

#[test]
fn rebuild_inserts_resolution_at_original_position() {
    let content = "line1\n<<<<<<< HEAD\nours line\n=======\ntheirs line\n>>>>>>> feature\nline2\n";
    let parsed = parse_conflict_content(content);
    let resolved = build_resolved_content(&parsed, &["picked line".to_string()]);
    assert_eq!(resolved, "line1\npicked line\nline2\n");
}

#[test]
fn empty_resolution_falls_back_to_ours() {
    let content = "line1\n<<<<<<< HEAD\nours line\n=======\ntheirs line\n>>>>>>> feature\nline2\n";
    let parsed = parse_conflict_content(content);
    let resolved = build_resolved_content(&parsed, &["".to_string()]);
    assert_eq!(resolved, "line1\nours line\nline2\n");
}

#[test]
fn multiple_blocks_stay_in_order() {
    let content = "a\n<<<<<<< H\no1\n=======\nt1\n>>>>>>> f\nmid\n<<<<<<< H\no2\n=======\nt2\n>>>>>>> f\nz\n";
    let parsed = parse_conflict_content(content);
    assert_eq!(parsed.blocks.len(), 2);
    assert_eq!(parsed.merged_parts.len(), 3);
    assert_eq!(parsed.merged_parts[1], "mid\n");
    let resolved = build_resolved_content(&parsed, &["r1".to_string(), "r2".to_string()]);
    assert_eq!(resolved, "a\nr1\nmid\nr2\nz\n");
}

#[test]
fn multiline_block_content_is_preserved() {
    let content = "a\n<<<<<<< H\no1\no2\n=======\nt1\nt2\nt3\n>>>>>>> f\nb\n";
    let parsed = parse_conflict_content(content);
    assert_eq!(parsed.blocks[0].ours_text, "o1\no2");
    assert_eq!(parsed.blocks[0].theirs_text, "t1\nt2\nt3");
    let resolved = build_resolved_content(&parsed, &["x\ny".to_string()]);
    assert_eq!(resolved, "a\nx\ny\nb\n");
}

#[test]
fn diff3_base_section_is_excluded() {
    let content = "a\n<<<<<<< HEAD\nours\n||||||| merged\nbase1\nbase2\n=======\ntheirs\n>>>>>>> f\nb\n";
    let parsed = parse_conflict_content(content);
    assert_eq!(parsed.blocks.len(), 1);
    assert_eq!(parsed.blocks[0].ours_text, "ours");
    assert_eq!(parsed.blocks[0].theirs_text, "theirs");
    let resolved = build_resolved_content(&parsed, &["theirs".to_string()]);
    assert_eq!(resolved, "a\ntheirs\nb\n");
}

#[test]
fn equals_sign_outside_conflict_is_plain_content() {
    let content = "Title\n=======\nbody\n";
    let parsed = parse_conflict_content(content);
    assert!(parsed.blocks.is_empty());
    assert_eq!(parsed.merged_parts.concat(), content);
}

#[test]
fn conflict_at_file_boundaries() {
    let content = "<<<<<<< H\nours\n=======\ntheirs\n>>>>>>> f\n";
    let parsed = parse_conflict_content(content);
    assert_eq!(parsed.blocks.len(), 1);
    assert_eq!(parsed.merged_parts[0], "");
    let resolved = build_resolved_content(&parsed, &["x".to_string()]);
    assert_eq!(resolved, "x\n");
}

#[test]
fn no_conflict_returns_content_unchanged() {
    let content = "just\nsome\nlines\n";
    let parsed = parse_conflict_content(content);
    assert!(parsed.blocks.is_empty());
    assert_eq!(build_resolved_content(&parsed, &[]), content);
}

#[test]
fn resolve_conflict_content_rewrites_blocks() {
    let content = "keep\n<<<<<<< HEAD\nours\n=======\ntheirs\n>>>>>>> feature\n";
    let resolved = resolve_conflict_content(content, &["chosen".to_string()]).unwrap();
    assert_eq!(resolved, "keep\nchosen\n");
}

#[test]
fn resolve_conflict_content_rejects_stale_block_count() {
    let content = "keep\n<<<<<<< HEAD\nours\n=======\ntheirs\n>>>>>>> feature\n";
    let err = resolve_conflict_content(content, &[]).unwrap_err();
    assert_eq!(err, "文件冲突块数量已变化（当前 1 个），请重新加载后再试");
    let err = resolve_conflict_content("plain\n", &["x".to_string()]).unwrap_err();
    assert!(err.contains("当前 0 个"));
}

#[test]
fn crlf_lines_lose_their_carriage_return() {
    let content = "a\r\n<<<<<<< H\r\no\r\n=======\r\nt\r\n>>>>>>> f\r\nb";
    let parsed = parse_conflict_content(content);
    assert_eq!(parsed.blocks[0].ours_text, "o");
    assert_eq!(parsed.blocks[0].theirs_text, "t");
    assert_eq!(parsed.merged_parts, vec!["a\n".to_string(), "b\n".to_string()]);
}

#[test]
fn unterminated_region_is_dropped() {
    let content = "a\n<<<<<<< H\no\n=======\nt\n";
    let parsed = parse_conflict_content(content);
    assert!(parsed.blocks.is_empty());
    assert_eq!(parsed.merged_parts, vec!["a\n".to_string()]);
}

#[test]
fn nested_start_marker_is_our_text() {
    let content = "<<<<<<< H\n<<<<<<< inner\n=======\nt\n>>>>>>> f\n";
    let parsed = parse_conflict_content(content);
    assert_eq!(parsed.blocks[0].ours_text, "<<<<<<< inner");
}

#[test]
fn conflict_detail_joins_sides_and_plain_text() {
    let content = "a\n<<<<<<< H\no1\n=======\nt1\n>>>>>>> f\nmid\n<<<<<<< H\no2\n=======\nt2\n>>>>>>> f\nz\n";
    let d = conflict_detail("f.txt".to_string(), content);
    assert_eq!(d.path, "f.txt");
    assert_eq!(d.ours, "o1\no2");
    assert_eq!(d.theirs, "t1\nt2");
    assert_eq!(d.merged, "a\nmid\nz\n");
    assert_eq!(d.conflict_blocks.len(), 2);
}
