use exec_commands::config::Config;
use exec_commands::scan::{
    annotate_lines, is_close_fence, is_command_line, is_comment_line, is_open_fence,
    remove_existing_command_outputs, extract_payload, LineClass,
};
use exec_commands::lines::{join_lines, split_lines};
use exec_commands::check_divergence;

fn strip(doc: &str) -> String {
    let bytes = doc.as_bytes().to_vec();
    let out = remove_existing_command_outputs(&bytes);
    String::from_utf8(out).unwrap()
}

#[test]
fn scenario_strip_removes_stale_output() {
    let doc = "```console\n$ echo hi\nstale-old-output\n```\n";
    assert_eq!(strip(doc), "```console\n$ echo hi\n```\n");
}

#[test]
fn strip_keeps_prose_and_other_fences() {
    let doc = "# Title\n\n```python\nprint(1)\n```\nafter\n";
    assert_eq!(strip(doc), doc);
}

#[test]
fn strip_is_idempotent_on_concrete_document() {
    let doc = "intro\n```console\n$ ls\nold1\nold2\n```\ntail\n";
    let once = strip(doc);
    let twice = strip(&once);
    assert_eq!(once, twice);
    assert_eq!(once, "intro\n```console\n$ ls\n```\ntail\n");
}

#[test]
fn strip_keeps_comment_lines() {
    let doc = "```console\n$ ls\n  # a note\nnoise\n```\n";
    assert_eq!(strip(doc), "```console\n$ ls\n  # a note\n```\n");
}

#[test]
fn three_space_comment_is_stale_output() {
    let doc = "```console\n$ ls\n   # not a comment\n```\n";
    assert_eq!(strip(doc), "```console\n$ ls\n```\n");
}

#[test]
fn inexact_close_fence_is_stale_output() {
    // only the exact line "```" closes a console block
    let doc = "```console\n$ ls\n``` \n```\n";
    assert_eq!(strip(doc), "```console\n$ ls\n```\n");
}

#[test]
fn strip_of_empty_document_is_empty() {
    assert_eq!(strip(""), "");
}

#[test]
fn strip_normalizes_missing_final_newline() {
    assert_eq!(strip("one line"), "one line\n");
}

#[test]
fn open_fence_forms() {
    assert!(is_open_fence(&b"```console".to_vec()));
    assert!(is_open_fence(&b"```console   ".to_vec()));
    assert!(is_open_fence(&b"```console continued".to_vec()));
    assert!(is_open_fence(&b"```console \t continued  ".to_vec()));
    assert!(!is_open_fence(&b"```consolecontinued".to_vec()));
    assert!(!is_open_fence(&b"```console continued x".to_vec()));
    assert!(!is_open_fence(&b"```console extra".to_vec()));
    assert!(!is_open_fence(&b"```python".to_vec()));
    assert!(!is_open_fence(&b"``` console".to_vec()));
}

#[test]
fn close_fence_is_exact() {
    assert!(is_close_fence(&b"```".to_vec()));
    assert!(!is_close_fence(&b"``` ".to_vec()));
    assert!(!is_close_fence(&b"````".to_vec()));
    assert!(!is_close_fence(&b"``".to_vec()));
}

#[test]
fn command_and_comment_markers() {
    assert!(is_command_line(&b"$ ls -la".to_vec()));
    assert!(!is_command_line(&b"$ls".to_vec()));
    assert!(!is_command_line(&b"$".to_vec()));
    assert!(is_comment_line(&b"  # note".to_vec()));
    assert!(!is_comment_line(&b" # note".to_vec()));
    assert!(!is_comment_line(&b"   # note".to_vec()));
}

#[test]
fn payload_is_trimmed() {
    assert_eq!(extract_payload(&b"$ ls -la".to_vec()), b"ls -la".to_vec());
    assert_eq!(extract_payload(&b"$   spaced   ".to_vec()), b"spaced".to_vec());
    assert_eq!(extract_payload(&b"$  ".to_vec()), b"".to_vec());
}

#[test]
fn classifier_labels_lines_in_one_pass() {
    let doc = b"text\n```console\n$ ls\n  # c\nnoise\n```\nafter\n".to_vec();
    let ls = split_lines(&doc);
    let classes = annotate_lines(&ls);
    assert_eq!(
        classes,
        vec![
            LineClass::Text,
            LineClass::OpenFence,
            LineClass::CommandLine,
            LineClass::CommentLine,
            LineClass::OutputLine,
            LineClass::CloseFence,
            LineClass::Text,
        ]
    );
}

#[test]
fn continued_fence_opens_a_block() {
    let doc = b"```console continued\nnoise\n```\n".to_vec();
    let ls = split_lines(&doc);
    let classes = annotate_lines(&ls);
    assert_eq!(
        classes,
        vec![LineClass::OpenFence, LineClass::OutputLine, LineClass::CloseFence]
    );
}

#[test]
fn split_and_join_lines_round_trip() {
    let doc = b"a\nb\n\nc\n".to_vec();
    let ls = split_lines(&doc);
    assert_eq!(ls, vec![b"a".to_vec(), b"b".to_vec(), b"".to_vec(), b"c".to_vec()]);
    assert_eq!(join_lines(&ls), doc);
}

#[test]
fn check_divergence_compares_bytes() {
    assert!(!check_divergence(&b"same".to_vec(), &b"same".to_vec()));
    assert!(check_divergence(&b"old".to_vec(), &b"new".to_vec()));
    assert!(check_divergence(&b"a".to_vec(), &b"ab".to_vec()));
}

#[test]
fn substitute_uses_table_or_passes_through() {
    let mut config = Config::new();
    config.alt.push((b"pytest".to_vec(), b"pytest -q".to_vec()));
    assert_eq!(config.substitute(&b"pytest".to_vec()), b"pytest -q".to_vec());
    assert_eq!(config.substitute(&b"pytest -x".to_vec()), b"pytest -x".to_vec());
}
