use windows_bash_guard::{
    check_dev_stdin, check_node_eval_backslash_paths, check_trailing_backslash_quote,
    check_unquoted_backslash_paths, classify, drive_paths, find_node_eval_pos, normalize,
    quote_states, separator_runs, DrivePath, FixKind, FixOutcome, HazardKind, Quote,
};

#[test]
fn detects_dev_stdin_in_node_pipe() {
    let cmd = r#"cat data.json | node -e "const d=JSON.parse(require('fs').readFileSync('/dev/stdin','utf8'))""#;
    assert!(check_dev_stdin(cmd).is_some());
}

#[test]
fn ignores_dev_stdin_without_node() {
    let cmd = "cat /dev/stdin";
    assert!(check_dev_stdin(cmd).is_none());
}

#[test]
fn detects_trailing_backslash_quote() {
    let cmd = r#"ls -la "C:\src\el400\main\.github\workflows\""#;
    assert!(check_trailing_backslash_quote(cmd).is_some());
}

#[test]
fn detects_trailing_backslash_quote_in_grep() {
    let cmd = r#"grep -r "pattern" "C:\src\codjiflo\C\src\styles\" --include="*.css""#;
    assert!(check_trailing_backslash_quote(cmd).is_some());
}

#[test]
fn allows_properly_quoted_path() {
    let cmd = r#"ls -la "C:\src\project""#;
    assert!(check_trailing_backslash_quote(cmd).is_none());
}

#[test]
fn detects_backslash_path_in_node_e() {
    let cmd = r#"node -e "require('fs').readFileSync('C:\\src\\file.json','utf8')""#;
    assert!(check_node_eval_backslash_paths(cmd).is_some());
}

#[test]
fn ignores_node_e_without_drive_path() {
    let cmd = r#"node -e "console.log('hello')""#;
    assert!(check_node_eval_backslash_paths(cmd).is_none());
}

#[test]
fn ignores_drive_path_before_node_e() {
    let cmd = r#"cd C:\src && node -e "console.log('hello')""#;
    assert!(check_node_eval_backslash_paths(cmd).is_none());
}

#[test]
fn detects_unquoted_ls() {
    let cmd = r"ls -la C:\src\codeflow";
    assert!(check_unquoted_backslash_paths(cmd).is_some());
}

#[test]
fn detects_unquoted_rm() {
    let cmd = r"rm C:\src\codjiflo\main\file.json";
    assert!(check_unquoted_backslash_paths(cmd).is_some());
}

#[test]
fn detects_unquoted_tail() {
    let cmd = r"tail -50 C:\Users\pedro\AppData\Local\Temp\output.txt";
    assert!(check_unquoted_backslash_paths(cmd).is_some());
}

#[test]
fn allows_double_quoted_path() {
    let cmd = r#"ls -la "C:\src\project""#;
    assert!(check_unquoted_backslash_paths(cmd).is_none());
}

#[test]
fn allows_single_quoted_path() {
    let cmd = r"ls -la 'C:\src\project'";
    assert!(check_unquoted_backslash_paths(cmd).is_none());
}

#[test]
fn allows_forward_slash_path() {
    let cmd = "ls -la C:/src/project";
    assert!(check_unquoted_backslash_paths(cmd).is_none());
}

#[test]
fn allows_doubled_backslash_path() {
    let cmd = r"ls -la C:\\src\\project";
    assert!(check_unquoted_backslash_paths(cmd).is_none());
}

#[test]
fn allows_unix_style_cd() {
    let cmd = "cd /c/src/project && ls";
    assert!(check_unquoted_backslash_paths(cmd).is_none());
}

// ---- normalizer ----

fn changed(cmd: &str) -> (String, Vec<FixKind>) {
    match normalize(cmd.as_bytes()) {
        FixOutcome::Changed { new_command, applied_fixes } => {
            (String::from_utf8(new_command).unwrap(), applied_fixes)
        }
        FixOutcome::NoChange => panic!("expected a change for {cmd}"),
    }
}

fn unchanged(cmd: &str) -> bool {
    matches!(normalize(cmd.as_bytes()), FixOutcome::NoChange)
}

#[test]
fn normalizes_unquoted_drive_path() {
    let (out, fixes) = changed(r"ls -la C:\src\codeflow");
    assert_eq!(out, "ls -la C:/src/codeflow");
    assert_eq!(fixes, vec![FixKind::ForwardSlashes]);
}

#[test]
fn normalizes_device_literal_in_inline_script() {
    let (out, fixes) = changed(r#"cat d.json | node -e "require('fs').readFileSync('/dev/stdin','utf8')""#);
    assert_eq!(out, r#"cat d.json | node -e "require('fs').readFileSync(0,'utf8')""#);
    assert_eq!(fixes, vec![FixKind::DeviceAlias]);
}

#[test]
fn normalizes_stdout_and_stderr_literals() {
    let (out, _) = changed(r#"node -e "fs.writeFileSync("/dev/stdout", a); fs.writeFileSync('/dev/stderr', b)""#);
    assert_eq!(out, r#"node -e "fs.writeFileSync(1, a); fs.writeFileSync(2, b)""#);
}

#[test]
fn leaves_device_literal_without_inline_script() {
    assert!(unchanged("cat '/dev/stdin'"));
}

#[test]
fn normalizes_quad_backslash_path_and_device_together() {
    let cmd = r#"node -e "const a = require('fs').readFileSync('C:\\\\src\\\\in.json'); require('fs').writeFileSync('/dev/stdout', a)""#;
    let (out, fixes) = changed(cmd);
    assert_eq!(
        out,
        r#"node -e "const a = require('fs').readFileSync('C:/src/in.json'); require('fs').writeFileSync(1, a)""#
    );
    assert_eq!(fixes, vec![FixKind::DeviceAlias, FixKind::ForwardSlashes]);
}

#[test]
fn collapses_runs_of_one_two_and_four() {
    let one = changed(r"cp C:\a\b x").0;
    let two = changed(r"cp C:\\a\\b x").0;
    let four = changed(r"cp C:\\\\a\\\\b x").0;
    assert_eq!(one, "cp C:/a/b x");
    assert_eq!(two, one);
    assert_eq!(four, one);
}

#[test]
fn normalize_is_idempotent_on_examples() {
    for cmd in [
        r"ls -la C:\src\codeflow",
        r#"ls -la "C:\src\project\""#,
        r#"node -e "x('/dev/stdin')" C:\\a\\\b"#,
        r"echo C:\a\D:\b",
    ] {
        let (out, _) = changed(cmd);
        assert!(unchanged(&out), "{out}");
    }
}

#[test]
fn no_op_on_forward_slashes_and_plain_escapes() {
    for cmd in ["ls -la C:/src/project", r#"echo "line1\nline2""#, "", "echo \"Error: build failed\""] {
        assert!(unchanged(cmd));
        assert!(classify(cmd).is_none());
    }
}

#[test]
fn rejects_anchor_after_alphanumeric() {
    assert!(drive_paths(b"echo \"Error: build failed\"").is_empty());
    assert!(drive_paths(br"echo Error:\build").is_empty());
    assert_eq!(drive_paths(br"echo (C:\build)"), vec![DrivePath { start: 6, end: 14 }]);
}

#[test]
fn lists_every_drive_path() {
    let paths = drive_paths(br"cp C:\a\\b D:\c");
    assert_eq!(paths, vec![DrivePath { start: 3, end: 10 }, DrivePath { start: 11, end: 15 }]);
}

// ---- classifier ----

#[test]
fn classifies_trailing_quote_collision() {
    let f = classify(r#"ls -la "C:\src\project\""#).unwrap();
    assert_eq!(f.kind, HazardKind::TrailingQuoteCollision);
    assert_eq!(f.offset, 22);
    assert!(classify(r#"ls -la "C:\src\project""#).is_none());
}

#[test]
fn classifies_unquoted_loss() {
    let f = classify(r"rm C:\src\a\file.json").unwrap();
    assert_eq!(f.kind, HazardKind::UnquotedBackslashLoss);
    assert_eq!(f.offset, 3);
    assert!(f.message.starts_with("BLOCKED: Unquoted Windows path"));
    assert!(classify(r"rm C:\\src\\a\\file.json").is_none());
}

#[test]
fn classifies_device_before_other_hazards() {
    let f = classify(r"node -e 'x(/dev/stderr)' C:\src").unwrap();
    assert_eq!(f.kind, HazardKind::SpecialDeviceAlias);
    assert_eq!(f.offset, 11);
    assert!(f.message.contains("/dev/stderr"));
}

#[test]
fn classifies_inline_script_escape() {
    let f = classify(r#"node -e "require('fs').readFileSync('C:\tmp\f.json')""#).unwrap();
    assert_eq!(f.kind, HazardKind::InlineScriptEscape);
    assert_eq!(f.offset, 37);
}

#[test]
fn trailing_quote_needs_an_intended_end() {
    assert!(check_trailing_backslash_quote(r#"echo "C:\a\"b""#).is_none());
    assert!(check_trailing_backslash_quote(r#"echo "C:\a\";ls"#).is_some());
    assert!(check_trailing_backslash_quote(r#"echo 'x' "no drive\" "#).is_none());
}

#[test]
fn finds_first_eval_marker_in_order() {
    assert_eq!(find_node_eval_pos("x; node --eval 1; node -e 2"), Some(18));
    assert_eq!(find_node_eval_pos("node --eval 1"), Some(0));
    assert_eq!(find_node_eval_pos("node x.js"), None);
}

#[test]
fn scanner_tracks_quotes_and_escapes() {
    let st = quote_states(br#"a'b"c'\"d"#);
    assert_eq!(st.len(), 10);
    assert_eq!(st[0].quote, Quote::Unquoted);
    assert_eq!(st[2].quote, Quote::SingleQuoted);
    assert_eq!(st[4].quote, Quote::SingleQuoted);
    assert_eq!(st[6].quote, Quote::Unquoted);
    assert!(st[7].pending_escape);
    assert_eq!(st[8].quote, Quote::Unquoted);
    assert!(!st[8].pending_escape);
    assert_eq!(st[9].quote, Quote::Unquoted);
}

#[test]
fn unterminated_quote_is_residual_state() {
    let st = quote_states(br#"echo "abc"#);
    assert_eq!(st[st.len() - 1].quote, Quote::DoubleQuoted);
}

#[test]
fn fix_descriptions_are_distinct() {
    assert_ne!(FixKind::DeviceAlias.description(), FixKind::ForwardSlashes.description());
}

#[test]
fn lists_separator_runs_of_a_path() {
    let cmd: &[u8] = br"cp C:\\a\b\\\\c x";
    let paths = drive_paths(cmd);
    assert_eq!(paths, vec![DrivePath { start: 3, end: 15 }]);
    assert_eq!(separator_runs(cmd, paths[0]), vec![5, 8, 10]);
}

#[test]
fn script_path_after_any_marker_is_found() {
    let cmd = r#"node --eval "f('C:\tmp')"; node -e 1"#;
    let f = classify(cmd).unwrap();
    assert_eq!(f.kind, HazardKind::InlineScriptEscape);
    assert_eq!(f.offset, 16);
    assert!(check_node_eval_backslash_paths(r#"node -e "x('C:\\')""#).is_none());
    assert!(check_node_eval_backslash_paths(r"node -e 'f(D:\tmp)'")
        .unwrap()
        .starts_with("BLOCKED: Windows backslash paths in node -e"));
}

#[test]
fn drive_paths_do_not_overlap() {
    let paths = drive_paths(br"echo C:\a\D:\b");
    assert_eq!(paths, vec![DrivePath { start: 5, end: 10 }, DrivePath { start: 10, end: 14 }]);
    let (out, _) = changed(r"echo C:\a\D:\b");
    assert_eq!(out, "echo C:/a/D:/b");
}

#[test]
fn messages_are_fixed_texts() {
    assert!(check_trailing_backslash_quote(r#"ls -la "C:\src\project\""#)
        .unwrap()
        .starts_with("BLOCKED: Trailing backslash before closing double-quote"));
    assert!(check_unquoted_backslash_paths(r"rm C:\src\a\file.json")
        .unwrap()
        .starts_with("BLOCKED: Unquoted Windows path"));
    let one = check_node_eval_backslash_paths(r#"node -e "f('C:\tmp')""#);
    let two = check_node_eval_backslash_paths(r#"node -e "f('C:\\tmp')""#);
    let four = check_node_eval_backslash_paths(r#"node -e "f('C:\\\\tmp')""#);
    assert!(one.is_some());
    assert_eq!(one, two);
    assert_eq!(one, four);
    assert_eq!(FixKind::ForwardSlashes.description(), "converted backslashes in Windows drive paths to forward slashes");
}
