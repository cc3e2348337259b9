use exec_commands::config::{build_invocation, compose_path, Config};
use exec_commands::refresh::{
    build_commands, exec_commands, insert_command_outputs, merge_outputs, should_abort, ScanError,
    Step, StepKind, StepOutcome,
};
use exec_commands::scan::remove_existing_command_outputs;

/// An in-memory stand-in for the shell: it maps each invocation text to
/// a fixed outcome, and the driver loop aborts exactly where the real
/// one would.
fn run_plan(plan: &[Step], fake: &dyn Fn(&[u8]) -> (bool, Vec<u8>)) -> Vec<StepOutcome> {
    let mut outcomes = Vec::new();
    for step in plan {
        let (success, output) = fake(&step.text);
        outcomes.push(StepOutcome { success, output });
        if should_abort(step, outcomes.last().unwrap()) {
            break;
        }
    }
    outcomes
}

fn refresh(doc: &str, config: &Config, fake: &dyn Fn(&[u8]) -> (bool, Vec<u8>)) -> Result<
    (bool, String),
    ScanError,
> {
    let stripped = remove_existing_command_outputs(&doc.as_bytes().to_vec());
    let plan = build_commands(&stripped, config);
    let outcomes = run_plan(&plan, fake);
    let (ok, text) = insert_command_outputs(&stripped, config, &outcomes)?;
    Ok((ok, String::from_utf8(text).unwrap()))
}

fn echoing(cmd: &[u8]) -> (bool, Vec<u8>) {
    // stands in for a shell in which `echo hi` prints "hi\n"
    if cmd == b"echo hi" {
        (true, b"hi\n".to_vec())
    } else {
        (true, Vec::new())
    }
}

#[test]
fn scenario_refresh_inserts_fresh_output() {
    let doc = "```console\n$ echo hi\nstale-old-output\n```\n";
    let (ok, text) = refresh(doc, &Config::new(), &echoing).unwrap();
    assert!(ok);
    assert_eq!(text, "```console\n$ echo hi\nhi\n```\n");
}

#[test]
fn round_trip_refresh_then_strip() {
    let doc = "intro\n```console\n$ echo hi\nold\n```\ntail\n";
    let (_, text) = refresh(doc, &Config::new(), &echoing).unwrap();
    let strip_of_refresh = remove_existing_command_outputs(&text.as_bytes().to_vec());
    let strip_of_doc = remove_existing_command_outputs(&doc.as_bytes().to_vec());
    assert_eq!(strip_of_refresh, strip_of_doc);
}

#[test]
fn fences_survive_strip_and_refresh_in_order() {
    let doc = "```console\n$ echo hi\n```\nmid\n```console continued\n$ echo hi\n```\n";
    let stripped = String::from_utf8(remove_existing_command_outputs(&doc.as_bytes().to_vec()))
        .unwrap();
    let (_, refreshed) = refresh(doc, &Config::new(), &echoing).unwrap();
    let fences = |t: &str| -> Vec<String> {
        t.lines()
            .filter(|l| l.starts_with("```"))
            .map(|l| l.to_string())
            .collect()
    };
    let expected =
        vec!["```console", "```", "```console continued", "```"]
            .into_iter()
            .map(|s| s.to_string())
            .collect::<Vec<_>>();
    assert_eq!(fences(doc), expected);
    assert_eq!(fences(&stripped), expected);
    assert_eq!(fences(&refreshed), expected);
}

#[test]
fn output_gains_exactly_one_trailing_newline() {
    let doc = b"```console\n$ produce\n```\n".to_vec();
    let merged = merge_outputs(&doc, &vec![b"a".to_vec()]).unwrap();
    assert_eq!(String::from_utf8(merged).unwrap(), "```console\n$ produce\na\n```\n");
}

#[test]
fn output_with_trailing_newline_gains_none() {
    let doc = b"```console\n$ produce\n```\n".to_vec();
    let merged = merge_outputs(&doc, &vec![b"a\n".to_vec()]).unwrap();
    assert_eq!(String::from_utf8(merged).unwrap(), "```console\n$ produce\na\n```\n");
}

#[test]
fn empty_output_inserts_no_region() {
    let doc = b"```console\n$ silent\n```\n".to_vec();
    let merged = merge_outputs(&doc, &vec![Vec::new()]).unwrap();
    assert_eq!(String::from_utf8(merged).unwrap(), "```console\n$ silent\n```\n");
}

#[test]
fn merge_rejects_wrong_output_count() {
    let doc = b"```console\n$ one\n```\n".to_vec();
    assert_eq!(merge_outputs(&doc, &Vec::new()), Err(ScanError::OutputMismatch));
}

#[test]
fn alternative_command_substitution() {
    let mut config = Config::new();
    config.alt.push((b"pytest".to_vec(), b"pytest -q".to_vec()));
    let doc = b"```console\n$ pytest\n```\n".to_vec();
    let plan = build_commands(&doc, &config);
    let commands: Vec<&Step> =
        plan.iter().filter(|s| matches!(s.kind, StepKind::CommandStep)).collect();
    assert_eq!(commands.len(), 1);
    // the executed text passed the table...
    assert_eq!(commands[0].text, b"pytest -q".to_vec());
    // ...diagnostics still name the command as written...
    assert_eq!(commands[0].shown, b"pytest".to_vec());
    // ...while the document still shows the original command line
    let outcomes = vec![StepOutcome { success: true, output: b"ok\n".to_vec() }];
    let (ok, text) = insert_command_outputs(&doc, &config, &outcomes).unwrap();
    assert!(ok);
    assert_eq!(String::from_utf8(text).unwrap(), "```console\n$ pytest\nok\n```\n");
}

#[test]
fn hook_failure_aborts_before_block_commands() {
    let mut config = Config::new();
    config.hooks.pre_block.push(b"exit 1".to_vec());
    let doc = "```console\n$ echo hi\n```\n";
    let stripped = remove_existing_command_outputs(&doc.as_bytes().to_vec());
    let plan = build_commands(&stripped, &config);
    // the pre-block hook stands before the block's command
    assert!(matches!(plan[0].kind, StepKind::PreBlockHook));
    assert!(matches!(plan[1].kind, StepKind::CommandStep));

    let mut executed: Vec<Vec<u8>> = Vec::new();
    let mut outcomes = Vec::new();
    for step in &plan {
        executed.push(step.text.clone());
        let success = step.text != b"exit 1".to_vec();
        outcomes.push(StepOutcome { success, output: Vec::new() });
        if should_abort(step, outcomes.last().unwrap()) {
            break;
        }
    }
    // the run stopped at the failing hook: the command never ran
    assert_eq!(executed, vec![b"exit 1".to_vec()]);
    assert_eq!(
        insert_command_outputs(&stripped, &config, &outcomes),
        Err(ScanError::HookFailed)
    );
}

#[test]
fn hook_ordering_around_blocks_and_file() {
    let mut config = Config::new();
    config.hooks.pre_file.push(b"pf".to_vec());
    config.hooks.post_file.push(b"qf".to_vec());
    config.hooks.pre_block.push(b"pb".to_vec());
    config.hooks.post_block.push(b"qb".to_vec());
    let doc = b"```console\n$ c1\n```\ntext\n```console\n$ c2\n```\n".to_vec();
    let plan = build_commands(&doc, &config);
    let kinds: Vec<StepKind> = plan.iter().map(|s| s.kind).collect();
    assert_eq!(
        kinds,
        vec![
            StepKind::PreFileHook,
            StepKind::PreBlockHook,
            StepKind::CommandStep,
            StepKind::PostBlockHook,
            StepKind::PreBlockHook,
            StepKind::CommandStep,
            StepKind::PostBlockHook,
            StepKind::PostFileHook,
        ]
    );
}

#[test]
fn unclosed_block_runs_no_post_block_hook() {
    let mut config = Config::new();
    config.hooks.pre_block.push(b"pb".to_vec());
    config.hooks.post_block.push(b"qb".to_vec());
    let doc = b"```console\n$ c1\n".to_vec();
    let plan = build_commands(&doc, &config);
    let kinds: Vec<StepKind> = plan.iter().map(|s| s.kind).collect();
    assert_eq!(kinds, vec![StepKind::PreBlockHook, StepKind::CommandStep]);
}

#[test]
fn fence_open_lookalike_inside_block_is_stale_output() {
    // inside a console block only the exact "```" line matters; a line
    // that looks like a fence-open is stale output and is dropped
    let doc = "```console\n$ ls\n```console\n```\n";
    let stripped = remove_existing_command_outputs(&doc.as_bytes().to_vec());
    assert_eq!(String::from_utf8(stripped).unwrap(), "```console\n$ ls\n```\n");
}

#[test]
fn command_failure_is_recorded_not_fatal() {
    let doc = b"```console\n$ bad\n$ good\n```\n".to_vec();
    let config = Config::new();
    let outcomes = vec![
        StepOutcome { success: false, output: b"boom\n".to_vec() },
        StepOutcome { success: true, output: b"fine\n".to_vec() },
    ];
    let (ok, text) = insert_command_outputs(&doc, &config, &outcomes).unwrap();
    assert!(!ok);
    // both commands still ran and both outputs are in the document
    assert_eq!(
        String::from_utf8(text).unwrap(),
        "```console\n$ bad\nboom\n$ good\nfine\n```\n"
    );
}

#[test]
fn incomplete_run_without_hook_failure_is_an_error() {
    let doc = b"```console\n$ one\n```\n".to_vec();
    let config = Config::new();
    assert_eq!(
        insert_command_outputs(&doc, &config, &Vec::new()),
        Err(ScanError::IncompleteRun)
    );
}

#[test]
fn refresh_of_document_without_blocks_is_identity() {
    let doc = "just prose\nmore prose\n";
    let (ok, text) = refresh(doc, &Config::new(), &echoing).unwrap();
    assert!(ok);
    assert_eq!(text, doc);
}

#[test]
fn block_without_commands_gets_no_region() {
    let doc = "```console\nstale\n```\n";
    let (ok, text) = refresh(doc, &Config::new(), &echoing).unwrap();
    assert!(ok);
    assert_eq!(text, "```console\n```\n");
}

#[test]
fn multiple_commands_keep_their_order() {
    let doc = "```console\n$ first\n$ second\n```\n";
    let fake = |cmd: &[u8]| -> (bool, Vec<u8>) {
        if cmd == b"first" {
            (true, b"1\n".to_vec())
        } else {
            (true, b"2\n".to_vec())
        }
    };
    let (ok, text) = refresh(doc, &Config::new(), &fake).unwrap();
    assert!(ok);
    assert_eq!(text, "```console\n$ first\n1\n$ second\n2\n```\n");
}

#[test]
fn exec_commands_reads_outcomes_back() {
    let plan = vec![
        Step { kind: StepKind::PreFileHook, text: b"h".to_vec(), shown: b"h".to_vec() },
        Step { kind: StepKind::CommandStep, text: b"c".to_vec(), shown: b"c".to_vec() },
    ];
    let outcomes = vec![
        StepOutcome { success: true, output: Vec::new() },
        StepOutcome { success: true, output: b"out\n".to_vec() },
    ];
    let (ok, outs) = exec_commands(&plan, &outcomes).unwrap();
    assert!(ok);
    assert_eq!(outs, vec![b"out\n".to_vec()]);
}

#[test]
fn compose_path_joins_and_appends_environment() {
    let parts = vec![b"/a".to_vec(), b"/b".to_vec()];
    let joined = compose_path(&parts, &b"/usr/bin:/bin".to_vec());
    assert_eq!(joined, b"/a:/b:/usr/bin:/bin".to_vec());
}

#[test]
fn invocation_script_exports_path_and_changes_directory() {
    let mut config = Config::new();
    config.pwd = b"/tmp".to_vec();
    config.path = b"/x:/usr/bin".to_vec();
    let script = build_invocation(&config, &b"echo hi".to_vec());
    assert_eq!(
        String::from_utf8(script).unwrap(),
        "set -eu -o pipefail\nexport PATH=/x:/usr/bin\ncd /tmp\necho hi\n"
    );
}
