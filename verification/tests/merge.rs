use runfast::runner::{merge_runners, runners_from_configs, Runner, RunnerConfig};

fn conf(name: Option<&str>, cmd: Option<&str>, quit_fast: Option<bool>) -> RunnerConfig {
    RunnerConfig {
        name: name.map(|s| s.to_string()),
        cmd: cmd.map(|s| s.to_string()),
        quit_fast,
    }
}

#[test]
fn materialize_fills_defaults() {
    let rs = runners_from_configs(&vec![conf(None, None, None)]);
    assert_eq!(rs.len(), 1);
    assert_eq!(rs[0].name, "Default Runner Name");
    assert_eq!(rs[0].cmd, "echo 'command not set'");
    assert!(!rs[0].quit_fast);
}

#[test]
fn materialize_keeps_given_fields() {
    let rs = runners_from_configs(&vec![conf(Some("build"), Some("make"), Some(true))]);
    assert_eq!(rs.len(), 1);
    assert_eq!(rs[0].name, "build");
    assert_eq!(rs[0].cmd, "make");
    assert!(rs[0].quit_fast);
}

#[test]
fn merge_disjoint_keeps_everything() {
    let defaults = vec![
        conf(Some("d1"), Some("cmd d1"), None),
        conf(Some("d2"), Some("cmd d2"), None),
    ];
    let user = vec![
        conf(Some("u1"), Some("cmd u1"), None),
        conf(Some("u2"), Some("cmd u2"), None),
    ];
    let merged = merge_runners(&defaults, &user);
    let names: Vec<&str> = merged.iter().map(|r| r.name.as_str()).collect();
    assert_eq!(names, vec!["u1", "u2", "d2", "d1"]);
    for i in 0..names.len() {
        for j in (i + 1)..names.len() {
            assert_ne!(merged[i].name, merged[j].name);
        }
    }
}

#[test]
fn merge_defaults_come_in_reverse_source_order() {
    let defaults = vec![
        conf(Some("a"), None, None),
        conf(Some("b"), None, None),
        conf(Some("c"), None, None),
    ];
    let merged = merge_runners(&defaults, &vec![]);
    let names: Vec<&str> = merged.iter().map(|r| r.name.as_str()).collect();
    assert_eq!(names, vec!["c", "b", "a"]);
}

#[test]
fn merge_collision_user_wins_whole_entry() {
    let defaults = vec![
        conf(Some("shared"), Some("default command"), Some(false)),
        conf(Some("only-default"), Some("other"), None),
    ];
    let user = vec![conf(Some("shared"), Some("user command"), Some(true))];
    let merged = merge_runners(&defaults, &user);
    assert_eq!(merged.len(), 2);
    assert_eq!(merged[0].name, "shared");
    assert_eq!(merged[0].cmd, "user command");
    assert!(merged[0].quit_fast);
    assert_eq!(merged[1].name, "only-default");
}

#[test]
fn merge_collision_with_defaulted_name() {
    // A user entry without a name materializes to the default name and still
    // shadows a default-layer entry that carries that same name explicitly.
    let defaults = vec![conf(Some("Default Runner Name"), Some("default side"), None)];
    let user = vec![conf(None, Some("user side"), None)];
    let merged = merge_runners(&defaults, &user);
    assert_eq!(merged.len(), 1);
    assert_eq!(merged[0].cmd, "user side");
}

#[test]
fn merge_duplicate_names_within_defaults_kept_once() {
    let defaults = vec![
        conf(Some("dup"), Some("first"), None),
        conf(Some("dup"), Some("second"), None),
    ];
    let merged = merge_runners(&defaults, &vec![]);
    assert_eq!(merged.len(), 1);
    // Defaults are consumed from the end of the file: the later entry survives.
    assert_eq!(merged[0].cmd, "second");
}

#[test]
fn merge_empty_layers() {
    let merged = merge_runners(&vec![], &vec![]);
    assert_eq!(merged.len(), 0);
}

#[test]
fn find_runner_by_name_returns_last_match() {
    let runners = vec![
        Runner { name: "x".to_string(), cmd: "first".to_string(), quit_fast: false },
        Runner { name: "y".to_string(), cmd: "other".to_string(), quit_fast: false },
        Runner { name: "x".to_string(), cmd: "last".to_string(), quit_fast: true },
    ];
    let found = runfast::runner::find_runner_by_name(&runners, "x").unwrap();
    assert_eq!(found.cmd, "last");
    assert!(found.quit_fast);
    assert!(runfast::runner::find_runner_by_name(&runners, "z").is_none());
}
