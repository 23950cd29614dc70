use runfast::flow::{plan_maintenance, Maintenance};
use runfast::runner::Runner;

#[test]
fn clean_and_reset_together_are_refused() {
    // Nothing else may happen in that case: the one decision is the refusal.
    assert_eq!(plan_maintenance(true, true), Maintenance::RefuseBoth);
}

#[test]
fn single_flags_select_their_operation() {
    assert_eq!(plan_maintenance(true, false), Maintenance::Clean);
    assert_eq!(plan_maintenance(false, true), Maintenance::Reset);
    assert_eq!(plan_maintenance(false, false), Maintenance::Proceed);
}

#[test]
fn quit_fast_answers() {
    let mut r = Runner { name: "n".to_string(), cmd: "c".to_string(), quit_fast: true };
    r.get_quit_fast(" y \n");
    assert!(!r.quit_fast);
    r.get_quit_fast("N");
    assert!(r.quit_fast);
    r.get_quit_fast("whatever");
    assert!(r.quit_fast);
    r.get_quit_fast("");
    assert!(r.quit_fast);
    r.get_quit_fast("Y");
    assert!(!r.quit_fast);
    assert_eq!(r.name, "n");
    assert_eq!(r.cmd, "c");
}

#[test]
fn selection_text_is_the_name() {
    let r = Runner { name: "deploy".to_string(), cmd: "x".to_string(), quit_fast: false };
    assert_eq!(r.text(), "deploy");
}

#[test]
fn preview_lists_all_fields() {
    let r = Runner { name: "deploy".to_string(), cmd: "make ship".to_string(), quit_fast: false };
    assert_eq!(r.preview(), "[PARAMS]\nname=deploy\ncmd=make ship\nquit_fast=false\n");
    let q = Runner { name: "a".to_string(), cmd: "b".to_string(), quit_fast: true };
    assert_eq!(q.preview(), "[PARAMS]\nname=a\ncmd=b\nquit_fast=true\n");
}
