use clown::config::Binding;
use clown::config::Config;
use clown::config::Entry;
use clown::config::Target;
use clown::config::VarTable;
use clown::engine::default_target;
use clown::engine::message;
use clown::engine::spawn_failure;
use clown::engine::split_command;
use clown::engine::step_outcome;
use clown::engine::RunError;

fn target(deps: &[&str], steps: &[&str]) -> Target {
    Target {
        desc: None,
        deps: deps.iter().map(|d| d.to_string()).collect(),
        steps: steps.iter().map(|s| s.to_string()).collect(),
    }
}

fn config(entries: Vec<(&str, Target)>) -> Config {
    Config {
        entries: entries
            .into_iter()
            .map(|(n, t)| Entry { name: n.to_string(), target: t })
            .collect(),
    }
}

fn no_vars() -> VarTable {
    VarTable { bindings: Vec::new() }
}

fn run(cfg: &Config, vars: &VarTable, name: &str) -> (Result<(), RunError>, Vec<String>, Vec<String>, Vec<String>) {
    let mut visited = Vec::new();
    let mut stack = Vec::new();
    let mut cmds = Vec::new();
    let r = cfg.run_target(&name.to_string(), vars, &mut visited, &mut stack, &mut cmds);
    (r, visited, stack, cmds)
}

#[test]
fn trivial_target_runs_and_is_visited() {
    let cfg = config(vec![("tidy", target(&[], &[]))]);
    let (r, visited, stack, cmds) = run(&cfg, &no_vars(), "tidy");
    assert!(r.is_ok());
    assert!(cmds.is_empty());
    assert!(visited.contains(&"tidy".to_string()));
    assert!(stack.is_empty());
}

#[test]
fn two_cycle_reports_path() {
    let cfg = config(vec![
        ("a", target(&["b"], &[])),
        ("b", target(&["a"], &[])),
    ]);
    let (r, _visited, stack, cmds) = run(&cfg, &no_vars(), "a");
    assert!(stack.is_empty());
    assert!(cmds.is_empty());
    match r {
        Err(RunError::DependencyCycle { path }) => {
            assert_eq!(path, vec!["a".to_string(), "b".to_string(), "a".to_string()]);
        },
        _ => panic!("expected a dependency cycle"),
    }
}

#[test]
fn self_cycle_reports_path() {
    let cfg = config(vec![("a", target(&["a"], &[]))]);
    let (r, _visited, _stack, _cmds) = run(&cfg, &no_vars(), "a");
    match r {
        Err(e @ RunError::DependencyCycle { .. }) => {
            assert_eq!(message(&e), "Dependency cycle detected: a -> a".to_string());
        },
        _ => panic!("expected a dependency cycle"),
    }
}

#[test]
fn diamond_runs_shared_dependency_once() {
    let cfg = config(vec![
        ("top", target(&["left", "right"], &["echo top"])),
        ("left", target(&["base"], &["echo left"])),
        ("right", target(&["base"], &["echo right"])),
        ("base", target(&[], &["echo base"])),
    ]);
    let (r, visited, stack, cmds) = run(&cfg, &no_vars(), "top");
    assert!(r.is_ok());
    assert!(stack.is_empty());
    assert_eq!(cmds, vec![
        "echo base".to_string(),
        "echo left".to_string(),
        "echo right".to_string(),
        "echo top".to_string(),
    ]);
    assert_eq!(cmds.iter().filter(|c| *c == "echo base").count(), 1);
    assert_eq!(visited, vec![
        "base".to_string(),
        "left".to_string(),
        "right".to_string(),
        "top".to_string(),
    ]);
}

#[test]
fn run_all_builds_profile() {
    let cfg = config(vec![
        ("build", target(&[], &["echo build-${profile}"])),
        ("all", target(&["build"], &[])),
    ]);
    let vars = VarTable {
        bindings: vec![Binding { name: "profile".to_string(), value: "release".to_string() }],
    };
    let (r, visited, stack, cmds) = run(&cfg, &vars, "all");
    assert!(r.is_ok());
    assert!(stack.is_empty());
    assert_eq!(cmds, vec!["echo build-release".to_string()]);
    assert!(visited.contains(&"build".to_string()));
    assert!(visited.contains(&"all".to_string()));
}

#[test]
fn undefined_target_not_found() {
    let cfg = config(vec![("build", target(&[], &["echo hi"]))]);
    let (r, visited, stack, cmds) = run(&cfg, &no_vars(), "deploy");
    assert!(cmds.is_empty());
    assert!(visited.is_empty());
    assert!(stack.is_empty());
    match r {
        Err(e @ RunError::TargetNotFound { .. }) => {
            assert_eq!(message(&e), "Target 'deploy' not found".to_string());
        },
        _ => panic!("expected target not found"),
    }
}

#[test]
fn missing_dependency_not_found() {
    let cfg = config(vec![("a", target(&["phantom"], &["echo a"]))]);
    let (r, _visited, stack, cmds) = run(&cfg, &no_vars(), "a");
    assert!(stack.is_empty());
    assert!(cmds.is_empty());
    match r {
        Err(RunError::TargetNotFound { name }) => assert_eq!(name, "phantom".to_string()),
        _ => panic!("expected target not found"),
    }
}

#[test]
fn visited_target_is_not_replanned() {
    let cfg = config(vec![("a", target(&[], &["echo a"]))]);
    let vars = no_vars();
    let mut visited = Vec::new();
    let mut stack = Vec::new();
    let mut cmds = Vec::new();
    let first = cfg.run_target(&"a".to_string(), &vars, &mut visited, &mut stack, &mut cmds);
    assert!(first.is_ok());
    assert_eq!(cmds.len(), 1);
    let again = cfg.run_target(&"a".to_string(), &vars, &mut visited, &mut stack, &mut cmds);
    assert!(again.is_ok());
    assert_eq!(cmds.len(), 1);
}

#[test]
fn blank_steps_are_silent_noops() {
    let cfg = config(vec![("a", target(&[], &["", "   ", "echo hi"]))]);
    let (r, _visited, _stack, cmds) = run(&cfg, &no_vars(), "a");
    assert!(r.is_ok());
    assert_eq!(cmds, vec!["echo hi".to_string()]);
}

#[test]
fn dependencies_run_before_steps_in_order() {
    let cfg = config(vec![
        ("c", target(&["a", "b"], &["echo c"])),
        ("a", target(&[], &["echo a"])),
        ("b", target(&[], &["echo b"])),
    ]);
    let (r, _visited, _stack, cmds) = run(&cfg, &no_vars(), "c");
    assert!(r.is_ok());
    assert_eq!(cmds, vec!["echo a".to_string(), "echo b".to_string(), "echo c".to_string()]);
}

#[test]
fn duplicate_dependency_planned_once() {
    let cfg = config(vec![
        ("a", target(&["b", "b"], &[])),
        ("b", target(&[], &["echo b"])),
    ]);
    let (r, _visited, _stack, cmds) = run(&cfg, &no_vars(), "a");
    assert!(r.is_ok());
    assert_eq!(cmds, vec!["echo b".to_string()]);
}

#[test]
fn failing_dependency_stops_planning_siblings() {
    let cfg = config(vec![
        ("c", target(&["a", "phantom", "b"], &["echo c"])),
        ("a", target(&[], &["echo a"])),
        ("b", target(&[], &["echo b"])),
    ]);
    let (r, _visited, stack, cmds) = run(&cfg, &no_vars(), "c");
    assert!(stack.is_empty());
    assert_eq!(cmds, vec!["echo a".to_string()]);
    match r {
        Err(RunError::TargetNotFound { name }) => assert_eq!(name, "phantom".to_string()),
        _ => panic!("expected target not found"),
    }
}

#[test]
fn split_command_on_whitespace() {
    let parts = split_command("echo  a\tb");
    assert_eq!(parts, vec!["echo".to_string(), "a".to_string(), "b".to_string()]);
}

#[test]
fn split_command_empty_and_blank() {
    assert!(split_command("").is_empty());
    assert!(split_command("   ").is_empty());
}

#[test]
fn split_command_leading_and_trailing_spaces() {
    let parts = split_command("  run now ");
    assert_eq!(parts, vec!["run".to_string(), "now".to_string()]);
}

#[test]
fn split_command_on_other_unicode_whitespace() {
    let parts = split_command("a\u{000B}b\u{00A0}c\u{2003}d");
    assert_eq!(parts, vec![
        "a".to_string(),
        "b".to_string(),
        "c".to_string(),
        "d".to_string(),
    ]);
}

#[test]
fn unicode_blank_step_is_silent_noop() {
    let cfg = config(vec![("a", target(&[], &["\u{00A0}\u{2028}", "echo hi"]))]);
    let (r, _visited, _stack, cmds) = run(&cfg, &no_vars(), "a");
    assert!(r.is_ok());
    assert_eq!(cmds, vec!["echo hi".to_string()]);
}

#[test]
fn step_outcome_zero_exit_proceeds() {
    let r = step_outcome(true, &"echo hi".to_string());
    assert!(r.is_ok());
}

#[test]
fn step_outcome_nonzero_exit_fails() {
    let r = step_outcome(false, &"false".to_string());
    match r {
        Err(e @ RunError::CommandFailed { .. }) => {
            assert_eq!(message(&e), "Command failed: false".to_string());
        },
        _ => panic!("expected a command failure"),
    }
}

#[test]
fn spawn_failure_carries_system_text() {
    let e = spawn_failure(&"nosuch arg".to_string(), "No such file or directory".to_string());
    assert_eq!(message(&e), "Failed to execute: No such file or directory".to_string());
}

#[test]
fn default_target_is_all() {
    assert_eq!(default_target(), "all".to_string());
}
