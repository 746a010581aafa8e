//! Tests for history line parsing, base-command matching, and the
//! suggestion index.

use te::history::Shell;
use te::history::classify_shell;
use te::history::build_history_index;
use te::history::matches_base_command;
use te::history::parse_history_line;
use te::history::parse_history_lines;

fn strings(items: &[&str]) -> Vec<String> {
    items.iter().map(|s| s.to_string()).collect()
}

#[test]
fn test_parse_history_line_bash() {
    assert_eq!(
        parse_history_line(Shell::Bash, "kubectl get pods"),
        Some("kubectl get pods".to_string())
    );
    assert_eq!(parse_history_line(Shell::Bash, "   "), None);
}

#[test]
fn test_parse_history_line_zsh_extended() {
    assert_eq!(
        parse_history_line(Shell::Zsh, ": 1700000000:0;kubectl get pods"),
        Some("kubectl get pods".to_string())
    );
    assert_eq!(
        parse_history_line(Shell::Zsh, "plain command"),
        Some("plain command".to_string())
    );
    assert_eq!(parse_history_line(Shell::Zsh, ""), None);
}

#[test]
fn test_parse_history_line_fish() {
    assert_eq!(
        parse_history_line(Shell::Fish, "- cmd: kubectl get pods"),
        Some("kubectl get pods".to_string())
    );
    assert_eq!(
        parse_history_line(Shell::Fish, "  cmd: ls -la"),
        Some("ls -la".to_string())
    );
    assert_eq!(parse_history_line(Shell::Fish, "  when: 1700000000"), None);
}

#[test]
fn test_parse_history_lines_filters() {
    let lines = strings(&["- cmd: one", "  when: 17", "- cmd: two"]);
    let cmds = parse_history_lines(Shell::Fish, &lines);
    assert_eq!(cmds, strings(&["one", "two"]));
}

#[test]
fn test_matches_base_command() {
    let base = strings(&["kubectl", "get", "pods"]);
    assert!(matches_base_command("kubectl get pods -n default", &base));
    assert!(matches_base_command("kubectl get pods", &base));
    assert!(!matches_base_command("kubectl get services", &base));
    assert!(!matches_base_command("kubectl get", &base));
    assert!(!matches_base_command("docker ps", &base));
    // An unparsable history line matches nothing.
    assert!(!matches_base_command("kubectl 'broken", &base));
}

#[test]
fn test_build_history_index_collects_sorted_values() {
    let base = strings(&["kubectl", "get", "pods"]);
    let history = strings(&[
        "kubectl get pods -n kube-system",
        "kubectl get pods -n default",
        "kubectl get pods -n default",
        "docker ps -a",
    ]);
    let index = build_history_index(&base, &history);
    let values = index.get("-n").expect("the flag should be recorded");
    assert_eq!(values, &strings(&["default", "kube-system"]));
    assert!(index.get("-o").is_none());
}

#[test]
fn test_build_history_index_equals_form() {
    let base = strings(&["docker", "run"]);
    let history = strings(&["docker run --name=web image", "docker run --name=db image"]);
    let index = build_history_index(&base, &history);
    let values = index.get("--name").expect("the flag should be recorded");
    assert_eq!(values, &strings(&["db", "web"]));
}

#[test]
fn test_build_history_index_ignores_non_matching() {
    let base = strings(&["kubectl", "get", "pods"]);
    let history = strings(&["kubectl get services -n other"]);
    let index = build_history_index(&base, &history);
    assert!(index.get("-n").is_none());
}

#[test]
fn test_classify_shell() {
    assert_eq!(classify_shell("/usr/bin/zsh"), Shell::Zsh);
    assert_eq!(classify_shell("/usr/local/bin/fish"), Shell::Fish);
    assert_eq!(classify_shell("/bin/bash"), Shell::Bash);
    assert_eq!(classify_shell("/bin/sh"), Shell::Bash);
    // zsh wins over fish when a path mentions both
    assert_eq!(classify_shell("/opt/zsh-fish"), Shell::Zsh);
}
