//! Tests for the interactive session over classified components: the
//! preview quoting, navigation, value editing, option cycling, and the
//! key dispatcher.

use te::app::App;
use te::app::CommandComponent;
use te::app::KeyInput;
use te::app::KeyOutcome;
use te::app::quote_if_needed;
use te::command_parser::parse_command;
use te::history::HistoryIndex;
use te::history::build_history_index;

fn strings(items: &[&str]) -> Vec<String> {
    items.iter().map(|s| s.to_string()).collect()
}

fn app_for(line: &str, history: &HistoryIndex) -> App {
    App::new(parse_command(line).unwrap(), history, 0)
}

fn suggestion_index() -> HistoryIndex {
    let base = strings(&["kubectl", "get", "pods"]);
    let history = strings(&[
        "kubectl get pods -n default",
        "kubectl get pods -n kube-system",
    ]);
    build_history_index(&base, &history)
}

fn value_at(app: &App, i: usize) -> String {
    match &app.components()[i] {
        CommandComponent::Base(s) => s.clone(),
        CommandComponent::Flag(s) => s.clone(),
        CommandComponent::Value(s) => s.clone(),
        CommandComponent::LineBreak => String::new(),
    }
}

#[test]
fn test_preview_quote_only_for_spaces() {
    assert_eq!(quote_if_needed("plain"), "plain");
    assert_eq!(quote_if_needed("hello world"), "\"hello world\"");
    assert_eq!(quote_if_needed("say \"hi\" now"), "\"say \\\"hi\\\" now\"");
    assert_eq!(quote_if_needed("say\"hi\""), "say\"hi\"");
}

#[test]
fn test_app_preview_and_selection() {
    let app = app_for("kubectl get pods", &HistoryIndex::empty());
    assert_eq!(app.preview_command(), "kubectl get pods");
    assert_eq!(app.selected(), Some(0));
}

#[test]
fn test_app_navigation_skips_line_breaks() {
    let mut app = app_for("a b \\\n c", &HistoryIndex::empty());
    assert_eq!(app.selected(), Some(0));
    app.next();
    assert_eq!(app.selected(), Some(1));
    app.next();
    // the line break between "b" and "c" is skipped
    assert_eq!(app.selected(), Some(3));
    app.next();
    assert_eq!(app.selected(), Some(0));
    app.previous();
    assert_eq!(app.selected(), Some(3));
}

#[test]
fn test_app_input_cycle() {
    let mut app = app_for("kubectl get pods", &HistoryIndex::empty());
    app.next();
    app.start_input();
    assert!(app.input_mode());
    assert_eq!(app.current_input(), "get");
    app.cancel_input();
    assert!(!app.input_mode());
    assert_eq!(value_at(&app, 1), "get");
}

#[test]
fn test_app_confirm_input_replaces_text() {
    let mut app = app_for("kubectl get pods", &HistoryIndex::empty());
    app.handle_key(KeyInput::Enter);
    assert!(app.input_mode());
    app.handle_key(KeyInput::Backspace);
    for _ in 0..6 {
        app.handle_key(KeyInput::Backspace);
    }
    for c in "helm".chars() {
        app.handle_key(KeyInput::Char(c));
    }
    app.handle_key(KeyInput::Enter);
    assert!(!app.input_mode());
    assert_eq!(value_at(&app, 0), "helm");
    assert_eq!(app.preview_command(), "helm get pods");
}

#[test]
fn test_history_suggestions_cycle_wraps_both_ways() {
    let index = suggestion_index();
    let mut app = app_for("kubectl get pods -n default", &index);

    // select the value after "-n"
    for _ in 0..4 {
        app.next();
    }
    assert_eq!(app.selected(), Some(4));
    assert_eq!(value_at(&app, 4), "default");
    assert_eq!(app.option_status(4), Some((0, 2)));

    // sorted options: ["default", "kube-system"]; cycling wraps at the end
    app.next_option();
    assert_eq!(value_at(&app, 4), "kube-system");
    assert_eq!(app.option_status(4), Some((1, 2)));
    app.next_option();
    assert_eq!(value_at(&app, 4), "default");

    // and wraps backward from the start
    app.previous_option();
    assert_eq!(value_at(&app, 4), "kube-system");
    app.previous_option();
    assert_eq!(value_at(&app, 4), "default");
}

#[test]
fn test_fresh_value_starts_cycle_at_zero() {
    let index = suggestion_index();
    let mut app = app_for("kubectl get pods -n staging", &index);
    for _ in 0..4 {
        app.next();
    }
    // "staging" is not among the options, so the cycle starts at zero
    assert_eq!(app.option_status(4), Some((0, 2)));
    app.next_option();
    assert_eq!(value_at(&app, 4), "kube-system");
}

#[test]
fn test_option_cycling_needs_flag_before_value() {
    let index = suggestion_index();
    let mut app = app_for("kubectl get pods extra", &index);
    for _ in 0..3 {
        app.next();
    }
    assert_eq!(app.option_status(3), None);
    let before = value_at(&app, 3);
    app.next_option();
    assert_eq!(value_at(&app, 3), before);
}

#[test]
fn test_handle_key_outcomes() {
    let mut app = app_for("kubectl get pods", &HistoryIndex::empty());
    assert_eq!(app.handle_key(KeyInput::Other), KeyOutcome::Continue);
    assert_eq!(app.handle_key(KeyInput::Char('x')), KeyOutcome::Continue);
    assert_eq!(app.handle_key(KeyInput::Char('q')), KeyOutcome::Quit);
    assert_eq!(app.handle_key(KeyInput::CtrlX), KeyOutcome::Execute);
    app.handle_key(KeyInput::Enter);
    assert!(app.input_mode());
    // in input mode, q is just a character and Esc cancels
    assert_eq!(app.handle_key(KeyInput::Char('q')), KeyOutcome::Continue);
    assert_eq!(app.handle_key(KeyInput::Esc), KeyOutcome::Continue);
    assert!(!app.input_mode());
    assert_eq!(app.handle_key(KeyInput::Esc), KeyOutcome::Quit);
}

#[test]
fn test_build_final_command_restores_line_breaks() {
    let app = app_for("gcloud alpha \\\n --flag=v", &HistoryIndex::empty());
    assert_eq!(app.build_final_command(), "gcloud alpha \\\n--flag v");
}

#[test]
fn test_build_final_command_quotes_spaces() {
    let app = app_for("echo 'hello world'", &HistoryIndex::empty());
    assert_eq!(app.build_final_command(), "echo \"hello world\"");
}

#[test]
fn test_build_final_command_uses_shell_safe_quoting() {
    let index = HistoryIndex::empty();
    let mut app = app_for("echo -m placeholder", &index);
    for _ in 0..2 {
        app.next();
    }
    app.handle_key(KeyInput::Enter);
    for _ in 0.."placeholder".len() {
        app.handle_key(KeyInput::Backspace);
    }
    for c in "it's".chars() {
        app.handle_key(KeyInput::Char(c));
    }
    app.handle_key(KeyInput::Enter);
    // the final command quotes the apostrophe so it re-parses exactly
    assert_eq!(app.build_final_command(), "echo -m \"it's\"");
    let reparsed = te::command::Command::try_from("echo -m \"it's\"").unwrap();
    assert_eq!(reparsed.component_at(2), "it's");
}

#[test]
fn test_build_final_command_escapes_backslashes() {
    let index = HistoryIndex::empty();
    let app = app_for("echo -m a\\\\b", &index);
    // the raw component holds a single backslash; the final command
    // escapes it so the shell hands it back unchanged
    assert_eq!(app.build_final_command(), "echo -m \"a\\\\b\"");
}
