//! Tests for the command document: parsing, quoting, serialization, and
//! structural edits.

use te::command::Command;
use te::command::CommandError;
use te::command::quote_if_needed;

#[test]
fn command_test_parse_simple_command() {
    let cmd: Command = Command::try_from("kubectl get pods -l app=asset -o json").unwrap();

    assert_eq!(cmd.component_at(0), "kubectl");
    assert_eq!(cmd.component_at(1), "get");
    assert_eq!(cmd.component_at(2), "pods");
    assert_eq!(cmd.component_at(3), "-l");
    assert_eq!(cmd.component_at(4), "app=asset");
    assert_eq!(cmd.component_at(5), "-o");
    assert_eq!(cmd.component_at(6), "json");
}

#[test]
fn command_test_parse_with_equals() {
    let cmd: Command = Command::try_from("docker run --name=myapp --env=VAR=value image").unwrap();

    assert_eq!(cmd.component_at(0), "docker");
    assert_eq!(cmd.component_at(1), "run");
    assert_eq!(cmd.component_at(2), "--name=myapp");
    assert_eq!(cmd.component_at(3), "--env=VAR=value");
    assert_eq!(cmd.component_at(4), "image");
}

#[test]
fn command_test_parse_boolean_flags() {
    let cmd: Command = Command::try_from("ls -la /tmp").unwrap();

    assert_eq!(cmd.component_at(0), "ls");
    assert_eq!(cmd.component_at(1), "-la");
    assert_eq!(cmd.component_at(2), "/tmp");
}

#[test]
fn command_test_parse_with_quotes() {
    let cmd: Command = Command::try_from("kubectl get pods -o custom-columns='POD:.metadata.name,RS:.metadata.ownerReferences[0].name'").unwrap();

    assert_eq!(cmd.component_at(0), "kubectl");
    assert_eq!(cmd.component_at(1), "get");
    assert_eq!(cmd.component_at(2), "pods");
    assert_eq!(cmd.component_at(3), "-o");
    assert_eq!(
        cmd.component_at(4),
        "custom-columns=POD:.metadata.name,RS:.metadata.ownerReferences[0].name"
    );
}

#[test]
fn command_test_parse_with_line_breaks() {
    let cmd: Command = Command::try_from("gcloud alpha pam grants create \\\n  --entitlement=secret-manager-admin \\\n  --requested-duration=28800s").unwrap();

    assert_eq!(cmd.component_at(0), "gcloud");
    assert_eq!(cmd.component_at(1), "alpha");
    assert_eq!(cmd.component_at(2), "pam");
    assert_eq!(cmd.component_at(3), "grants");
    assert_eq!(cmd.component_at(4), "create");
    assert_eq!(cmd.component_at(5), "--entitlement=secret-manager-admin");
    assert_eq!(cmd.component_at(6), "--requested-duration=28800s");
}

#[test]
fn test_quote_if_needed() {
    // Simple strings without spaces - no quoting needed
    assert_eq!(quote_if_needed("kubectl"), "kubectl");
    assert_eq!(quote_if_needed("--name"), "--name");
    assert_eq!(quote_if_needed("myapp"), "myapp");

    // Empty string - no quoting needed
    assert_eq!(quote_if_needed(""), "");

    // String with spaces - use double quotes (default)
    assert_eq!(quote_if_needed("hello world"), "\"hello world\"");

    // String with double quotes (2 > 0 single) - use single quotes
    assert_eq!(quote_if_needed("say \"hello\""), "'say \"hello\"'");

    // String with more double quotes than single - use single quotes
    assert_eq!(
        quote_if_needed("say \"hello\" and \"world\""),
        "'say \"hello\" and \"world\"'"
    );

    // String with single quote - use double quotes
    assert_eq!(quote_if_needed("it's fine"), "\"it's fine\"");

    // String with more single quotes than double - use double quotes
    assert_eq!(quote_if_needed("it's Bob's day"), "\"it's Bob's day\"");

    // More double quotes (2) than single (1) - use single quotes with '\'' escape
    assert_eq!(quote_if_needed("it's \"ok\""), "'it'\\''s \"ok\"'");

    // Equal single and double quotes (1 each) - prefer double quotes
    assert_eq!(quote_if_needed("it's x\""), "\"it's x\\\"\"");

    // String with only backslashes - needs quoting and escaping
    assert_eq!(quote_if_needed("path\\to\\file"), "\"path\\\\to\\\\file\"");

    // String with dollar sign - quoted due to space, but $ not escaped
    assert_eq!(quote_if_needed("test $HOME"), "\"test $HOME\"");

    // String with backtick - quoted due to space, but ` not escaped
    assert_eq!(quote_if_needed("run `cmd`"), "\"run `cmd`\"");

    // Dollar sign alone - no quoting needed
    assert_eq!(quote_if_needed("$HOME"), "$HOME");

    // Backtick alone - no quoting needed
    assert_eq!(quote_if_needed("`cmd`"), "`cmd`");

    // String with newline - needs quoting (preserved in quotes)
    assert_eq!(quote_if_needed("line1\nline2"), "\"line1\nline2\"");

    // String with tab - needs quoting (preserved in quotes)
    assert_eq!(quote_if_needed("col1\tcol2"), "\"col1\tcol2\"");

    // Single quote inside single-quoted string uses '\'' technique
    assert_eq!(
        quote_if_needed("say \"hello\" it's \"great\""),
        "'say \"hello\" it'\\''s \"great\"'"
    );

    // String with newline AND more double quotes - uses single quotes
    assert_eq!(
        quote_if_needed("line1\nline2 \"quoted\""),
        "'line1\nline2 \"quoted\"'"
    );

    // String with tab AND more double quotes - uses single quotes
    assert_eq!(
        quote_if_needed("col1\tcol2 \"data\""),
        "'col1\tcol2 \"data\"'"
    );
}

#[test]
fn test_to_shell_string() {
    // Simple command roundtrip
    let cmd: Command = Command::try_from("kubectl get pods -n default").unwrap();
    assert_eq!(cmd.to_shell_string(), "kubectl get pods -n default");

    // Command with quoted value containing spaces
    let cmd: Command = Command::try_from("echo \"hello world\"").unwrap();
    assert_eq!(cmd.to_shell_string(), "echo \"hello world\"");

    // Command with --flag=value syntax (kept as single token)
    let cmd: Command = Command::try_from("docker run --name=myapp image").unwrap();
    assert_eq!(cmd.to_shell_string(), "docker run --name=myapp image");
}

#[test]
fn test_remove_component_at_middle() {
    let mut cmd: Command = Command::try_from("kubectl get pods -n default").unwrap();
    assert_eq!(cmd.component_count(), 5);

    cmd.remove_component_at(2); // Remove "pods"

    assert_eq!(cmd.component_count(), 4);
    assert_eq!(cmd.component_at(0), "kubectl");
    assert_eq!(cmd.component_at(1), "get");
    assert_eq!(cmd.component_at(2), "-n");
    assert_eq!(cmd.component_at(3), "default");
}

#[test]
fn test_remove_component_at_first() {
    let mut cmd: Command = Command::try_from("kubectl get pods").unwrap();

    cmd.remove_component_at(0);

    assert_eq!(cmd.component_count(), 2);
    assert_eq!(cmd.component_at(0), "get");
    assert_eq!(cmd.component_at(1), "pods");
}

#[test]
fn test_remove_component_at_last() {
    let mut cmd: Command = Command::try_from("kubectl get pods").unwrap();

    cmd.remove_component_at(2);

    assert_eq!(cmd.component_count(), 2);
    assert_eq!(cmd.component_at(0), "kubectl");
    assert_eq!(cmd.component_at(1), "get");
}

#[test]
fn test_remove_all_components() {
    let mut cmd: Command = Command::try_from("kubectl").unwrap();
    assert_eq!(cmd.component_count(), 1);

    cmd.remove_component_at(0);

    assert_eq!(cmd.component_count(), 0);
}

#[test]
fn test_parse_unbalanced_quote_fails() {
    let r = Command::try_from("echo 'oops");
    assert!(matches!(r, Err(CommandError::ParseError)));
}

#[test]
fn test_parse_trailing_backslash_fails() {
    let r = Command::try_from("echo oops\\");
    assert!(matches!(r, Err(CommandError::ParseError)));
}

#[test]
fn test_parse_empty_command_fails() {
    let r = Command::try_from("   ");
    assert!(matches!(r, Err(CommandError::EmptyCommandError)));
}

#[test]
fn test_set_value_at_returns_previous() {
    let mut cmd: Command = Command::try_from("kubectl get pods").unwrap();
    let prev = cmd.set_value_at(2, "services");
    assert_eq!(prev, "pods");
    assert_eq!(cmd.component_at(2), "services");
    assert_eq!(cmd.component_count(), 3);
}

#[test]
fn test_insert_component_at_shifts_right() {
    let mut cmd: Command = Command::try_from("kubectl pods").unwrap();
    cmd.insert_component_at(1, String::from("get"));
    assert_eq!(cmd.component_count(), 3);
    assert_eq!(cmd.component_at(0), "kubectl");
    assert_eq!(cmd.component_at(1), "get");
    assert_eq!(cmd.component_at(2), "pods");
}

#[test]
fn test_quote_round_trip_reparses() {
    // Quoting any value and parsing it back as one word yields the value.
    let samples = vec![
        "say \"hello\"",
        "it's fine",
        "it's \"ok\"",
        "path\\to\\file",
        "line1\nline2 \"quoted\"",
        "a b  c",
        "$HOME `cmd` plain",
    ];
    for s in samples {
        let quoted = quote_if_needed(s);
        let cmd = Command::try_from(quoted.as_str()).unwrap();
        assert_eq!(cmd.component_count(), 1);
        assert_eq!(cmd.component_at(0), s);
    }
}

#[test]
fn test_to_shell_string_round_trip_document() {
    let mut cmd: Command = Command::try_from("echo x y").unwrap();
    cmd.set_value_at(1, "it's \"ok\"");
    cmd.set_value_at(2, "two words\there");
    let serialized = cmd.to_shell_string();
    let reparsed = Command::try_from(serialized.as_str()).unwrap();
    assert_eq!(reparsed.component_count(), 3);
    assert_eq!(reparsed.component_at(0), "echo");
    assert_eq!(reparsed.component_at(1), "it's \"ok\"");
    assert_eq!(reparsed.component_at(2), "two words\there");
}
