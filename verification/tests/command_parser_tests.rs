//! Tests for classifying a raw command line into components.

use te::app::CommandComponent;
use te::command::CommandError;
use te::command_parser::parse_command;

#[test]
fn command_parser_test_parse_simple_command() {
    let cmd = "kubectl get pods -l app=asset -o json";
    let components = parse_command(cmd).unwrap();

    assert_eq!(components[0], CommandComponent::Base("kubectl".to_string()));
    assert_eq!(components[1], CommandComponent::Base("get".to_string()));
    assert_eq!(components[2], CommandComponent::Base("pods".to_string()));
    assert_eq!(components[3], CommandComponent::Flag("-l".to_string()));
    assert_eq!(
        components[4],
        CommandComponent::Value("app=asset".to_string())
    );
    assert_eq!(components[5], CommandComponent::Flag("-o".to_string()));
    assert_eq!(components[6], CommandComponent::Value("json".to_string()));
}

#[test]
fn command_parser_test_parse_with_equals() {
    let cmd = "docker run --name=myapp --env=VAR=value image";
    let components = parse_command(cmd).unwrap();

    assert_eq!(components[0], CommandComponent::Base("docker".to_string()));
    assert_eq!(components[1], CommandComponent::Base("run".to_string()));
    assert_eq!(components[2], CommandComponent::Flag("--name".to_string()));
    assert_eq!(components[3], CommandComponent::Value("myapp".to_string()));
    assert_eq!(components[4], CommandComponent::Flag("--env".to_string()));
    assert_eq!(
        components[5],
        CommandComponent::Value("VAR=value".to_string())
    );
    assert_eq!(components[6], CommandComponent::Value("image".to_string()));
}

#[test]
fn command_parser_test_parse_boolean_flags() {
    let cmd = "ls -la /tmp";
    let components = parse_command(cmd).unwrap();

    assert_eq!(components[0], CommandComponent::Base("ls".to_string()));
    // -la is treated as a single flag, not split into individual options
    assert_eq!(components[1], CommandComponent::Flag("-la".to_string()));
    assert_eq!(components[2], CommandComponent::Value("/tmp".to_string()));
}

#[test]
fn command_parser_test_parse_with_quotes() {
    let cmd = r#"kubectl get pods -o custom-columns='POD:.metadata.name,RS:.metadata.ownerReferences[0].name'"#;
    let components = parse_command(cmd).unwrap();

    assert_eq!(components[0], CommandComponent::Base("kubectl".to_string()));
    assert_eq!(components[1], CommandComponent::Base("get".to_string()));
    assert_eq!(components[2], CommandComponent::Base("pods".to_string()));
    assert_eq!(components[3], CommandComponent::Flag("-o".to_string()));
    assert_eq!(
        components[4],
        CommandComponent::Value(
            "custom-columns=POD:.metadata.name,RS:.metadata.ownerReferences[0].name"
                .to_string()
        )
    );
}

#[test]
fn command_parser_test_parse_with_line_breaks() {
    let cmd = "gcloud alpha pam grants create \\\n  --entitlement=secret-manager-admin \\\n  --requested-duration=28800s";
    let components = parse_command(cmd).unwrap();

    assert_eq!(components[0], CommandComponent::Base("gcloud".to_string()));
    assert_eq!(components[1], CommandComponent::Base("alpha".to_string()));
    assert_eq!(components[2], CommandComponent::Base("pam".to_string()));
    assert_eq!(components[3], CommandComponent::Base("grants".to_string()));
    assert_eq!(components[4], CommandComponent::Base("create".to_string()));
    assert_eq!(components[5], CommandComponent::LineBreak);
    assert_eq!(
        components[6],
        CommandComponent::Flag("--entitlement".to_string())
    );
    assert_eq!(
        components[7],
        CommandComponent::Value("secret-manager-admin".to_string())
    );
    assert_eq!(components[8], CommandComponent::LineBreak);
    assert_eq!(
        components[9],
        CommandComponent::Flag("--requested-duration".to_string())
    );
    assert_eq!(
        components[10],
        CommandComponent::Value("28800s".to_string())
    );
}

#[test]
fn test_parse_command_empty_fails() {
    assert!(matches!(
        parse_command(""),
        Err(CommandError::EmptyCommandError)
    ));
}

#[test]
fn test_parse_command_unbalanced_fails() {
    assert!(matches!(
        parse_command("echo \"oops"),
        Err(CommandError::ParseError)
    ));
}

#[test]
fn test_parse_command_flag_then_flag() {
    // A dash-word followed by another dash-word stays a boolean flag.
    let components = parse_command("git log -p --stat").unwrap();
    assert_eq!(components[0], CommandComponent::Base("git".to_string()));
    assert_eq!(components[1], CommandComponent::Base("log".to_string()));
    assert_eq!(components[2], CommandComponent::Flag("-p".to_string()));
    assert_eq!(components[3], CommandComponent::Flag("--stat".to_string()));
}

#[test]
fn test_parse_command_only_line_breaks_fails() {
    // A line continuation with no words on either side yields no word
    // component at all: that is an empty command, not a document.
    assert!(matches!(
        parse_command("\\\n"),
        Err(CommandError::EmptyCommandError)
    ));
    assert!(matches!(
        parse_command("  \\\n   \\\n "),
        Err(CommandError::EmptyCommandError)
    ));
}
