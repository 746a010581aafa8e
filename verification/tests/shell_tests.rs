//! Tests for the shell integration scripts.

use te::shell::generate_bash_script;
use te::shell::generate_init_script;
use te::shell::generate_zsh_script;

#[test]
fn test_generate_init_script_dispatch() {
    assert!(generate_init_script("zsh", "te", None).is_some());
    assert!(generate_init_script("bash", "te", None).is_some());
    assert!(generate_init_script("fish", "te", None).is_some());
    assert!(generate_init_script("tcsh", "te", None).is_none());
}

#[test]
fn test_bash_script_exact() {
    let expected = "# te shell integration for bash\n\n# Function to run te and execute the resulting command\nte-run() {\n    local result\n    result=$(/usr/bin/te \"$@\")\n    if [ $? -eq 0 ] && [ -n \"$result\" ]; then\n        eval \"$result\"\n    fi\n}\n";
    assert_eq!(generate_bash_script("/usr/bin/te"), expected);
}

#[test]
fn test_zsh_script_substitutes_path_and_bindkey() {
    let script = generate_zsh_script("/opt/te", Some("^G".to_string()));
    assert!(script.contains("result=$(/opt/te \"$@\")"));
    assert!(script.contains("result=$(/opt/te \"$original_buffer\")"));
    assert!(script.contains("bindkey '^G' te-widget"));

    let default_script = generate_zsh_script("te", None);
    assert!(default_script.contains("bindkey '^T' te-widget"));
}

#[test]
fn test_fish_script_substitutes_path() {
    let script = generate_init_script("fish", "te", None).unwrap();
    assert!(script.contains("set -l result (te $argv)"));
    assert!(script.ends_with("end\nend\n"));
}
