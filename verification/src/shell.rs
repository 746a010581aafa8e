//! Shell integration scripts: small wrappers, per shell, that run the
//! editor on the current command line and execute or restore the result.

use vstd::prelude::*;

use crate::strutil::str_eq;

verus! {

/// The zsh integration script with the editor path and key binding
/// substituted in.
pub open spec fn zsh_script_spec(p: Seq<char>, b: Seq<char>) -> Seq<char> {
    "# te shell integration for zsh\n\n# Function to run te and execute the resulting command\nte-run() {\n    local result\n    result=$("@
        + p
        + " \"$@\")\n    if [ $? -eq 0 ] && [ -n \"$result\" ]; then\n        eval \"$result\"\n    fi\n}\n\n# Widget to invoke te with current buffer content\nte-widget() {\n    if [ -n \"$BUFFER\" ]; then\n        local original_buffer=\"$BUFFER\"\n        # Clear the command line before invoking te\n        BUFFER=\"\"\n        zle reset-prompt\n        local result\n        result=$("@
        + p
        + " \"$original_buffer\")\n        local ret=$?\n        if [ $ret -eq 0 ] && [ -n \"$result\" ]; then\n            BUFFER=\"$result\"\n        else\n            # Restore original buffer if te was cancelled or failed\n            BUFFER=\"$original_buffer\"\n        fi\n        zle reset-prompt\n        zle end-of-line\n        return $ret\n    fi\n}\n\n# Register the widget\nzle -N te-widget\n\n# Bind Ctrl+T to the widget (you can customize this)\nbindkey '"@
        + b + "' te-widget\n"@
}

/// The bash integration script with the editor path substituted in.
pub open spec fn bash_script_spec(p: Seq<char>) -> Seq<char> {
    "# te shell integration for bash\n\n# Function to run te and execute the resulting command\nte-run() {\n    local result\n    result=$("@
        + p
        + " \"$@\")\n    if [ $? -eq 0 ] && [ -n \"$result\" ]; then\n        eval \"$result\"\n    fi\n}\n"@
}

/// The fish integration script with the editor path substituted in.
pub open spec fn fish_script_spec(p: Seq<char>) -> Seq<char> {
    "# te shell integration for fish\n\n# Function to run te and execute the resulting command\nfunction te-run\n    set -l result ("@
        + p
        + " $argv)\n    if test $status -eq 0 -a -n \"$result\"\n        eval $result\n    end\nend\n"@
}

/// The key binding used: the given one, or control-T by default.
pub open spec fn bindkey_or_default(bindkey: Option<String>) -> Seq<char> {
    match bindkey {
        Some(b) => b@,
        None => "^T"@,
    }
}

/// Renders the zsh integration script.
pub fn generate_zsh_script(te_path: &str, bindkey: Option<String>) -> (r: String)
    ensures
        r@ == zsh_script_spec(te_path@, bindkey_or_default(bindkey)),
{
    let mut out = String::from_str(
        "# te shell integration for zsh\n\n# Function to run te and execute the resulting command\nte-run() {\n    local result\n    result=$(",
    );
    out.append(te_path);
    out.append(
        " \"$@\")\n    if [ $? -eq 0 ] && [ -n \"$result\" ]; then\n        eval \"$result\"\n    fi\n}\n\n# Widget to invoke te with current buffer content\nte-widget() {\n    if [ -n \"$BUFFER\" ]; then\n        local original_buffer=\"$BUFFER\"\n        # Clear the command line before invoking te\n        BUFFER=\"\"\n        zle reset-prompt\n        local result\n        result=$(",
    );
    out.append(te_path);
    out.append(
        " \"$original_buffer\")\n        local ret=$?\n        if [ $ret -eq 0 ] && [ -n \"$result\" ]; then\n            BUFFER=\"$result\"\n        else\n            # Restore original buffer if te was cancelled or failed\n            BUFFER=\"$original_buffer\"\n        fi\n        zle reset-prompt\n        zle end-of-line\n        return $ret\n    fi\n}\n\n# Register the widget\nzle -N te-widget\n\n# Bind Ctrl+T to the widget (you can customize this)\nbindkey '",
    );
    match bindkey {
        Some(b) => out.append(b.as_str()),
        None => out.append("^T"),
    }
    out.append("' te-widget\n");
    proof {
        assert(out@ =~= zsh_script_spec(
            te_path@,
            bindkey_or_default(bindkey),
        ));
    }
    out
}

/// Renders the bash integration script.
pub fn generate_bash_script(te_path: &str) -> (r: String)
    ensures
        r@ == bash_script_spec(te_path@),
{
    let mut out = String::from_str(
        "# te shell integration for bash\n\n# Function to run te and execute the resulting command\nte-run() {\n    local result\n    result=$(",
    );
    out.append(te_path);
    out.append(
        " \"$@\")\n    if [ $? -eq 0 ] && [ -n \"$result\" ]; then\n        eval \"$result\"\n    fi\n}\n",
    );
    proof {
        assert(out@ =~= bash_script_spec(te_path@));
    }
    out
}

/// Renders the fish integration script.
pub fn generate_fish_script(te_path: &str) -> (r: String)
    ensures
        r@ == fish_script_spec(te_path@),
{
    let mut out = String::from_str(
        "# te shell integration for fish\n\n# Function to run te and execute the resulting command\nfunction te-run\n    set -l result (",
    );
    out.append(te_path);
    out.append(
        " $argv)\n    if test $status -eq 0 -a -n \"$result\"\n        eval $result\n    end\nend\n",
    );
    proof {
        assert(out@ =~= fish_script_spec(te_path@));
    }
    out
}

/// The integration script for the named shell, with the editor invoked
/// at `te_path`; `None` for a shell that is not supported.
pub fn generate_init_script(shell: &str, te_path: &str, bindkey: Option<String>) -> (r: Option<
    String,
>)
    ensures
        shell@ == "zsh"@ ==> (r matches Some(s) && s@ == zsh_script_spec(
            te_path@,
            bindkey_or_default(bindkey),
        )),
        shell@ == "bash"@ ==> (r matches Some(s) && s@ == bash_script_spec(te_path@)),
        shell@ == "fish"@ ==> (r matches Some(s) && s@ == fish_script_spec(te_path@)),
        shell@ != "zsh"@ && shell@ != "bash"@ && shell@ != "fish"@ ==> r is None,
{
    proof {
        reveal_strlit("zsh");
        reveal_strlit("bash");
        reveal_strlit("fish");
        assert("zsh"@.len() == 3 && "bash"@.len() == 4 && "fish"@.len() == 4);
        assert("bash"@[0] == 'b' && "fish"@[0] == 'f');
        assert("zsh"@ != "bash"@ && "zsh"@ != "fish"@ && "bash"@ != "fish"@);
    }
    if str_eq(shell, "zsh") {
        Some(generate_zsh_script(te_path, bindkey))
    } else if str_eq(shell, "bash") {
        Some(generate_bash_script(te_path))
    } else if str_eq(shell, "fish") {
        Some(generate_fish_script(te_path))
    } else {
        None
    }
}

} // verus!
