//! The textual output of the tool: the shell fragment that loads a
//! project's context, and the command line that drives the fuzzy
//! selector.

use vstd::prelude::*;

verus! {

/// The exact shell fragment that loads the project at `path`: change
/// into the directory, then source the system-wide, per-user and
/// per-project rc files when they are present.
pub open spec fn fragment_of(path: Seq<char>) -> Seq<char> {
    "cd "@ + path
        + ";\nfor i in  /etc/srcrrrc $HOME/.srcrrrc .srcrrrc ;\ndo\n\ttest -f $i && . $i ;\ndone\n"@
}

/// The command line that pipes the tool's own project list through the
/// fuzzy selector and evaluates a re-invocation on the chosen name;
/// `prog` is the name under which the tool itself was invoked.
pub open spec fn fzf_line_of(prog: Seq<char>) -> Seq<char> {
    "eval $("@ + prog + " $("@ + prog + " -l | fzf))"@
}

/// Builds the shell fragment that loads the project at `path`.
pub fn shell_fragment(path: &str) -> (r: String)
    ensures
        r@ == fragment_of(path@),
{
    let r = String::from_str("cd ").concat(path).concat(
        ";\nfor i in  /etc/srcrrrc $HOME/.srcrrrc .srcrrrc ;\ndo\n\ttest -f $i && . $i ;\ndone\n",
    );
    r
}

/// Builds the command line that selects a project through the fuzzy
/// selector and re-invokes the tool named `prog` on the result.
pub fn fzf_command(prog: &str) -> (r: String)
    ensures
        r@ == fzf_line_of(prog@),
{
    let r = String::from_str("eval $(")
        .concat(prog)
        .concat(" $(")
        .concat(prog)
        .concat(" -l | fzf))");
    r
}

} // verus!
