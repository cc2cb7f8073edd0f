//! The shell that history is used from.
use vstd::prelude::*;

use crate::text::{chars_of, lower_case, same_text, text_of, trim, trimmed};

verus! {

/// A shell.
#[derive(Clone, Copy, Debug, PartialEq, Eq, Structural)]
pub enum Shell {
    Sh,
    Bash,
    Fish,
    Zsh,
    Xonsh,
    Nu,
    Powershell,
    Unknown,
}

impl Shell {
    /// The name of the shell.
    pub open spec fn name(self) -> Seq<char> {
        match self {
            Shell::Sh => "sh"@,
            Shell::Bash => "bash"@,
            Shell::Fish => "fish"@,
            Shell::Zsh => "zsh"@,
            Shell::Xonsh => "xonsh"@,
            Shell::Nu => "nu"@,
            Shell::Powershell => "powershell"@,
            Shell::Unknown => "unknown"@,
        }
    }

    /// The shell of a name.
    pub open spec fn named(name: Seq<char>) -> Shell {
        if name == "bash"@ {
            Shell::Bash
        } else if name == "fish"@ {
            Shell::Fish
        } else if name == "zsh"@ {
            Shell::Zsh
        } else if name == "xonsh"@ {
            Shell::Xonsh
        } else if name == "nu"@ {
            Shell::Nu
        } else if name == "sh"@ {
            Shell::Sh
        } else if name == "powershell"@ {
            Shell::Powershell
        } else {
            Shell::Unknown
        }
    }

    /// The name of the shell.
    pub fn text(&self) -> (s: &'static str)
        ensures
            s@ == self.name(),
    {
        match self {
            Shell::Sh => "sh",
            Shell::Bash => "bash",
            Shell::Fish => "fish",
            Shell::Zsh => "zsh",
            Shell::Xonsh => "xonsh",
            Shell::Nu => "nu",
            Shell::Powershell => "powershell",
            Shell::Unknown => "unknown",
        }
    }

    /// The shell of a name; any other name is that of an unknown shell.
    pub fn from_string(name: String) -> (shell: Shell)
        ensures
            shell == Shell::named(name@),
    {
        let name = name.as_str();
        if same_text(name, "bash") {
            Shell::Bash
        } else if same_text(name, "fish") {
            Shell::Fish
        } else if same_text(name, "zsh") {
            Shell::Zsh
        } else if same_text(name, "xonsh") {
            Shell::Xonsh
        } else if same_text(name, "nu") {
            Shell::Nu
        } else if same_text(name, "sh") {
            Shell::Sh
        } else if same_text(name, "powershell") {
            Shell::Powershell
        } else {
            Shell::Unknown
        }
    }

    /// The shell that the environment names, with white space around the name and the case of
    /// its letters left aside; an unknown shell where it names none.
    pub fn from_env(value: Option<&str>) -> (shell: Shell)
        ensures
            shell == (match value {
                Some(value) => Shell::named(lower_case(trimmed(value@))),
                None => Shell::Unknown,
            }),
    {
        match value {
            Some(value) => {
                let chars = chars_of(value);
                let name = text_of(trim(chars.as_slice()));
                Shell::from_string(name.as_str().to_lowercase())
            },
            None => Shell::Unknown,
        }
    }

    /// Whether the shell is one of those that are much like a POSIX shell.
    pub fn is_posixish(&self) -> (b: bool)
        ensures
            b == (self == Shell::Bash || self == Shell::Fish || self == Shell::Zsh),
    {
        match self {
            Shell::Bash | Shell::Fish | Shell::Zsh => true,
            _ => false,
        }
    }
}

/// The shell of the name of a shell is that shell.
pub proof fn law_shell_named(shell: Shell)
    ensures
        Shell::named(shell.name()) == shell,
{
    reveal_strlit("sh");
    reveal_strlit("bash");
    reveal_strlit("fish");
    reveal_strlit("zsh");
    reveal_strlit("xonsh");
    reveal_strlit("nu");
    reveal_strlit("powershell");
    reveal_strlit("unknown");
    assert("bash"@[0] == 'b' && "fish"@[0] == 'f' && "sh"@[0] == 's' && "nu"@[0] == 'n');
    assert("sh"@.len() == 2 && "nu"@.len() == 2 && "zsh"@.len() == 3 && "bash"@.len() == 4);
    assert("fish"@.len() == 4 && "xonsh"@.len() == 5 && "powershell"@.len() == 10);
    assert("unknown"@.len() == 7);
}

/// A name is that of a shell only if the shell has it.
pub proof fn law_named_shell(name: Seq<char>)
    ensures
        Shell::named(name) != Shell::Unknown ==> Shell::named(name).name() == name,
{
}

} // verus!
