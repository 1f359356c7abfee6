//! The help text, and what a run does with its settings.

use vstd::prelude::*;

use crate::args::{Arguments, Mode};

verus! {

/// The general help text, for the program `name`.
pub open spec fn default_text(name: Seq<char>) -> Seq<char> {
    "Usage: "@ + name + " [options] <import|export> <directory>

import | Copy dotfiles listed in $configfile from the system to a directory.
export | Copy all dotfiles from a directory to the system.

-a   | Create a tar archive compressed with gzip.
-g   | Initialise a Git repository in the directory, if one doesn't already exist.
-h/? | Output a help page.
-v   | Enable verbose output."@
}

/// The general help page: a usage line that names the program, a blank
/// line, one line for each mode saying what it copies where (`import` into
/// the directory, `export` back to the system), a blank line, and one line
/// for each option.
pub proof fn law_general_help(name: Seq<char>)
    ensures
        default_text(name) == "Usage: "@ + name
            + " [options] <import|export> <directory>"@ + seq!['\n', '\n']
            + "import | Copy dotfiles listed in $configfile from the system to a directory."@ + seq!['\n']
            + "export | Copy all dotfiles from a directory to the system."@ + seq!['\n', '\n']
            + "-a   | Create a tar archive compressed with gzip."@ + seq!['\n']
            + "-g   | Initialise a Git repository in the directory, if one doesn't already exist."@ + seq!['\n']
            + "-h/? | Output a help page."@ + seq!['\n']
            + "-v   | Enable verbose output."@,
{
    reveal_strlit(" [options] <import|export> <directory>

import | Copy dotfiles listed in $configfile from the system to a directory.
export | Copy all dotfiles from a directory to the system.

-a   | Create a tar archive compressed with gzip.
-g   | Initialise a Git repository in the directory, if one doesn't already exist.
-h/? | Output a help page.
-v   | Enable verbose output.");
    reveal_strlit(" [options] <import|export> <directory>");
    reveal_strlit("import | Copy dotfiles listed in $configfile from the system to a directory.");
    reveal_strlit("export | Copy all dotfiles from a directory to the system.");
    reveal_strlit("-a   | Create a tar archive compressed with gzip.");
    reveal_strlit("-g   | Initialise a Git repository in the directory, if one doesn't already exist.");
    reveal_strlit("-h/? | Output a help page.");
    reveal_strlit("-v   | Enable verbose output.");
    assert(default_text(name) =~= "Usage: "@ + name
            + " [options] <import|export> <directory>"@ + seq!['\n', '\n']
            + "import | Copy dotfiles listed in $configfile from the system to a directory."@ + seq!['\n']
            + "export | Copy all dotfiles from a directory to the system."@ + seq!['\n', '\n']
            + "-a   | Create a tar archive compressed with gzip."@ + seq!['\n']
            + "-g   | Initialise a Git repository in the directory, if one doesn't already exist."@ + seq!['\n']
            + "-h/? | Output a help page."@ + seq!['\n']
            + "-v   | Enable verbose output."@);
}

/// The help text for the settings `mode`.
pub open spec fn help_text(mode: crate::args::ArgumentsView) -> Seq<char> {
    match mode.mode {
        Mode::Import => "[Import help message]"@,
        Mode::Export => "[Export help message]"@,
        Mode::Unset => default_text(mode.name),
    }
}

/// The help text for the settings `mode`: that of the mode, or the general
/// one, which names the program.
pub fn get(mode: &Arguments) -> (r: String)
    ensures
        r@ == help_text(mode@),
{
    match mode.mode {
        Mode::Import => import(),
        Mode::Export => export(),
        Mode::Unset => default(mode.name.as_str()),
    }
}

/// The general help text, for the program `name`.
pub fn default(name: &str) -> (r: String)
    ensures
        r@ == default_text(name@),
{
    let mut s = String::from_str("Usage: ");
    s.append(name);
    s.append(
        " [options] <import|export> <directory>

import | Copy dotfiles listed in $configfile from the system to a directory.
export | Copy all dotfiles from a directory to the system.

-a   | Create a tar archive compressed with gzip.
-g   | Initialise a Git repository in the directory, if one doesn't already exist.
-h/? | Output a help page.
-v   | Enable verbose output.",
    );
    s
}

/// The help text of the import mode.
pub fn import() -> (r: String)
    ensures
        r@ == "[Import help message]"@,
{
    String::from_str("[Import help message]")
}

/// The help text of the export mode.
pub fn export() -> (r: String)
    ensures
        r@ == "[Export help message]"@,
{
    String::from_str("[Export help message]")
}

/// What a run does.
#[derive(Debug, PartialEq, Eq, Structural)]
pub enum Action {
    /// Print the help text.
    ShowHelp,
    /// Copy the listed files into the directory.
    Import,
    /// Copy the files of the directory back.
    Export,
    /// Report that no mode was given.
    NoMode,
}

/// What a run with the settings `runmode` does, `argslen` being the number
/// of arguments after the program's name: with none, or with help asked
/// for, it shows the help text; otherwise it does what its mode says.
pub fn choose_action(runmode: &Arguments, argslen: usize) -> (r: Action)
    ensures
        r == (if argslen == 0 || runmode.help {
            Action::ShowHelp
        } else {
            match runmode.mode {
                Mode::Import => Action::Import,
                Mode::Export => Action::Export,
                Mode::Unset => Action::NoMode,
            }
        }),
{
    if argslen == 0 || runmode.help {
        Action::ShowHelp
    } else {
        match runmode.mode {
            Mode::Import => Action::Import,
            Mode::Export => Action::Export,
            Mode::Unset => Action::NoMode,
        }
    }
}

} // verus!
