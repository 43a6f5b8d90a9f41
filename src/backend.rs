//! The shell commands through which the backends install and remove.
//!
//! Commands are plain strings for the configured shell to run. A driver runs
//! them and reports their output; these functions decide what runs.

use vstd::prelude::*;
use vstd::string::StringExecFns;

use crate::source::PackageSource;

verus! {

/// The names, each followed by one space.
pub open spec fn shell_list(names: Seq<String>) -> Seq<char>
    decreases names.len(),
{
    if names.len() == 0 {
        seq![]
    } else {
        shell_list(names.drop_last()) + names.last()@ + seq![' ']
    }
}

/// The text with every line break turned into a space.
pub open spec fn newlines_to_spaces(s: Seq<char>) -> Seq<char> {
    s.map_values(|c: char| if c == '\n' { ' ' } else { c })
}

/// Whether a character separates names rather than being part of one.
pub open spec fn is_blank(c: char) -> bool {
    c == ' ' || c == '\n' || c == '\r' || c == '\t'
}

/// Whether the text holds at least one name: some character that is not
/// blank.
pub open spec fn holds_name(s: Seq<char>) -> bool {
    exists|i: int| 0 <= i < s.len() && !is_blank(#[trigger] s[i])
}

/// The text with every line break turned into a space.
fn replace_newlines(s: &str) -> (r: String)
    ensures
        r@ == newlines_to_spaces(s@),
{
    let n = s.unicode_len();
    let mut r = String::new();
    let mut i: usize = 0;
    while i < n
        invariant
            n == s@.len(),
            i <= n,
            r@ == newlines_to_spaces(s@.take(i as int)),
        decreases n - i,
    {
        let c = s.get_char(i);
        if c == '\n' {
            r.append(" ");
        } else {
            r.append(s.substring_char(i, i + 1));
        }
        proof {
            reveal_strlit(" ");
            assert(s@.subrange(i as int, i + 1) =~= seq![c]);
            assert(newlines_to_spaces(s@.take(i + 1)) =~= newlines_to_spaces(s@.take(i as int)).push(
                if c == '\n' { ' ' } else { c },
            ));
        }
        i = i + 1;
    }
    assert(s@.take(n as int) =~= s@);
    r
}

/// Whether the text holds a name.
fn has_name(s: &str) -> (r: bool)
    ensures
        r == holds_name(s@),
{
    let n = s.unicode_len();
    let mut i: usize = 0;
    while i < n
        invariant
            n == s@.len(),
            i <= n,
            forall|j: int| 0 <= j < i ==> is_blank(#[trigger] s@[j]),
        decreases n - i,
    {
        let c = s.get_char(i);
        if !(c == ' ' || c == '\n' || c == '\r' || c == '\t') {
            assert(!is_blank(s@[i as int]));
            return true;
        }
        i = i + 1;
    }
    false
}

/// The package names as one argument list for the shell.
pub fn format_package_list_for_shell(package_list: &Vec<String>) -> (r: String)
    ensures
        r@ == shell_list(package_list@),
{
    let mut r = String::new();
    let mut i: usize = 0;
    proof {
        reveal_strlit(" ");
        assert(shell_list(package_list@.take(0)) =~= Seq::<char>::empty());
    }
    while i < package_list.len()
        invariant
            i <= package_list.len(),
            r@ == shell_list(package_list@.take(i as int)),
        decreases package_list.len() - i,
    {
        r.append(package_list[i].as_str());
        r.append(" ");
        proof {
            reveal_strlit(" ");
            let t = package_list@.take(i + 1);
            assert(t.drop_last() =~= package_list@.take(i as int));
            assert(t.last() == package_list@[i as int]);
        }
        i = i + 1;
    }
    assert(package_list@.take(i as int) =~= package_list@);
    r
}

/// A command in the backend's executable: its name, then `rest`.
fn command(source: PackageSource, rest: &str) -> (r: String)
    ensures
        r@ == source.spec_command_name() + rest@,
{
    let mut r = String::from_str(source.command_name());
    r.append(rest);
    r
}

/// The command that installs the named packages, leaving those present
/// untouched, and brings the system up to date.
pub fn install_packages(source: PackageSource, package_list: &Vec<String>) -> (r: String)
    ensures
        r@ == source.spec_command_name() + " -Syu --needed "@ + shell_list(package_list@),
{
    let mut r = command(source, " -Syu --needed ");
    let list = format_package_list_for_shell(package_list);
    r.append(list.as_str());
    r
}

/// How far removal of undeclared packages has come.
#[derive(Clone, Copy, PartialEq, Eq, Structural, Debug)]
pub enum RemovalStep {
    /// List every installed package.
    ListInstalled,
    /// Mark every installed package as a mere dependency.
    MarkAsDependencies,
    /// Mark the declared packages as explicitly wanted.
    MarkExplicit,
    /// List the packages that nothing explicit needs.
    ListOrphans,
    /// Remove those orphans.
    RemoveOrphans,
    /// Nothing is left to do.
    Complete,
}

/// What the driver is to run.
#[derive(Debug, PartialEq)]
pub enum ShellRequest {
    /// Run the command and hand back what it printed.
    Capture(String),
    /// Run the command; a failure status fails the removal.
    Run(String),
    /// Removal is complete.
    Finished,
}

/// Whether the request is to run `cmd` and check its status.
pub open spec fn runs(q: ShellRequest, cmd: Seq<char>) -> bool {
    q matches ShellRequest::Run(c) && c@ == cmd
}

/// Whether the request is to run `cmd` and hand back its output.
pub open spec fn captures(q: ShellRequest, cmd: Seq<char>) -> bool {
    q matches ShellRequest::Capture(c) && c@ == cmd
}

/// The command of the next step of removing what the backend has installed
/// but the list does not declare, and the step after it. `output` is what
/// the last captured command printed: the installed packages before
/// `MarkAsDependencies`, the orphans before `RemoveOrphans`. Output that
/// holds no name means there are no orphans, and nothing is removed.
pub fn remove_non_packages(
    source: PackageSource,
    package_list: &Vec<String>,
    step: RemovalStep,
    output: &str,
) -> (r: (ShellRequest, RemovalStep))
    ensures
        step == RemovalStep::ListInstalled ==> r.1 == RemovalStep::MarkAsDependencies && captures(
            r.0,
            source.spec_command_name() + " -Qq"@,
        ),
        step == RemovalStep::MarkAsDependencies ==> r.1 == RemovalStep::MarkExplicit && runs(
            r.0,
            source.spec_command_name() + " -D --asdeps "@ + newlines_to_spaces(output@),
        ),
        step == RemovalStep::MarkExplicit ==> r.1 == RemovalStep::ListOrphans && runs(
            r.0,
            source.spec_command_name() + " -D --asexplicit "@ + shell_list(package_list@),
        ),
        step == RemovalStep::ListOrphans ==> r.1 == RemovalStep::RemoveOrphans && captures(
            r.0,
            source.spec_command_name() + " -Qtdq"@,
        ),
        step == RemovalStep::RemoveOrphans && !holds_name(output@) ==> r.1 == RemovalStep::Complete
            && r.0 is Finished,
        step == RemovalStep::RemoveOrphans && holds_name(output@) ==> r.1
            == RemovalStep::Complete && runs(
            r.0,
            source.spec_command_name() + " -Rns "@ + newlines_to_spaces(output@),
        ),
        step == RemovalStep::Complete ==> r.1 == RemovalStep::Complete && r.0 is Finished,
{
    match step {
        RemovalStep::ListInstalled => (
            ShellRequest::Capture(command(source, " -Qq")),
            RemovalStep::MarkAsDependencies,
        ),
        RemovalStep::MarkAsDependencies => {
            let mut c = command(source, " -D --asdeps ");
            let installed = replace_newlines(output);
            c.append(installed.as_str());
            (ShellRequest::Run(c), RemovalStep::MarkExplicit)
        },
        RemovalStep::MarkExplicit => {
            let mut c = command(source, " -D --asexplicit ");
            let list = format_package_list_for_shell(package_list);
            c.append(list.as_str());
            (ShellRequest::Run(c), RemovalStep::ListOrphans)
        },
        RemovalStep::ListOrphans => (
            ShellRequest::Capture(command(source, " -Qtdq")),
            RemovalStep::RemoveOrphans,
        ),
        RemovalStep::RemoveOrphans => {
            if !has_name(output) {
                (ShellRequest::Finished, RemovalStep::Complete)
            } else {
                let orphans = replace_newlines(output);
                let mut c = command(source, " -Rns ");
                c.append(orphans.as_str());
                (ShellRequest::Run(c), RemovalStep::Complete)
            }
        },
        RemovalStep::Complete => (ShellRequest::Finished, RemovalStep::Complete),
    }
}

} // verus!
