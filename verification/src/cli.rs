//! Command-line validation: the first argument is the command line to
//! run, every further argument a directory to watch. Checking that a
//! path really is a directory is the caller's part; the decision over
//! the check's outcomes stands here.

use vstd::prelude::*;

verus! {

/// Why the command line is rejected at startup.
#[derive(Clone, Copy, Debug, PartialEq, Eq, Structural)]
pub enum CliError {
    /// No command was given: usage is printed.
    MissingCommand,
    /// A command but no directory was given.
    NoDirectories,
}

/// The validated command line: the command string, and the directories
/// to watch, at least one.
pub struct CliConfig {
    pub command: String,
    pub dirs: Vec<String>,
}

/// Splits the arguments (program name already removed) into the
/// command and the directories to watch. Fails with `MissingCommand`
/// on an empty argument list and with `NoDirectories` when only the
/// command was given; with two or more arguments it succeeds, the
/// first argument the command, the rest the directories in order.
pub fn parse_args(args: &Vec<String>) -> (r: Result<CliConfig, CliError>)
    ensures
        args@.len() == 0 ==> (r matches Err(e) && e == CliError::MissingCommand),
        args@.len() == 1 ==> (r matches Err(e) && e == CliError::NoDirectories),
        args@.len() >= 2 ==> (r matches Ok(c) && {
            &&& c.command@ == args@[0]@
            &&& c.dirs@.len() == args@.len() - 1
            &&& forall|i: int| 0 <= i < c.dirs@.len() ==> #[trigger] c.dirs@[i]@ == args@[i + 1]@
        }),
{
    if args.len() == 0 {
        return Err(CliError::MissingCommand);
    }
    if args.len() == 1 {
        return Err(CliError::NoDirectories);
    }
    let command = args[0].clone();
    let mut dirs: Vec<String> = Vec::new();
    let mut i: usize = 1;
    while i < args.len()
        invariant
            1 <= i <= args@.len(),
            dirs@.len() == i - 1,
            forall|k: int| 0 <= k < dirs@.len() ==> #[trigger] dirs@[k]@ == args@[k + 1]@,
        decreases args@.len() - i,
    {
        dirs.push(args[i].clone());
        i = i + 1;
    }
    Ok(CliConfig { command, dirs })
}

/// Finds the first entry that failed the is-a-directory check, given
/// one check outcome per watched path, in order. Returns the index of
/// the first failure, or `None` when every path passed.
pub fn first_invalid(is_dir: &Vec<bool>) -> (r: Option<usize>)
    ensures
        r matches Some(i) ==> i < is_dir@.len() && !is_dir@[i as int]
            && forall|j: int| 0 <= j < i ==> is_dir@[j],
        r is None ==> forall|j: int| 0 <= j < is_dir@.len() ==> is_dir@[j],
{
    let mut i: usize = 0;
    while i < is_dir.len()
        invariant
            0 <= i <= is_dir@.len(),
            forall|j: int| 0 <= j < i ==> is_dir@[j],
        decreases is_dir@.len() - i,
    {
        if !is_dir[i] {
            return Some(i);
        }
        i = i + 1;
    }
    None
}

} // verus!
