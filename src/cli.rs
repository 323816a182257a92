//! The command-line request as plain values, and the options it yields.
use vstd::prelude::*;

verus! {

/// What the command line asked for. Paths are held as their text.
#[derive(Debug)]
pub struct CLIArgs {
    pub sources: Vec<String>,
    pub destination: Option<String>,
    pub target_directory: Option<String>,
    pub style: Option<String>,
    pub recursive: bool,
    pub concurrency: usize,
    pub continue_copy: bool,
    pub force: bool,
    pub interactive: bool,
    pub parents: bool,
}

/// The settings that every component of a copy reads.
#[derive(Debug, Clone, Copy, PartialEq, Eq, Structural)]
pub struct CopyOptions {
    pub recursive: bool,
    pub concurrency: usize,
    pub resume: bool,
    pub force: bool,
    pub interactive: bool,
    pub parents: bool,
}

/// The options that a command line carries.
pub open spec fn options_of(cli: &CLIArgs) -> CopyOptions {
    CopyOptions {
        recursive: cli.recursive,
        concurrency: cli.concurrency,
        resume: cli.continue_copy,
        force: cli.force,
        interactive: cli.interactive,
        parents: cli.parents,
    }
}

impl<'a> From<&'a CLIArgs> for CopyOptions {
    fn from(cli: &'a CLIArgs) -> (r: CopyOptions)
        ensures
            r == options_of(cli),
    {
        CopyOptions {
            recursive: cli.recursive,
            concurrency: cli.concurrency,
            resume: cli.continue_copy,
            force: cli.force,
            interactive: cli.interactive,
            parents: cli.parents,
        }
    }
}

impl<'a> vstd::std_specs::convert::FromSpecImpl<&'a CLIArgs> for CopyOptions {
    open spec fn obeys_from_spec() -> bool {
        true
    }

    open spec fn from_spec(cli: &'a CLIArgs) -> CopyOptions {
        options_of(cli)
    }
}

impl CLIArgs {
    /// The sources, the destination and the options of this request. The
    /// target directory, where given, is the destination; otherwise the last
    /// argument is. A request with neither, or with no worker, is refused.
    pub fn validate(self) -> (r: Result<(Vec<String>, String, CopyOptions), String>)
        ensures
            self.concurrency == 0 ==> r is Err && r->Err_0@ == "Concurrency must be at least 1"@,
            self.concurrency > 0 && self.target_directory is None && self.destination is None
                ==> r is Err && r->Err_0@
                == "Missing destination: specify last argument or use --target-directory"@,
            self.concurrency > 0 && self.target_directory is Some ==> r == Ok::<
                (Vec<String>, String, CopyOptions),
                String,
            >((self.sources, self.target_directory->Some_0, options_of(&self))),
            self.concurrency > 0 && self.target_directory is None && self.destination is Some
                ==> r == Ok::<(Vec<String>, String, CopyOptions), String>(
                (self.sources, self.destination->Some_0, options_of(&self)),
            ),
    {
        let options = CopyOptions::from(&self);
        if self.concurrency == 0 {
            return Err(String::from_str("Concurrency must be at least 1"));
        }
        let destination = if let Some(target) = self.target_directory {
            target
        } else if let Some(dest) = self.destination {
            dest
        } else {
            return Err(
                String::from_str(
                    "Missing destination: specify last argument or use --target-directory",
                ),
            );
        };
        Ok((self.sources, destination, options))
    }
}

} // verus!
