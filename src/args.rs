use vstd::prelude::*;

verus! {

broadcast use vstd::string::axiom_spec_iter, vstd::string::next_postcondition;

/// The directory watched when none is given: `inbox` under the home
/// directory.
pub const DEFAULT_PATH: &'static str = "~/inbox";

/// The command line: the directory to watch.
#[derive(Debug)]
pub struct Args {
    pub directory: String,
}

impl Args {
    /// True when the directory starts with `~`. Such a directory stands for
    /// the default location under the home directory, whatever follows the
    /// `~`; any other directory is used as given.
    pub fn uses_home(&self) -> (r: bool)
        ensures
            r == (self.directory@.len() > 0 && self.directory@[0] == '~'),
    {
        let s = self.directory.as_str();
        let mut chars = s.chars();
        let first = chars.next();
        match first {
            Some(c) => c == '~',
            None => false,
        }
    }
}

} // verus!
