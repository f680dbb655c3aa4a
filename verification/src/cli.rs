//! The program's settings and its command line, as plain values.

use vstd::prelude::*;

verus! {

/// Where the working tree and the repository directory are.
pub struct Config {
    pub base_dir: String,
    pub git_dir: String,
}

impl Default for Config {
    /// The current directory, with the repository in `./.ugit`.
    fn default() -> (r: Self)
        ensures
            r.base_dir@ == seq!['.'],
            r.git_dir@ == seq!['.', '/', '.', 'u', 'g', 'i', 't'],
    {
        let base = ".";
        let git = "./.ugit";
        proof {
            reveal_strlit(".");
            reveal_strlit("./.ugit");
        }
        let r = Config {
            base_dir: crate::text::string_from(crate::text::chars_of(base).as_slice()),
            git_dir: crate::text::string_from(crate::text::chars_of(git).as_slice()),
        };
        assert(r.base_dir@ =~= seq!['.']);
        assert(r.git_dir@ =~= seq!['.', '/', '.', 'u', 'g', 'i', 't']);
        r
    }
}

/// The parsed command line.
pub struct Args {
    /// Name of the command.
    pub command: Commands,
}

/// The commands of the program.
pub enum Commands {
    /// Initialize a new repository.
    Init,
    /// Add files to staging.
    Add { files: Vec<String> },
    /// Commit staged changes.
    Commit { message: String },
    /// Get diff of two files.
    Diff { file_a: String, file_b: String },
    /// Write the working tree as a tree.
    WriteTree,
    /// Restore a tree (id or tag name).
    ReadTree { tree_oid: String },
    /// Show the history (id or tag name).
    Log { oid: Option<String> },
    /// Check out a commit (id or tag name).
    Checkout { oid: String },
    /// Tag a commit.
    Tag { name: String, oid: Option<String> },
    /// Show all references.
    K,
    /// Create a branch.
    Branch { name: String, start_point: Option<String> },
}

} // verus!
