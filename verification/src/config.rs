//! The serving directory and how it is chosen from the command line.

use vstd::prelude::*;
use vstd::string::*;
use crate::headers::texts;
use crate::text::same_text;

verus! {

/// Whether every `--directory` from position `i` on has a value after it.
/// The value is not itself read as an argument.
pub open spec fn values_given(args: Seq<Seq<char>>, i: int) -> bool
    decreases args.len() - i,
{
    if i < 0 || i >= args.len() {
        true
    } else if args[i] == "--directory"@ {
        i + 1 < args.len() && values_given(args, i + 2)
    } else {
        values_given(args, i + 1)
    }
}

/// The directory that the arguments from position `i` on choose, `current`
/// being the choice so far: each `--directory` takes the argument after it
/// as its value, and the last one wins.
pub open spec fn directory_of(args: Seq<Seq<char>>, i: int, current: Seq<char>) -> Seq<char>
    decreases args.len() - i,
{
    if i < 0 || i >= args.len() {
        current
    } else if args[i] == "--directory"@ && i + 1 < args.len() {
        directory_of(args, i + 2, args[i + 1])
    } else {
        directory_of(args, i + 1, current)
    }
}

/// What the server is configured with.
#[derive(Debug)]
pub struct Config {
    pub directory: String,
}

impl Config {
    /// Whether every `--directory` among `args` has a value after it.
    pub fn accepts(args: &Vec<String>) -> (r: bool)
        ensures
            r == values_given(texts(args@), 0),
    {
        let ghost all = texts(args@);
        let mut i: usize = 0;
        while i < args.len()
            invariant
                i <= args@.len(),
                all == texts(args@),
                values_given(all, 0) == values_given(all, i as int),
            decreases args@.len() - i,
        {
            assert(all[i as int] == args@[i as int]@);
            if same_text(args[i].as_str(), "--directory") {
                if i + 1 < args.len() {
                    i += 2;
                } else {
                    return false;
                }
            } else {
                i += 1;
            }
        }
        true
    }

    /// Chooses the serving directory: the value of the last `--directory`
    /// argument, or `public` under `working_dir` where there is none.
    pub fn new(args: &Vec<String>, working_dir: &str) -> (r: Config)
        requires
            values_given(texts(args@), 0),
        ensures
            r.directory@ == directory_of(texts(args@), 0, working_dir@ + "/public"@),
    {
        let mut directory = working_dir.to_owned().concat("/public");
        let ghost all = texts(args@);
        let ghost start = working_dir@ + "/public"@;
        let mut i: usize = 0;
        while i < args.len()
            invariant
                i <= args@.len(),
                all == texts(args@),
                start == working_dir@ + "/public"@,
                values_given(all, i as int),
                directory_of(all, 0, start) == directory_of(all, i as int, directory@),
            decreases args@.len() - i,
        {
            assert(all[i as int] == args@[i as int]@);
            if same_text(args[i].as_str(), "--directory") {
                assert(i + 1 < args@.len());
                assert(all[i + 1] == args@[i + 1]@);
                directory = args[i + 1].clone();
                i += 2;
            } else {
                i += 1;
            }
        }
        Config { directory }
    }

    /// The path of the file `name` under the serving directory.
    pub fn resolve(&self, name: &str) -> (r: String)
        ensures
            r@ == self.directory@ + "/"@ + name@,
    {
        self.directory.clone().concat("/").concat(name)
    }
}

} // verus!
