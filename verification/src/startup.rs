//! The choice of the root directory from the command line.

use vstd::prelude::*;

verus! {

/// What a list of arguments holds, argument by argument.
pub open spec fn arguments(args: Seq<String>) -> Seq<Seq<char>> {
    Seq::new(args.len(), |i: int| args[i]@)
}

/// The directory that the command line asks for: the argument behind
/// `--directory`, where that flag is the first argument and a path follows
/// it, and the current directory otherwise. The name of the program comes
/// before the first argument.
pub open spec fn requested_directory(args: Seq<Seq<char>>) -> Seq<char> {
    if args.len() > 2 && args[1] == "--directory"@ {
        args[2]
    } else {
        "."@
    }
}

/// The directory that is served: the requested one where it is a
/// directory, and the current directory otherwise.
pub open spec fn served_directory(requested: Seq<char>, is_directory: bool) -> Seq<char> {
    if is_directory {
        requested
    } else {
        "."@
    }
}

/// Reads the requested directory from the command line.
pub fn parse_argline_args(argline_args: &Vec<String>) -> (r: String)
    ensures
        r@ == requested_directory(arguments(argline_args@)),
{
    let flag = "--directory".to_owned();
    if argline_args.len() > 2 && argline_args[1] == flag {
        argline_args[2].clone()
    } else {
        ".".to_owned()
    }
}

/// Settles the served directory, once it is known whether the requested
/// one exists and is a directory.
pub fn settle_directory(requested: String, is_directory: bool) -> (r: String)
    ensures
        r@ == served_directory(requested@, is_directory),
{
    if is_directory {
        requested
    } else {
        ".".to_owned()
    }
}

} // verus!
