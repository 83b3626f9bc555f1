use vstd::prelude::*;

verus! {

/// The two log files named on the command line.
#[derive(Debug)]
pub struct Args {
    pub file1: String,
    pub file2: String,
}

/// The argument tokens as character sequences.
pub open spec fn token_views(args: Seq<String>) -> Seq<Seq<char>> {
    args.map_values(|s: String| s@)
}

/// A well-formed command line names both files, each behind its flag, the
/// two pairs in either order: `--file1 <path> --file2 <path>`.
pub open spec fn spec_valid(t: Seq<Seq<char>>) -> bool {
    t.len() == 4 && ((t[0] == "--file1"@ && t[2] == "--file2"@) || (t[0] == "--file2"@
        && t[2] == "--file1"@))
}

pub open spec fn spec_file1(t: Seq<Seq<char>>) -> Seq<char> {
    if t[0] == "--file1"@ {
        t[1]
    } else {
        t[3]
    }
}

pub open spec fn spec_file2(t: Seq<Seq<char>>) -> Seq<char> {
    if t[0] == "--file1"@ {
        t[3]
    } else {
        t[1]
    }
}

/// Parse the arguments that follow the program name.  `None` exactly when
/// the command line is not the two flag/value pairs.
pub fn parse(args: &Vec<String>) -> (r: Option<Args>)
    ensures
        r is Some <==> spec_valid(token_views(args@)),
        r matches Some(a) ==> a.file1@ == spec_file1(token_views(args@)),
        r matches Some(a) ==> a.file2@ == spec_file2(token_views(args@)),
{
    if args.len() != 4 {
        return None;
    }
    let flag1: String = String::from_str("--file1");
    let flag2: String = String::from_str("--file2");
    if args[0] == flag1 && args[2] == flag2 {
        Some(Args { file1: args[1].clone(), file2: args[3].clone() })
    } else if args[0] == flag2 && args[2] == flag1 {
        Some(Args { file1: args[3].clone(), file2: args[1].clone() })
    } else {
        None
    }
}

} // verus!
