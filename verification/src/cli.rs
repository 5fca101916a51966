//! The command line: the program's name and, after it, one argument, the
//! path of the file that lists the targets.

use crate::text::texts;
use vstd::prelude::*;
use vstd::string::*;

verus! {

/// The status with which the program ends where it was called wrongly.
pub const USAGE_EXIT_CODE: i32 = 1;

/// The name under which the program was called: the first of `args`, or
/// nothing where there is none.
pub open spec fn program_name(args: Seq<Seq<char>>) -> Seq<char> {
    if args.len() > 0 {
        args[0]
    } else {
        Seq::empty()
    }
}

/// The line that says how the program `program` is to be called.
pub open spec fn usage_line(program: Seq<char>) -> Seq<char> {
    "Usage: "@ + program + " <ip_list_file.txt>"@
}

/// The path of the target list, where `args` holds the program's name and
/// exactly one argument after it; otherwise the usage line, with which the
/// program is to end before it has made any file.
pub fn input_path(args: &Vec<String>) -> (r: Result<String, String>)
    ensures
        match r {
            Ok(path) => args.len() == 2 && path@ == args[1]@,
            Err(line) => args.len() != 2 && line@ == usage_line(program_name(texts(args@))),
        },
{
    if args.len() == 2 {
        Ok(args[1].clone())
    } else {
        let mut line = String::from_str("Usage: ");
        if args.len() > 0 {
            line.append(args[0].as_str());
            assert(texts(args@)[0] == args[0]@);
        } else {
            assert(line@ + Seq::<char>::empty() == line@);
        }
        line.append(" <ip_list_file.txt>");
        Err(line)
    }
}

} // verus!
