//! The status value a run ends with, and command-line argument parsing.
//! The outermost caller maps the wrapped code onto a process exit code.

use vstd::prelude::*;

use crate::declarations::BAD_COMMAND_LINE_ERROR;

verus! {

/// A process status code, carried from the top-level entry point to the
/// single outermost boundary that turns it into a process exit code.
pub struct ReturnWrapper {
    code: u8,
}

impl ReturnWrapper {
    /// The wrapped status code.
    pub closed spec fn spec_code(&self) -> u8 {
        self.code
    }

    /// Wraps a status code.
    pub fn new(code: u8) -> (r: ReturnWrapper)
        ensures
            r.spec_code() == code,
    {
        ReturnWrapper { code }
    }

    /// Hands the status code back out.
    pub fn code(&self) -> (c: u8)
        ensures
            c == self.spec_code(),
    {
        self.code
    }
}

/// The literal that enables diagnostic (whinge) mode on the command line.
pub open spec fn whinge_literal() -> Seq<char> {
    "whinge"@
}

/// Whether a full argument vector is a valid invocation: the program
/// name, a script file name, and optionally the exact diagnostic literal.
pub open spec fn valid_invocation(args: Seq<Seq<char>>) -> bool {
    args.len() == 2 || (args.len() == 3 && args[2] == whinge_literal())
}

/// Parses the command line: on a valid invocation, stores the script
/// file name and reports whether diagnostic mode was requested; any
/// other arity or literal is a bad invocation.
pub fn parse_args(args: &Vec<String>, script_filename: &mut String) -> (r: Result<bool, u8>)
    ensures
        r is Ok <==> valid_invocation(args.deep_view()),
        r is Ok ==> final(script_filename)@ == args.deep_view()[1],
        r is Ok ==> (r->Ok_0 <==> args.deep_view().len() == 3),
        r is Err ==> r->Err_0 == BAD_COMMAND_LINE_ERROR && *final(script_filename) == *old(
            script_filename,
        ),
{
    if args.len() < 2 || args.len() > 3 {
        return Err(BAD_COMMAND_LINE_ERROR);
    }
    if args.len() == 3 {
        let flag = String::from_str("whinge");
        if !(args[2] == flag) {
            return Err(BAD_COMMAND_LINE_ERROR);
        }
    }
    *script_filename = args[1].clone();
    Ok(args.len() == 3)
}

} // verus!
