//! Running a command with the variables of the encrypted file: which
//! program to start, and how its exit status ends this process.

use vstd::prelude::*;
use crate::text::strings_view;

verus! {

/// The program and its arguments: the first word of the command and the
/// rest. Nothing when the command is empty.
pub fn command_parts(args: &Vec<String>) -> (r: Option<(String, Vec<String>)>)
    ensures
        match r {
            Some((program, rest)) => args@.len() > 0 && program@ == args@[0]@ && strings_view(rest@)
                == strings_view(args@).drop_first(),
            None => args@.len() == 0,
        },
{
    if args.len() == 0 {
        return None;
    }
    let program = args[0].clone();
    let mut rest: Vec<String> = Vec::new();
    let mut i: usize = 1;
    while i < args.len()
        invariant
            1 <= i <= args@.len(),
            strings_view(rest@) == strings_view(args@).subrange(1, i as int),
        decreases args@.len() - i,
    {
        let ghost before = strings_view(rest@);
        let s = args[i].clone();
        assert(s@ == args@[i as int]@);
        rest.push(s);
        assert(strings_view(rest@) =~= before.push(s@));
        assert(strings_view(rest@) =~= strings_view(args@).subrange(1, i + 1));
        i = i + 1;
    }
    assert(strings_view(args@).subrange(1, args@.len() as int) =~= strings_view(args@).drop_first());
    Some((program, rest))
}

/// The code this process exits with after the command finished: none when
/// it succeeded, otherwise its exit code, or 1 when it has none (it was
/// killed by a signal).
pub fn exit_code(success: bool, code: Option<i32>) -> (r: Option<i32>)
    ensures
        success ==> r is None,
        !success ==> r == Some(
            match code {
                Some(c) => c,
                None => 1i32,
            },
        ),
{
    if success {
        None
    } else {
        match code {
            Some(c) => Some(c),
            None => Some(1),
        }
    }
}

} // verus!
