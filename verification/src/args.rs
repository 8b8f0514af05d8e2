use vstd::prelude::*;

verus! {

/// The number of command-line arguments the simulation takes, the program's
/// own name among them: the star counts of the two clusters, their radii, and
/// the position and the velocity of the second cluster.
pub const ARGUMENT_COUNT: usize = 11;

/// Why the command line was refused.
#[derive(Debug, PartialEq, Eq, Structural)]
pub enum ArgumentError {
    /// There are not exactly `ARGUMENT_COUNT` arguments.
    WrongCount,
}

/// Checks the number of command-line arguments and hands back the ten
/// parameters that follow the program's name, in their order.
pub fn select_parameters(args: Vec<String>) -> (r: Result<Vec<String>, ArgumentError>)
    ensures
        r is Err <==> args@.len() != ARGUMENT_COUNT,
        r matches Err(e) ==> e == ArgumentError::WrongCount,
        r matches Ok(p) ==> p@ == args@.subrange(1, ARGUMENT_COUNT as int),
{
    if args.len() != ARGUMENT_COUNT {
        return Err(ArgumentError::WrongCount);
    }
    let mut params = args;
    params.remove(0);
    proof {
        assert(params@ =~= args@.subrange(1, ARGUMENT_COUNT as int));
    }
    Ok(params)
}

} // verus!
