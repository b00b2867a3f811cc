//! The launch command for the target executable.
//!
//! The target runs with its original argument list — everything after the
//! launcher's own name and the executable-path argument, forwarded verbatim
//! — and with the dynamic-library search-path variable pointed at the
//! sandbox directory, so the planned substitutes take precedence for the
//! overridden names while everything else resolves normally.

use vstd::prelude::*;
use crate::resolver::clone_bytes;

verus! {

/// Everything the host needs to start the target: the program, its argument
/// list, and the value for the loader's search-path variable.
#[derive(Debug, PartialEq, Eq)]
pub struct LaunchPlan {
    pub program: Vec<u8>,
    pub args: Vec<Vec<u8>>,
    pub library_path: Vec<u8>,
}

/// The arguments forwarded to the target: the full command line minus the
/// launcher's own name and the executable-path argument.
pub open spec fn forwarded_args(argv: Seq<Seq<u8>>) -> Seq<Seq<u8>> {
    if argv.len() >= 2 {
        argv.subrange(2, argv.len() as int)
    } else {
        Seq::empty()
    }
}

/// Builds the launch command: program and arguments unchanged — same order,
/// same values — and the search path set to the sandbox directory.
pub fn launch_plan(exe_path: &[u8], argv: &Vec<Vec<u8>>, sandbox_dir: &[u8]) -> (p: LaunchPlan)
    ensures
        p.program@ == exe_path@,
        p.library_path@ == sandbox_dir@,
        p.args@.map_values(|a: Vec<u8>| a@) == forwarded_args(argv@.map_values(|a: Vec<u8>| a@)),
{
    let ghost all = argv@.map_values(|a: Vec<u8>| a@);
    let mut args: Vec<Vec<u8>> = Vec::new();
    let n: usize = argv.len();
    let mut i: usize = if n >= 2 {
        2
    } else {
        n
    };
    proof {
        assert(args@.map_values(|a: Vec<u8>| a@) =~= all.subrange(i as int, i as int));
        if n < 2 {
            assert(forwarded_args(all) =~= all.subrange(i as int, i as int));
        }
    }
    while i < n
        invariant
            i <= n,
            n == argv@.len(),
            n >= 2 ==> i >= 2,
            n < 2 ==> i == n,
            all == argv@.map_values(|a: Vec<u8>| a@),
            args@.map_values(|a: Vec<u8>| a@) == if n >= 2 {
                all.subrange(2, i as int)
            } else {
                Seq::<Seq<u8>>::empty()
            },
        decreases n - i,
    {
        let a = clone_bytes(argv[i].as_slice());
        proof {
            assert(args@.push(a).map_values(|x: Vec<u8>| x@) =~= args@.map_values(
                |x: Vec<u8>| x@,
            ).push(a@));
            assert(all.subrange(2, i as int).push(all[i as int]) =~= all.subrange(
                2,
                i as int + 1,
            ));
            assert(all[i as int] == argv@[i as int]@);
        }
        args.push(a);
        i = i + 1;
    }
    LaunchPlan {
        program: clone_bytes(exe_path),
        args,
        library_path: clone_bytes(sandbox_dir),
    }
}

} // verus!
