//! Aggregation of many breach checks run side by side: every check is given
//! its chance to finish, the outcomes are collected, and the batch fails
//! with the first failure — or succeeds when every check came back clean.

use vstd::prelude::*;

verus! {

/// One verdict for a whole batch: `Ok` exactly when every outcome is `Ok`,
/// otherwise the error of the first failed outcome. An empty batch
/// succeeds outright.
pub fn aggregate_outcomes<E>(results: Vec<Result<bool, E>>) -> (r: Result<(), E>)
    ensures
        (r is Ok <==> (forall|i: int| 0 <= i < results@.len() ==> #[trigger] results@[i] is Ok)),
        r matches Err(e) ==> exists|i: int|
            0 <= i < results@.len() && #[trigger] results@[i] == Err::<bool, E>(e) && (forall|
                j: int,
            |
                0 <= j < i ==> #[trigger] results@[j] is Ok),
{
    let ghost rv = results@;
    let mut owned = results;
    let n = owned.len();
    let mut i: usize = 0;
    while i < n
        invariant
            i <= n,
            rv == results@,
            owned@ == rv,
            n == rv.len(),
            forall|j: int| 0 <= j < i ==> #[trigger] rv[j] is Ok,
        decreases n - i,
    {
        let failed = match &owned[i] {
            Ok(_) => false,
            Err(_) => true,
        };
        if failed {
            proof {
                assert(owned@[i as int] is Err);
            }
            let taken = owned.remove(i);
            match taken {
                Err(e) => {
                    proof {
                        assert(rv[i as int] == Err::<bool, E>(e));
                        assert(forall|j: int| 0 <= j < i ==> #[trigger] rv[j] is Ok);
                    }
                    return Err(e);
                },
                Ok(_) => {
                    proof {
                        assert(false);
                    }
                    return Ok(());
                },
            }
        }
        i = i + 1;
    }
    Ok(())
}

} // verus!
