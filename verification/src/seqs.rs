//! A fact about lists that are worked off from the front.

use vstd::prelude::*;

verus! {

/// Taking the first element off the rest of a list moves the rest one
/// place on: if `old_rest` is `all` from `done` on and `new_rest` is
/// `old_rest` without its first element, then `new_rest` is `all` from
/// `done + 1` on, and the element taken is the one at `done`.
pub proof fn rest_advances<T>(all: Seq<T>, done: int, old_rest: Seq<T>, new_rest: Seq<T>)
    requires
        0 <= done <= all.len(),
        old_rest == all.skip(done),
        old_rest.len() > 0,
        new_rest.len() == old_rest.len() - 1,
        forall|k: int| 0 <= k < new_rest.len() ==> #[trigger] new_rest[k] == old_rest[k + 1],
    ensures
        done < all.len(),
        old_rest[0] == all[done],
        new_rest == all.skip(done + 1),
        all.take(done + 1) == all.take(done).push(all[done]),
        all.take(done + 1).drop_last() == all.take(done),
        all.take(done + 1).last() == all[done],
{
    assert(old_rest.len() == all.len() - done);
    assert forall|k: int| 0 <= k < new_rest.len() implies new_rest[k] == all.skip(done + 1)[k] by {
        assert(new_rest[k] == old_rest[k + 1]);
    }
    assert(new_rest =~= all.skip(done + 1));
    assert(all.take(done + 1) =~= all.take(done).push(all[done]));
    assert(all.take(done + 1).drop_last() =~= all.take(done));
}

} // verus!
