//! The tables that hold open directories and open files. Each has a limit,
//! fixed by the manager's type, on how many entries it takes.

use vstd::prelude::*;

verus! {

/// Appends `item` to the table when it holds fewer than `limit` entries,
/// and otherwise hands `item` back, leaving the table as it was.
pub(crate) fn push_within<T>(table: &mut Vec<T>, limit: usize, item: T) -> (r: Result<(), T>)
    ensures
        r is Ok <==> old(table)@.len() < limit,
        r is Ok ==> final(table)@ == old(table)@.push(item),
        r matches Err(back) ==> back == item && final(table)@ == old(table)@,
{
    if table.len() < limit {
        table.push(item);
        Ok(())
    } else {
        Err(item)
    }
}

} // verus!
