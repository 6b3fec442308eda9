//! Where each application's ELF file lies among the linked-in application
//! images.
use vstd::prelude::*;

verus! {

/// The bytes of application `app_id`: `app_starts` holds the start address
/// of each application followed by the end of the last one, so the
/// application spans `app_starts[app_id] .. app_starts[app_id + 1]`.
/// Returns its start address and length.
pub fn get_app_data(app_starts: &Vec<usize>, app_id: usize) -> (r: (usize, usize))
    requires
        app_id + 1 < app_starts@.len(),
        app_starts@[app_id as int] <= app_starts@[app_id + 1],
    ensures
        r.0 == app_starts@[app_id as int],
        r.1 == app_starts@[app_id + 1] - app_starts@[app_id as int],
{
    let count = app_starts.len();
    assert(app_id + 1 < count);
    let next = app_id + 1;
    (app_starts[app_id], app_starts[next] - app_starts[app_id])
}

} // verus!
