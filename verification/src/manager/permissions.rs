//! The single checkpoint in front of every operation that changes state.

use vstd::prelude::*;
use crate::manager::operations::OpError;
use crate::manager::Manager;

verus! {

/// Passes exactly where the active session is an `Admin` session.
pub fn check_admin_privilege(manager: &Manager) -> (checked: Result<(), OpError>)
    ensures
        checked == if manager.active_user.admin() {
            Ok::<(), OpError>(())
        } else {
            Err::<(), OpError>(OpError::PermissionDenied)
        },
{
    if manager.active_user.is_admin() {
        Ok(())
    } else {
        Err(OpError::PermissionDenied)
    }
}

} // verus!
