//! Cloning a UTM guest. UTM runs on macOS alone, where an AppleScript call
//! does the cloning (that call stands outside this library). This library
//! is built for the other systems, where cloning is never to be asked for.

use vstd::prelude::*;

verus! {

/// Why a guest was not cloned.
#[derive(Clone, Copy, Debug, PartialEq, Eq, Structural)]
pub enum CloneGuestError {
    /// Cloning a UTM guest requires macOS.
    RequiresMacos,
}

/// Whether this build of the library can reach UTM. UTM exists on macOS
/// alone, and this build is for the other systems.
pub open spec fn utm_available() -> bool {
    false
}

/// Clones the UTM guest `original_guest_name` as `new_guest_name`. Off macOS
/// there is no UTM: no caller may ask for this, on any input.
pub fn clone_guest(original_guest_name: &str, new_guest_name: &str) -> (r: Result<
    (),
    CloneGuestError,
>)
    requires
        utm_available(),
{
    Err(CloneGuestError::RequiresMacos)
}

} // verus!
