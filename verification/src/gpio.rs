//! The pin interface: logical modes and the pin capability.

use vstd::prelude::*;
use crate::hal::{GpioPinInformation, HalErrorKind, HalResult};

verus! {

/// The logical mode of a GPIO pin.
#[derive(Debug, Clone, Copy, PartialEq, Eq, Structural)]
pub enum GpioPinMode {
    FloatingInput,
    PushPullOutput,
    Alternate(u8),
}

/// A pin capability: an identity, a logical mode the pin itself records,
/// and a line level. Register work behind these operations is the
/// implementor's concern; the contracts speak only of the recorded state.
pub trait GpioPin: Sized {
    /// The pin's identity, for contracts.
    spec fn info_spec(&self) -> GpioPinInformation;

    /// The pin's recorded logical mode, for contracts.
    spec fn mode_spec(&self) -> GpioPinMode;

    /// The pin's line level, for contracts.
    spec fn level_spec(&self) -> bool;

    /// Which modes this pin supports.
    spec fn mode_supported(mode: GpioPinMode) -> bool;

    fn information(&self) -> (r: GpioPinInformation)
        ensures
            r == self.info_spec(),
    ;

    fn mode(&self) -> (r: GpioPinMode)
        ensures
            r == self.mode_spec(),
    ;

    /// Change the logical mode; fails with `InvalidGpioMode` exactly on
    /// unsupported modes, leaving the pin as it was.
    fn set_mode(&mut self, mode: GpioPinMode) -> (r: HalResult<()>)
        ensures
            r is Ok <==> Self::mode_supported(mode),
            r is Ok ==> final(self).mode_spec() == mode && final(self).info_spec() == old(
                self,
            ).info_spec() && final(self).level_spec() == old(self).level_spec(),
            r is Err ==> *final(self) == *old(self),
            r matches Err(e) ==> e.kind() == HalErrorKind::InvalidGpioMode,
    ;

    /// Drive the line; allowed exactly in push-pull output mode.
    fn set_output(&mut self, value: bool) -> (r: HalResult<()>)
        ensures
            r is Ok <==> old(self).mode_spec() is PushPullOutput,
            r is Ok ==> final(self).level_spec() == value && final(self).mode_spec() == old(
                self,
            ).mode_spec() && final(self).info_spec() == old(self).info_spec(),
            r is Err ==> *final(self) == *old(self),
            r matches Err(e) ==> e.kind() == HalErrorKind::InvalidGpioMode,
    ;

    /// Read the line; allowed exactly in floating-input mode.
    fn get_input(&self) -> (r: HalResult<bool>)
        ensures
            r is Ok <==> self.mode_spec() is FloatingInput,
            r matches Ok(v) ==> v == self.level_spec(),
            r matches Err(e) ==> e.kind() == HalErrorKind::InvalidGpioMode,
    ;
}

} // verus!
