//! The discovery board's GPIO pins.
//!
//! Each pin records its packed bank/pin index, the logical mode it was last
//! set to, and the line level. The register writes that realise a mode or
//! level on silicon sit outside this model, behind the [`GpioPin`]
//! interface; the pipeline's behaviour depends only on the state recorded
//! here.

use vstd::prelude::*;
use crate::gpio::{GpioPin, GpioPinMode};
use crate::hal::{GpioPinInformation, HalError, HalErrorKind, HalResult};

verus! {

/// The ASCII letter of the first peripheral bank.
pub const BANK_LETTER_BASE: u8 = 65;

/// A pin as the contracts see it: its identity, recorded mode, and line
/// level.
pub struct PinModel {
    pub info: GpioPinInformation,
    pub mode: GpioPinMode,
    pub level: bool,
}

/// One board pin: bank and pin number packed as `bank * 16 + pin`, the
/// recorded logical mode, and the line level.
#[derive(Debug, Clone, Copy)]
pub struct BoardGpioPin {
    index: u8,
    mode: GpioPinMode,
    level: bool,
}

impl View for BoardGpioPin {
    type V = PinModel;

    open spec fn view(&self) -> PinModel {
        PinModel { info: self.info_spec(), mode: self.mode_spec(), level: self.level_spec() }
    }
}

impl BoardGpioPin {
    /// A pin of bank `peripheral` (0 is bank A) with number `pin_index`,
    /// starting out as a floating input driven low.
    pub fn new(peripheral: u8, pin_index: u8) -> (r: Self)
        requires
            peripheral < 6,
            pin_index < 16,
        ensures
            r.info_spec() == (GpioPinInformation {
                index_major: (peripheral + BANK_LETTER_BASE) as u8,
                index_minor: pin_index,
            }),
            r.mode_spec() is FloatingInput,
            r.level_spec() == false,
    {
        BoardGpioPin {
            index: peripheral * 16 + pin_index,
            mode: GpioPinMode::FloatingInput,
            level: false,
        }
    }

    /// The bank number (0 is bank A).
    pub fn peripheral(&self) -> (p: u8)
        ensures
            p + BANK_LETTER_BASE == self.info_spec().index_major,
    {
        self.index / 16
    }

    /// The pin number within the bank.
    pub fn pin_index(&self) -> (p: u8)
        ensures
            p == self.info_spec().index_minor,
    {
        self.index % 16
    }
}

impl GpioPin for BoardGpioPin {
    closed spec fn info_spec(&self) -> GpioPinInformation {
        GpioPinInformation {
            index_major: (self.index / 16 + BANK_LETTER_BASE) as u8,
            index_minor: (self.index % 16) as u8,
        }
    }

    closed spec fn mode_spec(&self) -> GpioPinMode {
        self.mode
    }

    closed spec fn level_spec(&self) -> bool {
        self.level
    }

    /// This board drives pins as floating inputs or push-pull outputs; the
    /// alternate functions are not routed through the bridge.
    open spec fn mode_supported(mode: GpioPinMode) -> bool {
        !(mode is Alternate)
    }

    fn information(&self) -> (r: GpioPinInformation) {
        GpioPinInformation { index_major: self.index / 16 + BANK_LETTER_BASE, index_minor: self.index % 16 }
    }

    fn mode(&self) -> (r: GpioPinMode) {
        self.mode
    }

    fn set_mode(&mut self, mode: GpioPinMode) -> (r: HalResult<()>) {
        match mode {
            GpioPinMode::Alternate(_) => Err(HalError::from_kind(HalErrorKind::InvalidGpioMode)),
            _ => {
                self.mode = mode;
                Ok(())
            },
        }
    }

    fn set_output(&mut self, value: bool) -> (r: HalResult<()>) {
        if self.mode == GpioPinMode::PushPullOutput {
            self.level = value;
            Ok(())
        } else {
            Err(HalError::from_kind(HalErrorKind::InvalidGpioMode))
        }
    }

    fn get_input(&self) -> (r: HalResult<bool>) {
        if self.mode == GpioPinMode::FloatingInput {
            Ok(self.level)
        } else {
            Err(HalError::from_kind(HalErrorKind::InvalidGpioMode))
        }
    }
}

/// The pins this board exposes through the bridge: the eight user LEDs on
/// bank E, pins 8 through 15.
pub struct BoardGpioPinSet {
    pins: Vec<BoardGpioPin>,
}

impl View for BoardGpioPinSet {
    type V = Seq<PinModel>;

    closed spec fn view(&self) -> Seq<PinModel> {
        self.pins@.map_values(|p: BoardGpioPin| p@)
    }
}

impl BoardGpioPinSet {
    /// The standard pin set, every pin a floating input.
    pub fn new() -> (r: Self)
        ensures
            r@.len() == 8,
            forall|i: int|
                0 <= i < 8 ==> (#[trigger] r@[i]) == (PinModel {
                    info: GpioPinInformation { index_major: 69u8, index_minor: (8 + i) as u8 },
                    mode: GpioPinMode::FloatingInput,
                    level: false,
                }),
    {
        let mut pins: Vec<BoardGpioPin> = Vec::new();
        let mut i: u8 = 8;
        while i < 16
            invariant
                8 <= i <= 16,
                pins@.len() == i - 8,
                forall|k: int|
                    0 <= k < pins@.len() ==> (#[trigger] pins@[k])@ == (PinModel {
                        info: GpioPinInformation { index_major: 69u8, index_minor: (8 + k) as u8 },
                        mode: GpioPinMode::FloatingInput,
                        level: false,
                    }),
            decreases 16 - i,
        {
            pins.push(BoardGpioPin::new(4, i));
            i = i + 1;
        }
        BoardGpioPinSet { pins }
    }

    /// How many pins the set holds.
    pub fn len(&self) -> (n: usize)
        ensures
            n == self@.len(),
    {
        self.pins.len()
    }

    /// The pin at `index`, by value.
    pub fn at(&self, index: usize) -> (r: BoardGpioPin)
        requires
            index < self@.len(),
        ensures
            r@ == self@[index as int],
    {
        self.pins[index]
    }

    /// Replace the pin at `index`.
    pub fn set(&mut self, index: usize, pin: BoardGpioPin)
        requires
            index < old(self)@.len(),
        ensures
            final(self)@ == old(self)@.update(index as int, pin@),
    {
        self.pins[index] = pin;
        proof {
            assert(self@ =~= old(self)@.update(index as int, pin@));
        }
    }
}

} // verus!
