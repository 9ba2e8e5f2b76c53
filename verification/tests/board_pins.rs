//! The board pin model driven directly through the pin interface.

use deadbug::board::{BoardGpioPin, BoardGpioPinSet};
use deadbug::gpio::{GpioPin, GpioPinMode};
use deadbug::hal::HalErrorKind;

#[test]
fn board_exposes_the_eight_bank_e_pins() {
    let set = BoardGpioPinSet::new();
    assert_eq!(set.len(), 8);
    for i in 0..8 {
        let p = set.at(i);
        let info = p.information();
        assert_eq!(info.index_major, b'E');
        assert_eq!(info.index_minor, 8 + i as u8);
        assert_eq!(p.mode(), GpioPinMode::FloatingInput);
    }
}

#[test]
fn pin_identity_splits_into_bank_and_number() {
    let p = BoardGpioPin::new(2, 13);
    assert_eq!(p.peripheral(), 2);
    assert_eq!(p.pin_index(), 13);
    assert_eq!(p.information().index_major, b'C');
    assert_eq!(p.information().index_minor, 13);
}

#[test]
fn pin_mode_gates_line_operations() {
    let mut p = BoardGpioPin::new(0, 0);
    // a fresh pin is a floating input and can be read
    assert_eq!(p.get_input().unwrap(), false);
    // but not driven
    assert!(matches!(p.set_output(true).unwrap_err().kind(), HalErrorKind::InvalidGpioMode));

    p.set_mode(GpioPinMode::PushPullOutput).unwrap();
    p.set_output(true).unwrap();
    assert!(matches!(p.get_input().unwrap_err().kind(), HalErrorKind::InvalidGpioMode));

    // back to input: the line level persists and reads back
    p.set_mode(GpioPinMode::FloatingInput).unwrap();
    assert_eq!(p.get_input().unwrap(), true);
}

#[test]
fn alternate_modes_are_not_supported() {
    let mut p = BoardGpioPin::new(0, 0);
    let err = p.set_mode(GpioPinMode::Alternate(7)).unwrap_err();
    assert!(matches!(err.kind(), HalErrorKind::InvalidGpioMode));
    // the failed call left the pin untouched
    assert_eq!(p.mode(), GpioPinMode::FloatingInput);
}
