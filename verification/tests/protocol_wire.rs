//! Wire-format tests: command and response bodies as exact bytes.

use deadbug::gpio::GpioPinMode;
use deadbug::hal::{HalError, HalErrorKind};
use deadbug::protocol::{
    deserialize_gpio_command, deserialize_response_header, serialize_gpio_command,
    serialize_response_header, GpioCommand,
};

#[test]
fn command_bodies_encode_exactly() {
    assert_eq!(serialize_gpio_command(&GpioCommand::EnumeratePins), vec![0]);
    assert_eq!(serialize_gpio_command(&GpioCommand::GetPinMode(3)), vec![1, 3]);
    assert_eq!(
        serialize_gpio_command(&GpioCommand::SetPinMode(2, GpioPinMode::FloatingInput)),
        vec![2, 2, 0]
    );
    assert_eq!(
        serialize_gpio_command(&GpioCommand::SetPinMode(2, GpioPinMode::PushPullOutput)),
        vec![2, 2, 1]
    );
    assert_eq!(
        serialize_gpio_command(&GpioCommand::SetPinMode(2, GpioPinMode::Alternate(9))),
        vec![2, 2, 2, 9]
    );
    assert_eq!(serialize_gpio_command(&GpioCommand::SetPinValue(4, true)), vec![3, 4, 1]);
    assert_eq!(serialize_gpio_command(&GpioCommand::SetPinValue(4, false)), vec![3, 4, 0]);
    assert_eq!(serialize_gpio_command(&GpioCommand::GetPinValue(7)), vec![4, 7]);
}

#[test]
fn command_bodies_round_trip() {
    let commands = [
        GpioCommand::EnumeratePins,
        GpioCommand::GetPinMode(0),
        GpioCommand::GetPinMode(255),
        GpioCommand::SetPinMode(1, GpioPinMode::FloatingInput),
        GpioCommand::SetPinMode(1, GpioPinMode::Alternate(14)),
        GpioCommand::SetPinValue(6, true),
        GpioCommand::GetPinValue(2),
    ];
    for c in commands {
        let bytes = serialize_gpio_command(&c);
        assert_eq!(deserialize_gpio_command(&bytes), Some(c));
    }
}

#[test]
fn command_parsing_rejects_malformed_bodies() {
    // empty body
    assert_eq!(deserialize_gpio_command(&vec![]), None);
    // unknown tag
    assert_eq!(deserialize_gpio_command(&vec![9]), None);
    // missing index
    assert_eq!(deserialize_gpio_command(&vec![1]), None);
    // missing mode
    assert_eq!(deserialize_gpio_command(&vec![2, 0]), None);
    // alternate mode without its function byte
    assert_eq!(deserialize_gpio_command(&vec![2, 0, 2]), None);
    // a value byte that is not a bool
    assert_eq!(deserialize_gpio_command(&vec![3, 0, 7]), None);
    // trailing bytes are tolerated
    assert_eq!(
        deserialize_gpio_command(&vec![1, 5, 99, 99]),
        Some(GpioCommand::GetPinMode(5))
    );
}

#[test]
fn response_headers_encode_exactly() {
    assert_eq!(serialize_response_header(&Ok(())), vec![0]);
    assert_eq!(
        serialize_response_header(&Err(HalErrorKind::UnsupportedCommand)),
        vec![1, 0]
    );
    assert_eq!(serialize_response_header(&Err(HalErrorKind::InvalidParameter)), vec![1, 1]);
    assert_eq!(serialize_response_header(&Err(HalErrorKind::ProtocolError)), vec![1, 2]);
    assert_eq!(serialize_response_header(&Err(HalErrorKind::InvalidGpioMode)), vec![1, 3]);
    assert_eq!(serialize_response_header(&Err(HalErrorKind::Other(0xEE))), vec![1, 4, 0xEE]);
}

#[test]
fn response_headers_round_trip() {
    let headers = [
        Ok(()),
        Err(HalErrorKind::UnsupportedCommand),
        Err(HalErrorKind::InvalidParameter),
        Err(HalErrorKind::ProtocolError),
        Err(HalErrorKind::InvalidGpioMode),
        Err(HalErrorKind::Other(42)),
    ];
    for h in headers {
        let bytes = serialize_response_header(&h);
        let (parsed, used) = deserialize_response_header(&bytes).expect("parse");
        assert_eq!(parsed, h);
        assert_eq!(used, bytes.len());
    }
    // a header byte that is neither success nor failure
    assert_eq!(deserialize_response_header(&vec![2]), None);
    assert_eq!(deserialize_response_header(&vec![]), None);
}

#[test]
fn hal_error_carries_its_kind() {
    let e = HalError::new(HalErrorKind::InvalidParameter, "index out of range");
    assert!(matches!(e.kind(), HalErrorKind::InvalidParameter));
    let e = HalError::from_kind(HalErrorKind::Other(3));
    assert!(matches!(e.kind(), HalErrorKind::Other(3)));
}
