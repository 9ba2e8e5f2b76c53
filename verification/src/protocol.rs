//! Wire protocol types and their byte encodings.
//!
//! Every value crosses the wire in variant-tag form: an enum is one
//! discriminant byte followed by its body, structs are their fields in
//! declaration order, `u8` and `bool` are one byte, with no padding.

use vstd::prelude::*;
use crate::gpio::GpioPinMode;
use crate::hal::HalErrorKind;
pub use crate::hal::GpioPinInformation;

verus! {

/// First byte of every command frame: which target the command addresses.
#[derive(Debug, Clone, Copy, PartialEq, Eq, Structural)]
pub struct CommandHeader {
    pub endpoint: u8,
}

/// A command addressed to the GPIO target.
#[derive(Debug, Clone, Copy, PartialEq, Eq, Structural)]
pub enum GpioCommand {
    EnumeratePins,
    GetPinMode(u8),
    SetPinMode(u8, GpioPinMode),
    SetPinValue(u8, bool),
    GetPinValue(u8),
}

/// A successful GPIO response body, mirroring the command it answers.
#[derive(Debug, Clone, Copy, PartialEq, Eq, Structural)]
pub enum GpioResponse {
    EnumeratePins(u8),
    GetPinMode(GpioPinMode),
    SetPinMode,
    SetPinValue,
    GetPinValue(bool),
}

/// Header of every response frame: success, or the error kind.
pub type ResponseHeader = Result<(), HalErrorKind>;

/// Wire form of a pin mode: a tag byte, plus the function number for the
/// alternate case.
pub open spec fn enc_pin_mode(m: GpioPinMode) -> Seq<u8> {
    match m {
        GpioPinMode::FloatingInput => seq![0u8],
        GpioPinMode::PushPullOutput => seq![1u8],
        GpioPinMode::Alternate(x) => seq![2u8, x],
    }
}

/// Parse a pin mode starting at position `i`; gives the mode and the
/// position after it.
pub open spec fn dec_pin_mode_at(b: Seq<u8>, i: int) -> Option<(GpioPinMode, int)> {
    if 0 <= i < b.len() {
        if b[i] == 0 {
            Some((GpioPinMode::FloatingInput, i + 1))
        } else if b[i] == 1 {
            Some((GpioPinMode::PushPullOutput, i + 1))
        } else if b[i] == 2 {
            if i + 1 < b.len() {
                Some((GpioPinMode::Alternate(b[i + 1]), i + 2))
            } else {
                None
            }
        } else {
            None
        }
    } else {
        None
    }
}

/// Wire form of a GPIO command body.
pub open spec fn enc_gpio_command(c: GpioCommand) -> Seq<u8> {
    match c {
        GpioCommand::EnumeratePins => seq![0u8],
        GpioCommand::GetPinMode(i) => seq![1u8, i],
        GpioCommand::SetPinMode(i, m) => seq![2u8, i] + enc_pin_mode(m),
        GpioCommand::SetPinValue(i, v) => seq![3u8, i, if v { 1u8 } else { 0u8 }],
        GpioCommand::GetPinValue(i) => seq![4u8, i],
    }
}

/// Parse a GPIO command body. Bytes after the command are tolerated and
/// ignored; a short body, an unknown tag, or a byte that is not a valid
/// `bool` or mode is a parse failure.
pub open spec fn dec_gpio_command(b: Seq<u8>) -> Option<GpioCommand> {
    if b.len() < 1 {
        None
    } else if b[0] == 0 {
        Some(GpioCommand::EnumeratePins)
    } else if b[0] == 1 {
        if b.len() >= 2 {
            Some(GpioCommand::GetPinMode(b[1]))
        } else {
            None
        }
    } else if b[0] == 2 {
        if b.len() >= 2 {
            match dec_pin_mode_at(b, 2) {
                Some((m, _)) => Some(GpioCommand::SetPinMode(b[1], m)),
                None => None,
            }
        } else {
            None
        }
    } else if b[0] == 3 {
        if b.len() >= 3 && (b[2] == 0 || b[2] == 1) {
            Some(GpioCommand::SetPinValue(b[1], b[2] == 1))
        } else {
            None
        }
    } else if b[0] == 4 {
        if b.len() >= 2 {
            Some(GpioCommand::GetPinValue(b[1]))
        } else {
            None
        }
    } else {
        None
    }
}

/// Wire form of an error kind.
pub open spec fn enc_error_kind(k: HalErrorKind) -> Seq<u8> {
    match k {
        HalErrorKind::UnsupportedCommand => seq![0u8],
        HalErrorKind::InvalidParameter => seq![1u8],
        HalErrorKind::ProtocolError => seq![2u8],
        HalErrorKind::InvalidGpioMode => seq![3u8],
        HalErrorKind::Other(x) => seq![4u8, x],
    }
}

/// Parse an error kind starting at position `i`.
pub open spec fn dec_error_kind_at(b: Seq<u8>, i: int) -> Option<(HalErrorKind, int)> {
    if 0 <= i < b.len() {
        if b[i] == 0 {
            Some((HalErrorKind::UnsupportedCommand, i + 1))
        } else if b[i] == 1 {
            Some((HalErrorKind::InvalidParameter, i + 1))
        } else if b[i] == 2 {
            Some((HalErrorKind::ProtocolError, i + 1))
        } else if b[i] == 3 {
            Some((HalErrorKind::InvalidGpioMode, i + 1))
        } else if b[i] == 4 {
            if i + 1 < b.len() {
                Some((HalErrorKind::Other(b[i + 1]), i + 2))
            } else {
                None
            }
        } else {
            None
        }
    } else {
        None
    }
}

/// Wire form of a response header: `0x00` for success, `0x01` and the
/// error kind for failure. The response payload follows it directly.
pub open spec fn enc_response_header(r: ResponseHeader) -> Seq<u8> {
    match r {
        Ok(u) => seq![0u8],
        Err(k) => seq![1u8] + enc_error_kind(k),
    }
}

/// Parse a response header; gives the header and the position after it.
pub open spec fn dec_response_header(b: Seq<u8>) -> Option<(ResponseHeader, int)> {
    if b.len() < 1 {
        None
    } else if b[0] == 0 {
        Some((Ok(()), 1))
    } else if b[0] == 1 {
        match dec_error_kind_at(b, 1) {
            Some((k, j)) => Some((Err(k), j)),
            None => None,
        }
    } else {
        None
    }
}

/// Wire form of one pin information record: two bytes.
pub open spec fn enc_pin_information(p: GpioPinInformation) -> Seq<u8> {
    seq![p.index_major, p.index_minor]
}

/// The command codec is exact: parsing an encoded command gives it back.
pub proof fn lemma_gpio_command_round_trip(c: GpioCommand)
    ensures
        dec_gpio_command(enc_gpio_command(c)) == Some(c),
{
}

/// The response-header codec is exact, and reports where the payload
/// starts.
pub proof fn lemma_response_header_round_trip(r: ResponseHeader)
    ensures
        dec_response_header(enc_response_header(r)) == Some(
            (r, enc_response_header(r).len() as int),
        ),
{
    match r {
        Ok(u) => {
            let e = enc_response_header(r);
            assert(e.len() == 1 && e[0] == 0);
            assert(u == ());
            assert(r == Ok::<(), HalErrorKind>(()));
            assert(dec_response_header(e) == Some((r, e.len() as int)));
        },
        Err(k) => {
            let e = enc_response_header(r);
            assert(e[0] == 1);
            match k {
                HalErrorKind::UnsupportedCommand => {
                    assert(e[1] == 0 && e.len() == 2);
                },
                HalErrorKind::InvalidParameter => {
                    assert(e[1] == 1 && e.len() == 2);
                },
                HalErrorKind::ProtocolError => {
                    assert(e[1] == 2 && e.len() == 2);
                },
                HalErrorKind::InvalidGpioMode => {
                    assert(e[1] == 3 && e.len() == 2);
                },
                HalErrorKind::Other(x) => {
                    assert(e[1] == 4 && e[2] == x && e.len() == 3);
                },
            }
        },
    }
}

/// Append the wire form of a pin mode to `out`.
pub fn write_pin_mode(out: &mut Vec<u8>, m: GpioPinMode)
    ensures
        final(out)@ == old(out)@ + enc_pin_mode(m),
{
    match m {
        GpioPinMode::FloatingInput => {
            out.push(0);
        },
        GpioPinMode::PushPullOutput => {
            out.push(1);
        },
        GpioPinMode::Alternate(x) => {
            out.push(2);
            out.push(x);
        },
    }
    proof {
        assert(out@ =~= old(out)@ + enc_pin_mode(m));
    }
}

/// Serialize a GPIO command body.
pub fn serialize_gpio_command(c: &GpioCommand) -> (r: Vec<u8>)
    ensures
        r@ == enc_gpio_command(*c),
{
    let mut out: Vec<u8> = Vec::new();
    match *c {
        GpioCommand::EnumeratePins => {
            out.push(0);
        },
        GpioCommand::GetPinMode(i) => {
            out.push(1);
            out.push(i);
        },
        GpioCommand::SetPinMode(i, m) => {
            out.push(2);
            out.push(i);
            write_pin_mode(&mut out, m);
        },
        GpioCommand::SetPinValue(i, v) => {
            out.push(3);
            out.push(i);
            out.push(if v { 1 } else { 0 });
        },
        GpioCommand::GetPinValue(i) => {
            out.push(4);
            out.push(i);
        },
    }
    proof {
        assert(out@ =~= enc_gpio_command(*c));
    }
    out
}

/// Parse a GPIO command body, ignoring any trailing bytes.
pub fn deserialize_gpio_command(b: &Vec<u8>) -> (r: Option<GpioCommand>)
    ensures
        r == dec_gpio_command(b@),
{
    if b.len() < 1 {
        return None;
    }
    let tag = b[0];
    if tag == 0 {
        Some(GpioCommand::EnumeratePins)
    } else if tag == 1 {
        if b.len() >= 2 {
            Some(GpioCommand::GetPinMode(b[1]))
        } else {
            None
        }
    } else if tag == 2 {
        if b.len() >= 3 {
            let mtag = b[2];
            if mtag == 0 {
                Some(GpioCommand::SetPinMode(b[1], GpioPinMode::FloatingInput))
            } else if mtag == 1 {
                Some(GpioCommand::SetPinMode(b[1], GpioPinMode::PushPullOutput))
            } else if mtag == 2 && b.len() >= 4 {
                Some(GpioCommand::SetPinMode(b[1], GpioPinMode::Alternate(b[3])))
            } else {
                None
            }
        } else {
            None
        }
    } else if tag == 3 {
        if b.len() >= 3 && (b[2] == 0 || b[2] == 1) {
            Some(GpioCommand::SetPinValue(b[1], b[2] == 1))
        } else {
            None
        }
    } else if tag == 4 {
        if b.len() >= 2 {
            Some(GpioCommand::GetPinValue(b[1]))
        } else {
            None
        }
    } else {
        None
    }
}

/// Serialize a response header.
pub fn serialize_response_header(r: &ResponseHeader) -> (v: Vec<u8>)
    ensures
        v@ == enc_response_header(*r),
{
    let mut out: Vec<u8> = Vec::new();
    match r {
        Ok(_) => {
            out.push(0);
        },
        Err(k) => {
            out.push(1);
            match *k {
                HalErrorKind::UnsupportedCommand => {
                    out.push(0);
                },
                HalErrorKind::InvalidParameter => {
                    out.push(1);
                },
                HalErrorKind::ProtocolError => {
                    out.push(2);
                },
                HalErrorKind::InvalidGpioMode => {
                    out.push(3);
                },
                HalErrorKind::Other(x) => {
                    out.push(4);
                    out.push(x);
                },
            }
        },
    }
    proof {
        assert(out@ =~= enc_response_header(*r));
    }
    out
}

/// Parse a response header; gives the header and the offset where the
/// payload starts.
pub fn deserialize_response_header(b: &Vec<u8>) -> (r: Option<(ResponseHeader, usize)>)
    ensures
        ({
            match r {
                Some((h, j)) => dec_response_header(b@) == Some((h, j as int)),
                None => dec_response_header(b@) is None,
            }
        }),
{
    if b.len() < 1 {
        return None;
    }
    let tag = b[0];
    if tag == 0 {
        Some((Ok(()), 1))
    } else if tag == 1 {
        if b.len() < 2 {
            return None;
        }
        let ktag = b[1];
        if ktag == 0 {
            Some((Err(HalErrorKind::UnsupportedCommand), 2))
        } else if ktag == 1 {
            Some((Err(HalErrorKind::InvalidParameter), 2))
        } else if ktag == 2 {
            Some((Err(HalErrorKind::ProtocolError), 2))
        } else if ktag == 3 {
            Some((Err(HalErrorKind::InvalidGpioMode), 2))
        } else if ktag == 4 {
            if b.len() >= 3 {
                Some((Err(HalErrorKind::Other(b[2])), 3))
            } else {
                None
            }
        } else {
            None
        }
    } else {
        None
    }
}

} // verus!
