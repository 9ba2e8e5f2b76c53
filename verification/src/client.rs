//! Host-side GPIO bridge client.
//!
//! The client drives the device's pins over a command channel: one command
//! per call, fully synchronous. Responses arrive as raw payload bytes; the
//! parsers here turn them into values and report `ProtocolError` for any
//! reply the wire protocol does not allow.

use vstd::prelude::*;
use crate::channels::{CommandChannel, SharedCommandChannel, SharedEndpointChannel};
use crate::gpio::GpioPinMode;
use crate::hal::{GpioPinInformation, HalError, HalErrorKind, HalResult};
use crate::protocol::{dec_pin_mode_at, serialize_gpio_command, GpioCommand};

verus! {

/// The pin list in an enumeration response: a count byte, then two bytes
/// per pin. `None` unless the length matches the count exactly.
pub open spec fn dec_pin_information_list(b: Seq<u8>) -> Option<Seq<GpioPinInformation>> {
    if b.len() >= 1 && b.len() == 1 + 2 * b[0] {
        Some(
            Seq::new(
                b[0] as nat,
                |k: int|
                    GpioPinInformation { index_major: b[1 + 2 * k], index_minor: b[2 + 2 * k] },
            ),
        )
    } else {
        None
    }
}

/// Parse an enumeration response payload; any malformed payload is a
/// `ProtocolError`.
pub fn parse_pin_information_list(resp: &Vec<u8>) -> (r: HalResult<Vec<GpioPinInformation>>)
    ensures
        ({
            match dec_pin_information_list(resp@) {
                Some(list) => r matches Ok(v) && v@ == list && v@.len() <= 255,
                None => r matches Err(e) && e.kind() == HalErrorKind::ProtocolError,
            }
        }),
{
    if resp.len() < 1 {
        return Err(HalError::from_kind(HalErrorKind::ProtocolError));
    }
    let n = resp[0] as usize;
    if resp.len() != 1 + 2 * n {
        return Err(HalError::from_kind(HalErrorKind::ProtocolError));
    }
    let ghost list = dec_pin_information_list(resp@)->Some_0;
    let mut out: Vec<GpioPinInformation> = Vec::new();
    let mut i: usize = 0;
    while i < n
        invariant
            i <= n,
            n == resp@[0],
            resp@.len() == 1 + 2 * n,
            list == dec_pin_information_list(resp@)->Some_0,
            dec_pin_information_list(resp@) is Some,
            out@ == list.take(i as int),
        decreases n - i,
    {
        out.push(GpioPinInformation { index_major: resp[1 + 2 * i], index_minor: resp[2 + 2 * i] });
        i = i + 1;
        proof {
            assert(list.take(i as int) =~= list.take(i - 1) + seq![list[i - 1]]);
        }
    }
    proof {
        assert(out@ =~= list);
    }
    Ok(out)
}

/// Parse a mode response payload; bytes after the mode are ignored.
pub fn parse_mode_response(resp: &Vec<u8>) -> (r: HalResult<GpioPinMode>)
    ensures
        ({
            match dec_pin_mode_at(resp@, 0) {
                Some((m, j)) => r matches Ok(got) && got == m,
                None => r matches Err(e) && e.kind() == HalErrorKind::ProtocolError,
            }
        }),
{
    if resp.len() < 1 {
        return Err(HalError::from_kind(HalErrorKind::ProtocolError));
    }
    let tag = resp[0];
    if tag == 0 {
        Ok(GpioPinMode::FloatingInput)
    } else if tag == 1 {
        Ok(GpioPinMode::PushPullOutput)
    } else if tag == 2 && resp.len() >= 2 {
        Ok(GpioPinMode::Alternate(resp[1]))
    } else {
        Err(HalError::from_kind(HalErrorKind::ProtocolError))
    }
}

/// Parse a value response payload: exactly `0` or `1` in the first byte.
pub fn parse_bool_response(resp: &Vec<u8>) -> (r: HalResult<bool>)
    ensures
        resp@.len() >= 1 && (resp@[0] == 0 || resp@[0] == 1) ==> (r matches Ok(v) && v == (resp@[0]
            == 1)),
        !(resp@.len() >= 1 && (resp@[0] == 0 || resp@[0] == 1)) ==> (r matches Err(e) && e.kind()
            == HalErrorKind::ProtocolError),
{
    if resp.len() >= 1 && (resp[0] == 0 || resp[0] == 1) {
        Ok(resp[0] == 1)
    } else {
        Err(HalError::from_kind(HalErrorKind::ProtocolError))
    }
}

/// Issues GPIO commands over an endpoint channel and parses the replies.
pub struct GpioBridge<C: CommandChannel> {
    channel: SharedEndpointChannel<C>,
}

impl<C: CommandChannel> GpioBridge<C> {
    pub fn new(channel: SharedEndpointChannel<C>) -> (r: Self) {
        GpioBridge { channel }
    }

    fn send(&mut self, command: GpioCommand) -> HalResult<Vec<u8>> {
        let buf = serialize_gpio_command(&command);
        self.channel.command(buf.as_slice())
    }

    /// List the pins the device exposes.
    pub fn enumerate(&mut self) -> (r: HalResult<Vec<GpioPinInformation>>)
        ensures
            r matches Ok(v) ==> v@.len() <= 255,
    {
        let response = self.send(GpioCommand::EnumeratePins)?;
        parse_pin_information_list(&response)
    }

    pub fn get_pin_mode(&mut self, index: u8) -> HalResult<GpioPinMode> {
        let response = self.send(GpioCommand::GetPinMode(index))?;
        parse_mode_response(&response)
    }

    pub fn set_pin_mode(&mut self, index: u8, mode: GpioPinMode) -> HalResult<()> {
        self.send(GpioCommand::SetPinMode(index, mode))?;
        Ok(())
    }

    pub fn get_pin_value(&mut self, index: u8) -> HalResult<bool> {
        let response = self.send(GpioCommand::GetPinValue(index))?;
        parse_bool_response(&response)
    }

    pub fn set_pin_value(&mut self, index: u8, value: bool) -> HalResult<()> {
        self.send(GpioCommand::SetPinValue(index, value))?;
        Ok(())
    }
}

/// The device as the host sees it: a command channel, from which the
/// peripherals are probed.
pub struct BridgeDevice<C: CommandChannel> {
    channel: SharedCommandChannel<C>,
}

/// The wire endpoint of the GPIO target.
pub const GPIO_ENDPOINT: u8 = 1;

impl<C: CommandChannel> BridgeDevice<C> {
    pub fn new(channel: C) -> (r: Self) {
        BridgeDevice { channel: SharedCommandChannel::new(channel) }
    }

    /// Probe the GPIO peripheral. The device is handed over to it: the
    /// channel serves one peripheral at a time.
    pub fn gpio(self) -> HalResult<GpioPeripheral<C>> {
        let ep_channel = SharedEndpointChannel::new(self.channel, GPIO_ENDPOINT);
        GpioPeripheral::probe(ep_channel)
    }
}

/// One enumerated pin on the host side: its position in the enumeration,
/// its identity, and whether a handle for it was already given out.
#[derive(Debug, Clone, Copy)]
pub struct PinEntry {
    pub index: u8,
    pub info: GpioPinInformation,
    pub taken: bool,
}

/// The handles of the not-yet-taken pins, in enumeration order.
pub open spec fn untaken_indices(entries: Seq<PinEntry>) -> Seq<u8>
    decreases entries.len(),
{
    if entries.len() == 0 {
        seq![]
    } else {
        untaken_indices(entries.drop_last()) + if entries.last().taken {
            seq![]
        } else {
            seq![entries.last().index]
        }
    }
}

/// The device's GPIO pins, probed once and handed out as handles.
pub struct GpioPeripheral<C: CommandChannel> {
    bridge: GpioBridge<C>,
    pins: Vec<PinEntry>,
}

impl<C: CommandChannel> View for GpioPeripheral<C> {
    type V = Seq<PinEntry>;

    closed spec fn view(&self) -> Seq<PinEntry> {
        self.pins@
    }
}

impl<C: CommandChannel> GpioPeripheral<C> {
    /// Enumerate the device's pins and record them, none taken yet.
    pub fn probe(channel: SharedEndpointChannel<C>) -> (r: HalResult<GpioPeripheral<C>>)
        ensures
            r matches Ok(p) ==> forall|k: int|
                0 <= k < p@.len() ==> !(#[trigger] p@[k]).taken && p@[k].index == k,
    {
        let mut bridge = GpioBridge::new(channel);
        let pin_info = bridge.enumerate()?;
        let mut pins: Vec<PinEntry> = Vec::new();
        let n = pin_info.len();
        let mut i: usize = 0;
        while i < n
            invariant
                i <= n,
                n == pin_info@.len() <= 255,
                pins@.len() == i,
                forall|k: int|
                    0 <= k < i ==> !(#[trigger] pins@[k]).taken && pins@[k].index == k
                        && pins@[k].info == pin_info@[k],
            decreases n - i,
        {
            pins.push(PinEntry { index: i as u8, info: pin_info[i], taken: false });
            i = i + 1;
        }
        Ok(GpioPeripheral { bridge, pins })
    }

    /// Hand out the pin with this number within its bank. Each pin can be
    /// taken once; an unknown or already-taken number is `InvalidParameter`.
    pub fn pin(&mut self, index_minor: u8) -> (r: HalResult<GpioPin>)
        ensures
            ({
                let entries = old(self)@;
                let after = final(self)@;
                match r {
                    Ok(p) => exists|k: int|
                        0 <= k < entries.len() && !(#[trigger] entries[k]).taken
                            && entries[k].info.index_minor == index_minor && after
                            == entries.update(
                            k,
                            PinEntry { index: entries[k].index, info: entries[k].info, taken: true },
                        ) && p.index_spec() == entries[k].index,
                    Err(e) => *final(self) == *old(self) && e.kind()
                        == HalErrorKind::InvalidParameter && (forall|k: int|
                        0 <= k < entries.len() ==> ((#[trigger] entries[k]).taken
                            || entries[k].info.index_minor != index_minor)),
                }
            }),
    {
        let n = self.pins.len();
        let mut i: usize = 0;
        while i < n
            invariant
                i <= n,
                n == self@.len(),
                *self == *old(self),
                forall|k: int|
                    0 <= k < i ==> ((#[trigger] self@[k]).taken || self@[k].info.index_minor
                        != index_minor),
            decreases n - i,
        {
            let entry = self.pins[i];
            if !entry.taken && entry.info.index_minor == index_minor {
                self.pins[i] = PinEntry { index: entry.index, info: entry.info, taken: true };
                proof {
                    assert(self@ =~= old(self)@.update(
                        i as int,
                        PinEntry {
                            index: old(self)@[i as int].index,
                            info: old(self)@[i as int].info,
                            taken: true,
                        },
                    ));
                }
                return Ok(GpioPin { index: entry.index });
            }
            i = i + 1;
        }
        Err(HalError::from_kind(HalErrorKind::InvalidParameter))
    }

    /// Hand out every pin not yet taken, in enumeration order.
    pub fn all_pins(&mut self) -> (r: Vec<GpioPin>)
        ensures
            ({
                let before = old(self)@;
                let after = final(self)@;
                &&& after.len() == before.len()
                &&& (forall|k: int|
                    0 <= k < after.len() ==> (#[trigger] after[k]).taken && after[k].index
                        == before[k].index && after[k].info == before[k].info)
                &&& r@.len() == untaken_indices(before).len()
                &&& (forall|k: int|
                    0 <= k < r@.len() ==> (#[trigger] r@[k]).index_spec() == untaken_indices(
                        before,
                    )[k])
            }),
    {
        let n = self.pins.len();
        let mut out: Vec<GpioPin> = Vec::new();
        let mut i: usize = 0;
        while i < n
            invariant
                i <= n,
                n == self@.len(),
                self@.len() == old(self)@.len(),
                forall|k: int|
                    i <= k < n ==> (#[trigger] self@[k]) == old(self)@[k],
                forall|k: int|
                    0 <= k < i ==> (#[trigger] self@[k]).taken && self@[k].index == old(
                        self,
                    )@[k].index && self@[k].info == old(self)@[k].info,
                out@.len() == untaken_indices(old(self)@.take(i as int)).len(),
                forall|k: int|
                    0 <= k < out@.len() ==> (#[trigger] out@[k]).index_spec() == untaken_indices(
                        old(self)@.take(i as int),
                    )[k],
            decreases n - i,
        {
            let entry = self.pins[i];
            if !entry.taken {
                out.push(GpioPin { index: entry.index });
                self.pins[i] = PinEntry { index: entry.index, info: entry.info, taken: true };
            }
            i = i + 1;
            proof {
                assert(old(self)@.take(i as int).drop_last() =~= old(self)@.take(i - 1));
                assert(old(self)@.take(i as int).last() == old(self)@[i - 1]);
            }
        }
        proof {
            assert(old(self)@.take(n as int) =~= old(self)@);
        }
        out
    }
}

/// A handle to one device pin. Operations go through the bridge that
/// enumerated it.
#[derive(Debug, Clone, Copy)]
pub struct GpioPin {
    index: u8,
}

impl GpioPin {
    /// The pin's position in the device's enumeration, for contracts.
    pub closed spec fn index_spec(&self) -> u8 {
        self.index
    }

    /// Put the pin into push-pull output mode.
    pub fn into_output<C: CommandChannel>(&self, gpio: &mut GpioPeripheral<C>) -> HalResult<()> {
        gpio.bridge.set_pin_mode(self.index, GpioPinMode::PushPullOutput)
    }

    /// Drive the pin high or low.
    pub fn set_value<C: CommandChannel>(&self, gpio: &mut GpioPeripheral<C>, value: bool) -> HalResult<()> {
        gpio.bridge.set_pin_value(self.index, value)
    }

    /// Read the pin's input level.
    pub fn get_value<C: CommandChannel>(&self, gpio: &mut GpioPeripheral<C>) -> HalResult<bool> {
        gpio.bridge.get_pin_value(self.index)
    }

    /// Read back the pin's mode.
    pub fn get_mode<C: CommandChannel>(&self, gpio: &mut GpioPeripheral<C>) -> HalResult<
        GpioPinMode,
    > {
        gpio.bridge.get_pin_mode(self.index)
    }
}

} // verus!
