//! The host client driven against a simulated device: a packet channel
//! whose far end is the verified receive/dispatch/transmit pipeline.

use deadbug::assembler::{PacketConsumer, PacketProcessor};
use deadbug::bip::BipBuffer;
use deadbug::board::BoardGpioPinSet;
use deadbug::channels::{FrameBuffer, PacketChannel};
use deadbug::client::BridgeDevice;
use deadbug::cobs::cobs_encode_frame;
use deadbug::command::{CobsTxProducer, CommandProcessor, GpioCommandTarget};
use deadbug::gpio::GpioPinMode;
use deadbug::hal::HalErrorKind;

/// A packet channel looped back through the device pipeline.
struct Loopback {
    rx: BipBuffer,
    packets: BipBuffer,
    tx: BipBuffer,
    assembler: PacketProcessor,
    processor: CommandProcessor,
    inbound: FrameBuffer,
}

impl Loopback {
    fn new() -> Loopback {
        let mut lb = Loopback {
            rx: BipBuffer::new(4096),
            packets: BipBuffer::new(512),
            tx: BipBuffer::new(512),
            assembler: PacketProcessor::new(128),
            processor: CommandProcessor::new(
                CobsTxProducer::new(),
                PacketConsumer::new(),
                GpioCommandTarget::new(BoardGpioPinSet::new()),
            ),
            inbound: FrameBuffer::new(),
        };
        // a leading delimiter puts the device at a frame boundary
        let g = lb.rx.grant(1).expect("rx grant");
        lb.rx.write_byte(&g, 0, 0);
        lb.rx.commit(1, g);
        lb
    }

    fn pump(&mut self) {
        for _ in 0..32 {
            self.assembler.process(&mut self.rx, &mut self.packets);
            self.processor.process(&mut self.packets, &mut self.tx);
        }
        loop {
            match self.tx.read() {
                Ok(g) => {
                    let n = g.len();
                    let mut bytes = Vec::new();
                    for i in 0..n {
                        bytes.push(self.tx.read_byte(&g, i));
                    }
                    self.tx.release(n, g);
                    self.inbound.extend(&bytes);
                }
                Err(_) => break,
            }
        }
    }
}

impl PacketChannel for Loopback {
    fn read_packet(&mut self) -> Result<Vec<u8>, std::io::Error> {
        self.inbound
            .next_frame()
            .ok_or_else(|| std::io::Error::new(std::io::ErrorKind::UnexpectedEof, "no frame"))
    }

    fn write_packet(&mut self, data: &[u8]) -> Result<(), std::io::Error> {
        let frame = cobs_encode_frame(data);
        let g = self.rx.grant(frame.len()).expect("rx grant");
        for (i, &b) in frame.iter().enumerate() {
            self.rx.write_byte(&g, i, b);
        }
        self.rx.commit(frame.len(), g);
        self.pump();
        Ok(())
    }
}

#[test]
fn probe_enumerates_the_board_pins() {
    let dev = BridgeDevice::new(Loopback::new());
    let mut gpio = dev.gpio().expect("probe");
    let pins = gpio.all_pins();
    assert_eq!(pins.len(), 8);
}

#[test]
fn pin_lifecycle_through_the_client() {
    let dev = BridgeDevice::new(Loopback::new());
    let mut gpio = dev.gpio().expect("probe");

    // pins are handed out by bank pin number, once each
    let pin8 = gpio.pin(8).expect("pin 8");
    assert!(gpio.pin(8).is_err());
    let pin9 = gpio.pin(9).expect("pin 9");

    // fresh pins read back as floating inputs, driven low
    assert_eq!(pin8.get_mode(&mut gpio).unwrap(), GpioPinMode::FloatingInput);
    assert_eq!(pin8.get_value(&mut gpio).unwrap(), false);

    // into output mode, drive high, read the mode back
    pin8.into_output(&mut gpio).expect("into_output");
    assert_eq!(pin8.get_mode(&mut gpio).unwrap(), GpioPinMode::PushPullOutput);
    pin8.set_value(&mut gpio, true).expect("set high");

    // reading the value of an output pin is a mode error
    let err = pin8.get_value(&mut gpio).unwrap_err();
    assert!(matches!(err.kind(), HalErrorKind::InvalidGpioMode));

    // the other pin is untouched
    assert_eq!(pin9.get_mode(&mut gpio).unwrap(), GpioPinMode::FloatingInput);
}

#[test]
fn unknown_pin_number_is_rejected_locally() {
    let dev = BridgeDevice::new(Loopback::new());
    let mut gpio = dev.gpio().expect("probe");
    let err = gpio.pin(99).unwrap_err();
    assert!(matches!(err.kind(), HalErrorKind::InvalidParameter));
}

#[test]
fn setting_an_unsupported_mode_is_reported() {
    let dev = BridgeDevice::new(Loopback::new());
    let mut gpio = dev.gpio().expect("probe");
    let pin = gpio.pin(10).expect("pin 10");
    // drive a pin that was never put into output mode
    let err = pin.set_value(&mut gpio, true).unwrap_err();
    assert!(matches!(err.kind(), HalErrorKind::InvalidGpioMode));
}
