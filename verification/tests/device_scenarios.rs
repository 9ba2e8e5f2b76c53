//! End-to-end scenarios: encoded command frames in on the receive queue,
//! exact response frames out on the transmit queue.

use deadbug::assembler::{PacketConsumer, PacketProcessor};
use deadbug::bip::BipBuffer;
use deadbug::board::BoardGpioPinSet;
use deadbug::cobs::cobs_encode_frame;
use deadbug::command::{CobsTxProducer, CommandProcessor, GpioCommandTarget};

struct Device {
    rx: BipBuffer,
    packets: BipBuffer,
    tx: BipBuffer,
    assembler: PacketProcessor,
    processor: CommandProcessor,
}

fn device() -> Device {
    Device {
        rx: BipBuffer::new(4096),
        packets: BipBuffer::new(512),
        tx: BipBuffer::new(512),
        assembler: PacketProcessor::new(128),
        processor: CommandProcessor::new(
            CobsTxProducer::new(),
            PacketConsumer::new(),
            GpioCommandTarget::new(BoardGpioPinSet::new()),
        ),
    }
}

fn produce(q: &mut BipBuffer, bytes: &[u8]) {
    let g = q.grant(bytes.len()).expect("grant");
    for (i, &b) in bytes.iter().enumerate() {
        q.write_byte(&g, i, b);
    }
    q.commit(bytes.len(), g);
}

fn drain(q: &mut BipBuffer) -> Vec<u8> {
    let mut out = Vec::new();
    loop {
        match q.read() {
            Ok(g) => {
                let n = g.len();
                for i in 0..n {
                    out.push(q.read_byte(&g, i));
                }
                q.release(n, g);
            }
            Err(_) => return out,
        }
    }
}

impl Device {
    /// Feed raw bytes to the receive queue and run the loop until quiet.
    fn feed(&mut self, bytes: &[u8]) {
        produce(&mut self.rx, bytes);
        for _ in 0..32 {
            self.assembler.process(&mut self.rx, &mut self.packets);
            self.processor.process(&mut self.packets, &mut self.tx);
        }
    }

    /// Send one command packet (endpoint byte plus body) as a frame.
    fn send(&mut self, packet: &[u8]) {
        let mut stream = vec![0u8];
        stream.extend_from_slice(&cobs_encode_frame(packet));
        self.feed(&stream);
    }
}

#[test]
fn scenario_set_pin_mode_output() {
    let mut dev = device();
    // endpoint 1, SetPinMode(index 0, push-pull output)
    dev.send(&[1, 2, 0, 1]);
    // one frame: header Ok, empty payload
    assert_eq!(drain(&mut dev.tx), vec![0x01, 0x01, 0x00]);
}

#[test]
fn scenario_get_pin_mode_reads_back() {
    let mut dev = device();
    dev.send(&[1, 2, 0, 1]);
    let _ = drain(&mut dev.tx);
    // GetPinMode(0) after the mode change
    dev.send(&[1, 1, 0]);
    // frame of header Ok, then the push-pull output mode tag
    assert_eq!(drain(&mut dev.tx), vec![0x01, 0x02, 0x01, 0x00]);
}

#[test]
fn scenario_set_pin_value_high() {
    let mut dev = device();
    dev.send(&[1, 2, 0, 1]);
    let _ = drain(&mut dev.tx);
    // SetPinValue(0, 1)
    dev.send(&[1, 3, 0, 1]);
    assert_eq!(drain(&mut dev.tx), vec![0x01, 0x01, 0x00]);
}

#[test]
fn scenario_get_value_in_output_mode_is_mode_error() {
    let mut dev = device();
    // pin 5 into output mode first
    dev.send(&[1, 2, 5, 1]);
    let _ = drain(&mut dev.tx);
    // GetPinValue(5) is incompatible with output mode
    dev.send(&[1, 4, 5]);
    // frame of header Err, kind InvalidGpioMode
    assert_eq!(drain(&mut dev.tx), vec![0x03, 0x01, 0x03, 0x00]);
}

#[test]
fn scenario_out_of_range_index_is_parameter_error() {
    let mut dev = device();
    // GetPinMode(99): the board has eight pins
    dev.send(&[1, 1, 99]);
    // frame of header Err, kind InvalidParameter
    assert_eq!(drain(&mut dev.tx), vec![0x03, 0x01, 0x01, 0x00]);
}

#[test]
fn scenario_unknown_endpoint_is_unsupported() {
    let mut dev = device();
    // endpoint 7 does not exist
    dev.send(&[7, 1, 0]);
    // frame of header Err, kind UnsupportedCommand: [1, 0] encodes to [2, 1, 1]
    assert_eq!(drain(&mut dev.tx), vec![0x02, 0x01, 0x01, 0x00]);
}

#[test]
fn scenario_garbage_resync_single_response() {
    let mut dev = device();
    let mut stream: Vec<u8> = Vec::new();
    let mut state: u64 = 7;
    for _ in 0..2000 {
        state = state.wrapping_mul(6364136223846793005).wrapping_add(1442695040888963407);
        stream.push(((state >> 33) as u8) | 1);
    }
    stream.push(0);
    stream.extend_from_slice(&cobs_encode_frame(&[1, 1, 0]));
    for chunk in stream.chunks(100) {
        dev.feed(chunk);
    }
    // exactly one response frame, for GetPinMode(0) on a floating input
    assert_eq!(drain(&mut dev.tx), vec![0x01, 0x01, 0x01, 0x00]);
}

#[test]
fn scenario_enumerate_pins() {
    let mut dev = device();
    dev.send(&[1, 0]);
    // Ok header, count 8, then (bank letter, pin number) pairs for PE8..PE15
    let mut expected_payload = vec![0u8, 8];
    for minor in 8..16u8 {
        expected_payload.push(b'E');
        expected_payload.push(minor);
    }
    let expected = cobs_encode_frame(&expected_payload);
    assert_eq!(drain(&mut dev.tx), expected);
}

#[test]
fn progress_after_need_write_grant() {
    let mut dev = device();
    // fill the transmit queue so only the minimal reservation fits at first
    let g = dev.tx.grant(500).expect("filler grant");
    for i in 0..500 {
        dev.tx.write_byte(&g, i, 0xAA);
    }
    dev.tx.commit(500, g);

    // enumeration needs 17 payload bytes plus the header: more than the
    // default reservation of four, and more than the twelve free bytes
    // allow once remembered
    dev.send(&[1, 0]);
    // no response yet, and the filler is still the only content
    match dev.tx.read() {
        Ok(g) => {
            let n = g.len();
            dev.tx.release(0, g);
            assert_eq!(n, 500);
        }
        Err(_) => panic!("expected pending bytes"),
    }

    // the host drains the transmit queue; the next passes answer
    let drained = drain(&mut dev.tx);
    assert_eq!(drained.len(), 500);
    for _ in 0..8 {
        dev.assembler.process(&mut dev.rx, &mut dev.packets);
        dev.processor.process(&mut dev.packets, &mut dev.tx);
    }
    let mut expected_payload = vec![0u8, 8];
    for minor in 8..16u8 {
        expected_payload.push(b'E');
        expected_payload.push(minor);
    }
    let expected = cobs_encode_frame(&expected_payload);
    assert_eq!(drain(&mut dev.tx), expected);
}
