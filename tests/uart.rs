use logic_decode::sample::Sample;
use logic_decode::serial::{Parity, Serial, SerialError, SerialEvent};

// tx on channel 0, rx on channel 1; 10 ticks per bit at 9600 baud.
const TPS: u64 = 96_000;
const SCALE: i128 = 2 * 9600;

fn line(ts: i64, tx: bool, rx: bool) -> Sample {
    Sample::new((tx as u8) | (rx as u8) << 1, ts)
}

/// One sample per bit: start, eight data bits least significant first,
/// optional parity, stop.
fn frame(start: i64, byte: u8, parity: Option<bool>, tx_line: bool) -> Vec<Sample> {
    let mut levels = vec![false];
    for k in 0..8 {
        levels.push((byte >> k) & 1 == 1);
    }
    if let Some(p) = parity {
        levels.push(p);
    }
    levels.push(true);
    levels
        .iter()
        .enumerate()
        .map(|(k, &l)| {
            let ts = start + 10 * k as i64;
            if tx_line { line(ts, l, true) } else { line(ts, true, l) }
        })
        .collect()
}

fn serial(parity: Parity) -> Serial {
    Serial::new(0, 1, None, None, 9600, parity, TPS, false)
}

#[test]
fn uart_letter_a() {
    let mut s = serial(Parity::NoParity);
    let samples = vec![
        line(0, true, true),
        line(100, false, true),
        line(110, true, true),
        line(120, false, true),
        line(170, true, true),
        line(180, false, true),
        line(190, true, true),
        line(300, true, true),
    ];
    let evs = s.decode(&samples);
    assert_eq!(evs, vec![(195 * SCALE, SerialEvent::Tx(0x41))]);
    assert_eq!(s.finalize(), vec![]);
    assert_eq!(s.units_per_second(), 2 * 9600 * 96_000);
}

#[test]
fn uart_round_trip_bytes() {
    let bytes = [0x00u8, 0xFF, 0x55, 0xAA, b'h', b'i', 0x80, 0x01];
    let mut s = serial(Parity::NoParity);
    let mut samples = vec![line(0, true, true)];
    for (i, &b) in bytes.iter().enumerate() {
        samples.extend(frame(10 + 100 * i as i64, b, None, false));
    }
    samples.push(line(10 + 100 * bytes.len() as i64, true, true));
    let evs = s.decode(&samples);
    let got: Vec<u8> = evs
        .iter()
        .map(|e| match e.1 {
            SerialEvent::Rx(b) => b,
            _ => panic!("unexpected event"),
        })
        .collect();
    assert_eq!(got, bytes.to_vec());
}

#[test]
fn uart_framing_error() {
    let mut s = serial(Parity::NoParity);
    let mut samples = vec![line(0, true, true)];
    let mut f = frame(10, 0x12, None, true);
    f.pop();
    samples.extend(f);
    // stop bit low
    samples.push(line(100, false, true));
    samples.push(line(200, true, true));
    let evs = s.decode(&samples);
    assert_eq!(evs[0], (105 * SCALE, SerialEvent::TxError(SerialError::Framing)));
}

#[test]
fn uart_parity_checked() {
    let mut good = serial(Parity::Even);
    let mut samples = vec![line(0, true, true)];
    samples.extend(frame(10, 0x07, Some(true), true));
    samples.push(line(200, true, true));
    assert_eq!(good.decode(&samples), vec![(115 * SCALE, SerialEvent::Tx(0x07))]);

    let mut bad = serial(Parity::Odd);
    let evs = bad.decode(&samples);
    assert_eq!(evs, vec![(105 * SCALE, SerialEvent::TxError(SerialError::Parity))]);
}

#[test]
fn uart_mark_and_space_parity() {
    let mut samples = vec![line(0, true, true)];
    samples.extend(frame(10, 0x30, Some(true), false));
    samples.push(line(200, true, true));
    let mut mark = serial(Parity::Mark);
    assert_eq!(mark.decode(&samples), vec![(115 * SCALE, SerialEvent::Rx(0x30))]);
    let mut space = serial(Parity::Space);
    assert_eq!(space.decode(&samples), vec![(105 * SCALE, SerialEvent::RxError(SerialError::Parity))]);
}

#[test]
fn uart_end_of_input_flushes() {
    let mut s = serial(Parity::NoParity);
    let mut samples = vec![line(0, true, true)];
    let f = frame(10, 0x21, None, false);
    samples.extend(f[..5].iter().cloned());
    let evs = s.decode(&samples);
    assert!(evs.is_empty());
    assert_eq!(s.finalize(), vec![(10 * SCALE, SerialEvent::RxError(SerialError::Framing))]);
}

#[test]
fn uart_pending_stop_at_end() {
    let mut s = serial(Parity::NoParity);
    let mut samples = vec![line(0, true, true)];
    samples.extend(frame(10, 0x42, None, true));
    let evs = s.decode(&samples);
    assert!(evs.is_empty());
    assert_eq!(s.finalize(), vec![(105 * SCALE, SerialEvent::Tx(0x42))]);
}

#[test]
fn uart_flow_control_reported_only_when_configured() {
    let mut s = Serial::new(0, 1, Some(2), Some(3), 9600, Parity::NoParity, TPS, false);
    let evs = s.decode(&vec![Sample::new(0b0011, 0), Sample::new(0b0111, 5), Sample::new(0b1111, 6)]);
    assert_eq!(evs, vec![(5 * SCALE, SerialEvent::Rts(true)), (6 * SCALE, SerialEvent::Cts(true))]);
    let mut quiet = serial(Parity::NoParity);
    assert!(quiet.decode(&vec![Sample::new(0b0011, 0), Sample::new(0b1111, 5)]).is_empty());
}

#[test]
fn uart_events_merged_by_time() {
    let mut s = serial(Parity::NoParity);
    let mut samples = vec![line(0, true, true)];
    let rx = frame(10, 0x61, None, false);
    let tx = frame(5, 0x62, None, true);
    // both lines in one capture: combine levels at every instant
    let mut times: Vec<i64> = rx.iter().chain(tx.iter()).map(|s| s.timestamp()).collect();
    times.sort();
    times.dedup();
    let level = |f: &Vec<Sample>, t: i64, bit: u8| -> bool {
        f.iter().filter(|s| s.timestamp() <= t).last().map(|s| s.channel(bit)).unwrap_or(true)
    };
    for t in times {
        samples.push(line(t, level(&tx, t, 0), level(&rx, t, 1)));
    }
    samples.push(line(300, true, true));
    let evs = s.decode(&samples);
    assert_eq!(evs, vec![(100 * SCALE, SerialEvent::Tx(0x62)), (105 * SCALE, SerialEvent::Rx(0x61))]);
}

#[test]
fn uart_error_kinds() {
    assert!(SerialEvent::RxError(SerialError::Framing).is_error());
    assert!(SerialEvent::TxError(SerialError::FlowControl).is_error());
    assert!(!SerialEvent::Rx(1).is_error());
    assert!(!SerialEvent::Cts(true).is_error());
}
