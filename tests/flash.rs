use logic_decode::spi::SpiEvent;
use logic_decode::spif::{Command, FlashError, Spif, MAX_PAYLOAD};

fn data(ts: i64, mosi: u8, miso: u8) -> (i64, SpiEvent) {
    (ts, SpiEvent::Data { mosi, miso })
}

fn cs(ts: i64, level: bool) -> (i64, SpiEvent) {
    (ts, SpiEvent::ChipSelect(level))
}

#[test]
fn flash_read_device_id() {
    // chip select active low: ChipSelect(false) opens the transaction
    let mut f = Spif::new(false, false);
    let evs = vec![cs(1, false), data(2, 0x9F, 0x00), data(3, 0x00, 0xC2), data(4, 0x00, 0x28), data(5, 0x00, 0x15), cs(6, true)];
    let out = f.decode(&evs);
    assert_eq!(out.len(), 1);
    match &out[0] {
        Ok((ts, Command::ReadDeviceId(d))) => {
            assert_eq!(*ts, 2);
            assert_eq!(d.manufacturer, 0xC2);
            assert_eq!(d.device_id, 0x2815);
        },
        _ => panic!("expected a device id"),
    }
}

#[test]
fn flash_read_four_bytes() {
    let mut f = Spif::new(true, false);
    let evs = vec![
        cs(0, true),
        data(1, 0x03, 0),
        data(2, 0x00, 0),
        data(3, 0x00, 0),
        data(4, 0x10, 0),
        data(5, 0x00, 0xAA),
        data(6, 0x00, 0xBB),
        data(7, 0x00, 0xCC),
        data(8, 0x00, 0xDD),
        cs(9, false),
    ];
    let out = f.decode(&evs);
    assert_eq!(out.len(), 1);
    match &out[0] {
        Ok((ts, Command::Read(r))) => {
            assert_eq!(*ts, 1);
            assert_eq!(r.addr, 0x000010);
            assert_eq!(r.data, vec![0xAA, 0xBB, 0xCC, 0xDD]);
        },
        _ => panic!("expected a read"),
    }
}

#[test]
fn flash_page_program_takes_mosi() {
    let mut f = Spif::new(true, false);
    let evs = vec![cs(0, true), data(1, 0x02, 0), data(2, 0x12, 0), data(3, 0x34, 0), data(4, 0x56, 0), data(5, 0x01, 0xEE), data(6, 0x02, 0xEE), cs(7, false)];
    let out = f.decode(&evs);
    match &out[..] {
        [Ok((1, Command::PageProgram(p)))] => {
            assert_eq!(p.addr, 0x123456);
            assert_eq!(p.data, vec![1, 2]);
        },
        _ => panic!("expected a page program"),
    }
}

#[test]
fn flash_sfdp_and_status() {
    let mut f = Spif::new(true, false);
    let evs = vec![
        cs(0, true),
        data(1, 0x5A, 0),
        data(2, 0, 0),
        data(3, 0, 0),
        data(4, 0x08, 0),
        data(5, 0, 0x53),
        cs(6, false),
        cs(7, true),
        data(8, 0x05, 0),
        data(9, 0, 0x02),
        cs(10, false),
    ];
    let out = f.decode(&evs);
    assert_eq!(out.len(), 2);
    match &out[0] {
        Ok((1, Command::ReadSFDP(s))) => {
            assert_eq!(s.addr, 8);
            assert_eq!(s.data, vec![0x53]);
        },
        _ => panic!("expected an SFDP read"),
    }
    match &out[1] {
        Ok((8, Command::ReadStatusRegister(s))) => assert_eq!(s.0, 0x02),
        _ => panic!("expected a status read"),
    }
}

#[test]
fn flash_instant_and_erase_commands() {
    let mut f = Spif::new(true, false);
    let evs = vec![
        cs(0, true),
        data(1, 0x06, 0),
        cs(2, false),
        cs(3, true),
        data(4, 0x66, 0),
        data(5, 0x99, 0),
        cs(6, false),
        cs(7, true),
        data(8, 0x20, 0),
        data(9, 0x01, 0),
        data(10, 0x02, 0),
        data(11, 0x03, 0),
        cs(12, false),
        cs(13, true),
        data(14, 0x52, 0),
        data(15, 0xAB, 0),
        data(16, 0xCD, 0),
        data(17, 0xEF, 0),
        cs(18, false),
        cs(19, true),
        data(20, 0xD8, 0),
        data(21, 0xFF, 0),
        data(22, 0x00, 0),
        data(23, 0x00, 0),
        cs(24, false),
    ];
    let out = f.decode(&evs);
    assert_eq!(out.len(), 6);
    assert!(matches!(out[0], Ok((1, Command::WriteEnable))));
    assert!(matches!(out[1], Ok((4, Command::ResetEnable))));
    assert!(matches!(out[2], Ok((5, Command::Reset))));
    assert!(matches!(out[3], Ok((8, Command::SectorErase(0x010203)))));
    assert!(matches!(out[4], Ok((14, Command::BlockErase32(0xABCDEF)))));
    assert!(matches!(out[5], Ok((20, Command::BlockErase(0xFF0000)))));
}

#[test]
fn flash_unsupported_opcode_ends_stream() {
    let mut f = Spif::new(true, false);
    let evs = vec![cs(0, true), data(1, 0x0B, 0x77), data(2, 0x06, 0), cs(3, false)];
    let out = f.decode(&evs);
    assert_eq!(out.len(), 1);
    assert!(matches!(out[0], Err(FlashError::UnsupportedCommand { ts: 1, mosi: 0x0B, miso: 0x77 })));
}

#[test]
fn flash_unfinished_fixed_command_is_dropped() {
    let mut f = Spif::new(true, false);
    let evs = vec![cs(0, true), data(1, 0x20, 0), data(2, 0x01, 0), cs(3, false), cs(4, true), data(5, 0x06, 0)];
    let out = f.decode(&evs);
    assert_eq!(out.len(), 1);
    assert!(matches!(out[0], Ok((5, Command::WriteEnable))));
}

#[test]
fn flash_words_outside_transaction_are_ignored() {
    let mut f = Spif::new(true, false);
    assert!(f.update(0, SpiEvent::Data { mosi: 0x06, miso: 0 }).is_none());
}

#[test]
fn flash_payload_cap() {
    let mut f = Spif::new(true, false);
    let mut evs = vec![cs(0, true), data(1, 0x03, 0), data(2, 0, 0), data(3, 0, 0), data(4, 0, 0)];
    for k in 0..MAX_PAYLOAD {
        evs.push(data(5 + k as i64, 0, k as u8));
    }
    let mut ok = Spif::new(true, false);
    let mut full = evs.clone();
    full.push(cs(1_000_000, false));
    let out = ok.decode(&full);
    match &out[..] {
        [Ok((1, Command::Read(r)))] => assert_eq!(r.data.len(), MAX_PAYLOAD),
        _ => panic!("expected a full read"),
    }
    evs.push(data(999_999, 0, 0));
    evs.push(cs(1_000_000, false));
    let out = f.decode(&evs);
    assert_eq!(out.len(), 1);
    assert!(matches!(out[0], Err(FlashError::TransactionTooLong { ts: 1 })));
}

#[test]
fn flash_recovers_at_next_transaction() {
    let mut f = Spif::new(true, false);
    let evs = vec![cs(0, true), data(1, 0x0B, 0x77), data(2, 0x06, 0), cs(3, false), cs(4, true), data(5, 0x06, 0), cs(6, false)];
    let out = f.decode(&evs);
    assert_eq!(out.len(), 2);
    assert!(matches!(out[0], Err(FlashError::UnsupportedCommand { ts: 1, mosi: 0x0B, miso: 0x77 })));
    assert!(matches!(out[1], Ok((5, Command::WriteEnable))));
}

#[test]
fn flash_recovers_after_payload_cap() {
    let mut f = Spif::new(true, false);
    let mut evs = vec![cs(0, true), data(1, 0x02, 0), data(2, 0, 0), data(3, 0, 0), data(4, 0, 0)];
    for k in 0..MAX_PAYLOAD + 3 {
        evs.push(data(5 + k as i64, k as u8, 0));
    }
    evs.push(cs(1_000_000, false));
    evs.push(cs(1_000_001, true));
    evs.push(data(1_000_002, 0x66, 0));
    let out = f.decode(&evs);
    assert_eq!(out.len(), 2);
    assert!(matches!(out[0], Err(FlashError::TransactionTooLong { ts: 1 })));
    assert!(matches!(out[1], Ok((1_000_002, Command::ResetEnable))));
}
