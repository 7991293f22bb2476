use logic_decode::serial::SerialEvent;
use logic_decode::wizfi310::{Ipv4, RecvHeader, WizError, WizFi310Event, Wizfi310};

fn rx(text: &[u8], t0: i128) -> Vec<(i128, SerialEvent)> {
    text.iter().enumerate().map(|(i, &b)| (t0 + i as i128, SerialEvent::Rx(b))).collect()
}

fn tx(text: &[u8], t0: i128) -> Vec<(i128, SerialEvent)> {
    text.iter().enumerate().map(|(i, &b)| (t0 + i as i128, SerialEvent::Tx(b))).collect()
}

#[test]
fn wizfi_recv() {
    let mut w = Wizfi310::new(false);
    let out = w.decode(&rx(b"{0,192.168.0.10,5000,3}HEY", 0));
    assert_eq!(out.len(), 1);
    match &out[0] {
        Ok((t, WizFi310Event::Recv(h, payload))) => {
            assert_eq!(*t, 25);
            assert_eq!(*h, RecvHeader { socket_id: 0, ip: Ipv4(192, 168, 0, 10), port: 5000 });
            assert_eq!(payload, &b"HEY".to_vec());
        },
        _ => panic!("expected a receive"),
    }
}

#[test]
fn wizfi_payload_may_hold_line_ends() {
    let mut w = Wizfi310::new(false);
    let out = w.decode(&rx(b"{1,10.0.0.1,80,4}a\r\n}", 0));
    match &out[..] {
        [Ok((_, WizFi310Event::Recv(h, p)))] => {
            assert_eq!(h.port, 80);
            assert_eq!(p, &b"a\r\n}".to_vec());
        },
        _ => panic!("expected one receive"),
    }
}

#[test]
fn wizfi_command_and_response() {
    let mut w = Wizfi310::new(false);
    let mut evs = tx(b"AT\r", 0);
    evs.extend(rx(b"[OK]\r\n", 10));
    let out = w.decode(&evs);
    assert_eq!(out.len(), 2);
    assert!(matches!(&out[0], Ok((2, WizFi310Event::Command(c))) if c == b"AT\r"));
    assert!(matches!(&out[1], Ok((15, WizFi310Event::Resp(r))) if r == b"[OK]\r\n"));
}

#[test]
fn wizfi_send_prompt() {
    let mut w = Wizfi310::new(false);
    let mut evs = rx(b"[0,5]\r\n", 0);
    evs.extend(tx(b"ab\rcd", 10));
    evs.extend(tx(b"X\r", 20));
    let out = w.decode(&evs);
    assert_eq!(out.len(), 3);
    assert!(matches!(&out[0], Ok((6, WizFi310Event::Resp(_)))));
    assert!(matches!(&out[1], Ok((14, WizFi310Event::Sent(s))) if s == b"ab\rcd"));
    assert!(matches!(&out[2], Ok((21, WizFi310Event::Command(c))) if c == b"X\r"));
}

#[test]
fn wizfi_malformed_prompt() {
    let mut w = Wizfi310::new(false);
    let out = w.decode(&rx(b"[0,x]\r\nOK\r\n", 0));
    assert_eq!(out.len(), 1);
    assert!(matches!(out[0], Err(WizError::MalformedPrompt)));
}

#[test]
fn wizfi_malformed_header() {
    let mut w = Wizfi310::new(false);
    let out = w.decode(&rx(b"{0,192.168.0.300,5000,3}HEY", 0));
    assert_eq!(out.len(), 1);
    assert!(matches!(out[0], Err(WizError::MalformedPrompt)));
    let mut v = Wizfi310::new(false);
    assert!(matches!(v.decode(&rx(b"{0,1.2.3.4,5000}", 0))[..], [Err(WizError::MalformedPrompt)]));
}

#[test]
fn wizfi_ignores_other_events() {
    let mut w = Wizfi310::new(false);
    assert!(w.update(0, SerialEvent::Cts(true)).is_none());
    assert!(w.update(1, SerialEvent::RxError(logic_decode::serial::SerialError::Framing)).is_none());
}
