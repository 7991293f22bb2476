use logic_decode::logicdata_parser::LogicDataParser;
use logic_decode::sample::{Sample, SampleError};
use logic_decode::vcd_parser::{ScalarValue, TimeUnit, VcdCommand, VcdParser};

fn seconds(ticks: i64, per_second: u64) -> String {
    format!("{:.6}", ticks as f64 / per_second as f64)
}

#[test]
fn binary_sample_at_one_khz() {
    let mut p = LogicDataParser::new(vec![0xE8, 0x03, 0, 0, 0, 0, 0, 0, 0xFF], 1000);
    let smp = p.next().unwrap().unwrap();
    assert_eq!(smp.timestamp(), 1000);
    assert_eq!(smp.sample(), 0xFF);
    assert_eq!(seconds(smp.timestamp(), p.ticks_per_second()), "1.000000");
    assert!(p.next().is_none());
}

#[test]
fn binary_extra_byte_is_truncated_record() {
    let mut p = LogicDataParser::new(vec![0xE8, 0x03, 0, 0, 0, 0, 0, 0, 0, 0xFF], 1000);
    let smp = p.next().unwrap().unwrap();
    assert_eq!(smp, Sample::new(0, 1000));
    assert_eq!(p.next(), Some(Err(SampleError::Truncated)));
    assert!(p.next().is_none());
}

#[test]
fn binary_zero_frequency_is_one() {
    let p = LogicDataParser::new(vec![], 0);
    assert_eq!(p.ticks_per_second(), 1);
}

#[test]
fn binary_negative_ticks_and_order() {
    let mut input = vec![0xFF, 0xFF, 0xFF, 0xFF, 0xFF, 0xFF, 0xFF, 0xFF, 0x01];
    input.extend_from_slice(&[5, 0, 0, 0, 0, 0, 0, 0, 0x02]);
    input.extend_from_slice(&[4, 0, 0, 0, 0, 0, 0, 0, 0x03]);
    let mut p = LogicDataParser::new(input, 10);
    assert_eq!(p.next(), Some(Ok(Sample::new(0x01, -1))));
    assert_eq!(p.next(), Some(Ok(Sample::new(0x02, 5))));
    assert_eq!(p.next(), Some(Err(SampleError::NonMonotonic)));
    assert_eq!(p.next(), None);
}

#[test]
fn binary_largest_ticks() {
    let mut p = LogicDataParser::new(vec![0xFF, 0xFF, 0xFF, 0xFF, 0xFF, 0xFF, 0xFF, 0x7F, 0x80], 1);
    assert_eq!(p.next(), Some(Ok(Sample::new(0x80, i64::MAX))));
    let mut q = LogicDataParser::new(vec![0, 0, 0, 0, 0, 0, 0, 0x80, 0x00], 1);
    assert_eq!(q.next(), Some(Ok(Sample::new(0, i64::MIN))));
}

#[test]
fn sample_channel_levels() {
    let s = Sample::new(0b1000_0101, 0);
    assert!(s.channel(0));
    assert!(!s.channel(1));
    assert!(s.channel(2));
    assert!(s.channel(7));
    assert!(!s.channel(8));
}

fn var(t: &str, id: &str, name: &str) -> VcdCommand {
    VcdCommand::VarDef { var_type: t.as_bytes().to_vec(), id: id.as_bytes().to_vec(), reference: name.as_bytes().to_vec() }
}

fn change(id: &str, value: ScalarValue) -> VcdCommand {
    VcdCommand::ChangeScalar { id: id.as_bytes().to_vec(), value }
}

#[test]
fn vcd_changes_give_samples() {
    let mut p = VcdParser::new();
    assert!(p.update(VcdCommand::Timescale(10, TimeUnit::NS)).is_none());
    assert!(p.update(var("wire", "!", "ch_3_clk")).is_none());
    assert!(p.update(var("wire", "#", "ch_0_cs")).is_none());
    assert!(p.update(VcdCommand::Other).is_none());
    assert!(p.update(VcdCommand::Timestamp(100)).is_none());
    assert_eq!(p.update(change("!", ScalarValue::V1)), Some(Ok(Sample::new(0b1000, -100_000_000_000_000))));
    assert!(p.update(VcdCommand::Timestamp(150)).is_none());
    assert_eq!(p.update(change("#", ScalarValue::V1)), Some(Ok(Sample::new(0b1001, -100_000_000_000_000 + 500_000_000))));
    assert_eq!(p.update(change("!", ScalarValue::V0)), Some(Ok(Sample::new(0b0001, -100_000_000_000_000 + 500_000_000))));
    assert_eq!(p.ticks_per_second(), 1_000_000_000_000_000);
}

#[test]
fn vcd_unknown_value_ends_stream() {
    let mut p = VcdParser::new();
    p.update(var("wire", "!", "ch_1_x"));
    assert_eq!(p.update(change("!", ScalarValue::X)), Some(Err(SampleError::UnsupportedValue)));
    assert_eq!(p.update(change("!", ScalarValue::V1)), None);
}

#[test]
fn vcd_non_wire_is_refused() {
    let mut p = VcdParser::new();
    assert_eq!(p.update(var("reg", "!", "ch_1_x")), Some(Err(SampleError::UnsupportedVarType)));
}

#[test]
fn vcd_bad_names_and_ids() {
    let mut p = VcdParser::new();
    assert_eq!(p.update(var("wire", "!", "clk")), Some(Err(SampleError::BadVariableName)));
    let mut q = VcdParser::new();
    assert_eq!(q.update(var("wire", "!", "ch_9_clk")), Some(Err(SampleError::BadVariableName)));
    let mut r = VcdParser::new();
    assert_eq!(r.update(change("?", ScalarValue::V0)), Some(Err(SampleError::UnknownVariable)));
}

#[test]
fn vcd_time_going_back_is_refused() {
    let mut p = VcdParser::new();
    p.update(VcdCommand::Timestamp(10));
    p.update(VcdCommand::Timestamp(20));
    assert_eq!(p.update(VcdCommand::Timestamp(15)), Some(Err(SampleError::NonMonotonic)));
}

#[test]
fn vcd_redeclared_wire_moves() {
    let mut p = VcdParser::new();
    p.update(var("wire", "!", "ch_1_a"));
    p.update(var("wire", "!", "ch_2_a"));
    assert_eq!(p.update(change("!", ScalarValue::V1)), Some(Ok(Sample::new(0b100, -100_000_000_000_000))));
}
