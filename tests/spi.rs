use logic_decode::sample::Sample;
use logic_decode::spi::{mode_from_number, Phase, Polarity, SpiBuilder, SpiEvent};

// cs on channel 0, mosi on 1, miso on 2, clk on 3.
fn smp(ts: i64, cs: bool, mosi: bool, miso: bool, clk: bool) -> Sample {
    Sample::new((cs as u8) | (mosi as u8) << 1 | (miso as u8) << 2 | (clk as u8) << 3, ts)
}

fn byte_samples(start: i64, mosi: u8, miso: u8, rising: bool) -> Vec<Sample> {
    let mut v = Vec::new();
    let mut ts = start;
    for k in (0..8).rev() {
        let mo = (mosi >> k) & 1 == 1;
        let mi = (miso >> k) & 1 == 1;
        v.push(smp(ts, false, mo, mi, !rising));
        v.push(smp(ts + 1, false, mo, mi, rising));
        ts += 2;
    }
    v
}

#[test]
fn spi_mode0_one_byte() {
    let mut spi = SpiBuilder::new().into_spi();
    let mut first = Vec::new();
    spi.update(smp(0, true, false, false, false), &mut first);
    assert_eq!(first, vec![(0, SpiEvent::ChipSelect(true))]);
    let mut samples = vec![smp(10, false, false, false, false)];
    samples.extend(byte_samples(20, 0b1010_1010, 0b1111_0000, true));
    samples.push(smp(100, true, false, false, false));
    let evs = spi.decode(&samples);
    assert_eq!(
        evs,
        vec![
            (10, SpiEvent::ChipSelect(false)),
            (35, SpiEvent::Data { mosi: 0xAA, miso: 0xF0 }),
            (100, SpiEvent::ChipSelect(true)),
        ]
    );
}

#[test]
fn spi_no_words_while_inactive() {
    let mut spi = SpiBuilder::new().into_spi();
    let mut samples = vec![smp(0, true, false, false, false)];
    for k in 0..16 {
        samples.push(smp(1 + 2 * k, true, true, true, false));
        samples.push(smp(2 + 2 * k, true, true, true, true));
    }
    let evs = spi.decode(&samples);
    assert_eq!(evs, vec![(0, SpiEvent::ChipSelect(true))]);
}

#[test]
fn spi_partial_word_is_dropped_on_deassert() {
    let mut spi = SpiBuilder::new().into_spi();
    let mut samples = vec![smp(0, true, false, false, false), smp(1, false, false, false, false)];
    // three bits, then chip select goes inactive
    for k in 0..3 {
        samples.push(smp(2 + 2 * k, false, true, false, false));
        samples.push(smp(3 + 2 * k, false, true, false, true));
    }
    samples.push(smp(20, true, false, false, false));
    samples.push(smp(21, false, false, false, false));
    samples.extend(byte_samples(30, 0x5A, 0xC3, true));
    let evs = spi.decode(&samples);
    let words: Vec<_> = evs.iter().filter(|e| matches!(e.1, SpiEvent::Data { .. })).collect();
    assert_eq!(words.len(), 1);
    assert_eq!(words[0].1, SpiEvent::Data { mosi: 0x5A, miso: 0xC3 });
}

#[test]
fn spi_mode1_samples_falling_edge() {
    let (phase, polarity) = mode_from_number(1);
    assert_eq!((phase, polarity), (Phase::SecondEdge, Polarity::High));
    let mut spi = SpiBuilder::new().mode(phase, polarity).into_spi();
    let mut samples = vec![smp(0, true, false, false, false), smp(1, false, false, false, false)];
    // clock idles low; data is valid on the falling edge
    samples.extend(byte_samples(10, 0x3C, 0x81, false));
    let evs = spi.decode(&samples);
    assert_eq!(evs.last().unwrap().1, SpiEvent::Data { mosi: 0x3C, miso: 0x81 });
}

#[test]
fn spi_modes_by_number() {
    assert_eq!(mode_from_number(0), (Phase::FirstEdge, Polarity::High));
    assert_eq!(mode_from_number(2), (Phase::FirstEdge, Polarity::Low));
    assert_eq!(mode_from_number(3), (Phase::SecondEdge, Polarity::Low));
    assert_eq!(mode_from_number(9), (Phase::FirstEdge, Polarity::High));
}

#[test]
fn spi_builder_sets_fields() {
    let b = SpiBuilder::new().cs(4).clk(5).miso(6).mosi(7).cs_active_level(Polarity::High).inspect(true);
    assert_eq!((b.cs, b.clk, b.miso, b.mosi), (4, 5, 6, 7));
    assert_eq!(b.cs_active_level, Polarity::High);
    assert!(b.inspect);
    assert!(b.into_spi().inspect());
}

#[test]
fn spi_active_high_chip_select() {
    let mut spi = SpiBuilder::new().cs_active_level(Polarity::High).into_spi();
    let mut samples = vec![smp(0, true, false, false, false)];
    for j in 0..8i64 {
        let b = (0x96u8 >> (7 - j)) & 1 == 1;
        samples.push(smp(10 + 2 * j, true, b, !b, false));
        samples.push(smp(11 + 2 * j, true, b, !b, true));
    }
    let evs = spi.decode(&samples);
    assert_eq!(evs.last().unwrap().1, SpiEvent::Data { mosi: 0x96, miso: 0x69 });
}
