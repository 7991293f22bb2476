//! Protocol decoders for logic-analyzer captures.
//!
//! Samples of eight digital channels are turned into SPI words, SPI-NOR
//! flash commands, UART bytes and WizFi310 modem transactions. Each stage is
//! a state machine with a specification model: the executable code is proved
//! to follow the model, and the laws of each model are proved as well.
//! Timestamps are exact integers: a sample source counts ticks and says how
//! many make a second, and the UART stage counts units of `1 / (2 * baud)`
//! ticks so that half a bit is a whole number of units.
pub mod sample;
pub mod logicdata_parser;
pub mod vcd_parser;
pub mod spi;
pub mod spif;
pub mod serial;
pub mod text;
pub mod wizfi310;
