//! Connection settings and mode switches, modeled as the library's own plain
//! values, with the parsers that turn their command-line spellings into them.

use vstd::prelude::*;
use vstd::string::StrSliceExecFns;

verus! {

/// Data bits of the serial connection.
#[derive(Debug, Clone, Copy, PartialEq, Eq, Structural)]
pub enum DataBits {
    Five,
    Six,
    Seven,
    Eight,
}

/// Parity of the serial connection.
#[derive(Debug, Clone, Copy, PartialEq, Eq, Structural)]
pub enum Parity {
    Disabled,
    Odd,
    Even,
}

/// Stop bits of the serial connection.
#[derive(Debug, Clone, Copy, PartialEq, Eq, Structural)]
pub enum StopBits {
    One,
    Two,
}

/// Flow control of the serial connection.
#[derive(Debug, Clone, Copy, PartialEq, Eq, Structural)]
pub enum FlowControl {
    Disabled,
    Software,
    Hardware,
}

/// Command line options: the device, its connection settings, and the two
/// mode switches.
#[derive(Debug, Clone)]
pub struct Opt {
    /// Serial port device.
    pub port: String,
    /// Baud rate of the serial port.
    pub baud_rate: u32,
    /// Data bits of the serial port.
    pub data_bits: DataBits,
    /// Parity of the serial port.
    pub parity: Parity,
    /// Stop bits of the serial port.
    pub stop_bits: StopBits,
    /// Do not visualize control characters and invalid UTF-8 sequences.
    pub flow_control: FlowControl,
    /// Raw passthrough instead of visualized decoding.
    pub raw: bool,
    /// Quit when the input reaches its end.
    pub escape_quit: bool,
}

/// The data-bits value that the given spelling denotes, if any.
pub open spec fn spec_data_bits(s: Seq<char>) -> Option<DataBits> {
    if s.len() == 1 && s[0] == '5' {
        Some(DataBits::Five)
    } else if s.len() == 1 && s[0] == '6' {
        Some(DataBits::Six)
    } else if s.len() == 1 && s[0] == '7' {
        Some(DataBits::Seven)
    } else if s.len() == 1 && s[0] == '8' {
        Some(DataBits::Eight)
    } else {
        None
    }
}

/// Parses a data-bits value: one of "5", "6", "7", "8".
pub fn data_bits_from_str(s: &str) -> (r: Option<DataBits>)
    ensures
        r == spec_data_bits(s@),
{
    if s.unicode_len() == 1 {
        let c = s.get_char(0);
        if c == '5' {
            Some(DataBits::Five)
        } else if c == '6' {
            Some(DataBits::Six)
        } else if c == '7' {
            Some(DataBits::Seven)
        } else if c == '8' {
            Some(DataBits::Eight)
        } else {
            None
        }
    } else {
        None
    }
}

/// The parity value that the given spelling denotes, if any.
pub open spec fn spec_parity(s: Seq<char>) -> Option<Parity> {
    if s.len() == 4 && s[0] == 'n' && s[1] == 'o' && s[2] == 'n' && s[3] == 'e' {
        Some(Parity::Disabled)
    } else if s.len() == 3 && s[0] == 'o' && s[1] == 'd' && s[2] == 'd' {
        Some(Parity::Odd)
    } else if s.len() == 4 && s[0] == 'e' && s[1] == 'v' && s[2] == 'e' && s[3] == 'n' {
        Some(Parity::Even)
    } else {
        None
    }
}

/// Parses a parity value: one of "none", "odd", "even".
pub fn parity_from_str(s: &str) -> (r: Option<Parity>)
    ensures
        r == spec_parity(s@),
{
    let n = s.unicode_len();
    if n == 4 && s.get_char(0) == 'n' && s.get_char(1) == 'o' && s.get_char(2) == 'n'
        && s.get_char(3) == 'e' {
        Some(Parity::Disabled)
    } else if n == 3 && s.get_char(0) == 'o' && s.get_char(1) == 'd' && s.get_char(2) == 'd' {
        Some(Parity::Odd)
    } else if n == 4 && s.get_char(0) == 'e' && s.get_char(1) == 'v' && s.get_char(2) == 'e'
        && s.get_char(3) == 'n' {
        Some(Parity::Even)
    } else {
        None
    }
}

/// The stop-bits value that the given spelling denotes, if any.
pub open spec fn spec_stop_bits(s: Seq<char>) -> Option<StopBits> {
    if s.len() == 1 && s[0] == '1' {
        Some(StopBits::One)
    } else if s.len() == 1 && s[0] == '2' {
        Some(StopBits::Two)
    } else {
        None
    }
}

/// Parses a stop-bits value: one of "1", "2".
pub fn stop_bits_from_str(s: &str) -> (r: Option<StopBits>)
    ensures
        r == spec_stop_bits(s@),
{
    if s.unicode_len() == 1 {
        let c = s.get_char(0);
        if c == '1' {
            Some(StopBits::One)
        } else if c == '2' {
            Some(StopBits::Two)
        } else {
            None
        }
    } else {
        None
    }
}

/// The flow-control value that the given spelling denotes, if any.
pub open spec fn spec_flow_control(s: Seq<char>) -> Option<FlowControl> {
    if s.len() == 4 && s[0] == 'n' && s[1] == 'o' && s[2] == 'n' && s[3] == 'e' {
        Some(FlowControl::Disabled)
    } else if s.len() == 8 && s[0] == 's' && s[1] == 'o' && s[2] == 'f' && s[3] == 't' && s[4]
        == 'w' && s[5] == 'a' && s[6] == 'r' && s[7] == 'e' {
        Some(FlowControl::Software)
    } else if s.len() == 8 && s[0] == 'h' && s[1] == 'a' && s[2] == 'r' && s[3] == 'd' && s[4]
        == 'w' && s[5] == 'a' && s[6] == 'r' && s[7] == 'e' {
        Some(FlowControl::Hardware)
    } else {
        None
    }
}

/// Parses a flow-control value: one of "none", "software", "hardware".
pub fn flow_control_from_str(s: &str) -> (r: Option<FlowControl>)
    ensures
        r == spec_flow_control(s@),
{
    let n = s.unicode_len();
    if n == 4 && s.get_char(0) == 'n' && s.get_char(1) == 'o' && s.get_char(2) == 'n'
        && s.get_char(3) == 'e' {
        Some(FlowControl::Disabled)
    } else if n == 8 && s.get_char(0) == 's' && s.get_char(1) == 'o' && s.get_char(2) == 'f'
        && s.get_char(3) == 't' && s.get_char(4) == 'w' && s.get_char(5) == 'a' && s.get_char(6)
        == 'r' && s.get_char(7) == 'e' {
        Some(FlowControl::Software)
    } else if n == 8 && s.get_char(0) == 'h' && s.get_char(1) == 'a' && s.get_char(2) == 'r'
        && s.get_char(3) == 'd' && s.get_char(4) == 'w' && s.get_char(5) == 'a' && s.get_char(6)
        == 'r' && s.get_char(7) == 'e' {
        Some(FlowControl::Hardware)
    } else {
        None
    }
}

} // verus!
