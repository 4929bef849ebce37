use serialcat::options::{
    data_bits_from_str, flow_control_from_str, parity_from_str, stop_bits_from_str, DataBits,
    FlowControl, Parity, StopBits,
};
use serialcat::pipeline::{forward_step, writer_step, ForwardStep, WriterStep};

#[test]
fn writer_quits_on_input_end_with_switch() {
    // End of input with the exit switch set: the writer pipeline ends
    // successfully without attempting to write anything.
    assert_eq!(writer_step(true, 0), WriterStep::Quit);
}

#[test]
fn writer_keeps_reading_without_switch() {
    assert_eq!(writer_step(false, 0), WriterStep::AwaitMore);
}

#[test]
fn writer_forwards_data() {
    assert_eq!(writer_step(true, 5), WriterStep::Forward);
    assert_eq!(writer_step(false, 1), WriterStep::Forward);
}

#[test]
fn write_pump_outcomes() {
    assert_eq!(forward_step(0, 7), ForwardStep::SinkGone);
    assert_eq!(forward_step(7, 7), ForwardStep::Done);
    assert_eq!(forward_step(3, 7), ForwardStep::Continue);
}

#[test]
fn data_bits_values() {
    assert_eq!(data_bits_from_str("5"), Some(DataBits::Five));
    assert_eq!(data_bits_from_str("6"), Some(DataBits::Six));
    assert_eq!(data_bits_from_str("7"), Some(DataBits::Seven));
    assert_eq!(data_bits_from_str("8"), Some(DataBits::Eight));
    assert_eq!(data_bits_from_str("4"), None);
    assert_eq!(data_bits_from_str("9"), None);
    assert_eq!(data_bits_from_str(""), None);
}

#[test]
fn parity_values() {
    assert_eq!(parity_from_str("none"), Some(Parity::Disabled));
    assert_eq!(parity_from_str("odd"), Some(Parity::Odd));
    assert_eq!(parity_from_str("even"), Some(Parity::Even));
    assert_eq!(parity_from_str("crc"), None);
}

#[test]
fn stop_bits_values() {
    assert_eq!(stop_bits_from_str("1"), Some(StopBits::One));
    assert_eq!(stop_bits_from_str("2"), Some(StopBits::Two));
    assert_eq!(stop_bits_from_str("0"), None);
    assert_eq!(stop_bits_from_str("3"), None);
}

#[test]
fn flow_control_values() {
    assert_eq!(flow_control_from_str("none"), Some(FlowControl::Disabled));
    assert_eq!(flow_control_from_str("software"), Some(FlowControl::Software));
    assert_eq!(flow_control_from_str("hardware"), Some(FlowControl::Hardware));
    assert_eq!(flow_control_from_str("rts"), None);
}
