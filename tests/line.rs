use serial_bridge::line::{
    data_bits_from, flow_control_from, parity_from, stop_bits_from, DataBits, FlowControl,
    LineParam, LineSettings, Parity, StopBits, DEFAULT_BAUD_RATE,
};

#[test]
fn known_values_are_taken() {
    let (s, unknown) = LineSettings::resolve(2400, 7, 'E', 2, 'H');
    assert_eq!(
        s,
        LineSettings {
            baud_rate: 2400,
            data_bits: DataBits::Seven,
            parity: Parity::Even,
            stop_bits: StopBits::Two,
            flow_control: FlowControl::Hardware,
        }
    );
    assert!(unknown.is_empty());
}

#[test]
fn defaults_resolve_to_8n1() {
    let (s, unknown) = LineSettings::resolve(DEFAULT_BAUD_RATE, 8, 'N', 1, 'N');
    assert_eq!(s.baud_rate, 115_200);
    assert_eq!(s.data_bits, DataBits::Eight);
    assert_eq!(s.parity, Parity::Off);
    assert_eq!(s.stop_bits, StopBits::One);
    assert_eq!(s.flow_control, FlowControl::Off);
    assert!(unknown.is_empty());
}

#[test]
fn unknown_values_fall_back_and_are_named() {
    let (s, unknown) = LineSettings::resolve(9600, 9, 'X', 3, 'Q');
    assert_eq!(s.data_bits, DataBits::Eight);
    assert_eq!(s.parity, Parity::Off);
    assert_eq!(s.stop_bits, StopBits::One);
    assert_eq!(s.flow_control, FlowControl::Off);
    assert_eq!(
        unknown,
        vec![LineParam::DataBits, LineParam::Parity, LineParam::StopBits, LineParam::FlowControl]
    );
}

#[test]
fn one_unknown_value_is_named_alone() {
    let (s, unknown) = LineSettings::resolve(9600, 5, 'o', 1, 'S');
    assert_eq!(s.data_bits, DataBits::Five);
    assert_eq!(s.parity, Parity::Off);
    assert_eq!(s.flow_control, FlowControl::Software);
    assert_eq!(unknown, vec![LineParam::Parity]);
}

#[test]
fn single_parameters() {
    assert_eq!(data_bits_from(6), Some(DataBits::Six));
    assert_eq!(data_bits_from(4), None);
    assert_eq!(parity_from('O'), Some(Parity::Odd));
    assert_eq!(parity_from('n'), None);
    assert_eq!(stop_bits_from(1), Some(StopBits::One));
    assert_eq!(stop_bits_from(0), None);
    assert_eq!(flow_control_from('S'), Some(FlowControl::Software));
    assert_eq!(flow_control_from('x'), None);
}
