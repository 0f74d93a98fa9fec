//! The line settings of the serial source, read from the values a user
//! gave. An unknown value falls back to its default and is reported.
use vstd::prelude::*;

verus! {

/// The baud rate used when none is given.
pub const DEFAULT_BAUD_RATE: u32 = 115_200;

/// Bits per character.
#[derive(Clone, Copy, Debug, PartialEq, Eq, Structural)]
pub enum DataBits {
    Five,
    Six,
    Seven,
    Eight,
}

/// Parity checking.
#[derive(Clone, Copy, Debug, PartialEq, Eq, Structural)]
pub enum Parity {
    /// No parity bit.
    Off,
    Odd,
    Even,
}

/// Stop bits per character.
#[derive(Clone, Copy, Debug, PartialEq, Eq, Structural)]
pub enum StopBits {
    One,
    Two,
}

/// Flow control.
#[derive(Clone, Copy, Debug, PartialEq, Eq, Structural)]
pub enum FlowControl {
    /// No flow control.
    Off,
    Hardware,
    Software,
}

/// One of the line parameters, to name the one whose value was unknown.
#[derive(Clone, Copy, Debug, PartialEq, Eq, Structural)]
pub enum LineParam {
    DataBits,
    Parity,
    StopBits,
    FlowControl,
}

/// The line settings of the source.
#[derive(Clone, Copy, Debug, PartialEq, Eq, Structural)]
pub struct LineSettings {
    pub baud_rate: u32,
    pub data_bits: DataBits,
    pub parity: Parity,
    pub stop_bits: StopBits,
    pub flow_control: FlowControl,
}

pub open spec fn data_bits_of(v: u8) -> Option<DataBits> {
    if v == 5 {
        Some(DataBits::Five)
    } else if v == 6 {
        Some(DataBits::Six)
    } else if v == 7 {
        Some(DataBits::Seven)
    } else if v == 8 {
        Some(DataBits::Eight)
    } else {
        None
    }
}

pub open spec fn parity_of(c: char) -> Option<Parity> {
    if c == 'N' {
        Some(Parity::Off)
    } else if c == 'O' {
        Some(Parity::Odd)
    } else if c == 'E' {
        Some(Parity::Even)
    } else {
        None
    }
}

pub open spec fn stop_bits_of(v: u8) -> Option<StopBits> {
    if v == 1 {
        Some(StopBits::One)
    } else if v == 2 {
        Some(StopBits::Two)
    } else {
        None
    }
}

pub open spec fn flow_control_of(c: char) -> Option<FlowControl> {
    if c == 'N' {
        Some(FlowControl::Off)
    } else if c == 'H' {
        Some(FlowControl::Hardware)
    } else if c == 'S' {
        Some(FlowControl::Software)
    } else {
        None
    }
}

/// Data bits from their count: 5, 6, 7 or 8.
pub fn data_bits_from(v: u8) -> (r: Option<DataBits>)
    ensures
        r == data_bits_of(v),
{
    match v {
        5 => Some(DataBits::Five),
        6 => Some(DataBits::Six),
        7 => Some(DataBits::Seven),
        8 => Some(DataBits::Eight),
        _ => None,
    }
}

/// Parity from its letter: `N`one, `O`dd or `E`ven.
pub fn parity_from(c: char) -> (r: Option<Parity>)
    ensures
        r == parity_of(c),
{
    match c {
        'N' => Some(Parity::Off),
        'O' => Some(Parity::Odd),
        'E' => Some(Parity::Even),
        _ => None,
    }
}

/// Stop bits from their count: 1 or 2.
pub fn stop_bits_from(v: u8) -> (r: Option<StopBits>)
    ensures
        r == stop_bits_of(v),
{
    match v {
        1 => Some(StopBits::One),
        2 => Some(StopBits::Two),
        _ => None,
    }
}

/// Flow control from its letter: `N`one, `H`ardware or `S`oftware.
pub fn flow_control_from(c: char) -> (r: Option<FlowControl>)
    ensures
        r == flow_control_of(c),
{
    match c {
        'N' => Some(FlowControl::Off),
        'H' => Some(FlowControl::Hardware),
        'S' => Some(FlowControl::Software),
        _ => None,
    }
}

/// The parameters whose given values are unknown, in the order data bits,
/// parity, stop bits, flow control.
pub open spec fn unknown_params(data_bits: u8, parity: char, stop_bits: u8, flow_control: char) -> Seq<
    LineParam,
> {
    let a = if data_bits_of(data_bits) is None {
        seq![LineParam::DataBits]
    } else {
        Seq::empty()
    };
    let b = if parity_of(parity) is None {
        seq![LineParam::Parity]
    } else {
        Seq::empty()
    };
    let c = if stop_bits_of(stop_bits) is None {
        seq![LineParam::StopBits]
    } else {
        Seq::empty()
    };
    let d = if flow_control_of(flow_control) is None {
        seq![LineParam::FlowControl]
    } else {
        Seq::empty()
    };
    a + b + c + d
}

impl LineSettings {
    /// The settings for the given values: each known value is taken, each
    /// unknown one falls back to its default (8 data bits, no parity, one
    /// stop bit, no flow control) and is named in the second result, so that
    /// it can be reported. Nothing is refused.
    pub fn resolve(
        baud_rate: u32,
        data_bits: u8,
        parity: char,
        stop_bits: u8,
        flow_control: char,
    ) -> (r: (LineSettings, Vec<LineParam>))
        ensures
            r.0.baud_rate == baud_rate,
            r.0.data_bits == match data_bits_of(data_bits) {
                Some(v) => v,
                None => DataBits::Eight,
            },
            r.0.parity == match parity_of(parity) {
                Some(v) => v,
                None => Parity::Off,
            },
            r.0.stop_bits == match stop_bits_of(stop_bits) {
                Some(v) => v,
                None => StopBits::One,
            },
            r.0.flow_control == match flow_control_of(flow_control) {
                Some(v) => v,
                None => FlowControl::Off,
            },
            r.1@ == unknown_params(data_bits, parity, stop_bits, flow_control),
    {
        let mut unknown: Vec<LineParam> = Vec::new();
        let d = match data_bits_from(data_bits) {
            Some(v) => v,
            None => {
                unknown.push(LineParam::DataBits);
                DataBits::Eight
            },
        };
        let p = match parity_from(parity) {
            Some(v) => v,
            None => {
                unknown.push(LineParam::Parity);
                Parity::Off
            },
        };
        let s = match stop_bits_from(stop_bits) {
            Some(v) => v,
            None => {
                unknown.push(LineParam::StopBits);
                StopBits::One
            },
        };
        let f = match flow_control_from(flow_control) {
            Some(v) => v,
            None => {
                unknown.push(LineParam::FlowControl);
                FlowControl::Off
            },
        };
        assert(unknown@ =~= unknown_params(data_bits, parity, stop_bits, flow_control));
        (
            LineSettings {
                baud_rate,
                data_bits: d,
                parity: p,
                stop_bits: s,
                flow_control: f,
            },
            unknown,
        )
    }
}

} // verus!
