//! The measurement records that travel through the runtime, and the framing
//! of one wire message: a plain-text header followed by the encoded body.

use vstd::prelude::*;
use crate::header::MessageHeader;
use crate::header::header_bytes;
use crate::serde::DataType;
use crate::serde::Encoding;

verus! {

/// A measured value. A floating-point measurement is carried as the bit
/// pattern of its IEEE-754 double, so the record itself stays plain data.
#[derive(Clone, Debug, PartialEq)]
pub enum DataValue {
    Integer(i64),
    Float(u64),
    Bool(bool),
    Text(String),
}

/// A measured value, at the specification level.
pub enum DataValueV {
    Integer(i64),
    Float(u64),
    Bool(bool),
    Text(Seq<char>),
}

impl View for DataValue {
    type V = DataValueV;

    open spec fn view(&self) -> DataValueV {
        match *self {
            DataValue::Integer(v) => DataValueV::Integer(v),
            DataValue::Float(bits) => DataValueV::Float(bits),
            DataValue::Bool(b) => DataValueV::Bool(b),
            DataValue::Text(ref s) => DataValueV::Text(s@),
        }
    }
}

/// An instant as seconds and subsecond nanoseconds since the Unix epoch,
/// UTC. During a leap second the nanosecond count may reach into the
/// following second, so it stays below two billion.
#[derive(Clone, Copy, Debug, PartialEq, Eq, Structural)]
pub struct Timestamp {
    pub secs: i64,
    pub nanos: u32,
}

/// Whether a timestamp's nanosecond part is in range.
pub open spec fn timestamp_ok(t: Timestamp) -> bool {
    t.nanos < 2_000_000_000
}

/// One measurement: where it was taken, what was measured, which component
/// of it, when, and the value.
#[derive(Clone, Debug, PartialEq)]
pub struct RawDataPoint {
    pub location: String,
    pub path: String,
    pub component: String,
    pub timestamp: Timestamp,
    pub value: DataValue,
}

/// One measurement, at the specification level.
pub struct RawDataPointV {
    pub location: Seq<char>,
    pub path: Seq<char>,
    pub component: Seq<char>,
    pub timestamp: Timestamp,
    pub value: DataValueV,
}

impl View for RawDataPoint {
    type V = RawDataPointV;

    open spec fn view(&self) -> RawDataPointV {
        RawDataPointV {
            location: self.location@,
            path: self.path@,
            component: self.component@,
            timestamp: self.timestamp,
            value: self.value@,
        }
    }
}

impl RawDataPoint {
    /// The data type a raw data point is tagged as on the wire.
    pub fn data_type() -> (dt: DataType)
        ensures
            dt == DataType::RawDataPoint,
    {
        DataType::RawDataPoint
    }
}

/// Builds one measurement record from its parts.
pub fn make_data_point(
    location: &str,
    path: &str,
    component: &str,
    timestamp: Timestamp,
    value: DataValue,
) -> (p: RawDataPoint)
    ensures
        p.location@ == location@,
        p.path@ == path@,
        p.component@ == component@,
        p.timestamp == timestamp,
        p.value == value,
{
    RawDataPoint {
        location: location.to_owned(),
        path: path.to_owned(),
        component: component.to_owned(),
        timestamp,
        value,
    }
}

/// Frames one wire message: the header as plain text, immediately followed
/// by the body bytes. A single write of the result conveys the whole
/// message.
pub fn frame_message(header: &MessageHeader, body: &Vec<u8>) -> (r: Vec<u8>)
    ensures
        r@ == header_bytes(header.data_type, header.topic@, header.version, header.encoding)
            + body@,
{
    let mut data = match header.to_bytes(Encoding::Plain) {
        Result::Ok(bytes) => bytes,
        Result::Err(_) => vstd::pervasive::unreached(),
    };
    data.extend_from_slice(body.as_slice());
    data
}

/// Frames the message a sender writes for one data point: the standard
/// header of a capnp-encoded raw data point with an empty topic and version
/// zero, followed by the body bytes its encoder produced.
pub fn data_point_message(body: &Vec<u8>) -> (r: Vec<u8>)
    ensures
        r@ == header_bytes(DataType::RawDataPoint, Seq::<char>::empty(), 0, Encoding::Capnp)
            + body@,
{
    let header = MessageHeader {
        data_type: DataType::RawDataPoint,
        topic: String::new(),
        version: 0,
        encoding: Encoding::Capnp,
    };
    frame_message(&header, body)
}

} // verus!
