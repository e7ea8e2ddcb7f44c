//! Tags and error taxonomy of the wire codec: the message data types, the
//! body encodings, and the serialization / deserialization errors.

use core::marker::PhantomData;
use vstd::prelude::*;
use vstd::string::StringExecFns;

verus! {

/// The kind of record a message carries.
#[derive(Clone, Copy, Debug, PartialEq, Eq, Structural)]
pub enum DataType {
    RawDataPoint,
    MessageHeader,
}

/// The encoding of a message body.
#[derive(Clone, Copy, Debug, PartialEq, Eq, Structural)]
pub enum Encoding {
    Capnp,
    Plain,
}

/// The textual tag of a data type, as it appears on the wire.
pub open spec fn data_type_tag(dt: DataType) -> Seq<char> {
    match dt {
        DataType::RawDataPoint => "RawDataPoint"@,
        DataType::MessageHeader => "MessageHeader"@,
    }
}

/// The textual tag of an encoding, as it appears on the wire.
pub open spec fn encoding_tag(e: Encoding) -> Seq<char> {
    match e {
        Encoding::Capnp => "capnp"@,
        Encoding::Plain => "plain"@,
    }
}

/// Compares two byte slices for equality.
pub fn bytes_eq(a: &[u8], b: &[u8]) -> (r: bool)
    ensures
        r == (a@ == b@),
{
    if a.len() != b.len() {
        assert(a@.len() != b@.len());
        return false;
    }
    let n: usize = a.len();
    let mut i: usize = 0;
    while i < n
        invariant
            n == a@.len(),
            n == b@.len(),
            i <= n,
            forall|j: int| 0 <= j < i ==> a@[j] == b@[j],
        decreases n - i,
    {
        if a[i] != b[i] {
            assert(a@ != b@);
            return false;
        }
        i = i + 1;
    }
    assert(a@ =~= b@);
    true
}

impl DataType {
    /// The wire name of this data type.
    pub fn to_string(&self) -> (s: String)
        ensures
            s@ == data_type_tag(*self),
    {
        match self {
            DataType::RawDataPoint => "RawDataPoint".to_owned(),
            DataType::MessageHeader => "MessageHeader".to_owned(),
        }
    }
}

impl Encoding {
    /// The wire name of this encoding.
    pub fn to_string(&self) -> (s: String)
        ensures
            s@ == encoding_tag(*self),
    {
        match self {
            Encoding::Capnp => "capnp".to_owned(),
            Encoding::Plain => "plain".to_owned(),
        }
    }
}

/// A data-type tag that names no known data type.
#[derive(Debug)]
pub struct UnknownDataTypeError {
    data_type: String,
}

impl View for UnknownDataTypeError {
    type V = Seq<char>;

    closed spec fn view(&self) -> Seq<char> {
        self.data_type@
    }
}

impl UnknownDataTypeError {
    pub fn new(data_type: String) -> (r: UnknownDataTypeError)
        ensures
            r@ == data_type@,
    {
        UnknownDataTypeError { data_type }
    }

    /// Renders the error, naming the unrecognized tag.
    pub fn message(&self) -> (s: String)
        ensures
            s@ == "unknown data type: "@ + self@,
    {
        let mut s = "unknown data type: ".to_owned();
        s.append(self.data_type.as_str());
        s
    }
}

/// An encoding tag that names no known encoding.
#[derive(Debug)]
pub struct UnknownEncodingError {
    encoding: String,
}

impl View for UnknownEncodingError {
    type V = Seq<char>;

    closed spec fn view(&self) -> Seq<char> {
        self.encoding@
    }
}

impl UnknownEncodingError {
    pub fn new(encoding: String) -> (r: UnknownEncodingError)
        ensures
            r@ == encoding@,
    {
        UnknownEncodingError { encoding }
    }

    /// Renders the error, naming the unrecognized tag.
    pub fn message(&self) -> (s: String)
        ensures
            s@ == "unknown encoding: "@ + self@,
    {
        let mut s = "unknown encoding: ".to_owned();
        s.append(self.encoding.as_str());
        s
    }
}

/// Why a version field failed to parse as an unsigned 8-bit decimal.
#[derive(Clone, Copy, Debug, PartialEq, Eq, Structural)]
pub enum NumberParseError {
    /// The field was empty.
    Empty,
    /// A character was not a decimal digit.
    InvalidDigit,
    /// The digits name a value above the 8-bit range.
    TooLarge,
}

impl NumberParseError {
    /// Renders the error as the conventional integer-parse message.
    pub fn message(&self) -> (s: String)
        ensures
            s@ == match *self {
                NumberParseError::Empty => "cannot parse integer from empty string"@,
                NumberParseError::InvalidDigit => "invalid digit found in string"@,
                NumberParseError::TooLarge => "number too large to fit in target type"@,
            },
    {
        match self {
            NumberParseError::Empty => "cannot parse integer from empty string".to_owned(),
            NumberParseError::InvalidDigit => "invalid digit found in string".to_owned(),
            NumberParseError::TooLarge => "number too large to fit in target type".to_owned(),
        }
    }
}

/// What went wrong while encoding or decoding a message.
#[derive(Debug)]
pub enum SerDeErrorKind {
    /// The requested encoding is not implemented for the message.
    EncodingNotImplemented(Encoding),
    /// The encoding field names no known encoding.
    UnknownEncodingError(UnknownEncodingError),
    /// The data-type field names no known data type.
    UnknownDataTypeError(UnknownDataTypeError),
    /// The named field holds bytes that are not UTF-8.
    FromUtf8Error(&'static str),
    /// The named field is absent.
    MissingField(&'static str),
    /// The version field is not an unsigned 8-bit decimal.
    InvalidVersionNumber(NumberParseError),
    /// The packed body bytes do not form a well-formed data-point message.
    MalformedBody,
}

impl SerDeErrorKind {
    /// What the message of this kind reads.
    pub open spec fn message_spec(&self) -> Seq<char> {
        match *self {
            SerDeErrorKind::EncodingNotImplemented(enc) => "encoding '"@ + encoding_tag(enc)
                + "' not implemented"@,
            SerDeErrorKind::UnknownEncodingError(e) => "unknown encoding: "@ + e@,
            SerDeErrorKind::UnknownDataTypeError(e) => "unknown data type: "@ + e@,
            SerDeErrorKind::FromUtf8Error(field) => "error decoding "@ + field@ + " string"@,
            SerDeErrorKind::MissingField(field) => "no "@ + field@
                + " found in message header"@,
            SerDeErrorKind::InvalidVersionNumber(e) => "message version is not u8 number: "@
                + match e {
                    NumberParseError::Empty => "cannot parse integer from empty string"@,
                    NumberParseError::InvalidDigit => "invalid digit found in string"@,
                    NumberParseError::TooLarge => "number too large to fit in target type"@,
                },
            SerDeErrorKind::MalformedBody => "malformed packed message body"@,
        }
    }

    /// Renders the kind as its message.
    pub fn message(&self) -> (s: String)
        ensures
            s@ == self.message_spec(),
    {
        match self {
            SerDeErrorKind::EncodingNotImplemented(enc) => {
                let mut s = "encoding '".to_owned();
                let e = enc.to_string();
                s.append(e.as_str());
                s.append("' not implemented");
                s
            },
            SerDeErrorKind::UnknownEncodingError(e) => e.message(),
            SerDeErrorKind::UnknownDataTypeError(e) => e.message(),
            SerDeErrorKind::FromUtf8Error(field) => {
                let mut s = "error decoding ".to_owned();
                s.append(field);
                s.append(" string");
                s
            },
            SerDeErrorKind::MissingField(field) => {
                let mut s = "no ".to_owned();
                s.append(field);
                s.append(" found in message header");
                s
            },
            SerDeErrorKind::InvalidVersionNumber(e) => {
                let mut s = "message version is not u8 number: ".to_owned();
                let m = e.message();
                s.append(m.as_str());
                s
            },
            SerDeErrorKind::MalformedBody => "malformed packed message body".to_owned(),
        }
    }
}

/// A direction of the codec, named in error messages.
pub trait SerDeDirection {
    spec fn spec_name() -> Seq<char>;

    fn direction_name() -> (s: &'static str)
        ensures
            s@ == Self::spec_name(),
    ;
}

/// The encoding direction.
#[derive(Debug)]
pub struct SerializationDirection;

/// The decoding direction.
#[derive(Debug)]
pub struct DeserializationDirection;

impl SerDeDirection for SerializationDirection {
    open spec fn spec_name() -> Seq<char> {
        "serialize"@
    }

    fn direction_name() -> (s: &'static str) {
        "serialize"
    }
}

impl SerDeDirection for DeserializationDirection {
    open spec fn spec_name() -> Seq<char> {
        "deserializae"@
    }

    fn direction_name() -> (s: &'static str) {
        "deserializae"
    }
}

/// A codec error: its kind, and the data type of the message concerned.
#[derive(Debug)]
pub struct SerDeError<D: SerDeDirection> {
    pub kind: SerDeErrorKind,
    pub data_type: DataType,
    pub direction: PhantomData<D>,
}

/// An error of encoding a message.
pub type SerializationError = SerDeError<SerializationDirection>;

/// An error of decoding a message.
pub type DeserializationError = SerDeError<DeserializationDirection>;

impl<D: SerDeDirection> SerDeError<D> {
    pub fn new(data_type: DataType, kind: SerDeErrorKind) -> (r: SerDeError<D>)
        ensures
            r.kind == kind,
            r.data_type == data_type,
    {
        SerDeError { kind, data_type, direction: PhantomData }
    }

    /// Renders the error with its direction, data type and kind.
    pub fn message(&self) -> (s: String)
        ensures
            s@ == "failed to "@ + D::spec_name() + " message for type "@ + data_type_tag(
                self.data_type,
            ) + ": "@ + self.kind.message_spec(),
    {
        let mut s = "failed to ".to_owned();
        s.append(D::direction_name());
        s.append(" message for type ");
        let dt = self.data_type.to_string();
        s.append(dt.as_str());
        s.append(": ");
        let k = self.kind.message();
        s.append(k.as_str());
        s
    }
}

} // verus!
