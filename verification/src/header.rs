//! The message header codec. A header is line-oriented text:
//!
//! ```text
//! <DataType>/<Topic>\n
//! <Version>\n
//! <Encoding>\n
//! \n
//! ```
//!
//! The topic may be empty; the `/` separator is always present. The decoder
//! splits on newlines, takes the parts before the terminating empty line,
//! reads the fields positionally, and tolerates extra parts.

use vstd::prelude::*;
use vstd::string::StringExecFns;
use vstd::string::StrSliceExecFns;
use vstd::utf8::decode_utf8;
use vstd::utf8::encode_scalar;
use vstd::utf8::encode_utf8;
use vstd::arithmetic::div_mod::lemma_div_is_ordered;
use vstd::arithmetic::div_mod::lemma_fundamental_div_mod;
use vstd::utf8::valid_utf8;
use crate::serde::DataType;
use crate::serde::DeserializationError;
use crate::serde::Encoding;
use crate::serde::NumberParseError;
use crate::serde::SerDeError;
use crate::serde::SerDeErrorKind;
use crate::serde::SerializationError;
use crate::serde::UnknownDataTypeError;
use crate::serde::UnknownEncodingError;
use crate::serde::bytes_eq;
use crate::serde::data_type_tag;
use crate::serde::encoding_tag;

verus! {

/// The newline byte that separates header lines.
pub const NEWLINE: u8 = 10;

/// The slash byte that separates the data type from the topic.
pub const SLASH: u8 = 47;

/// Whether a byte is an ASCII decimal digit.
pub open spec fn is_digit(b: u8) -> bool {
    48 <= b <= 57
}

/// The value named by a sequence of ASCII digit bytes, most significant
/// first.
pub open spec fn digits_val(s: Seq<u8>) -> int
    decreases s.len(),
{
    if s.len() == 0 {
        0
    } else {
        digits_val(s.drop_last()) * 10 + (s.last() - 48)
    }
}

/// The shortest decimal digit bytes of `v`.
pub open spec fn dec_bytes(v: u8) -> Seq<u8> {
    if v < 10 {
        seq![(v + 48) as u8]
    } else if v < 100 {
        seq![(v / 10 + 48) as u8, (v % 10 + 48) as u8]
    } else {
        seq![(v / 100 + 48) as u8, ((v / 10) % 10 + 48) as u8, (v % 10 + 48) as u8]
    }
}

/// Writes `v` in decimal onto `out`.
pub fn push_dec(out: &mut Vec<u8>, v: u8)
    ensures
        final(out)@ == old(out)@ + dec_bytes(v),
{
    if v < 10 {
        out.push(v + 48);
    } else if v < 100 {
        out.push(v / 10 + 48);
        out.push(v % 10 + 48);
        proof {
            assert(final(out)@ =~= old(out)@ + dec_bytes(v));
        }
    } else {
        out.push(v / 100 + 48);
        out.push((v / 10) % 10 + 48);
        out.push(v % 10 + 48);
        proof {
            assert(final(out)@ =~= old(out)@ + dec_bytes(v));
        }
    }
    proof {
        assert(final(out)@ =~= old(out)@ + dec_bytes(v));
    }
}

/// The digits of a decimal field: what follows an optional leading `+`.
pub open spec fn parse_body(s: Seq<u8>) -> Seq<u8> {
    if s.len() > 0 && s[0] == 43 {
        s.drop_first()
    } else {
        s
    }
}

/// Whether every byte is an ASCII decimal digit.
pub open spec fn all_digits(s: Seq<u8>) -> bool {
    forall|i: int| 0 <= i < s.len() ==> is_digit(#[trigger] s[i])
}

/// How `parse_u8` reads a byte string, after the conventions of unsigned
/// decimal parsing: an optional leading `+`, then at least one digit, with
/// the value capped at the 8-bit range.
pub open spec fn parse_u8_spec(s: Seq<u8>) -> Result<u8, NumberParseError> {
    if s.len() == 0 {
        Result::Err(NumberParseError::Empty)
    } else if parse_body(s).len() == 0 {
        Result::Err(NumberParseError::InvalidDigit)
    } else if !all_digits(parse_body(s)) {
        Result::Err(NumberParseError::InvalidDigit)
    } else if digits_val(parse_body(s)) > 255 {
        Result::Err(NumberParseError::TooLarge)
    } else {
        Result::Ok(digits_val(parse_body(s)) as u8)
    }
}

/// Reads a byte string as an unsigned 8-bit decimal.
pub fn parse_u8(s: &[u8]) -> (r: Result<u8, NumberParseError>)
    ensures
        r == parse_u8_spec(s@),
{
    if s.len() == 0 {
        return Result::Err(NumberParseError::Empty);
    }
    let start: usize = if s[0] == 43 {
        1
    } else {
        0
    };
    let ghost body = parse_body(s@);
    proof {
        assert(body =~= s@.subrange(start as int, s@.len() as int));
    }
    if start == s.len() {
        return Result::Err(NumberParseError::InvalidDigit);
    }
    let n: usize = s.len();
    let mut i: usize = start;
    let mut acc: u32 = 0;
    while i < n
        invariant
            start <= i <= n,
            n == s@.len(),
            n > 0,
            start <= 1,
            body == parse_body(s@),
            body =~= s@.subrange(start as int, n as int),
            forall|j: int| start <= j < i ==> is_digit(#[trigger] s@[j]),
            ({
                let val = digits_val(s@.subrange(start as int, i as int));
                (val <= 255 && acc == val) || (val > 255 && acc == 256)
            }),
        decreases n - i,
    {
        let b = s[i];
        if b < 48 || b > 57 {
            proof {
                assert(parse_body(s@)[i - start] == s@[i as int]);
                assert(!is_digit(parse_body(s@)[i - start]));
                assert(!all_digits(parse_body(s@)));
            }
            return Result::Err(NumberParseError::InvalidDigit);
        }
        let ghost pre = s@.subrange(start as int, i as int);
        let ghost cur = s@.subrange(start as int, i as int + 1);
        proof {
            assert(cur.drop_last() =~= pre);
            assert(cur.last() == s@[i as int]);
        }
        let d: u32 = (b - 48) as u32;
        acc = if acc * 10 + d > 255 {
            256
        } else {
            acc * 10 + d
        };
        i = i + 1;
    }
    proof {
        assert(s@.subrange(start as int, n as int) =~= body);
        assert(forall|j: int| 0 <= j < body.len() ==> is_digit(#[trigger] body[j]));
        assert(all_digits(parse_body(s@)));
    }
    if acc > 255 {
        Result::Err(NumberParseError::TooLarge)
    } else {
        Result::Ok(acc as u8)
    }
}

/// The length of the leading newline-free run of `s`.
pub open spec fn seg_len(s: Seq<u8>) -> int
    decreases s.len(),
{
    if s.len() == 0 {
        0
    } else if s[0] == NEWLINE {
        0
    } else {
        1 + seg_len(s.drop_first())
    }
}

/// The length of the leading slash-free run of `s`.
pub open spec fn slash_len(s: Seq<u8>) -> int
    decreases s.len(),
{
    if s.len() == 0 {
        0
    } else if s[0] == SLASH {
        0
    } else {
        1 + slash_len(s.drop_first())
    }
}

/// The newline-separated parts of `s` that precede the first empty part:
/// what splitting on newlines and taking while non-empty yields.
pub open spec fn take_parts(s: Seq<u8>) -> Seq<Seq<u8>>
    decreases s.len(),
{
    if s.len() == 0 || s[0] == NEWLINE {
        Seq::empty()
    } else {
        let n = seg_len(s);
        if 0 <= n < s.len() {
            seq![s.take(n)] + take_parts(s.skip(n + 1))
        } else {
            seq![s]
        }
    }
}

/// Characterization of the leading run without byte `stop`, for the two
/// separators of the header.
proof fn lemma_seg_len_char(s: Seq<u8>)
    ensures
        0 <= seg_len(s) <= s.len(),
        forall|j: int| 0 <= j < seg_len(s) ==> s[j] != NEWLINE,
        seg_len(s) < s.len() ==> s[seg_len(s)] == NEWLINE,
    decreases s.len(),
{
    if s.len() == 0 {
    } else if s[0] == NEWLINE {
    } else {
        lemma_seg_len_char(s.drop_first());
        assert forall|j: int| 0 <= j < seg_len(s) implies s[j] != NEWLINE by {
            if j > 0 {
                assert(s.drop_first()[j - 1] == s[j]);
            }
        }
        if seg_len(s) < s.len() {
            assert(s.drop_first()[seg_len(s) - 1] == s[seg_len(s)]);
        }
    }
}

proof fn lemma_slash_len_char(s: Seq<u8>)
    ensures
        0 <= slash_len(s) <= s.len(),
        forall|j: int| 0 <= j < slash_len(s) ==> s[j] != SLASH,
        slash_len(s) < s.len() ==> s[slash_len(s)] == SLASH,
    decreases s.len(),
{
    if s.len() == 0 {
    } else if s[0] == SLASH {
    } else {
        lemma_slash_len_char(s.drop_first());
        assert forall|j: int| 0 <= j < slash_len(s) implies s[j] != SLASH by {
            if j > 0 {
                assert(s.drop_first()[j - 1] == s[j]);
            }
        }
        if slash_len(s) < s.len() {
            assert(s.drop_first()[slash_len(s) - 1] == s[slash_len(s)]);
        }
    }
}

/// Finds the first newline at or after `from`, or the end.
fn find_newline(s: &Vec<u8>, from: usize) -> (j: usize)
    requires
        from <= s@.len(),
    ensures
        from <= j <= s@.len(),
        j - from == seg_len(s@.skip(from as int)),
    {
    proof {
        lemma_seg_len_char(s@.skip(from as int));
    }
    let n: usize = s.len();
    let mut j: usize = from;
    while j < n && s[j] != NEWLINE
        invariant
            from <= j <= n,
            n == s@.len(),
            forall|k: int| from <= k < j ==> s@[k] != NEWLINE,
        decreases n - j,
    {
        j = j + 1;
    }
    proof {
        let tail = s@.skip(from as int);
        let c = seg_len(tail);
        assert(forall|k: int| 0 <= k < tail.len() ==> tail[k] == s@[from + k]);
        if c < j - from {
            assert(tail[c] == NEWLINE);
            assert(s@[from + c] == NEWLINE);
        }
        if j - from < c {
            assert(tail[j - from] != NEWLINE);
            assert(j < n);
        }
    }
    j
}

/// Finds the first slash in `s`, or the end.
fn find_slash(s: &Vec<u8>) -> (j: usize)
    ensures
        j <= s@.len(),
        j as int == slash_len(s@),
    {
    proof {
        lemma_slash_len_char(s@);
    }
    let n: usize = s.len();
    let mut j: usize = 0;
    while j < n && s[j] != SLASH
        invariant
            0 <= j <= n,
            n == s@.len(),
            forall|k: int| 0 <= k < j ==> s@[k] != SLASH,
        decreases n - j,
    {
        j = j + 1;
    }
    proof {
        let c = slash_len(s@);
        if c < j {
            assert(s@[c] == SLASH);
        }
        if j < c {
            assert(s@[j as int] != SLASH);
            assert(j < n);
        }
    }
    j
}

/// Copies `s[a..b]` out.
fn sub_bytes(s: &Vec<u8>, a: usize, b: usize) -> (r: Vec<u8>)
    requires
        a <= b <= s@.len(),
    ensures
        r@ == s@.subrange(a as int, b as int),
{
    let mut r: Vec<u8> = Vec::new();
    let mut i: usize = a;
    while i < b
        invariant
            a <= i <= b <= s@.len(),
            r@ =~= s@.subrange(a as int, i as int),
        decreases b - i,
    {
        r.push(s[i]);
        proof {
            assert(r@ =~= s@.subrange(a as int, i as int + 1));
        }
        i = i + 1;
    }
    proof {
        assert(r@ =~= s@.subrange(a as int, b as int));
    }
    r
}

/// Splits `bytes` on newlines and keeps the parts before the first empty
/// one.
fn split_parts(bytes: &Vec<u8>) -> (parts: Vec<Vec<u8>>)
    ensures
        parts.deep_view() == take_parts(bytes@),
{
    let mut parts: Vec<Vec<u8>> = Vec::new();
    let n: usize = bytes.len();
    let mut i: usize = 0;
    proof {
        assert(bytes@.skip(0) =~= bytes@);
        assert(parts.deep_view() =~= Seq::<Seq<u8>>::empty());
        assert(take_parts(bytes@) =~= parts.deep_view() + take_parts(bytes@.skip(0)));
    }
    loop
        invariant
            i <= n,
            n == bytes@.len(),
            take_parts(bytes@) =~= parts.deep_view() + take_parts(bytes@.skip(i as int)),
        decreases n - i,
    {
        let j = find_newline(bytes, i);
        if j == i {
            // Empty part (or end of input): stop here.
            proof {
                let tail = bytes@.skip(i as int);
                lemma_seg_len_char(tail);
                if tail.len() > 0 {
                    assert(tail[0] == NEWLINE);
                }
                assert(take_parts(tail) =~= Seq::<Seq<u8>>::empty());
                assert(parts.deep_view() =~= take_parts(bytes@));
            }
            return parts;
        }
        let seg = sub_bytes(bytes, i, j);
        let ghost pre_parts = parts.deep_view();
        parts.push(seg);
        proof {
            let tail = bytes@.skip(i as int);
            lemma_seg_len_char(tail);
            assert(parts.deep_view() =~~= pre_parts.push(seg@));
            assert(seg@ =~= tail.take(seg_len(tail)));
        }
        if j == n {
            proof {
                let tail = bytes@.skip(i as int);
                assert(seg_len(tail) == tail.len());
                assert(seg@ =~= tail);
                assert(take_parts(tail) =~= seq![tail]);
                assert(parts.deep_view() =~= take_parts(bytes@));
            }
            return parts;
        }
        proof {
            let tail = bytes@.skip(i as int);
            let c = seg_len(tail);
            assert(c < tail.len());
            assert(take_parts(tail) =~= seq![tail.take(c)] + take_parts(tail.skip(c + 1)));
            assert(tail.skip(c + 1) =~= bytes@.skip(j + 1));
            assert(parts.deep_view() + take_parts(bytes@.skip(j as int + 1)) =~= take_parts(
                bytes@,
            ));
        }
        i = j + 1;
    }
}


/// A decoded header's fields, at the specification level.
pub struct ParsedHeaderV {
    pub data_type: DataType,
    pub topic: Seq<char>,
    pub version: u8,
    pub encoding: Encoding,
}

/// How the decoder reads a byte string: either the parsed fields, or the
/// first failure in field order.
pub enum HeaderOutcome {
    Parsed(ParsedHeaderV),
    MissingDataTypeTopic,
    DataTypeNotUtf8,
    UnknownDataType(Seq<char>),
    MissingTopic,
    TopicNotUtf8,
    MissingVersion,
    VersionNotUtf8,
    BadVersion(NumberParseError),
    MissingEncoding,
    EncodingNotUtf8,
    UnknownEncoding(Seq<char>),
}

/// The data type named by a byte string, if any.
pub open spec fn spec_data_type_of(b: Seq<u8>) -> Option<DataType> {
    if b == encode_utf8(data_type_tag(DataType::RawDataPoint)) {
        Option::Some(DataType::RawDataPoint)
    } else if b == encode_utf8(data_type_tag(DataType::MessageHeader)) {
        Option::Some(DataType::MessageHeader)
    } else {
        Option::None
    }
}

/// The encoding named by a byte string, if any.
pub open spec fn spec_encoding_of(b: Seq<u8>) -> Option<Encoding> {
    if b == encode_utf8(encoding_tag(Encoding::Capnp)) {
        Option::Some(Encoding::Capnp)
    } else if b == encode_utf8(encoding_tag(Encoding::Plain)) {
        Option::Some(Encoding::Plain)
    } else {
        Option::None
    }
}

/// How a header decodes from bytes: split on newlines up to the first empty
/// part, read `data_type/topic`, `version` and `encoding` positionally, and
/// tolerate any further parts.
pub open spec fn header_parse(bytes: Seq<u8>) -> HeaderOutcome {
    let parts = take_parts(bytes);
    if parts.len() == 0 {
        HeaderOutcome::MissingDataTypeTopic
    } else {
        let sp = slash_len(parts[0]);
        let dtb = parts[0].take(sp);
        if !valid_utf8(dtb) {
            HeaderOutcome::DataTypeNotUtf8
        } else {
            match spec_data_type_of(dtb) {
                Option::None => HeaderOutcome::UnknownDataType(decode_utf8(dtb)),
                Option::Some(data_type) => {
                    if sp >= parts[0].len() {
                        HeaderOutcome::MissingTopic
                    } else {
                        let tb = parts[0].skip(sp + 1);
                        if !valid_utf8(tb) {
                            HeaderOutcome::TopicNotUtf8
                        } else if parts.len() < 2 {
                            HeaderOutcome::MissingVersion
                        } else if !valid_utf8(parts[1]) {
                            HeaderOutcome::VersionNotUtf8
                        } else {
                            match parse_u8_spec(parts[1]) {
                                Result::Err(pe) => HeaderOutcome::BadVersion(pe),
                                Result::Ok(version) => {
                                    if parts.len() < 3 {
                                        HeaderOutcome::MissingEncoding
                                    } else if !valid_utf8(parts[2]) {
                                        HeaderOutcome::EncodingNotUtf8
                                    } else {
                                        match spec_encoding_of(parts[2]) {
                                            Option::None => HeaderOutcome::UnknownEncoding(
                                                decode_utf8(parts[2]),
                                            ),
                                            Option::Some(encoding) => HeaderOutcome::Parsed(
                                                ParsedHeaderV {
                                                    data_type,
                                                    topic: decode_utf8(tb),
                                                    version,
                                                    encoding,
                                                },
                                            ),
                                        }
                                    }
                                },
                            }
                        }
                    }
                },
            }
        }
    }
}

/// Whether an error kind reports the given decode outcome.
pub open spec fn kind_matches(kind: SerDeErrorKind, o: HeaderOutcome) -> bool {
    match o {
        HeaderOutcome::Parsed(_) => false,
        HeaderOutcome::MissingDataTypeTopic => kind matches SerDeErrorKind::MissingField(f) && f@
            == "data type/topic"@,
        HeaderOutcome::DataTypeNotUtf8 => kind matches SerDeErrorKind::FromUtf8Error(f) && f@
            == "data type"@,
        HeaderOutcome::UnknownDataType(name) => kind matches SerDeErrorKind::UnknownDataTypeError(
            e,
        ) && e@ == name,
        HeaderOutcome::MissingTopic => kind matches SerDeErrorKind::MissingField(f) && f@
            == "topic"@,
        HeaderOutcome::TopicNotUtf8 => kind matches SerDeErrorKind::FromUtf8Error(f) && f@
            == "topic"@,
        HeaderOutcome::MissingVersion => kind matches SerDeErrorKind::MissingField(f) && f@
            == "version"@,
        HeaderOutcome::VersionNotUtf8 => kind matches SerDeErrorKind::FromUtf8Error(f) && f@
            == "version"@,
        HeaderOutcome::BadVersion(pe) => kind matches SerDeErrorKind::InvalidVersionNumber(q) && q
            == pe,
        HeaderOutcome::MissingEncoding => kind matches SerDeErrorKind::MissingField(f) && f@
            == "encoding"@,
        HeaderOutcome::EncodingNotUtf8 => kind matches SerDeErrorKind::FromUtf8Error(f) && f@
            == "encoding"@,
        HeaderOutcome::UnknownEncoding(name) => kind matches SerDeErrorKind::UnknownEncodingError(
            e,
        ) && e@ == name,
    }
}

/// Relies on `core::str::from_utf8`: it accepts exactly the valid UTF-8 byte
/// strings and decodes them to their characters.
#[verifier::external_body]
pub(crate) fn utf8_to_string(bytes: &[u8]) -> (r: Option<String>)
    ensures
        match r {
            Option::Some(s) => valid_utf8(bytes@) && s@ == decode_utf8(bytes@),
            Option::None => !valid_utf8(bytes@),
        },
{
    match core::str::from_utf8(bytes) {
        Ok(s) => Some(s.to_string()),
        Err(_) => None,
    }
}

/// The bytes of a header with the given fields.
pub open spec fn header_bytes(
    data_type: DataType,
    topic: Seq<char>,
    version: u8,
    encoding: Encoding,
) -> Seq<u8> {
    encode_utf8(data_type_tag(data_type)) + seq![SLASH] + encode_utf8(topic) + seq![NEWLINE]
        + dec_bytes(version) + seq![NEWLINE] + encode_utf8(encoding_tag(encoding)) + seq![
        NEWLINE,
        NEWLINE,
    ]
}

/// The header of a framed message: the kind of record the body carries, a
/// routing topic (possibly empty), a format version and the body's encoding.
#[derive(Clone, Debug, PartialEq)]
pub struct MessageHeader {
    pub data_type: DataType,
    pub topic: String,
    pub version: u8,
    pub encoding: Encoding,
}

impl MessageHeader {
    /// The data type a header itself is tagged as on the wire.
    pub fn data_type() -> (dt: DataType)
        ensures
            dt == DataType::MessageHeader,
    {
        DataType::MessageHeader
    }

    /// Encodes the header as line-oriented text. Only the plain encoding
    /// exists for headers.
    pub fn to_bytes(&self, encoding: Encoding) -> (r: Result<Vec<u8>, SerializationError>)
        ensures
            match r {
                Result::Ok(bytes) => encoding == Encoding::Plain && bytes@ == header_bytes(
                    self.data_type,
                    self.topic@,
                    self.version,
                    self.encoding,
                ),
                Result::Err(e) => {
                    &&& encoding == Encoding::Capnp
                    &&& e.kind == SerDeErrorKind::EncodingNotImplemented(Encoding::Capnp)
                    &&& e.data_type == DataType::MessageHeader
                },
            },
    {
        match encoding {
            Encoding::Plain => {
                let mut out: Vec<u8> = Vec::new();
                let dt = self.data_type.to_string();
                let mut dtb = dt.as_str().as_bytes_vec();
                out.append(&mut dtb);
                out.push(SLASH);
                let mut tb = self.topic.as_str().as_bytes_vec();
                out.append(&mut tb);
                out.push(NEWLINE);
                push_dec(&mut out, self.version);
                out.push(NEWLINE);
                let enc = self.encoding.to_string();
                let mut eb = enc.as_str().as_bytes_vec();
                out.append(&mut eb);
                out.push(NEWLINE);
                out.push(NEWLINE);
                proof {
                    assert(out@ =~= header_bytes(
                        self.data_type,
                        self.topic@,
                        self.version,
                        self.encoding,
                    ));
                }
                Result::Ok(out)
            },
            Encoding::Capnp => Result::Err(
                SerDeError::new(
                    DataType::MessageHeader,
                    SerDeErrorKind::EncodingNotImplemented(Encoding::Capnp),
                ),
            ),
        }
    }

    /// Decodes a header from line-oriented text. Extra parts before the
    /// terminating empty line are tolerated; each failure is reported as the
    /// field it concerns, in field order.
    pub fn from_bytes(bytes: &Vec<u8>, encoding: Encoding) -> (r: Result<
        MessageHeader,
        DeserializationError,
    >)
        ensures
            encoding == Encoding::Capnp ==> (r matches Result::Err(e) && e.kind
                == SerDeErrorKind::EncodingNotImplemented(Encoding::Capnp) && e.data_type
                == DataType::MessageHeader),
            encoding == Encoding::Plain ==> match r {
                Result::Ok(h) => header_parse(bytes@) == HeaderOutcome::Parsed(
                    ParsedHeaderV {
                        data_type: h.data_type,
                        topic: h.topic@,
                        version: h.version,
                        encoding: h.encoding,
                    },
                ),
                Result::Err(e) => e.data_type == DataType::MessageHeader && kind_matches(
                    e.kind,
                    header_parse(bytes@),
                ),
            },
    {
        match encoding {
            Encoding::Capnp => {
                return Result::Err(
                    SerDeError::new(
                        DataType::MessageHeader,
                        SerDeErrorKind::EncodingNotImplemented(Encoding::Capnp),
                    ),
                );
            },
            Encoding::Plain => {},
        }
        let parts = split_parts(bytes);
        if parts.len() == 0 {
            return Result::Err(
                SerDeError::new(
                    DataType::MessageHeader,
                    SerDeErrorKind::MissingField("data type/topic"),
                ),
            );
        }
        let p0 = &parts[0];
        proof {
            assert(p0@ == take_parts(bytes@)[0]);
        }
        let sp = find_slash(p0);
        let dtb = sub_bytes(p0, 0, sp);
        proof {
            assert(dtb@ =~= take_parts(bytes@)[0].take(slash_len(p0@)));
        }
        let dt_decoded = utf8_to_string(dtb.as_slice());
        let data_type: DataType;
        match dt_decoded {
            Option::None => {
                return Result::Err(
                    SerDeError::new(
                        DataType::MessageHeader,
                        SerDeErrorKind::FromUtf8Error("data type"),
                    ),
                );
            },
            Option::Some(dt_name) => {
                if bytes_eq(dtb.as_slice(), "RawDataPoint".as_bytes()) {
                    data_type = DataType::RawDataPoint;
                } else if bytes_eq(dtb.as_slice(), "MessageHeader".as_bytes()) {
                    data_type = DataType::MessageHeader;
                } else {
                    return Result::Err(
                        SerDeError::new(
                            DataType::MessageHeader,
                            SerDeErrorKind::UnknownDataTypeError(
                                UnknownDataTypeError::new(dt_name),
                            ),
                        ),
                    );
                }
            },
        }
        if sp == p0.len() {
            return Result::Err(
                SerDeError::new(DataType::MessageHeader, SerDeErrorKind::MissingField("topic")),
            );
        }
        let tb = sub_bytes(p0, sp + 1, p0.len());
        proof {
            assert(tb@ =~= take_parts(bytes@)[0].skip(slash_len(p0@) + 1));
        }
        let topic: String;
        match utf8_to_string(tb.as_slice()) {
            Option::None => {
                return Result::Err(
                    SerDeError::new(
                        DataType::MessageHeader,
                        SerDeErrorKind::FromUtf8Error("topic"),
                    ),
                );
            },
            Option::Some(t) => {
                topic = t;
            },
        }
        if parts.len() < 2 {
            return Result::Err(
                SerDeError::new(DataType::MessageHeader, SerDeErrorKind::MissingField("version")),
            );
        }
        let p1 = &parts[1];
        proof {
            assert(p1@ == take_parts(bytes@)[1]);
        }
        match utf8_to_string(p1.as_slice()) {
            Option::None => {
                return Result::Err(
                    SerDeError::new(
                        DataType::MessageHeader,
                        SerDeErrorKind::FromUtf8Error("version"),
                    ),
                );
            },
            Option::Some(_) => {},
        }
        let version: u8;
        match parse_u8(p1.as_slice()) {
            Result::Err(pe) => {
                return Result::Err(
                    SerDeError::new(
                        DataType::MessageHeader,
                        SerDeErrorKind::InvalidVersionNumber(pe),
                    ),
                );
            },
            Result::Ok(v) => {
                version = v;
            },
        }
        if parts.len() < 3 {
            return Result::Err(
                SerDeError::new(
                    DataType::MessageHeader,
                    SerDeErrorKind::MissingField("encoding"),
                ),
            );
        }
        let p2 = &parts[2];
        proof {
            assert(p2@ == take_parts(bytes@)[2]);
        }
        let enc_decoded = utf8_to_string(p2.as_slice());
        let encoding_val: Encoding;
        match enc_decoded {
            Option::None => {
                return Result::Err(
                    SerDeError::new(
                        DataType::MessageHeader,
                        SerDeErrorKind::FromUtf8Error("encoding"),
                    ),
                );
            },
            Option::Some(enc_name) => {
                if bytes_eq(p2.as_slice(), "capnp".as_bytes()) {
                    encoding_val = Encoding::Capnp;
                } else if bytes_eq(p2.as_slice(), "plain".as_bytes()) {
                    encoding_val = Encoding::Plain;
                } else {
                    return Result::Err(
                        SerDeError::new(
                            DataType::MessageHeader,
                            SerDeErrorKind::UnknownEncodingError(
                                UnknownEncodingError::new(enc_name),
                            ),
                        ),
                    );
                }
            },
        }
        Result::Ok(MessageHeader { data_type, topic, version, encoding: encoding_val })
    }
}


/// Whether no character of `chars` has code `b`.
pub open spec fn chars_free_of(chars: Seq<char>, b: u8) -> bool {
    forall|i: int| 0 <= i < chars.len() ==> (#[trigger] chars[i]) as u32 != b as u32
}

/// Whether no byte of `s` equals `b`.
pub open spec fn bytes_free_of(s: Seq<u8>, b: u8) -> bool {
    forall|i: int| 0 <= i < s.len() ==> (#[trigger] s[i]) != b
}

proof fn bv_and_7f_id(b: u8)
    by (bit_vector)
    requires
        b <= 0x7f,
    ensures
        b & 0x7f == b,
{
}

proof fn bv_width1_ne(s: u32, b: u8)
    by (bit_vector)
    requires
        s < 0x80,
        s != b as u32,
    ensures
        ((s & 0x7F) as u8) != b,
{
}

proof fn bv_w2_ne(s: u32, b: u8)
    by (bit_vector)
    requires
        b < 0x80,
    ensures
        (0xC0 | ((s >> 6) & 0x1F) as u8) != b,
        (0x80 | (s & 0x3F) as u8) != b,
{
}

proof fn bv_w3_ne(s: u32, b: u8)
    by (bit_vector)
    requires
        b < 0x80,
    ensures
        (0xE0 | ((s >> 12) & 0x0F) as u8) != b,
        (0x80 | ((s >> 6) & 0x3F) as u8) != b,
        (0x80 | (s & 0x3F) as u8) != b,
{
}

proof fn bv_w4_ne(s: u32, b: u8)
    by (bit_vector)
    requires
        b < 0x80,
    ensures
        (0xF0 | ((s >> 18) & 0x7) as u8) != b,
        (0x80 | ((s >> 12) & 0x3F) as u8) != b,
        (0x80 | ((s >> 6) & 0x3F) as u8) != b,
        (0x80 | (s & 0x3F) as u8) != b,
{
}

/// No byte of the encoding of a character equals an ASCII byte whose code
/// the character does not have: a one-byte encoding is the code itself, and
/// every byte of a longer encoding has its high bit set.
proof fn lemma_encode_scalar_free_of(c: char, b: u8)
    requires
        b < 0x80,
        c as u32 != b as u32,
    ensures
        bytes_free_of(encode_scalar(c as u32), b),
{
    vstd::utf8::char_is_scalar(c);
    let s = c as u32;
    if vstd::utf8::has_width_1_encoding(s) {
        bv_width1_ne(s, b);
    } else if vstd::utf8::has_width_2_encoding(s) {
        bv_w2_ne(s, b);
    } else if vstd::utf8::has_width_3_encoding(s) {
        bv_w3_ne(s, b);
    } else {
        bv_w4_ne(s, b);
    }
}

/// The encoding of characters free of an ASCII code is free of that byte.
proof fn lemma_encode_utf8_free_of(chars: Seq<char>, b: u8)
    requires
        b < 0x80,
        chars_free_of(chars, b),
    ensures
        bytes_free_of(encode_utf8(chars), b),
    decreases chars.len(),
{
    if chars.len() == 0 {
    } else {
        lemma_encode_scalar_free_of(chars[0], b);
        assert(chars_free_of(chars.drop_first(), b)) by {
            assert(forall|i: int|
                0 <= i < chars.drop_first().len() ==> #[trigger] chars.drop_first()[i] == chars[i
                    + 1]);
        }
        lemma_encode_utf8_free_of(chars.drop_first(), b);
        let head = encode_scalar(chars[0] as u32);
        let tail = encode_utf8(chars.drop_first());
        assert forall|j: int| 0 <= j < encode_utf8(chars).len() implies (#[trigger] encode_utf8(
            chars,
        )[j]) != b by {
            if j < head.len() {
                assert(encode_utf8(chars)[j] == head[j]);
            } else {
                assert(encode_utf8(chars)[j] == tail[j - head.len()]);
            }
        }
    }
}

/// The encoding of a non-empty character sequence is non-empty.
proof fn lemma_encode_nonempty(chars: Seq<char>)
    requires
        chars.len() > 0,
    ensures
        encode_utf8(chars).len() > 0,
{
    vstd::utf8::char_is_scalar(chars[0]);
}

/// Bytes below 0x80 are a valid UTF-8 encoding (of themselves).
proof fn lemma_ascii_bytes_valid(bytes: Seq<u8>)
    requires
        forall|i: int| 0 <= i < bytes.len() ==> (#[trigger] bytes[i]) < 0x80,
    ensures
        valid_utf8(bytes),
    decreases bytes.len(),
{
    if bytes.len() == 0 {
    } else {
        bv_and_7f_id(bytes[0]);
        assert(vstd::utf8::is_leading_byte_width_1(bytes[0]));
        assert(vstd::utf8::decode_first_codepoint(bytes) == bytes[0] as u32);
        assert(vstd::utf8::valid_first_scalar(bytes));
        assert(vstd::utf8::length_of_first_scalar(bytes) == 1);
        assert(vstd::utf8::pop_first_scalar(bytes) =~= bytes.drop_first());
        assert(forall|i: int|
            0 <= i < bytes.drop_first().len() ==> #[trigger] bytes.drop_first()[i] == bytes[i + 1]);
        lemma_ascii_bytes_valid(bytes.drop_first());
    }
}

/// Distinct characters have distinct codes.
proof fn lemma_char_ne_u32(c: char, d: char)
    requires
        c != d,
    ensures
        c as u32 != d as u32,
{
    if c as u32 == d as u32 {
        vstd::utf8::char_u32_cast(c, c as u32);
        vstd::utf8::char_u32_cast(d, d as u32);
    }
}

/// The leading newline-free run of a newline-free prefix followed by a
/// newline reaches exactly that prefix.
proof fn lemma_seg_len_prefix(a: Seq<u8>, b: Seq<u8>)
    requires
        bytes_free_of(a, NEWLINE),
        b.len() > 0,
        b[0] == NEWLINE,
    ensures
        seg_len(a + b) == a.len(),
    decreases a.len(),
{
    if a.len() == 0 {
        assert(a + b =~= b);
    } else {
        assert((a + b)[0] == a[0]);
        assert((a + b).drop_first() =~= a.drop_first() + b);
        assert(bytes_free_of(a.drop_first(), NEWLINE)) by {
            assert(forall|i: int|
                0 <= i < a.drop_first().len() ==> #[trigger] a.drop_first()[i] == a[i + 1]);
        }
        lemma_seg_len_prefix(a.drop_first(), b);
    }
}

/// The slash analogue of `lemma_seg_len_prefix`.
proof fn lemma_slash_len_prefix(a: Seq<u8>, b: Seq<u8>)
    requires
        bytes_free_of(a, SLASH),
        b.len() > 0,
        b[0] == SLASH,
    ensures
        slash_len(a + b) == a.len(),
    decreases a.len(),
{
    if a.len() == 0 {
        assert(a + b =~= b);
    } else {
        assert((a + b)[0] == a[0]);
        assert((a + b).drop_first() =~= a.drop_first() + b);
        assert(bytes_free_of(a.drop_first(), SLASH)) by {
            assert(forall|i: int|
                0 <= i < a.drop_first().len() ==> #[trigger] a.drop_first()[i] == a[i + 1]);
        }
        lemma_slash_len_prefix(a.drop_first(), b);
    }
}

/// Splitting peels one newline-free part off the front.
proof fn lemma_take_parts_step(a: Seq<u8>, b: Seq<u8>)
    requires
        a.len() > 0,
        bytes_free_of(a, NEWLINE),
        b.len() > 0,
        b[0] == NEWLINE,
    ensures
        take_parts(a + b) =~= seq![a] + take_parts(b.drop_first()),
    decreases a.len(),
{
    lemma_seg_len_prefix(a, b);
    let s = a + b;
    assert(s[0] == a[0]);
    assert(s.take(a.len() as int) =~= a);
    assert(s.skip(a.len() as int + 1) =~= b.drop_first());
}

/// The decimal bytes of a version: non-empty digits that parse back to it.
proof fn lemma_dec_bytes_facts(v: u8)
    ensures
        dec_bytes(v).len() > 0,
        forall|j: int| 0 <= j < dec_bytes(v).len() ==> is_digit(#[trigger] dec_bytes(v)[j]),
        valid_utf8(dec_bytes(v)),
        parse_u8_spec(dec_bytes(v)) == Result::<u8, NumberParseError>::Ok(v),
{
    let s = dec_bytes(v);
    reveal_with_fuel(digits_val, 4);
    lemma_fundamental_div_mod(v as int, 10);
    vstd::arithmetic::div_mod::lemma_mod_bound(v as int, 10);
    vstd::arithmetic::div_mod::lemma_mod_bound(v as int / 10, 10);
    lemma_div_is_ordered(v as int, 255, 10);
    lemma_div_is_ordered(v as int, 255, 100);
    if v >= 100 {
        lemma_div_is_ordered(100, v as int, 100);
        vstd::arithmetic::div_mod::lemma_div_denominator(v as int, 10, 10);
        lemma_fundamental_div_mod(v as int / 10, 10);
    }
    if 10 <= v < 100 {
        lemma_div_is_ordered(10, v as int, 10);
        lemma_div_is_ordered(v as int, 99, 10);
    }
    assert(forall|j: int| 0 <= j < s.len() ==> is_digit(#[trigger] s[j]));
    lemma_ascii_bytes_valid(s);
    // The digits parse back: no sign, all digits, and the value re-assembles.
    assert(parse_body(s) == s);
    assert(all_digits(s));
    if v < 10 {
        assert(s =~= seq![(v + 48) as u8]);
        assert(s.drop_last() =~= Seq::<u8>::empty());
        assert(digits_val(s) == v);
    } else if v < 100 {
        let hi = seq![(v / 10 + 48) as u8];
        assert(s.drop_last() =~= hi);
        assert(hi.drop_last() =~= Seq::<u8>::empty());
        assert(digits_val(hi) == v as int / 10);
        assert(digits_val(s) == (v as int / 10) * 10 + (v as int % 10));
        assert(digits_val(s) == v);
    } else {
        let two = seq![(v / 100 + 48) as u8, ((v / 10) % 10 + 48) as u8];
        let one = seq![(v / 100 + 48) as u8];
        assert(s.drop_last() =~= two);
        assert(two.drop_last() =~= one);
        assert(one.drop_last() =~= Seq::<u8>::empty());
        assert(digits_val(one) == v as int / 100);
        assert(v as int / 100 == (v as int / 10) / 10);
        assert(digits_val(two) == (v as int / 100) * 10 + ((v as int / 10) % 10));
        assert(digits_val(two) == v as int / 10);
        assert(digits_val(s) == (v as int / 10) * 10 + (v as int % 10));
        assert(digits_val(s) == v);
    }
}

/// The fixed wire tags: non-empty, free of separators, and pairwise
/// distinct.
proof fn lemma_tag_facts()
    ensures
        data_type_tag(DataType::RawDataPoint).len() > 0,
        data_type_tag(DataType::MessageHeader).len() > 0,
        encoding_tag(Encoding::Capnp).len() > 0,
        encoding_tag(Encoding::Plain).len() > 0,
        chars_free_of(data_type_tag(DataType::RawDataPoint), NEWLINE),
        chars_free_of(data_type_tag(DataType::MessageHeader), NEWLINE),
        chars_free_of(data_type_tag(DataType::RawDataPoint), SLASH),
        chars_free_of(data_type_tag(DataType::MessageHeader), SLASH),
        chars_free_of(encoding_tag(Encoding::Capnp), NEWLINE),
        chars_free_of(encoding_tag(Encoding::Plain), NEWLINE),
        data_type_tag(DataType::RawDataPoint) != data_type_tag(DataType::MessageHeader),
        encoding_tag(Encoding::Capnp) != encoding_tag(Encoding::Plain),
{
    reveal_strlit("RawDataPoint");
    reveal_strlit("MessageHeader");
    reveal_strlit("capnp");
    reveal_strlit("plain");
    assert(data_type_tag(DataType::RawDataPoint).len() == 12);
    assert(data_type_tag(DataType::MessageHeader).len() == 13);
    assert(encoding_tag(Encoding::Capnp).len() == 5);
    assert(encoding_tag(Encoding::Plain).len() == 5);
    assert(encoding_tag(Encoding::Capnp)[0] == 'c');
    assert(encoding_tag(Encoding::Plain)[0] == 'p');
}

/// Round trip of the header codec: the bytes of any well-formed header —
/// one whose topic holds no newline — decode back to exactly its fields.
/// The topic may hold slashes; only the first slash of the line separates
/// it from the data type.
pub proof fn lemma_header_round_trip(
    data_type: DataType,
    topic: Seq<char>,
    version: u8,
    encoding: Encoding,
)
    requires
        forall|i: int| 0 <= i < topic.len() ==> (#[trigger] topic[i]) != '\n',
    ensures
        header_parse(header_bytes(data_type, topic, version, encoding)) == HeaderOutcome::Parsed(
            ParsedHeaderV { data_type, topic, version, encoding },
        ),
{
    let dtb = encode_utf8(data_type_tag(data_type));
    let topicb = encode_utf8(topic);
    let decb = dec_bytes(version);
    let encb = encode_utf8(encoding_tag(encoding));
    lemma_tag_facts();
    lemma_dec_bytes_facts(version);
    lemma_encode_nonempty(data_type_tag(data_type));
    lemma_encode_nonempty(encoding_tag(encoding));
    assert(chars_free_of(topic, NEWLINE)) by {
        assert forall|i: int| 0 <= i < topic.len() implies (#[trigger] topic[i]) as u32
            != NEWLINE as u32 by {
            lemma_char_ne_u32(topic[i], '\n');
            assert('\n' as u32 == 10);
        }
    }
    lemma_encode_utf8_free_of(data_type_tag(data_type), NEWLINE);
    lemma_encode_utf8_free_of(data_type_tag(data_type), SLASH);
    lemma_encode_utf8_free_of(topic, NEWLINE);
    lemma_encode_utf8_free_of(encoding_tag(encoding), NEWLINE);
    vstd::utf8::encode_utf8_valid_utf8(data_type_tag(data_type));
    vstd::utf8::encode_utf8_valid_utf8(topic);
    vstd::utf8::encode_utf8_valid_utf8(encoding_tag(encoding));
    vstd::utf8::encode_utf8_decode_utf8(data_type_tag(data_type));
    vstd::utf8::encode_utf8_decode_utf8(topic);
    vstd::utf8::encode_utf8_decode_utf8(encoding_tag(encoding));
    vstd::utf8::encode_utf8_decode_utf8(data_type_tag(DataType::RawDataPoint));
    vstd::utf8::encode_utf8_decode_utf8(data_type_tag(DataType::MessageHeader));
    vstd::utf8::encode_utf8_decode_utf8(encoding_tag(Encoding::Capnp));
    vstd::utf8::encode_utf8_decode_utf8(encoding_tag(Encoding::Plain));
    let bytes = header_bytes(data_type, topic, version, encoding);
    let s1 = dtb + seq![SLASH] + topicb;
    let b1 = seq![NEWLINE] + decb + seq![NEWLINE] + encb + seq![NEWLINE, NEWLINE];
    assert(bytes =~= s1 + b1);
    assert(s1.len() > 0);
    assert(bytes_free_of(s1, NEWLINE)) by {
        assert forall|i: int| 0 <= i < s1.len() implies (#[trigger] s1[i]) != NEWLINE by {
            if i < dtb.len() {
                assert(s1[i] == dtb[i]);
            } else if i == dtb.len() {
                assert(s1[i] == SLASH);
            } else {
                assert(s1[i] == topicb[i - dtb.len() - 1]);
            }
        }
    }
    // The three parts before the terminating empty line.
    lemma_take_parts_step(s1, b1);
    let b2 = b1.drop_first();
    assert(b2 =~= decb + (seq![NEWLINE] + encb + seq![NEWLINE, NEWLINE]));
    lemma_take_parts_step(decb, seq![NEWLINE] + encb + seq![NEWLINE, NEWLINE]);
    let b3 = (seq![NEWLINE] + encb + seq![NEWLINE, NEWLINE]).drop_first();
    assert(b3 =~= encb + seq![NEWLINE, NEWLINE]);
    lemma_take_parts_step(encb, seq![NEWLINE, NEWLINE]);
    let b4 = seq![NEWLINE, NEWLINE].drop_first();
    assert(b4 =~= seq![NEWLINE]);
    assert(take_parts(b4) =~= Seq::<Seq<u8>>::empty());
    let parts = take_parts(bytes);
    assert(parts =~= seq![s1, decb, encb]);
    assert(parts.len() == 3);
    assert(parts[0] == s1 && parts[1] == decb && parts[2] == encb);
    // The first slash of the head line separates data type from topic.
    lemma_slash_len_prefix(dtb, seq![SLASH] + topicb);
    assert(s1 =~= dtb + (seq![SLASH] + topicb));
    assert(slash_len(s1) == dtb.len());
    let sp = slash_len(parts[0]);
    assert(parts[0].take(sp) =~= dtb);
    assert(sp < parts[0].len());
    assert(parts[0].skip(sp + 1) =~= topicb);
    // The data type resolves to itself, the topic decodes back, the version
    // parses back, and the encoding resolves to itself.
    if data_type == DataType::MessageHeader {
        if dtb == encode_utf8(data_type_tag(DataType::RawDataPoint)) {
            assert(data_type_tag(DataType::MessageHeader) == data_type_tag(
                DataType::RawDataPoint,
            ));
        }
    }
    assert(spec_data_type_of(parts[0].take(sp)) == Option::Some(data_type));
    assert(decode_utf8(parts[0].skip(sp + 1)) == topic);
    assert(parse_u8_spec(parts[1]) == Result::<u8, NumberParseError>::Ok(version));
    if encoding == Encoding::Plain {
        if encb == encode_utf8(encoding_tag(Encoding::Capnp)) {
            assert(encoding_tag(Encoding::Plain) == encoding_tag(Encoding::Capnp));
        }
    }
    assert(spec_encoding_of(parts[2]) == Option::Some(encoding));
}

} // verus!
