use dms_agent::DataType;
use dms_agent::Encoding;
use dms_agent::MessageHeader;
use dms_agent::NumberParseError;
use dms_agent::parse_u8;

fn assert_error_message(result: Result<MessageHeader, dms_agent::DeserializationError>, msg: &str) {
    assert!(result.is_err());
    let err = result.unwrap_err();
    assert_eq!(err.message(), msg);
}

#[test]
fn should_be_serializable() {
    let header = MessageHeader {
        data_type: DataType::RawDataPoint,
        topic: "hello".to_string(),
        version: 42,
        encoding: Encoding::Capnp,
    };

    let bytes = header.to_bytes(Encoding::Plain).unwrap();
    assert_eq!(bytes, "RawDataPoint/hello\n42\ncapnp\n\n".to_string().into_bytes());
}

#[test]
fn should_deserialize_correctly_formated_message_header() {
    let bytes = "RawDataPoint/hello\n42\ncapnp\n\n".to_string().into_bytes();

    let header = MessageHeader::from_bytes(&bytes, Encoding::Plain).unwrap();
    assert_eq!(header.data_type, DataType::RawDataPoint);
    assert_eq!(header.topic, "hello".to_string());
    assert_eq!(header.version, 42);
    assert_eq!(header.encoding, Encoding::Capnp);
}

#[test]
fn should_deserialize_message_with_empty_topic() {
    let bytes = "RawDataPoint/\n42\ncapnp\n\n".to_string().into_bytes();

    let header = MessageHeader::from_bytes(&bytes, Encoding::Plain).unwrap();
    assert_eq!(header.data_type, DataType::RawDataPoint);
    assert_eq!(header.topic, "".to_string());
    assert_eq!(header.version, 42);
    assert_eq!(header.encoding, Encoding::Capnp);
}

#[test]
fn should_deserialize_message_with_extra_sections() {
    let bytes = "RawDataPoint/\n42\ncapnp\nblah\n\n".to_string().into_bytes();

    let header = MessageHeader::from_bytes(&bytes, Encoding::Plain).unwrap();
    assert_eq!(header.data_type, DataType::RawDataPoint);
    assert_eq!(header.topic, "".to_string());
    assert_eq!(header.version, 42);
    assert_eq!(header.encoding, Encoding::Capnp);
}

#[test]
fn should_provide_error_when_not_enought_header_sections_are_provided() {
    {
        let bytes = "RawDataPoint/hello\n42\n\n".to_string().into_bytes();
        let result = MessageHeader::from_bytes(&bytes, Encoding::Plain);
        assert_error_message(
            result,
            "failed to deserializae message for type MessageHeader: no encoding found in message header",
        );
    }
    {
        let bytes = "RawDataPoint/hello\n\n".to_string().into_bytes();
        let result = MessageHeader::from_bytes(&bytes, Encoding::Plain);
        assert_error_message(
            result,
            "failed to deserializae message for type MessageHeader: no version found in message header",
        );
    }
    {
        let bytes = "RawDataPoint\n\n".to_string().into_bytes();
        let result = MessageHeader::from_bytes(&bytes, Encoding::Plain);
        assert_error_message(
            result,
            "failed to deserializae message for type MessageHeader: no topic found in message header",
        );
    }
    {
        let bytes = "\n\n".to_string().into_bytes();
        let result = MessageHeader::from_bytes(&bytes, Encoding::Plain);
        assert_error_message(
            result,
            "failed to deserializae message for type MessageHeader: no data type/topic found in message header",
        );
    }
}

#[test]
fn should_provide_error_when_version_is_not_a_positive_integer() {
    {
        let bytes = "RawDataPoint/hello\n-1\ncapnp\n\n".to_string().into_bytes();
        let result = MessageHeader::from_bytes(&bytes, Encoding::Plain);
        assert_error_message(
            result,
            "failed to deserializae message for type MessageHeader: message version is not u8 number: invalid digit found in string",
        );
    }
    {
        let bytes = "RawDataPoint/hello\n300\ncapnp\n\n".to_string().into_bytes();
        let result = MessageHeader::from_bytes(&bytes, Encoding::Plain);
        assert_error_message(
            result,
            "failed to deserializae message for type MessageHeader: message version is not u8 number: number too large to fit in target type",
        );
    }
}

#[test]
fn should_provide_error_when_unknown_encoding_was_found_in_the_message() {
    let bytes = "RawDataPoint/hello\n42\ncapn planet\n\n".to_string().into_bytes();
    let result = MessageHeader::from_bytes(&bytes, Encoding::Plain);
    assert_error_message(
        result,
        "failed to deserializae message for type MessageHeader: unknown encoding: capn planet",
    );
}

#[test]
fn header_round_trip_with_slash_in_topic() {
    let header = MessageHeader {
        data_type: DataType::MessageHeader,
        topic: "routing/key".to_string(),
        version: 255,
        encoding: Encoding::Plain,
    };
    let bytes = header.to_bytes(Encoding::Plain).unwrap();
    let back = MessageHeader::from_bytes(&bytes, Encoding::Plain).unwrap();
    assert_eq!(back, header);
}

#[test]
fn header_capnp_encoding_is_not_implemented() {
    let header = MessageHeader {
        data_type: DataType::RawDataPoint,
        topic: "t".to_string(),
        version: 1,
        encoding: Encoding::Capnp,
    };
    let result = header.to_bytes(Encoding::Capnp);
    assert!(result.is_err());
    assert_eq!(
        result.unwrap_err().message(),
        "failed to serialize message for type MessageHeader: encoding 'capnp' not implemented"
    );
}

#[test]
fn version_parses_as_unsigned_decimal() {
    assert_eq!(parse_u8(b"0"), Ok(0));
    assert_eq!(parse_u8(b"255"), Ok(255));
    assert_eq!(parse_u8(b"+42"), Ok(42));
    assert_eq!(parse_u8(b"007"), Ok(7));
    assert_eq!(parse_u8(b""), Err(NumberParseError::Empty));
    assert_eq!(parse_u8(b"+"), Err(NumberParseError::InvalidDigit));
    assert_eq!(parse_u8(b"4x2"), Err(NumberParseError::InvalidDigit));
    assert_eq!(parse_u8(b"256"), Err(NumberParseError::TooLarge));
}
