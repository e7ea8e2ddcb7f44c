use dms_agent::data_point_message;
use dms_agent::decode_raw_data_point;
use dms_agent::encode_raw_data_point;
use dms_agent::DataValue;
use dms_agent::RawDataPoint;
use dms_agent::Timestamp;

fn point(value: DataValue) -> RawDataPoint {
    RawDataPoint {
        location: "myserver".to_string(),
        path: "cpu/usage".to_string(),
        component: "iowait".to_string(),
        timestamp: Timestamp { secs: 1_444_000_123, nanos: 555_000_111 },
        value,
    }
}

#[test]
fn body_round_trips_a_float_point() {
    let p = point(DataValue::Float(0.2f64.to_bits()));
    let body = encode_raw_data_point(&p);
    let back = decode_raw_data_point(&body).unwrap();
    assert_eq!(back, p);
}

#[test]
fn body_round_trips_an_integer_point() {
    let p = point(DataValue::Integer(-42));
    let back = decode_raw_data_point(&encode_raw_data_point(&p)).unwrap();
    assert_eq!(back, p);
}

#[test]
fn body_round_trips_a_bool_point() {
    let p = point(DataValue::Bool(true));
    let back = decode_raw_data_point(&encode_raw_data_point(&p)).unwrap();
    assert_eq!(back, p);
}

#[test]
fn body_round_trips_a_text_point() {
    let p = point(DataValue::Text("über-Maß".to_string()));
    let back = decode_raw_data_point(&encode_raw_data_point(&p)).unwrap();
    assert_eq!(back, p);
}

#[test]
fn body_round_trips_empty_texts_and_negative_seconds() {
    let p = RawDataPoint {
        location: "".to_string(),
        path: "".to_string(),
        component: "".to_string(),
        timestamp: Timestamp { secs: -1, nanos: 0 },
        value: DataValue::Text("".to_string()),
    };
    let back = decode_raw_data_point(&encode_raw_data_point(&p)).unwrap();
    assert_eq!(back, p);
}

#[test]
fn malformed_bodies_are_rejected() {
    let empty: Vec<u8> = Vec::new();
    let r = decode_raw_data_point(&empty);
    assert!(r.is_err());
    assert_eq!(
        r.unwrap_err().message(),
        "failed to deserializae message for type RawDataPoint: malformed packed message body"
    );

    let garbage: Vec<u8> = vec![1, 2, 3];
    assert!(decode_raw_data_point(&garbage).is_err());

    // A sound packed stream that is not a data-point message.
    let p = point(DataValue::Bool(false));
    let mut truncated = encode_raw_data_point(&p);
    truncated.pop();
    assert!(decode_raw_data_point(&truncated).is_err());
}

#[test]
fn framed_message_carries_header_then_packed_body() {
    let p = point(DataValue::Float(0.2f64.to_bits()));
    let body = encode_raw_data_point(&p);
    let framed = data_point_message(&body);
    let prefix = "RawDataPoint/\n0\ncapnp\n\n".to_string().into_bytes();
    assert!(framed.starts_with(&prefix));
    let carried = framed[prefix.len()..].to_vec();
    assert_eq!(decode_raw_data_point(&carried).unwrap(), p);
}
