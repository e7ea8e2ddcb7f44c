use std::sync::mpsc::sync_channel;

use dms_agent::Collect;
use dms_agent::Collector;
use dms_agent::DataType;
use dms_agent::DataValue;
use dms_agent::Encoding;
use dms_agent::HelloWorldModule;
use dms_agent::MessageHeader;
use dms_agent::Module;
use dms_agent::OsSignal;
use dms_agent::Probe;
use dms_agent::RawDataPoint;
use dms_agent::SenderError;
use dms_agent::Signal;
use dms_agent::TransportErrorKind;
use dms_agent::classify_transport_error;
use dms_agent::Timestamp;
use dms_agent::data_point_message;
use dms_agent::frame_message;
use dms_agent::init;
use dms_agent::make_data_point;
use dms_agent::map_signal;
use dms_agent::split_millis;

#[test]
fn collector_stamps_and_delivers_data_points() {
    let (tx, rx) = sync_channel::<RawDataPoint>(1000);
    let mut collector = Collector::new(tx);

    collector.collect("myserver", "os/cpu/usage", "user", DataValue::Float(0.4f64.to_bits()));
    collector.collect("foobar", "os/cpu/sys", "user", DataValue::Integer(7));

    let first = rx.recv().unwrap();
    assert_eq!(first.location, "myserver");
    assert_eq!(first.path, "os/cpu/usage");
    assert_eq!(first.component, "user");
    assert_eq!(first.value, DataValue::Float(0.4f64.to_bits()));

    let second = rx.recv().unwrap();
    assert_eq!(second.location, "foobar");
    assert_eq!(second.value, DataValue::Integer(7));

    // Both emissions of one collector share its creation stamp.
    assert_eq!(first.timestamp, second.timestamp);
    assert_eq!(first.timestamp, collector.timestamp());
}

#[test]
fn data_point_message_starts_with_the_standard_header() {
    let body = vec![1u8, 2, 3, 4];
    let framed = data_point_message(&body);
    let prefix = "RawDataPoint/\n0\ncapnp\n\n".to_string().into_bytes();
    assert!(framed.starts_with(&prefix));
    assert_eq!(&framed[prefix.len()..], &body[..]);
}

#[test]
fn frame_message_concatenates_header_and_body() {
    let header = MessageHeader {
        data_type: DataType::RawDataPoint,
        topic: "hello".to_string(),
        version: 0,
        encoding: Encoding::Capnp,
    };
    let body = vec![9u8, 8, 7];
    let framed = frame_message(&header, &body);
    let mut expected = "RawDataPoint/hello\n0\ncapnp\n\n".to_string().into_bytes();
    expected.extend_from_slice(&body);
    assert_eq!(framed, expected);
}

#[test]
fn make_data_point_copies_all_fields() {
    let ts = Timestamp { secs: 1_000_000, nanos: 42 };
    let p = make_data_point("loc", "pa", "co", ts, DataValue::Bool(true));
    assert_eq!(p.location, "loc");
    assert_eq!(p.path, "pa");
    assert_eq!(p.component, "co");
    assert_eq!(p.timestamp, ts);
    assert_eq!(p.value, DataValue::Bool(true));
}

#[test]
fn signals_map_to_the_default_control_policy() {
    assert_eq!(map_signal(OsSignal::Interrupt), Signal::Shutdown);
    assert_eq!(map_signal(OsSignal::Terminate), Signal::Shutdown);
    assert_eq!(map_signal(OsSignal::HangUp), Signal::Reload);
}

#[test]
fn split_millis_gives_seconds_and_nanoseconds() {
    assert_eq!(split_millis(0), (0, 0));
    assert_eq!(split_millis(999), (0, 999_000_000));
    assert_eq!(split_millis(1000), (1, 0));
    assert_eq!(split_millis(10_250), (10, 250_000_000));
}

struct VecCollector {
    values: Vec<(String, String, String, DataValue)>,
}

impl Collect for VecCollector {
    fn collect(&mut self, location: &str, path: &str, component: &str, value: DataValue) {
        self.values.push((location.to_string(), path.to_string(), component.to_string(), value));
    }
}

#[test]
fn hello_world_module_schedules_its_probe_once_a_second() {
    let module: HelloWorldModule = init();
    let plans = module.schedule();
    assert_eq!(plans.len(), 1);
    assert_eq!(plans[0].every, 1000);

    let mut collector = VecCollector { values: Vec::new() };
    plans[0].probe.run(&mut collector).unwrap();
    assert_eq!(collector.values.len(), 2);
    assert_eq!(
        collector.values[0],
        ("hello".to_string(), "foo".to_string(), "c1".to_string(), DataValue::Text("blah".to_string()))
    );
    assert_eq!(
        collector.values[1],
        ("world".to_string(), "bar".to_string(), "c2".to_string(), DataValue::Integer(42))
    );
}

#[test]
fn transport_errors_classify_per_policy() {
    assert_eq!(
        classify_transport_error(TransportErrorKind::ProtocolNotSupported),
        SenderError::Configuration(TransportErrorKind::ProtocolNotSupported)
    );
    assert_eq!(
        classify_transport_error(TransportErrorKind::AddressFamilyNotSupported),
        SenderError::Configuration(TransportErrorKind::AddressFamilyNotSupported)
    );
    assert_eq!(
        classify_transport_error(TransportErrorKind::ConnectionRefused),
        SenderError::Connection(TransportErrorKind::ConnectionRefused)
    );
    assert_eq!(
        classify_transport_error(TransportErrorKind::TimedOut),
        SenderError::Connection(TransportErrorKind::TimedOut)
    );
    assert_eq!(
        classify_transport_error(TransportErrorKind::Other),
        SenderError::Transport(TransportErrorKind::Other)
    );
    assert_eq!(
        classify_transport_error(TransportErrorKind::ProtocolNotSupported).description(),
        "Sender configuration error"
    );
    assert_eq!(
        classify_transport_error(TransportErrorKind::TimedOut).description(),
        "Processor connecitivity issue"
    );
    assert_eq!(
        classify_transport_error(TransportErrorKind::Other).description(),
        "Transport error"
    );
}

#[test]
fn hello_world_plans_list_the_probe_once_a_second() {
    let module: HelloWorldModule = init();
    let plans = module.plans();
    assert_eq!(plans.len(), 1);
    assert_eq!(plans[0].every, 1000);
}
