//! Cooperative monitoring runtime: a cadence scheduler that interleaves
//! periodic probe runs in quantized time buckets, a probe dispatcher with
//! overrun/gone accounting, and a framed typed-message codec used to push
//! measurements to a downstream processor.

mod body;
mod collector;
mod header;
mod hello_world;
mod messaging;
mod probe;
mod program;
mod scheduler;
mod sender;
mod serde;
mod timer;

pub use crate::scheduler::cadence_fire;
pub use crate::probe::clamp64;
pub use crate::probe::chain_overruns;
pub use crate::probe::honored;
pub use crate::probe::overrun_chain;
pub use crate::probe::plan_filed;
pub use crate::probe::resolved_of;
pub use crate::scheduler::after_commit;
pub use crate::scheduler::all_perpetual;
pub use crate::scheduler::batch_of;
pub use crate::scheduler::bucket_present;
pub use crate::scheduler::entry_ok;
pub use crate::scheduler::fire_at;
pub use crate::scheduler::group_at;
pub use crate::scheduler::insert_pos;
pub use crate::scheduler::insert_sorted;
pub use crate::scheduler::inv_v;
pub use crate::scheduler::is_initial_fire;
pub use crate::scheduler::no_reachable_fire;
pub use crate::scheduler::refile_entry;
pub use crate::scheduler::refiled_of;
pub use crate::scheduler::inserted_all;
pub use crate::scheduler::retained;
pub use crate::scheduler::run_len;
pub use crate::scheduler::sat_add_spec;
pub use crate::scheduler::tokens_of;
pub use crate::scheduler::exact_observation;
pub use crate::scheduler::token_filed;
pub use crate::body::MAX_TEXT_BYTES;
pub use crate::body::decode_raw_data_point;
pub use crate::body::encodable;
pub use crate::body::lemma_point_round_trip;
pub use crate::body::packed_point_parse;
pub use crate::body::parse_unpacked;
pub use crate::body::pack;
pub use crate::body::unpack;
pub use crate::body::encode_raw_data_point;
pub use crate::body::packed_point_bytes;
pub use crate::body::unpacked_point_bytes;
pub use crate::body::lemma_unpack_pack;
pub use crate::body::read_text;
pub use crate::body::read_value;
pub use crate::collector::Collect;
pub use crate::collector::Collector;
pub use crate::messaging::data_point_message;
pub use crate::serde::DataType;
pub use crate::messaging::DataValue;
pub use crate::messaging::DataValueV;
pub use crate::messaging::RawDataPointV;
pub use crate::scheduler::Decision;
pub use crate::serde::DeserializationDirection;
pub use crate::serde::DeserializationError;
pub use crate::serde::Encoding;
pub use crate::timer::FakeTimeSource;
pub use crate::messaging::frame_message;
pub use crate::header::header_bytes;
pub use crate::header::header_parse;
pub use crate::header::HeaderOutcome;
pub use crate::hello_world::HelloWorldModule;
pub use crate::hello_world::HelloWorldProbe;
pub use crate::hello_world::init;
pub use crate::scheduler::lemma_cadence_window;
pub use crate::scheduler::lemma_refile_keeps_cadence;
pub use crate::header::lemma_header_round_trip;
pub use crate::scheduler::lemma_width_cadence_consecutive;
pub use crate::messaging::make_data_point;
pub use crate::program::map_signal;
pub use crate::header::MessageHeader;
pub use crate::probe::Module;
pub use crate::serde::NumberParseError;
pub use crate::program::OsSignal;
pub use crate::header::parse_u8;
pub use crate::header::ParsedHeaderV;
pub use crate::probe::Probe;
pub use crate::probe::ProbeRunMode;
pub use crate::probe::ProbeRunPlan;
pub use crate::probe::ProbeSchedule;
pub use crate::probe::ProbeScheduler;
pub use crate::messaging::RawDataPoint;
pub use crate::timer::RealTimeSource;
pub use crate::scheduler::RunAction;
pub use crate::scheduler::RunGroup;
pub use crate::probe::RunMode;
pub use crate::probe::Schedule;
pub use crate::scheduler::ScheduleEntry;
pub use crate::sender::SenderError;
pub use crate::sender::TransportErrorKind;
pub use crate::sender::classify_spec;
pub use crate::sender::classify_transport_error;
pub use crate::scheduler::Scheduler;
pub use crate::scheduler::SchedulerRunError;
pub use crate::scheduler::SchedulerV;
pub use crate::serde::SerDeDirection;
pub use crate::serde::SerDeError;
pub use crate::serde::SerDeErrorKind;
pub use crate::serde::SerializationDirection;
pub use crate::serde::SerializationError;
pub use crate::probe::SharedThreadProbeExecutor;
pub use crate::probe::SharedThreadProbeRunner;
pub use crate::program::Signal;
pub use crate::timer::split_millis;
pub use crate::timer::TimeSource;
pub use crate::messaging::Timestamp;
pub use crate::messaging::timestamp_ok;
pub use crate::serde::UnknownDataTypeError;
pub use crate::serde::UnknownEncodingError;
