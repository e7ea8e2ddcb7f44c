//! A small built-in module with one probe that greets on each run: the
//! first module a fresh deployment registers, useful to exercise the whole
//! pipeline.

use vstd::prelude::*;
use crate::collector::Collect;
use crate::collector::Collector;
use crate::messaging::DataValue;
use crate::messaging::DataValueV;
use crate::messaging::RawDataPointV;
use crate::probe::Module;
use crate::probe::Probe;
use crate::probe::ProbeRunMode;
use crate::probe::ProbeSchedule;

verus! {

/// Emits one text and one integer measurement per run.
pub struct HelloWorldProbe;

/// Schedules the hello-world probe once a second.
pub struct HelloWorldModule;

impl HelloWorldProbe {
    /// Runs the probe against the channel collector. This contracted form
    /// states the probe's exact work: it emits its greeting text and its
    /// integer, in that order, and succeeds.
    pub fn emit(&self, collector: &mut Collector) -> (r: Result<(), String>)
        ensures
            r is Ok,
            final(collector).timestamp_spec() == old(collector).timestamp_spec(),
            (final(collector).emitted() =~= old(collector).emitted().push(
                RawDataPointV {
                    location: "hello"@,
                    path: "foo"@,
                    component: "c1"@,
                    timestamp: old(collector).timestamp_spec(),
                    value: DataValueV::Text("blah"@),
                },
            ).push(
                RawDataPointV {
                    location: "world"@,
                    path: "bar"@,
                    component: "c2"@,
                    timestamp: old(collector).timestamp_spec(),
                    value: DataValueV::Integer(42),
                },
            )),
    {
        collector.collect("hello", "foo", "c1", DataValue::Text("blah".to_owned()));
        collector.collect("world", "bar", "c2", DataValue::Integer(42));
        Result::Ok(())
    }
}

impl<C: Collect> Probe<C> for HelloWorldProbe {
    fn name(&self) -> String {
        "hello world probe".to_owned()
    }

    fn run(&self, collector: &mut C) -> Result<(), String> {
        collector.collect("hello", "foo", "c1", DataValue::Text("blah".to_owned()));
        collector.collect("world", "bar", "c2", DataValue::Integer(42));
        Result::Ok(())
    }

    fn run_mode(&self) -> ProbeRunMode {
        ProbeRunMode::SharedThread
    }
}

impl HelloWorldModule {
    /// The module's plan list: its one probe, once a second.
    pub fn plans(&self) -> (r: Vec<ProbeSchedule<HelloWorldProbe>>)
        ensures
            r@.len() == 1,
            r@[0].every == 1000,
            r@[0].probe == HelloWorldProbe,
    {
        let mut plans: Vec<ProbeSchedule<HelloWorldProbe>> = Vec::new();
        plans.push(ProbeSchedule { every: 1000, probe: HelloWorldProbe });
        plans
    }
}

impl Module<HelloWorldProbe> for HelloWorldModule {
    fn name(&self) -> String {
        "hello world module".to_owned()
    }

    fn schedule(&self) -> Vec<ProbeSchedule<HelloWorldProbe>> {
        self.plans()
    }
}

/// The hello-world module, ready to register.
pub fn init() -> HelloWorldModule {
    HelloWorldModule
}

} // verus!
