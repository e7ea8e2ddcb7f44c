use dms_agent::Collect;
use dms_agent::DataValue;
use dms_agent::FakeTimeSource;
use dms_agent::Module;
use dms_agent::Probe;
use dms_agent::ProbeRunMode;
use dms_agent::ProbeSchedule;
use dms_agent::ProbeScheduler;
use dms_agent::Schedule;
use dms_agent::SharedThreadProbeExecutor;
use dms_agent::SharedThreadProbeRunner;

#[derive(Clone)]
struct StubProbe {
    name: String,
}

impl StubProbe {
    fn new(name: &str) -> StubProbe {
        StubProbe { name: name.to_string() }
    }
}

impl Probe<StubCollector> for StubProbe {
    fn name(&self) -> String {
        self.name.clone()
    }

    fn run(&self, collector: &mut StubCollector) -> Result<(), String> {
        collector.collect("foo", &self.name, "c1", DataValue::Text(format!("{}-{}", self.name, "c1")));
        collector.collect("bar", &self.name, "c2", DataValue::Text(format!("{}-{}", self.name, "c2")));
        Ok(())
    }

    fn run_mode(&self) -> ProbeRunMode {
        ProbeRunMode::SharedThread
    }
}

struct StubModule {
    name: String,
    schedule: Vec<ProbeSchedule<StubProbe>>,
}

impl StubModule {
    fn new(name: &str) -> StubModule {
        StubModule { name: name.to_string(), schedule: Vec::new() }
    }

    fn add_schedule(&mut self, every: u64, probe: StubProbe) {
        self.schedule.push(ProbeSchedule { every, probe });
    }
}

impl Module<StubProbe> for StubModule {
    fn name(&self) -> String {
        self.name.clone()
    }

    fn schedule(&self) -> Vec<ProbeSchedule<StubProbe>> {
        self.schedule.clone()
    }
}

struct StubCollector {
    pub values: Vec<DataValue>,
}

impl Collect for StubCollector {
    fn collect(&mut self, _location: &str, _path: &str, _component: &str, value: DataValue) {
        self.values.push(value);
    }
}

impl StubCollector {
    fn text_values(self) -> Vec<String> {
        self.values
            .into_iter()
            .map(|v| if let DataValue::Text(c) = v { c } else { "none".to_string() })
            .collect()
    }
}

fn run_batch(
    ps: &mut ProbeScheduler<StubProbe, FakeTimeSource>,
    collector: &mut StubCollector,
) -> usize {
    match ps.next().unwrap() {
        Schedule::Wait(ms) => {
            ps.advance(ms);
            run_batch(ps, collector)
        }
        Schedule::Probes(tokens) => {
            let n = tokens.len();
            for token in tokens {
                ps.run_token(token, collector).unwrap();
            }
            n
        }
    }
}

#[test]
fn shared_thread_probe_executor() {
    let p1 = StubProbe::new("p1");
    let p2 = StubProbe::new("p2");
    let p3 = StubProbe::new("p3");

    let mut exec = SharedThreadProbeExecutor::new();
    exec.push(p1);
    exec.push(p2);
    exec.push(p3);

    let mut collector = StubCollector { values: Vec::new() };
    exec.run(&mut collector);

    assert_eq!(
        collector.text_values(),
        vec!["p1-c1", "p1-c2", "p2-c1", "p2-c2", "p3-c1", "p3-c2"]
    );
}

#[test]
fn probe_shared_thread_probe_executor() {
    let p1 = StubProbe::new("p1");
    let p2 = StubProbe::new("p2");
    let p3 = StubProbe::new("p3");

    let mut exec = SharedThreadProbeExecutor::new();
    exec.push(p1);
    exec.push(p2);
    exec.push(p3);

    let mut collector = StubCollector { values: Vec::new() };
    let out = exec.run(&mut collector);
    assert_eq!(out.len(), 3);

    assert_eq!(
        collector.text_values(),
        vec!["p1-c1", "p1-c2", "p2-c1", "p2-c2", "p3-c1", "p3-c2"]
    );
}

#[test]
fn mod_shared_thread_probe_executor() {
    let p1 = StubProbe::new("p1");
    let p2 = StubProbe::new("p2");
    let p3 = StubProbe::new("p3");

    let mut exec: SharedThreadProbeRunner<StubProbe> = SharedThreadProbeRunner::new();
    exec.push(p1);
    exec.push(p2);
    exec.push(p3);

    let mut collector = StubCollector { values: Vec::new() };
    exec.run(&mut collector);

    assert_eq!(
        collector.text_values(),
        vec!["p1-c1", "p1-c2", "p2-c1", "p2-c2", "p3-c1", "p3-c2"]
    );
}

#[test]
fn probe_scheduler_next_should_provide_porbes_according_to_schedule() {
    let mut m1 = StubModule::new("m1");
    m1.add_schedule(100, StubProbe::new("m1-p1"));

    let mut m2 = StubModule::new("m2");
    m2.add_schedule(100, StubProbe::new("m2-p1"));
    m2.add_schedule(200, StubProbe::new("m2-p2"));

    let mut ps: ProbeScheduler<StubProbe, FakeTimeSource> =
        ProbeScheduler::new(FakeTimeSource::new());
    ps.schedule(&m1);
    ps.schedule(&m2);

    let mut collector = StubCollector { values: Vec::new() };
    if let Schedule::Wait(ms) = ps.next().unwrap() {
        ps.advance(ms);
    } else {
        panic!("expected need to wait");
    }
    if let Schedule::Probes(tokens) = ps.next().unwrap() {
        for token in tokens {
            ps.run_token(token, &mut collector).unwrap();
        }
    } else {
        panic!("expected probes");
    }

    assert_eq!(
        collector.text_values(),
        vec!["m1-p1-c1", "m1-p1-c2", "m2-p1-c1", "m2-p1-c2"]
    );
}

#[test]
fn probe_scheduler_next_should_count_missed_schedules() {
    let mut m1 = StubModule::new("m1");
    m1.add_schedule(100, StubProbe::new("m1-p1"));
    m1.add_schedule(100, StubProbe::new("m1-p2"));

    let mut m2 = StubModule::new("m2");
    m2.add_schedule(200, StubProbe::new("m2-p1"));

    let mut ps: ProbeScheduler<StubProbe, FakeTimeSource> =
        ProbeScheduler::new(FakeTimeSource::new());
    ps.schedule(&m1);
    ps.schedule(&m2);

    ps.advance(200);

    {
        let result = ps.next();
        assert!(result.is_ok());

        let mut collector = StubCollector { values: Vec::new() };
        if let Schedule::Probes(tokens) = result.unwrap() {
            for token in tokens {
                ps.run_token(token, &mut collector).unwrap();
            }
        } else {
            panic!("expected probes");
        }

        assert_eq!(
            collector.text_values(),
            vec!["m2-p1-c1", "m2-p1-c2", "m1-p1-c1", "m1-p1-c2", "m1-p2-c1", "m1-p2-c2"]
        );
    }

    assert_eq!(ps.missed(), 2);
}

#[test]
fn probe_scheduler_wait_should_provide_porbes_according_to_schedule() {
    let mut m1 = StubModule::new("m1");
    m1.add_schedule(100, StubProbe::new("m1-p1"));

    let mut m2 = StubModule::new("m2");
    m2.add_schedule(100, StubProbe::new("m2-p1"));
    m2.add_schedule(200, StubProbe::new("m2-p2"));

    let mut ps: ProbeScheduler<StubProbe, FakeTimeSource> =
        ProbeScheduler::new(FakeTimeSource::new());
    ps.schedule(&m1);
    ps.schedule(&m2);

    let mut collector = StubCollector { values: Vec::new() };
    run_batch(&mut ps, &mut collector);

    assert_eq!(
        collector.text_values(),
        vec!["m1-p1-c1", "m1-p1-c2", "m2-p1-c1", "m2-p1-c2"]
    );
}

#[test]
fn probe_scheduler_abortable_wait_should_provide_porbes_according_to_schedule() {
    let mut m1 = StubModule::new("m1");
    m1.add_schedule(100, StubProbe::new("m1-p1"));

    let mut m2 = StubModule::new("m2");
    m2.add_schedule(100, StubProbe::new("m2-p1"));
    m2.add_schedule(200, StubProbe::new("m2-p2"));

    let mut ps: ProbeScheduler<StubProbe, FakeTimeSource> =
        ProbeScheduler::new(FakeTimeSource::new());
    ps.schedule(&m1);
    ps.schedule(&m2);

    let mut collector = StubCollector { values: Vec::new() };
    run_batch(&mut ps, &mut collector);

    assert_eq!(
        collector.text_values(),
        vec!["m1-p1-c1", "m1-p1-c2", "m2-p1-c1", "m2-p1-c2"]
    );
}

#[test]
fn probe_scheduler_abortable_wait_should_count_overrun_schedules() {
    let mut m1 = StubModule::new("m1");
    m1.add_schedule(100, StubProbe::new("m1-p1"));
    m1.add_schedule(100, StubProbe::new("m1-p2"));

    let mut m2 = StubModule::new("m2");
    m2.add_schedule(200, StubProbe::new("m2-p1"));

    let mut ps: ProbeScheduler<StubProbe, FakeTimeSource> =
        ProbeScheduler::new(FakeTimeSource::new());
    ps.schedule(&m1);
    ps.schedule(&m2);

    ps.advance(200);

    {
        let result = ps.next();
        assert!(result.is_ok());

        let mut collector = StubCollector { values: Vec::new() };
        if let Schedule::Probes(tokens) = result.unwrap() {
            for token in tokens {
                ps.run_token(token, &mut collector).unwrap();
            }
        } else {
            panic!("expected probes");
        }

        assert_eq!(
            collector.text_values(),
            vec!["m2-p1-c1", "m2-p1-c2", "m1-p1-c1", "m1-p1-c2", "m1-p2-c1", "m1-p2-c2"]
        );
    }

    assert_eq!(ps.overrun(), 2);
}

#[test]
fn plans_finer_than_the_bucket_width_are_declined() {
    let mut m1 = StubModule::new("m1");
    m1.add_schedule(50, StubProbe::new("m1-too-fine"));

    let mut ps: ProbeScheduler<StubProbe, FakeTimeSource> =
        ProbeScheduler::new(FakeTimeSource::new());
    ps.schedule(&m1);

    assert_eq!(ps.declined_count(), 1);
    // Nothing was filed, so the schedule reports empty.
    assert!(ps.next().is_err());
}

#[test]
fn gone_probe_is_counted_and_its_schedule_cancelled() {
    let mut m1 = StubModule::new("m1");
    m1.add_schedule(100, StubProbe::new("m1-p1"));
    m1.add_schedule(100, StubProbe::new("m1-p2"));

    let mut ps: ProbeScheduler<StubProbe, FakeTimeSource> =
        ProbeScheduler::new(FakeTimeSource::new());
    ps.schedule(&m1);

    // The first probe disappears, as a registry rebuild would make it.
    ps.remove_probe(0);
    assert!(ps.token_run_mode::<StubCollector>(0).is_none());
    assert_eq!(
        ps.token_run_mode::<StubCollector>(1),
        Some(dms_agent::ProbeRunMode::SharedThread)
    );

    let mut collector = StubCollector { values: Vec::new() };
    let ran = run_batch(&mut ps, &mut collector);
    assert_eq!(ran, 1);
    assert_eq!(ps.gone_count(), 1);
    assert_eq!(ps.dispatched_count(), 1);
    assert_eq!(collector.text_values(), vec!["m1-p2-c1", "m1-p2-c2"]);

    // The gone schedule was cancelled: the next batch holds only the live
    // probe, and the accounting still adds up.
    let mut collector = StubCollector { values: Vec::new() };
    let ran = run_batch(&mut ps, &mut collector);
    assert_eq!(ran, 1);
    assert_eq!(ps.gone_count(), 1);
    assert_eq!(ps.dispatched_count(), 2);
}
