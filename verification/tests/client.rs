use mieql::document::Document;
use mieql::govern::dispatch_decision;
use mieql::govern::max_queue_size;
use mieql::govern::DispatchDecision;
use mieql::govern::DispatchGovernor;
use mieql::group::group_queries;
use mieql::group::Query;
use mieql::group::ScopeContent;
use mieql::orchestrator::orchestrator_step;
use mieql::orchestrator::OrchestratorAction;
use mieql::orchestrator::OrchestratorEvent;
use mieql::orchestrator::OrchestratorState;
use mieql::outputs::merge_output_batches;
use mieql::outputs::Output;
use mieql::outputs::OutputBatch;
use mieql::telemetry::compute_telemetry;
use mieql::telemetry::is_flush_point;
use mieql::work::split_locator;

fn doc(tag: u8) -> Document {
    Document { data: vec![tag], url: None, mime: None }
}

fn query(id: &str, content: ScopeContent) -> Query {
    Query {
        id: Some(id.as_bytes().to_vec()),
        content,
        source: format!("query {}", id).into_bytes(),
    }
}

fn batch(tags: &[&str]) -> OutputBatch {
    OutputBatch {
        outputs: tags.iter().map(|t| Output { data: t.as_bytes().to_vec() }).collect(),
    }
}

#[test]
fn max_queue_size_takes_the_greatest_depth() {
    assert_eq!(max_queue_size(&vec![]), 0);
    assert_eq!(max_queue_size(&vec![3, 7, 2]), 7);
    assert_eq!(max_queue_size(&vec![-5, -2]), 0);
}

#[test]
fn backpressure_blocks_at_the_ceiling() {
    // At or above the ceiling: no flush may be issued.
    assert!(matches!(dispatch_decision(&vec![3, 7], 7), DispatchDecision::Wait));
    assert!(matches!(dispatch_decision(&vec![3, 9], 7), DispatchDecision::Wait));
    // Below the ceiling: dispatch resumes.
    assert!(matches!(dispatch_decision(&vec![3, 6], 7), DispatchDecision::Proceed));
    // An idle worker is never blocked, for any ceiling of at least one.
    assert!(matches!(dispatch_decision(&vec![], 1), DispatchDecision::Proceed));
    assert!(matches!(dispatch_decision(&vec![0, 0], 1), DispatchDecision::Proceed));
}

#[test]
fn governor_flushes_full_batches() {
    let mut governor = DispatchGovernor::new(3);
    assert!(governor.push(doc(1)).is_none());
    assert!(governor.push(doc(2)).is_none());
    let full = governor.push(doc(3)).expect("the third document fills the batch");
    assert_eq!(full.len(), 3);
    assert_eq!(full[0].data, vec![1]);
    assert_eq!(full[2].data, vec![3]);
    // Accumulation starts over afterwards.
    assert!(governor.push(doc(4)).is_none());
    let rest = governor.flush();
    assert_eq!(rest.len(), 1);
    assert_eq!(rest[0].data, vec![4]);
    assert_eq!(governor.flush().len(), 0);
}

#[test]
fn grouping_partitions_by_content_scope() {
    let queries = vec![
        query("a", ScopeContent::Text),
        query("b", ScopeContent::Raw),
        query("c", ScopeContent::Text),
        query("d", ScopeContent::Raw),
        query("e", ScopeContent::Text),
    ];
    let groups = group_queries(queries);
    assert_eq!(groups.len(), 2);
    // Groups come in order of first appearance.
    assert!(matches!(groups[0].content, ScopeContent::Text));
    assert!(matches!(groups[1].content, ScopeContent::Raw));
    // Every query sits in the group of its own scope, exactly once.
    assert_eq!(groups[0].queries.len(), 3);
    assert_eq!(groups[1].queries.len(), 2);
    let ids: Vec<Vec<u8>> =
        groups[0].queries.iter().map(|q| q.id.clone().unwrap()).collect();
    assert_eq!(ids, vec![b"a".to_vec(), b"c".to_vec(), b"e".to_vec()]);
    let ids: Vec<Vec<u8>> =
        groups[1].queries.iter().map(|q| q.id.clone().unwrap()).collect();
    assert_eq!(ids, vec![b"b".to_vec(), b"d".to_vec()]);
}

#[test]
fn grouping_of_nothing_is_nothing() {
    assert_eq!(group_queries(Vec::new()).len(), 0);
}

#[test]
fn merging_an_empty_batch_changes_nothing() {
    let mut b = batch(&["one", "two"]);
    b.merge_with(OutputBatch { outputs: Vec::new() });
    assert_eq!(b.outputs.len(), 2);
    assert_eq!(b.outputs[0].data, b"one".to_vec());
    assert_eq!(b.outputs[1].data, b"two".to_vec());
    let mut empty = OutputBatch::new();
    empty.merge_with(batch(&["three"]));
    assert_eq!(empty.outputs.len(), 1);
    assert_eq!(empty.outputs[0].data, b"three".to_vec());
}

#[test]
fn merging_batches_keeps_order() {
    let merged = merge_output_batches(vec![batch(&["a", "b"]), batch(&[]), batch(&["c"])]);
    assert_eq!(merged.outputs.len(), 3);
    assert_eq!(merged.outputs[0].data, b"a".to_vec());
    assert_eq!(merged.outputs[1].data, b"b".to_vec());
    assert_eq!(merged.outputs[2].data, b"c".to_vec());
}

#[test]
fn telemetry_formulas() {
    let t = compute_telemetry(1000, 10, 5, 2, 64, 10);
    assert_eq!(t.documents_queued, 128);
    assert_eq!(t.documents_completed, 872);
    assert_eq!(t.docs_per_second, 87);
    assert_eq!(t.total_outputs, 15);
    assert_eq!(t.new_outputs, 5);
}

#[test]
fn telemetry_clamps_and_rounds() {
    // A fraction of a second counts as one.
    let t = compute_telemetry(100, 0, 0, 0, 64, 0);
    assert_eq!(t.docs_per_second, 100);
    // More queued than processed never underflows.
    let t = compute_telemetry(10, 0, 0, 1, 64, 1);
    assert_eq!(t.documents_completed, 0);
    assert_eq!(t.docs_per_second, 0);
}

#[test]
fn flush_cadence() {
    assert!(is_flush_point(0, 512));
    assert!(is_flush_point(1024, 512));
    assert!(!is_flush_point(1025, 512));
    assert!(is_flush_point(7, 1));
}

#[test]
fn split_locator_on_first_separator() {
    let (bucket, key) = split_locator(&b"commoncrawl/crawl-data/segment/file.warc.gz".to_vec());
    assert_eq!(bucket, b"commoncrawl".to_vec());
    assert_eq!(key, b"crawl-data/segment/file.warc.gz".to_vec());
    let (bucket, key) = split_locator(&b"bare-bucket".to_vec());
    assert_eq!(bucket, b"bare-bucket".to_vec());
    assert_eq!(key, b"".to_vec());
    let (bucket, key) = split_locator(&b"".to_vec());
    assert_eq!(bucket, b"".to_vec());
    assert_eq!(key, b"".to_vec());
}

#[test]
fn empty_queue_re_registers_with_a_fresh_session() {
    // Lease returns the empty signal: the orchestrator must release its
    // session, sleep, register again, and never lease with the stale key.
    let k1 = b"key-one".to_vec();
    let (s, a) = orchestrator_step(
        OrchestratorState::Registering,
        OrchestratorEvent::Registered { access_key: k1.clone() },
    );
    assert!(matches!(&a, OrchestratorAction::FetchQueries { access_key } if *access_key == k1));
    let (s, a) = orchestrator_step(s, OrchestratorEvent::QueriesLoaded);
    assert!(matches!(&a, OrchestratorAction::LeaseWork { access_key } if *access_key == k1));
    let (s, a) = orchestrator_step(s, OrchestratorEvent::QueueEmpty);
    assert!(matches!(&a, OrchestratorAction::Unregister { access_key } if *access_key == k1));
    let (s, a) = orchestrator_step(s, OrchestratorEvent::CooldownOver);
    assert!(matches!(a, OrchestratorAction::Register));
    let k2 = b"key-two".to_vec();
    let (s, a) = orchestrator_step(s, OrchestratorEvent::Registered { access_key: k2.clone() });
    assert!(matches!(&a, OrchestratorAction::FetchQueries { access_key } if *access_key == k2));
    let (_s, a) = orchestrator_step(s, OrchestratorEvent::QueriesLoaded);
    // The next lease carries the fresh key, not the released one.
    match a {
        OrchestratorAction::LeaseWork { access_key } => {
            assert_eq!(access_key, k2);
            assert_ne!(access_key, k1);
        },
        _ => panic!("leasing should follow loaded queries"),
    }
}

#[test]
fn draining_exits_immediately_on_idle_engines() {
    let key = b"key".to_vec();
    let id = b"work-1".to_vec();
    let (s, a) = orchestrator_step(
        OrchestratorState::Streaming { access_key: key.clone(), work_id: id.clone() },
        OrchestratorEvent::StreamExhausted,
    );
    assert!(matches!(a, OrchestratorAction::PollEngines));
    let (_s, a) = orchestrator_step(s, OrchestratorEvent::DepthReport { depth: 0 });
    match a {
        OrchestratorAction::CompleteWork { access_key, work_id } => {
            assert_eq!(access_key, key);
            assert_eq!(work_id, id);
        },
        _ => panic!("idle engines should complete the work item at once"),
    }
}

#[test]
fn draining_forces_completion_at_the_bound() {
    let key = b"key".to_vec();
    let id = b"work-2".to_vec();
    let (mut s, _a) = orchestrator_step(
        OrchestratorState::Streaming { access_key: key.clone(), work_id: id.clone() },
        OrchestratorEvent::StreamExhausted,
    );
    let mut polls = 0u64;
    loop {
        let (next, a) = orchestrator_step(s, OrchestratorEvent::DepthReport { depth: 5 });
        s = next;
        polls += 1;
        match a {
            OrchestratorAction::PollEngines => {
                assert!(polls <= 300, "draining must not wait past its bound");
            },
            OrchestratorAction::CompleteWork { work_id, .. } => {
                assert_eq!(work_id, id);
                break;
            },
            _ => panic!("draining answers depth reports with polls or completion"),
        }
    }
    // It gives up exactly at the bound: 300 waits, then completion.
    assert_eq!(polls, 301);
}

#[test]
fn completion_leases_the_next_item() {
    let key = b"key".to_vec();
    let (_s, a) = orchestrator_step(
        OrchestratorState::Completing { access_key: key.clone() },
        OrchestratorEvent::Completed,
    );
    assert!(matches!(&a, OrchestratorAction::LeaseWork { access_key } if *access_key == key));
    // A failed completion call is log-only: the loop continues the same way.
    let (_s, a) = orchestrator_step(
        OrchestratorState::Completing { access_key: key.clone() },
        OrchestratorEvent::CompleteFailed,
    );
    assert!(matches!(&a, OrchestratorAction::LeaseWork { access_key } if *access_key == key));
}

#[test]
fn fatal_failures_stop_the_worker() {
    let (s, a) = orchestrator_step(
        OrchestratorState::Registering,
        OrchestratorEvent::RegisterFailed,
    );
    assert!(matches!(a, OrchestratorAction::Exit { code: 101 }));
    assert!(matches!(s, OrchestratorState::Stopped { code: 101 }));
    let (_s, a) = orchestrator_step(
        OrchestratorState::LeasingQueries { access_key: b"k".to_vec() },
        OrchestratorEvent::QueriesFailed,
    );
    assert!(matches!(a, OrchestratorAction::Exit { code: 101 }));
    let (_s, a) = orchestrator_step(
        OrchestratorState::LeasingWork { access_key: b"k".to_vec() },
        OrchestratorEvent::LeaseFailed,
    );
    assert!(matches!(a, OrchestratorAction::Exit { code: 101 }));
}

#[test]
fn leased_work_streams_the_archive() {
    let (s, a) = orchestrator_step(
        OrchestratorState::LeasingWork { access_key: b"k".to_vec() },
        OrchestratorEvent::WorkLeased {
            locator: b"bucket/key.warc.gz".to_vec(),
            id: b"42".to_vec(),
        },
    );
    assert!(
        matches!(&a, OrchestratorAction::StreamArchive { locator } if *locator == b"bucket/key.warc.gz".to_vec())
    );
    assert!(matches!(&s, OrchestratorState::Streaming { work_id, .. } if *work_id == b"42".to_vec()));
}
