use conjecture::codec::u64s_to_bytes;
use conjecture::data::{DataSource, FailedDraw, Status, TestResult};
use conjecture::database::{Database, MemoryDatabase, NoDatabase};
use conjecture::engine::{Engine, Phase};

fn run_to_results<F, D>(mut f: F, name: &str, db: D) -> (Vec<TestResult>, Engine<D>)
where
    F: FnMut(&mut DataSource) -> Result<Status, FailedDraw>,
    D: Database,
{
    let seed: [u32; 2] = [0, 0];
    let mut engine = Engine::new(name.to_string(), 1000, Phase::all(), &seed, db);
    while let Some(mut source) = engine.next_source() {
        if let Ok(status) = f(&mut source) {
            engine.mark_finished(source, status);
        } else {
            engine.mark_finished(source, Status::Overflow);
        }
    }
    let results = engine.list_minimized_examples();
    (results, engine)
}

#[test]
fn minimizes_all_examples() {
    let (results, _engine) = run_to_results(
        |source| {
            let n = source.bits(64)?;
            if n >= 100 {
                Ok(Status::Interesting(n % 2))
            } else {
                Ok(Status::Valid)
            }
        },
        "minimizes_all_examples",
        NoDatabase,
    );

    assert!(results.len() == 2);
    assert_eq!(results[0].record[0], 100);
    assert_eq!(results[1].record[0], 101);
}

#[test]
fn minimizes_down_to_the_boundary() {
    let (results, _engine) = run_to_results(
        |source| {
            let n = source.bits(64)?;
            if n >= 10 {
                Ok(Status::Interesting(0))
            } else {
                Ok(Status::Valid)
            }
        },
        "minimizes_down_to_the_boundary",
        NoDatabase,
    );

    assert_eq!(results.len(), 1);
    assert_eq!(results[0].record, vec![10]);
}

#[test]
fn interesting_on_first_execution_still_shrinks() {
    let (results, engine) = run_to_results(
        |source| {
            source.bits(64)?;
            Ok(Status::Interesting(0))
        },
        "interesting_on_first_execution_still_shrinks",
        NoDatabase,
    );

    assert_eq!(results.len(), 1);
    assert_eq!(results[0].record, vec![0]);
    assert!(!engine.was_unsatisfiable());
}

#[test]
fn unsatisfiable_runs_are_reported() {
    let (results, engine) = run_to_results(
        |source| {
            source.bits(64)?;
            Ok(Status::Invalid)
        },
        "unsatisfiable_runs_are_reported",
        NoDatabase,
    );

    assert!(results.is_empty());
    assert!(engine.was_unsatisfiable());
}

#[test]
fn best_source_replays_the_best_example() {
    let (_results, engine) = run_to_results(
        |source| {
            let n = source.bits(64)?;
            if n >= 10 {
                Ok(Status::Interesting(0))
            } else {
                Ok(Status::Valid)
            }
        },
        "best_source_replays_the_best_example",
        NoDatabase,
    );

    let mut replay = engine.best_source().expect("a best source after an interesting run");
    assert_eq!(replay.bits(64).unwrap(), 10);
}

#[test]
fn deletes_unused_draws() {
    let (results, _engine) = run_to_results(
        |source| {
            source.start_draw();
            let a = source.bits(64)?;
            let b = source.bits(64)?;
            let c = source.bits(64)?;
            source.stop_draw();
            if a >= 1 || b >= 1 || c >= 1 {
                Ok(Status::Interesting(0))
            } else {
                Ok(Status::Valid)
            }
        },
        "deletes_unused_draws",
        NoDatabase,
    );

    // a shorter record cannot reproduce: replaying fewer than three words
    // overflows before the test finishes, so the minimum keeps all three
    // positions and pushes the one needed bit to the end
    assert_eq!(results.len(), 1);
    assert_eq!(results[0].record, vec![0, 0, 1]);
}

fn boundary_predicate(source: &mut DataSource) -> Result<Status, FailedDraw> {
    let n = source.bits(64)?;
    if n >= 10 {
        Ok(Status::Interesting(0))
    } else {
        Ok(Status::Valid)
    }
}

#[test]
fn replays_a_persisted_blob_and_keeps_it() {
    let mut db = MemoryDatabase::new();
    db.save("replays_a_persisted_blob_and_keeps_it", u64s_to_bytes(&[10]).as_slice());

    let (results, engine) = run_to_results(
        boundary_predicate,
        "replays_a_persisted_blob_and_keeps_it",
        db,
    );

    assert_eq!(results.len(), 1);
    assert_eq!(results[0].record, vec![10]);
    assert!(!engine.was_unsatisfiable());
    let mut db = engine.into_database();
    let blobs = db.fetch("replays_a_persisted_blob_and_keeps_it");
    let want = u64s_to_bytes(&[10]);
    assert!(blobs.iter().any(|b| b == &want));
}

#[test]
fn persistence_round_trip() {
    let (results, engine) = run_to_results(
        boundary_predicate,
        "persistence_round_trip",
        MemoryDatabase::new(),
    );
    assert_eq!(results.len(), 1);
    assert_eq!(results[0].record, vec![10]);
    let db = engine.into_database();

    // the stored blob must replay, be kept, and reproduce the same minimum
    let (results2, engine2) = run_to_results(boundary_predicate, "persistence_round_trip", db);
    assert_eq!(results2.len(), 1);
    assert_eq!(results2[0].record, vec![10]);
    let mut db = engine2.into_database();
    let blobs = db.fetch("persistence_round_trip");
    let want = u64s_to_bytes(&[10]);
    assert!(blobs.iter().any(|b| b == &want));
}

#[test]
fn every_emitted_result_is_well_formed() {
    let (results, _engine) = run_to_results(
        |source| {
            let n = source.bits(8)?;
            source.write(7)?;
            if n >= 100 {
                Ok(Status::Interesting(n % 2))
            } else {
                Ok(Status::Valid)
            }
        },
        "every_emitted_result_is_well_formed",
        NoDatabase,
    );

    for r in &results {
        assert_eq!(r.record.len(), r.sizes.len());
        for d in &r.draws {
            assert!(d.start < d.end && d.end <= r.record.len());
        }
        let writes: Vec<usize> = (0..r.sizes.len()).filter(|&i| r.sizes[i] == 0).collect();
        assert_eq!(r.written_indices, writes);
    }
}
