use chrometrace::{Chrometrace, Event, Frame, Phase, StackTrace};

fn frame(name: &str, filename: &str, line: u32) -> Frame {
    Frame { name: name.to_string(), filename: filename.to_string(), line }
}

fn sample(pid: u64, thread_id: u64, thread_name: Option<&str>, frames: Vec<Frame>) -> StackTrace {
    StackTrace { pid, thread_id, thread_name: thread_name.map(|n| n.to_string()), frames }
}

fn phases(events: &[Event]) -> Vec<Phase> {
    events.iter().map(|e| e.ph).collect()
}

fn names(events: &[Event]) -> Vec<String> {
    events.iter().map(|e| e.name.clone()).collect()
}

#[test]
fn new_engine_finalizes_to_nothing() {
    let engine = Chrometrace::new(true);
    let out = engine.finalize_events_at(0);
    assert!(out.is_empty());
}

#[test]
fn first_sample_emits_meta_then_begins_root_to_leaf() {
    let mut engine = Chrometrace::new(true);
    // Frames are innermost first: leaf `inner`, root `main`.
    let t = sample(4, 7, Some("worker"), vec![frame("inner", "a.py", 2), frame("main", "a.py", 1)]);
    engine.increment_at(&t, 10);
    let out = engine.finalize_events_at(10);
    assert_eq!(phases(&out), vec![Phase::Metadata, Phase::Begin, Phase::Begin, Phase::End, Phase::End]);
    assert_eq!(
        names(&out),
        vec!["thread_name", "main", "inner", "inner", "main"],
    );
    let meta = &out[0];
    assert_eq!(meta.args.name.as_deref(), Some("7: worker"));
    assert_eq!(meta.args.filename, "");
    assert_eq!(meta.args.line, None);
    assert_eq!(meta.ts, 0);
    assert_eq!(meta.pid, 4);
    assert_eq!(meta.tid, 0);
    for e in &out[1..] {
        assert_eq!(e.cat, "py-spy");
        assert_eq!(e.pid, 4);
        assert_eq!(e.tid, 0);
        assert_eq!(e.ts, 10);
        assert_eq!(e.args.filename, "a.py");
    }
    assert_eq!(out[1].args.line, Some(1));
    assert_eq!(out[2].args.line, Some(2));
}

#[test]
fn identical_samples_emit_zero_events() {
    let mut engine = Chrometrace::new(true);
    let frames = || vec![frame("f", "m.py", 5), frame("main", "m.py", 1)];
    engine.increment_at(&sample(1, 1, None, frames()), 10);
    let before = engine.finalize_events_at(20).len();
    engine.increment_at(&sample(1, 1, None, frames()), 20);
    let after = engine.finalize_events_at(20).len();
    assert_eq!(before, after);
    // The accumulated (non-synthesized) part is meta + two Begins only.
    let out = engine.finalize_events_at(20);
    assert_eq!(
        phases(&out),
        vec![Phase::Metadata, Phase::Begin, Phase::Begin, Phase::End, Phase::End],
    );
}

#[test]
fn disjoint_stacks_all_ends_before_all_begins() {
    let mut engine = Chrometrace::new(true);
    engine.increment_at(
        &sample(1, 1, None, vec![frame("x", "a.py", 1), frame("y", "a.py", 2)]),
        10,
    );
    engine.increment_at(
        &sample(1, 1, None, vec![frame("p", "b.py", 3), frame("q", "b.py", 4)]),
        20,
    );
    let out = engine.finalize_events_at(20);
    // meta, B(y), B(x), then E(x), E(y) (leaf to root), B(q), B(p) (root to
    // leaf), then the synthesized closes E(p), E(q).
    assert_eq!(
        names(&out),
        vec!["thread_name", "y", "x", "x", "y", "q", "p", "p", "q"],
    );
    assert_eq!(
        phases(&out),
        vec![
            Phase::Metadata,
            Phase::Begin,
            Phase::Begin,
            Phase::End,
            Phase::End,
            Phase::Begin,
            Phase::Begin,
            Phase::End,
            Phase::End,
        ],
    );
}

#[test]
fn thread_ids_are_dense_and_first_seen_ordered() {
    let mut engine = Chrometrace::new(false);
    let huge: u64 = 0xdead_beef_dead_beef;
    engine.increment_at(&sample(1, huge, Some("big"), vec![frame("a", "x.py", 1)]), 1);
    engine.increment_at(&sample(1, 3, Some("small"), vec![frame("b", "x.py", 1)]), 2);
    // Re-observing the first thread: same id, no second metadata event.
    engine.increment_at(&sample(1, huge, Some("big"), vec![frame("a", "x.py", 1)]), 3);
    let out = engine.finalize_events_at(3);
    let metas: Vec<&Event> = out.iter().filter(|e| e.ph == Phase::Metadata).collect();
    assert_eq!(metas.len(), 2);
    assert_eq!(metas[0].tid, 0);
    assert_eq!(metas[0].args.name.as_deref(), Some("16045690984833335023: big"));
    assert_eq!(metas[1].tid, 1);
    assert_eq!(metas[1].args.name.as_deref(), Some("3: small"));
    // Interval events of each thread carry its dense id.
    for e in &out {
        if e.name == "a" {
            assert_eq!(e.tid, 0);
        }
        if e.name == "b" {
            assert_eq!(e.tid, 1);
        }
    }
}

#[test]
fn finalize_closes_every_begin_in_nesting_order() {
    let mut engine = Chrometrace::new(true);
    engine.increment_at(
        &sample(1, 10, None, vec![frame("f", "a.py", 1), frame("main", "a.py", 9)]),
        5,
    );
    engine.increment_at(&sample(1, 11, None, vec![frame("g", "b.py", 2)]), 6);
    engine.increment_at(
        &sample(1, 10, None, vec![frame("h", "a.py", 3), frame("main", "a.py", 9)]),
        7,
    );
    let out = engine.finalize_events_at(9);
    // Per thread, replay the interval events: every End must close the
    // innermost open Begin with a timestamp no earlier, and no interval
    // stays open.
    for tid in [0u32, 1u32] {
        let mut stack: Vec<&Event> = Vec::new();
        for e in out.iter().filter(|e| e.tid == tid && e.ph != Phase::Metadata) {
            match e.ph {
                Phase::Begin => stack.push(e),
                Phase::End => {
                    let open = stack.pop().expect("End without open Begin");
                    assert_eq!(open.name, e.name);
                    assert_eq!(open.args.filename, e.args.filename);
                    assert_eq!(open.args.line, e.args.line);
                    assert!(open.ts <= e.ts);
                }
                Phase::Metadata => unreachable!(),
            }
        }
        assert!(stack.is_empty(), "unterminated interval left open");
    }
}

#[test]
fn lines_off_merges_line_only_changes_and_emits_no_line_fields() {
    let mut engine = Chrometrace::new(false);
    engine.increment_at(&sample(1, 1, None, vec![frame("f", "m.py", 10)]), 1);
    engine.increment_at(&sample(1, 1, None, vec![frame("f", "m.py", 99)]), 2);
    let out = engine.finalize_events_at(3);
    // No churn: one Begin, one synthesized End, plus the metadata event.
    assert_eq!(phases(&out), vec![Phase::Metadata, Phase::Begin, Phase::End]);
    for e in &out {
        assert_eq!(e.args.line, None);
    }
}

#[test]
fn lines_on_distinguishes_line_only_changes() {
    let mut engine = Chrometrace::new(true);
    engine.increment_at(&sample(1, 1, None, vec![frame("f", "m.py", 10)]), 1);
    engine.increment_at(&sample(1, 1, None, vec![frame("f", "m.py", 99)]), 2);
    let out = engine.finalize_events_at(3);
    // Churn: the line change closes the old interval and opens a new one.
    assert_eq!(
        phases(&out),
        vec![Phase::Metadata, Phase::Begin, Phase::End, Phase::Begin, Phase::End],
    );
    assert_eq!(out[1].args.line, Some(10));
    assert_eq!(out[3].args.line, Some(99));
}

#[test]
fn nested_scenario_single_well_formed_pair() {
    let mut engine = Chrometrace::new(false);
    let a = || frame("A", "s.py", 1);
    let b = || frame("B", "s.py", 2);
    // Sample 1: [A] opens A.
    engine.increment_at(&sample(1, 5, None, vec![a()]), 10);
    // Sample 2: [B, A] (A unchanged at the root, B the new leaf) opens B
    // only.
    engine.increment_at(&sample(1, 5, None, vec![b(), a()]), 20);
    // Sample 3: [A] (B returned) closes B only.
    engine.increment_at(&sample(1, 5, None, vec![a()]), 30);
    // Finalization closes A.
    let out = engine.finalize_events_at(40);
    assert_eq!(phases(&out), vec![Phase::Metadata, Phase::Begin, Phase::Begin, Phase::End, Phase::End]);
    assert_eq!(names(&out), vec!["thread_name", "A", "B", "B", "A"]);
    assert_eq!(out[1].ts, 10);
    assert_eq!(out[2].ts, 20);
    assert_eq!(out[3].ts, 30);
    assert_eq!(out[4].ts, 40);
}

#[test]
fn empty_sample_unwinds_the_whole_stack() {
    let mut engine = Chrometrace::new(true);
    engine.increment_at(
        &sample(1, 1, None, vec![frame("f", "m.py", 1), frame("main", "m.py", 2)]),
        10,
    );
    engine.increment_at(&sample(1, 1, None, vec![]), 20);
    let out = engine.finalize_events_at(30);
    // Both frames end at the unwind; finalization adds nothing for this
    // thread.
    assert_eq!(
        phases(&out),
        vec![Phase::Metadata, Phase::Begin, Phase::Begin, Phase::End, Phase::End],
    );
    assert_eq!(out[3].ts, 20);
    assert_eq!(out[4].ts, 20);
}

#[test]
fn increment_returns_ok() {
    let mut engine = Chrometrace::new(true);
    let r = engine.increment(&sample(1, 1, None, vec![frame("f", "m.py", 1)]));
    assert!(r.is_ok());
}

#[test]
fn clock_based_session_produces_well_formed_trace() {
    let mut engine = Chrometrace::new(true);
    engine.increment(&sample(9, 1, Some("main"), vec![frame("f", "m.py", 1)])).unwrap();
    engine
        .increment(&sample(9, 1, Some("main"), vec![frame("g", "m.py", 2), frame("f", "m.py", 1)]))
        .unwrap();
    let out = engine.finalize_events();
    assert_eq!(
        phases(&out),
        vec![Phase::Metadata, Phase::Begin, Phase::Begin, Phase::End, Phase::End],
    );
    assert_eq!(names(&out), vec!["thread_name", "f", "g", "g", "f"]);
    // Timestamps never step backwards along the emitted sequence.
    for pair in out[1..].windows(2) {
        assert!(pair[0].ts <= pair[1].ts);
    }
}

#[test]
fn finalize_leaves_engine_state_unchanged() {
    let mut engine = Chrometrace::new(true);
    engine.increment_at(&sample(1, 1, None, vec![frame("f", "m.py", 1)]), 10);
    let first = engine.finalize_events_at(50);
    let second = engine.finalize_events_at(50);
    assert_eq!(first, second);
}

#[test]
fn thread_without_name_gets_bare_label() {
    let mut engine = Chrometrace::new(true);
    engine.increment_at(&sample(1, 0, None, vec![frame("f", "m.py", 1)]), 1);
    let out = engine.finalize_events_at(1);
    assert_eq!(out[0].args.name.as_deref(), Some("0: "));
}

#[test]
fn partial_divergence_closes_only_the_divergent_suffix() {
    let mut engine = Chrometrace::new(true);
    // Stack [c, b, a] innermost first; next sample diverges at `b`.
    engine.increment_at(
        &sample(
            1,
            1,
            None,
            vec![frame("c", "m.py", 3), frame("b", "m.py", 2), frame("a", "m.py", 1)],
        ),
        10,
    );
    engine.increment_at(
        &sample(1, 1, None, vec![frame("d", "m.py", 4), frame("a", "m.py", 1)]),
        20,
    );
    let out = engine.finalize_events_at(20);
    // Begins a, b, c; then ends c, b (leaf first); then begin d; then the
    // synthesized closes d, a.
    assert_eq!(
        names(&out),
        vec!["thread_name", "a", "b", "c", "c", "b", "d", "d", "a"],
    );
    assert_eq!(
        phases(&out),
        vec![
            Phase::Metadata,
            Phase::Begin,
            Phase::Begin,
            Phase::Begin,
            Phase::End,
            Phase::End,
            Phase::Begin,
            Phase::End,
            Phase::End,
        ],
    );
}
