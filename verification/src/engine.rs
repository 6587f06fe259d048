//! The incremental stack-diff engine: it remembers the last sample per
//! thread, remaps native thread ids to dense 32-bit ids, and appends the
//! Begin/End/Metadata events that each new sample calls for.

use std::collections::HashMap;

use vstd::prelude::*;

use vstd::string::StringExecFns;

use crate::event::{
    closes, meta_event, models, replay, span_event, thread_events, thread_label, Args, Event,
    EventModel, Phase,
};
use crate::event::{
    lemma_filter_push, lemma_replay_push, lemma_thread_events_add, lemma_thread_events_none,
    lemma_thread_events_push,
};
use crate::ext::{elapsed_micros, instant_now, u64_to_string};
use crate::trace::{
    frame_merge, lemma_shared_depth_is, lemma_shared_depth_matches, root_merge, shared_depth,
    Frame, FrameModel, StackTrace, TraceModel,
};

verus! {

/// The profiling session: accumulated events, the last sample seen per
/// thread, the dense thread-id remapping, and the session clock.
pub struct Chrometrace {
    events: Vec<Event>,
    start_ts: std::time::Instant,
    prev_traces: HashMap<u64, StackTrace>,
    show_linenumbers: bool,
    // Trace viewers only support 32-bit thread ids, so native ids are
    // remapped, densely and in first-seen order.
    thread_ids: HashMap<u64, u32>,
    // The native thread ids in first-seen order: the thread with dense id
    // `j` is `thread_order[j]`.
    thread_order: Vec<u64>,
    // The largest timestamp handed out so far; keeps the emitted event
    // sequence monotone in time.
    last_ts: u64,
}

/// Whether the open Begin event `b` records frame `f` on remapped thread
/// `tid`: right phase, thread, function name, file and emitted line
/// argument, and a timestamp no later than `hi`.
pub open spec fn begin_for(b: EventModel, f: FrameModel, tid: u32, hi: u64, lines: bool) -> bool {
    &&& b.ph == Phase::Begin
    &&& b.tid == tid
    &&& b.ts <= hi
    &&& b.name == f.name
    &&& b.args.filename == f.filename
    &&& b.args.line == if lines {
        Some(f.line)
    } else {
        None
    }
}

/// Whether the stack `st` of open Begin events (outermost first) records
/// exactly the frames of `frames` (innermost first) outside its `from`
/// innermost ones: `st[j]` records `frames[frames.len() - 1 - j]`, and the
/// `from` innermost frames have no open Begin.  With `from == 0` the stack
/// records the whole of `frames`.
pub open spec fn stack_matches(
    st: Seq<EventModel>,
    frames: Seq<FrameModel>,
    from: int,
    tid: u32,
    hi: u64,
    lines: bool,
) -> bool {
    &&& st.len() == frames.len() - from
    &&& forall|j: int|
        0 <= j < st.len() ==> begin_for(
            #[trigger] st[j],
            frames[frames.len() - 1 - j],
            tid,
            hi,
            lines,
        )
}

/// The events appended by one `increment` call for a sample `t`: a
/// metadata event when the thread is new, then End events for the
/// abandoned frames of the previous stack `prev` (innermost first), then
/// Begin events for the new frames of `t` (outermost first).
pub open spec fn increment_emits(
    known: bool,
    tid: u32,
    prev: Seq<FrameModel>,
    t: TraceModel,
    now: u64,
    lines: bool,
) -> Seq<EventModel> {
    let sd = shared_depth(prev, t.frames, lines);
    (if known {
        Seq::<EventModel>::empty()
    } else {
        seq![meta_event(t.pid, tid, t.thread_id, t.thread_name)]
    }) + Seq::new((prev.len() - sd) as nat, |i: int| span_event(Phase::End, t.pid, tid, prev[i], now, lines))
        + Seq::new(
        (t.frames.len() - sd) as nat,
        |i: int| span_event(Phase::Begin, t.pid, tid, t.frames[t.frames.len() - sd - 1 - i], now, lines),
    )
}

/// How one `increment` call at time `now` relates the engine state after
/// (`post`) to the state before (`pre`), for sample `t`.
pub open spec fn increment_rel(pre: Chrometrace, post: Chrometrace, t: TraceModel, now: u64) -> bool {
    let known = pre.tids().contains_key(t.thread_id);
    let tid = if known {
        pre.tids()[t.thread_id]
    } else {
        pre.order().len() as u32
    };
    &&& now >= pre.high_ts()
    &&& post.lines_tracked() == pre.lines_tracked()
    &&& post.high_ts() == now
    &&& post.tids() == if known {
        pre.tids()
    } else {
        pre.tids().insert(t.thread_id, tid)
    }
    &&& post.order() == if known {
        pre.order()
    } else {
        pre.order().push(t.thread_id)
    }
    &&& post.prevs() == if t.frames.len() == 0 {
        pre.prevs().remove(t.thread_id)
    } else {
        pre.prevs().insert(t.thread_id, t)
    }
    &&& post.events_m() == pre.events_m() + increment_emits(
        known,
        tid,
        pre.open_frames(t.thread_id),
        t,
        now,
        pre.lines_tracked(),
    )
}

/// Thread `q`'s interval events in `evm` replay to a stack of open Begin
/// events recording exactly `frames`.
pub open spec fn thread_still_open(
    evm: Seq<EventModel>,
    frames: Seq<FrameModel>,
    q: u32,
    hi: u64,
    lines: bool,
) -> bool {
    replay(thread_events(evm, q)) matches Some(st) && stack_matches(st, frames, 0, q, hi, lines)
}

/// The End events finalization synthesizes for thread `id` (dense id `j`):
/// one per frame of its open stack, innermost first; none if the thread has
/// no open stack.
pub open spec fn thread_closings(
    prevs: Map<u64, TraceModel>,
    id: u64,
    j: u32,
    now: u64,
    lines: bool,
) -> Seq<EventModel> {
    if prevs.contains_key(id) {
        Seq::new(
            prevs[id].frames.len(),
            |i: int| span_event(Phase::End, prevs[id].pid, j, prevs[id].frames[i], now, lines),
        )
    } else {
        Seq::empty()
    }
}

/// The End events finalization synthesizes for the threads of `order`, one
/// block per thread, concatenated in that order.
pub open spec fn closing_events(
    order: Seq<u64>,
    prevs: Map<u64, TraceModel>,
    tids: Map<u64, u32>,
    now: u64,
    lines: bool,
) -> Seq<EventModel>
    decreases order.len(),
{
    if order.len() == 0 {
        Seq::empty()
    } else {
        closing_events(order.drop_last(), prevs, tids, now, lines) + thread_closings(
            prevs,
            order.last(),
            tids[order.last()],
            now,
            lines,
        )
    }
}

/// How the finalized output `out` relates to the engine state `pre` when
/// finalization runs at session time `now`: the accumulated events followed
/// by the synthesized closing events.
pub open spec fn finalize_rel(pre: Chrometrace, out: Seq<EventModel>, now: u64) -> bool {
    &&& now >= pre.high_ts()
    &&& out == pre.events_m() + closing_events(
        pre.order(),
        pre.prevs(),
        pre.tids(),
        now,
        pre.lines_tracked(),
    )
}

/// Synthesized closing events are End events of threads with dense ids
/// under `bound`, and carry no line argument when lines are off.
proof fn lemma_closing_events_props(
    order: Seq<u64>,
    prevs: Map<u64, TraceModel>,
    tids: Map<u64, u32>,
    now: u64,
    lines: bool,
    bound: int,
)
    requires
        forall|q: int| 0 <= q < order.len() ==> (tids[#[trigger] order[q]] as int) < bound,
    ensures
        forall|i: int|
            0 <= i < closing_events(order, prevs, tids, now, lines).len() ==> {
                let e = #[trigger] closing_events(order, prevs, tids, now, lines)[i];
                &&& (e.tid as int) < bound
                &&& e.ph == Phase::End
                &&& !lines ==> e.args.line is None
            },
    decreases order.len(),
{
    if order.len() > 0 {
        lemma_closing_events_props(order.drop_last(), prevs, tids, now, lines, bound);
        assert((tids[order[order.len() - 1]] as int) < bound);
    }
}

impl Chrometrace {
    /// The models of the events emitted so far, in emission order.
    pub closed spec fn events_m(&self) -> Seq<EventModel> {
        models(self.events@)
    }

    /// The last sample seen, per native thread id, for threads whose stack
    /// is still open.
    pub closed spec fn prevs(&self) -> Map<u64, TraceModel> {
        self.prev_traces@.map_values(|t: StackTrace| t@)
    }

    /// The dense thread-id remapping.
    pub closed spec fn tids(&self) -> Map<u64, u32> {
        self.thread_ids@
    }

    /// The native thread ids in first-seen order; position is dense id.
    pub closed spec fn order(&self) -> Seq<u64> {
        self.thread_order@
    }

    /// Whether line numbers take part in frame equality and appear in
    /// emitted events.
    pub closed spec fn lines_tracked(&self) -> bool {
        self.show_linenumbers
    }

    /// The largest timestamp handed out so far.
    pub closed spec fn high_ts(&self) -> u64 {
        self.last_ts
    }

    /// The frames of the still-open stack of thread `t`: the frames of its
    /// last sample, or empty if none is held.
    pub open spec fn open_frames(&self, t: u64) -> Seq<FrameModel> {
        if self.prevs().contains_key(t) {
            self.prevs()[t].frames
        } else {
            Seq::empty()
        }
    }

    /// The interval events of the thread with dense id `j` replay without
    /// mismatch to a stack of open Begin events recording exactly its open
    /// frames.
    pub open spec fn thread_open_ok(&self, j: int) -> bool {
        &&& replay(thread_events(self.events_m(), j as u32)) matches Some(st) && stack_matches(
            st,
            self.open_frames(self.order()[j]),
            0,
            j as u32,
            self.high_ts(),
            self.lines_tracked(),
        )
    }

    /// The engine's invariant.
    pub open spec fn wf(&self) -> bool {
        // The remapping and the first-seen order list are inverse to each
        // other: dense, injective, total on threads seen.
        &&& self.tids().dom().finite()
        &&& self.order().len() == self.tids().dom().len()
        &&& forall|j: int|
            0 <= j < self.order().len() ==> self.tids().contains_key(#[trigger] self.order()[j])
                && self.tids()[self.order()[j]] == j as u32
        &&& forall|t: u64|
            self.tids().contains_key(t) ==> (#[trigger] self.tids()[t] as int) < self.order().len()
                && self.order()[self.tids()[t] as int] == t
        // Only threads that have been seen hold an open stack, and a stored
        // sample carries the thread id it is stored under.
        &&& forall|t: u64|
            #[trigger] self.prevs().contains_key(t) ==> self.tids().contains_key(t)
                && self.prevs()[t].thread_id == t
        // Every interval event belongs to a thread seen so far.
        &&& forall|i: int|
            0 <= i < self.events_m().len() && (#[trigger] self.events_m()[i]).ph != Phase::Metadata
                ==> (self.events_m()[i].tid as int) < self.order().len()
        // Per thread, the emitted interval events are properly nested and
        // leave open exactly the frames of the thread's last sample.
        &&& forall|j: int| 0 <= j < self.order().len() ==> #[trigger] self.thread_open_ok(j)
        // With line tracking off, no event carries a line argument.
        &&& !self.lines_tracked() ==> forall|i: int|
            0 <= i < self.events_m().len() ==> (#[trigger] self.events_m()[i]).args.line is None
    }

    /// Creates an engine with no events, no known threads, and the session
    /// clock started now.
    pub fn new(show_linenumbers: bool) -> (r: Chrometrace)
        ensures
            r.wf(),
            r.events_m() == Seq::<EventModel>::empty(),
            r.prevs() == Map::<u64, TraceModel>::empty(),
            r.tids() == Map::<u64, u32>::empty(),
            r.order() == Seq::<u64>::empty(),
            r.lines_tracked() == show_linenumbers,
            r.high_ts() == 0,
    {
        let r = Chrometrace {
            events: Vec::new(),
            start_ts: instant_now(),
            prev_traces: HashMap::new(),
            show_linenumbers,
            thread_ids: HashMap::new(),
            thread_order: Vec::new(),
            last_ts: 0,
        };
        proof {
            assert(r.events_m() =~= Seq::<EventModel>::empty());
            assert(r.prevs() =~= Map::<u64, TraceModel>::empty());
        }
        r
    }

    /// Whether two frames are similar enough to merge into one interval
    /// instead of producing separate events.
    fn should_merge_frames(&self, a: &Frame, b: &Frame) -> (r: bool)
        ensures
            r == frame_merge(a@, b@, self.lines_tracked()),
    {
        a.name == b.name && a.filename == b.filename && (!self.show_linenumbers || a.line == b.line)
    }

    /// The dense id assigned to the sample's thread.
    fn get_thread_id(&self, trace: &StackTrace) -> (tid: u32)
        requires
            self.tids().contains_key(trace.thread_id),
        ensures
            tid == self.tids()[trace.thread_id],
    {
        *self.thread_ids.get(&trace.thread_id).unwrap()
    }

    /// First sight of a thread: assigns it the next dense id and appends
    /// its one-time thread-name metadata event.  A known thread is left
    /// untouched and nothing is emitted.
    fn record_new_thread(&mut self, trace: &StackTrace)
        requires
            old(self).wf(),
            old(self).order().len() < 0x1_0000_0000,
        ensures
            final(self).wf(),
            final(self).prevs() == old(self).prevs(),
            final(self).high_ts() == old(self).high_ts(),
            final(self).lines_tracked() == old(self).lines_tracked(),
            final(self).tids() == if old(self).tids().contains_key(trace.thread_id) {
                old(self).tids()
            } else {
                old(self).tids().insert(trace.thread_id, old(self).order().len() as u32)
            },
            final(self).order() == if old(self).tids().contains_key(trace.thread_id) {
                old(self).order()
            } else {
                old(self).order().push(trace.thread_id)
            },
            final(self).events_m() == old(self).events_m() + if old(self).tids().contains_key(
                trace.thread_id,
            ) {
                Seq::<EventModel>::empty()
            } else {
                seq![
                    meta_event(
                        trace.pid,
                        old(self).order().len() as u32,
                        trace.thread_id,
                        trace@.thread_name,
                    ),
                ]
            },
            final(self).tids().contains_key(trace.thread_id),
    {
        if !self.thread_ids.contains_key(&trace.thread_id) {
            let ghost pre = *self;
            let thread_id = trace.thread_id;

            // Remap ids to be in the uint32 space, densely, in first-seen
            // order.
            let remapped_id = self.thread_order.len() as u32;
            self.thread_ids.insert(thread_id, remapped_id);
            self.thread_order.push(thread_id);

            let mut name = u64_to_string(thread_id);
            name.append(": ");
            match &trace.thread_name {
                Some(n) => name.append(n.as_str()),
                None => (),
            }
            proof {
                assert(name@ =~= thread_label(thread_id, trace@.thread_name));
            }

            let tid = self.get_thread_id(trace);
            let e = Event {
                args: Args { filename: String::new(), line: None, name: Some(name) },
                cat: "py-spy".to_string(),
                name: "thread_name".to_string(),
                ph: Phase::Metadata,
                pid: trace.pid,
                tid,
                ts: 0,
            };
            proof {
                assert(e@ =~= meta_event(
                    trace.pid,
                    pre.order().len() as u32,
                    trace.thread_id,
                    trace@.thread_name,
                ));
            }
            self.events.push(e);

            proof {
                assert(self.events_m() =~= pre.events_m().push(e@));
                self.lemma_record_new_thread_wf(pre, trace@, e@);
                assert(self.events_m() =~= pre.events_m() + seq![e@]);
            }
        } else {
            proof {
                assert(self.events_m() + Seq::<EventModel>::empty() =~= self.events_m());
            }
        }
    }

    /// The invariant survives registering a new thread: old threads' event
    /// sequences are untouched by the metadata event, and the new thread
    /// has no interval events yet and no open stack.
    proof fn lemma_record_new_thread_wf(&self, pre: Chrometrace, t: TraceModel, e: EventModel)
        requires
            pre.wf(),
            pre.order().len() < 0x1_0000_0000,
            !pre.tids().contains_key(t.thread_id),
            e == meta_event(t.pid, pre.order().len() as u32, t.thread_id, t.thread_name),
            self.tids() == pre.tids().insert(t.thread_id, pre.order().len() as u32),
            self.order() == pre.order().push(t.thread_id),
            self.prevs() == pre.prevs(),
            self.high_ts() == pre.high_ts(),
            self.lines_tracked() == pre.lines_tracked(),
            self.events_m() == pre.events_m().push(e),
        ensures
            self.wf(),
    {
        let n = pre.order().len() as int;
        assert(self.tids().dom() =~= pre.tids().dom().insert(t.thread_id));
        assert(self.tids().dom().len() == pre.tids().dom().len() + 1);
        // Old threads' interval events are untouched by the metadata event.
        assert forall|j: int| 0 <= j < n implies #[trigger] self.thread_open_ok(j) by {
            assert(pre.thread_open_ok(j));
            lemma_filter_push(
                pre.events_m(),
                |ev: EventModel| ev.tid == j as u32 && ev.ph != Phase::Metadata,
                e,
            );
            assert(thread_events(self.events_m(), j as u32) == thread_events(
                pre.events_m(),
                j as u32,
            ));
            assert(self.order()[j] == pre.order()[j]);
            assert(self.open_frames(self.order()[j]) == pre.open_frames(pre.order()[j]));
        }
        // The new thread has no interval events and no open stack.
        assert(self.thread_open_ok(n)) by {
            assert forall|i: int| 0 <= i < self.events_m().len() implies (#[trigger] self
                .events_m()[i]).tid != n as u32 || self.events_m()[i].ph == Phase::Metadata by {
                if i < pre.events_m().len() {
                    assert(self.events_m()[i] == pre.events_m()[i]);
                }
            }
            lemma_thread_events_none(self.events_m(), n as u32);
            assert(!pre.prevs().contains_key(t.thread_id));
            assert(self.open_frames(t.thread_id) =~= Seq::<FrameModel>::empty());
        }
        assert forall|i: int|
            0 <= i < self.events_m().len() && (#[trigger] self.events_m()[i]).ph != Phase::Metadata
        implies (self.events_m()[i].tid as int) < self.order().len() by {
            if i < pre.events_m().len() {
                assert(self.events_m()[i] == pre.events_m()[i]);
            }
        }
        if !self.lines_tracked() {
            assert forall|i: int| 0 <= i < self.events_m().len() implies (#[trigger] self
                .events_m()[i]).args.line is None by {
                if i < pre.events_m().len() {
                    assert(self.events_m()[i] == pre.events_m()[i]);
                }
            }
        }
    }

    /// Feeds one sample taken at session time `now` (microseconds since the
    /// engine started, not before any earlier timestamp): registers the
    /// thread if unseen, emits End events for the frames of the thread's
    /// previous stack that are gone (innermost first), then Begin events
    /// for the frames new in this sample (outermost first), and stores the
    /// sample as the thread's open stack.
    #[verifier::rlimit(100)]
    pub fn increment_at(&mut self, trace: &StackTrace, now: u64)
        requires
            old(self).wf(),
            now >= old(self).high_ts(),
            old(self).order().len() < 0x1_0000_0000,
        ensures
            final(self).wf(),
            increment_rel(*old(self), *final(self), trace@, now),
    {
        let ghost pre = *self;

        // Maybe add metadata for a new thread.
        self.record_new_thread(trace);
        let tid = self.get_thread_id(trace);
        let ghost mid = *self;

        // Load the previous frames for this thread, empty if none.
        let prev_frames: Vec<Frame> = match self.prev_traces.remove(&trace.thread_id) {
            Some(t) => t.frames,
            None => Vec::new(),
        };
        let ghost p = pre.open_frames(trace.thread_id);
        let ghost c = trace@.frames;
        let ghost lines = pre.lines_tracked();
        let ghost hi0 = pre.high_ts();
        proof {
            assert(prev_frames@.map_values(|f: Frame| f@) =~= p);
            assert(self.prevs() =~= mid.prevs().remove(trace.thread_id));
        }
        let ghost mid2 = *self;

        // Find the count of root-aligned frames this sample shares with the
        // previous one.
        let m = prev_frames.len();
        let n = trace.frames.len();
        let min_len = if m < n {
            m
        } else {
            n
        };
        let mut sd: usize = 0;
        while sd < min_len && self.should_merge_frames(
            &prev_frames[m - 1 - sd],
            &trace.frames[n - 1 - sd],
        )
            invariant
                *self == mid2,
                sd <= min_len,
                min_len <= m,
                min_len <= n,
                min_len == m || min_len == n,
                m == prev_frames.len(),
                n == trace.frames.len(),
                p == prev_frames@.map_values(|f: Frame| f@),
                c == trace@.frames,
                lines == self.lines_tracked(),
                forall|i: int| 0 <= i < sd ==> #[trigger] root_merge(p, c, lines, i),
            decreases min_len - sd,
        {
            proof {
                assert(p[p.len() - 1 - sd] == prev_frames@[m - 1 - sd]@);
                assert(c[c.len() - 1 - sd] == trace.frames@[n - 1 - sd]@);
                assert(root_merge(p, c, lines, sd as int));
            }
            sd = sd + 1;
        }
        proof {
            lemma_shared_depth_is(p, c, lines, sd as nat);
        }

        let ghost base = mid.events_m();
        let ghost ends = Seq::new(
            (p.len() - sd) as nat,
            |i: int| span_event(Phase::End, trace@.pid, tid, p[i], now, lines),
        );
        let ghost begins = Seq::new(
            (c.len() - sd) as nat,
            |i: int| span_event(Phase::Begin, trace@.pid, tid, c[c.len() - sd - 1 - i], now, lines),
        );
        proof {
            assert(mid.tids()[trace.thread_id] == tid);
            assert((tid as int) < mid.order().len() && mid.order()[tid as int] == trace.thread_id);
            assert(mid.thread_open_ok(tid as int));
            assert(mid.open_frames(trace.thread_id) == p);
            assert(self.events_m() =~= base + ends.take(0));
        }

        // Publish End events for the previous frames dropped in this
        // sample, innermost first.
        let end_count = m - sd;
        let mut i: usize = 0;
        while i < end_count
            invariant
                i <= end_count,
                end_count == m - sd,
                sd == shared_depth(p, c, lines),
                sd <= m,
                sd <= n,
                m == prev_frames.len(),
                n == trace.frames.len(),
                p == prev_frames@.map_values(|f: Frame| f@),
                c == trace@.frames,
                p.len() == m,
                c.len() == n,
                mid.tids().contains_key(trace.thread_id),
                tid == mid.tids()[trace.thread_id],
                self.tids() == mid.tids(),
                self.order() == mid.order(),
                self.prevs() == mid2.prevs(),
                self.lines_tracked() == lines,
                self.high_ts() == hi0,
                now >= hi0,
                ends.len() == m - sd,
                forall|k: int|
                    0 <= k < ends.len() ==> #[trigger] ends[k] == span_event(
                        Phase::End,
                        trace@.pid,
                        tid,
                        p[k],
                        now,
                        lines,
                    ),
                self.events_m() == base + ends.take(i as int),
                replay(thread_events(self.events_m(), tid)) matches Some(st) && stack_matches(
                    st,
                    p,
                    i as int,
                    tid,
                    hi0,
                    lines,
                ),
            decreases end_count - i,
        {
            let e = self.event(trace, &prev_frames[i], Phase::End, now);
            let ghost evs0 = self.events_m();
            let ghost st0 = replay(thread_events(evs0, tid))->Some_0;
            self.events.push(e);
            i = i + 1;
            proof {
                assert(e@ == span_event(Phase::End, trace@.pid, tid, p[i - 1], now, lines));
                assert(self.events_m() =~= evs0.push(e@));
                lemma_thread_events_push(evs0, e@, tid);
                lemma_replay_push(thread_events(evs0, tid), e@);
                assert(st0.len() == p.len() - (i - 1));
                assert(begin_for(st0[st0.len() - 1], p[p.len() - 1 - (st0.len() - 1)], tid, hi0, lines));
                assert(p[p.len() - 1 - (st0.len() - 1)] == p[i - 1]);
                assert(closes(st0.last(), e@));
                assert(replay(thread_events(self.events_m(), tid)) == Some(st0.drop_last()));
                assert(stack_matches(st0.drop_last(), p, i as int, tid, hi0, lines));
                assert(ends.take(i as int) =~= ends.take(i - 1).push(e@));
                assert(self.events_m() =~= base + ends.take(i as int));
            }
        }

        // The outermost `sd` open Begin events also record the shared root
        // frames of the new sample.
        proof {
            assert(ends.take(end_count as int) =~= ends);
            lemma_shared_depth_matches(p, c, lines);
            let st_e = replay(thread_events(self.events_m(), tid))->Some_0;
            assert(st_e.len() == sd);
            assert forall|j: int| 0 <= j < st_e.len() implies begin_for(
                #[trigger] st_e[j],
                c[c.len() - 1 - j],
                tid,
                now,
                lines,
            ) by {
                assert(begin_for(st_e[j], p[p.len() - 1 - j], tid, hi0, lines));
                assert(root_merge(p, c, lines, j));
            }
            assert(stack_matches(st_e, c, c.len() - sd, tid, now, lines));
            assert(self.events_m() =~= base + ends + begins.take(0));
        }

        // Publish Begin events for frames added in this sample, outermost
        // first.
        let begin_count = n - sd;
        let mut k: usize = 0;
        while k < begin_count
            invariant
                k <= begin_count,
                begin_count == n - sd,
                sd == shared_depth(p, c, lines),
                sd <= m,
                sd <= n,
                n == trace.frames.len(),
                c == trace@.frames,
                c.len() == n,
                mid.tids().contains_key(trace.thread_id),
                tid == mid.tids()[trace.thread_id],
                self.tids() == mid.tids(),
                self.order() == mid.order(),
                self.prevs() == mid2.prevs(),
                self.lines_tracked() == lines,
                self.high_ts() == hi0,
                now >= hi0,
                begins.len() == n - sd,
                forall|j: int|
                    0 <= j < begins.len() ==> #[trigger] begins[j] == span_event(
                        Phase::Begin,
                        trace@.pid,
                        tid,
                        c[c.len() - sd - 1 - j],
                        now,
                        lines,
                    ),
                self.events_m() == base + ends + begins.take(k as int),
                replay(thread_events(self.events_m(), tid)) matches Some(st) && stack_matches(
                    st,
                    c,
                    c.len() - sd - k,
                    tid,
                    now,
                    lines,
                ),
            decreases begin_count - k,
        {
            let e = self.event(trace, &trace.frames[n - sd - 1 - k], Phase::Begin, now);
            let ghost evs0 = self.events_m();
            let ghost st0 = replay(thread_events(evs0, tid))->Some_0;
            self.events.push(e);
            k = k + 1;
            proof {
                assert(e@ == span_event(Phase::Begin, trace@.pid, tid, c[c.len() - sd - 1 - (k - 1)], now, lines));
                assert(self.events_m() =~= evs0.push(e@));
                lemma_thread_events_push(evs0, e@, tid);
                lemma_replay_push(thread_events(evs0, tid), e@);
                assert(replay(thread_events(self.events_m(), tid)) == Some(st0.push(e@)));
                assert(st0.push(e@).len() == c.len() - (c.len() - sd - k));
                assert forall|j: int| 0 <= j < st0.push(e@).len() implies begin_for(
                    #[trigger] st0.push(e@)[j],
                    c[c.len() - 1 - j],
                    tid,
                    now,
                    lines,
                ) by {
                    if j < st0.len() {
                        assert(st0.push(e@)[j] == st0[j]);
                    } else {
                        assert(st0.push(e@)[j] == e@);
                        assert(c.len() - 1 - j == c.len() - sd - 1 - (k - 1));
                    }
                }
                assert(stack_matches(st0.push(e@), c, c.len() - sd - k, tid, now, lines));
                assert(begins.take(k as int) =~= begins.take(k - 1).push(e@));
                assert(self.events_m() =~= base + ends + begins.take(k as int));
            }
        }

        // Save this stack trace for the next iteration; a thread whose
        // stack fully unwound keeps no entry until it reappears.
        if trace.frames.len() > 0 {
            self.prev_traces.insert(trace.thread_id, trace.clone());
        }
        self.last_ts = now;

        proof {
            assert(begins.take(begin_count as int) =~= begins);
            if c.len() == 0 {
                assert(self.prevs() =~= mid.prevs().remove(trace.thread_id));
            } else {
                assert(self.prevs() =~= mid2.prevs().insert(trace.thread_id, trace@));
                assert(self.prevs() =~= mid.prevs().insert(trace.thread_id, trace@));
            }
            let added = ends + begins;
            assert(self.events_m() =~= mid.events_m() + added);
            assert forall|j: int| 0 <= j < added.len() implies (#[trigger] added[j]).tid == tid
                && added[j].ph != Phase::Metadata && (added[j].args.line is Some ==> lines) by {
                if j < ends.len() {
                    assert(added[j] == ends[j]);
                } else {
                    assert(added[j] == begins[j - ends.len()]);
                }
            }
            let st_fin = replay(thread_events(self.events_m(), tid))->Some_0;
            assert(stack_matches(st_fin, c, 0, tid, now, lines));
            assert(stack_matches(st_fin, trace@.frames, 0, tid, now, mid.lines_tracked()));
            self.lemma_increment_wf(mid, trace@, tid, now, added);

            // The appended events are exactly what `increment_emits` says.
            let known = pre.tids().contains_key(trace.thread_id);
            let emitted = increment_emits(known, tid, p, trace@, now, lines);
            assert(emitted =~= (if known {
                Seq::<EventModel>::empty()
            } else {
                seq![meta_event(trace@.pid, tid, trace@.thread_id, trace@.thread_name)]
            }) + ends + begins);
            assert(self.events_m() =~= pre.events_m() + emitted);
            assert(self.prevs() =~= if trace@.frames.len() == 0 {
                pre.prevs().remove(trace@.thread_id)
            } else {
                pre.prevs().insert(trace@.thread_id, trace@)
            });
            assert(increment_rel(pre, *self, trace@, now));
        }
    }

    /// The invariant survives one `increment`: other threads' interval
    /// events are untouched by the appended events, and the sample's thread
    /// replays to exactly the sample's frames.
    proof fn lemma_increment_wf(
        &self,
        mid: Chrometrace,
        t: TraceModel,
        tid: u32,
        now: u64,
        added: Seq<EventModel>,
    )
        requires
            mid.wf(),
            mid.order().len() <= 0x1_0000_0000,
            now >= mid.high_ts(),
            mid.tids().contains_key(t.thread_id),
            tid == mid.tids()[t.thread_id],
            self.tids() == mid.tids(),
            self.order() == mid.order(),
            self.lines_tracked() == mid.lines_tracked(),
            self.high_ts() == now,
            self.prevs() == if t.frames.len() == 0 {
                mid.prevs().remove(t.thread_id)
            } else {
                mid.prevs().insert(t.thread_id, t)
            },
            self.events_m() == mid.events_m() + added,
            forall|i: int|
                0 <= i < added.len() ==> (#[trigger] added[i]).tid == tid && added[i].ph
                    != Phase::Metadata && (added[i].args.line is Some ==> mid.lines_tracked()),
            replay(thread_events(self.events_m(), tid)) matches Some(st) && stack_matches(
                st,
                t.frames,
                0,
                tid,
                now,
                mid.lines_tracked(),
            ),
        ensures
            self.wf(),
    {
        let n = self.order().len() as int;
        assert((tid as int) < n && mid.order()[tid as int] == t.thread_id);
        assert forall|j: int| 0 <= j < n implies #[trigger] self.thread_open_ok(j) by {
            if j == tid as int {
                let st = replay(thread_events(self.events_m(), tid))->Some_0;
                if t.frames.len() == 0 {
                    assert(!self.prevs().contains_key(t.thread_id));
                    assert(self.open_frames(t.thread_id) =~= Seq::<FrameModel>::empty());
                    assert(st.len() == 0);
                } else {
                    assert(self.prevs().contains_key(t.thread_id));
                    assert(self.prevs()[t.thread_id] == t);
                    assert(self.open_frames(t.thread_id) == t.frames);
                }
                assert(stack_matches(st, self.open_frames(self.order()[j]), 0, j as u32, now, self.lines_tracked()));
            } else {
                assert(mid.thread_open_ok(j));
                assert(j as u32 != tid);
                lemma_thread_events_add(mid.events_m(), added, j as u32);
                lemma_thread_events_none(added, j as u32);
                assert(thread_events(self.events_m(), j as u32) =~= thread_events(
                    mid.events_m(),
                    j as u32,
                ));
                assert(mid.tids()[mid.order()[j]] == j as u32);
                assert(mid.order()[j] != t.thread_id);
                assert(self.open_frames(self.order()[j]) == mid.open_frames(mid.order()[j]));
                let st = replay(thread_events(mid.events_m(), j as u32))->Some_0;
                assert(stack_matches(st, mid.open_frames(mid.order()[j]), 0, j as u32, mid.high_ts(), mid.lines_tracked()));
                assert forall|jj: int| 0 <= jj < st.len() implies begin_for(
                    #[trigger] st[jj],
                    mid.open_frames(mid.order()[j])[mid.open_frames(mid.order()[j]).len() - 1 - jj],
                    j as u32,
                    now,
                    mid.lines_tracked(),
                ) by {
                    assert(begin_for(
                        st[jj],
                        mid.open_frames(mid.order()[j])[mid.open_frames(mid.order()[j]).len() - 1 - jj],
                        j as u32,
                        mid.high_ts(),
                        mid.lines_tracked(),
                    ));
                }
                assert(stack_matches(st, self.open_frames(self.order()[j]), 0, j as u32, now, self.lines_tracked()));
            }
        }
        assert forall|i: int|
            0 <= i < self.events_m().len() && (#[trigger] self.events_m()[i]).ph != Phase::Metadata
        implies (self.events_m()[i].tid as int) < self.order().len() by {
            if i < mid.events_m().len() {
                assert(self.events_m()[i] == mid.events_m()[i]);
            } else {
                assert(self.events_m()[i] == added[i - mid.events_m().len()]);
            }
        }
        if !self.lines_tracked() {
            assert forall|i: int| 0 <= i < self.events_m().len() implies (#[trigger] self
                .events_m()[i]).args.line is None by {
                if i < mid.events_m().len() {
                    assert(self.events_m()[i] == mid.events_m()[i]);
                } else {
                    assert(self.events_m()[i] == added[i - mid.events_m().len()]);
                }
            }
        }
    }

    /// Feeds one sample, stamped with the elapsed time of the session's
    /// monotonic clock.  An absent previous stack is treated as an empty
    /// stack, never an error; the call itself cannot fail.
    pub fn increment(&mut self, trace: &StackTrace) -> (r: std::io::Result<()>)
        requires
            old(self).wf(),
            old(self).order().len() < 0x1_0000_0000,
        ensures
            final(self).wf(),
            r is Ok,
            exists|now: u64| #[trigger] increment_rel(*old(self), *final(self), trace@, now),
    {
        let raw = elapsed_micros(&self.start_ts);
        // The clock is monotone, but nothing verified may depend on that:
        // never step timestamps backwards.
        let now = if raw < self.last_ts {
            self.last_ts
        } else {
            raw
        };
        self.increment_at(trace, now);
        Ok(())
    }

    /// Builds the interval event recording `frame` for the sample's thread.
    fn event(&self, trace: &StackTrace, frame: &Frame, phase: Phase, ts: u64) -> (e: Event)
        requires
            self.tids().contains_key(trace.thread_id),
        ensures
            e@ == span_event(
                phase,
                trace.pid,
                self.tids()[trace.thread_id],
                frame@,
                ts,
                self.lines_tracked(),
            ),
    {
        Event {
            tid: self.get_thread_id(trace),
            pid: trace.pid,
            name: frame.name.clone(),
            cat: "py-spy".to_string(),
            ph: phase,
            ts,
            args: crate::event::Args {
                filename: frame.filename.clone(),
                line: if self.show_linenumbers {
                    Some(frame.line)
                } else {
                    None
                },
                name: None,
            },
        }
    }

    /// Builds the full output event sequence as of session time `now`: the
    /// accumulated events, followed by synthesized End events closing every
    /// still-open frame, per thread in first-seen order, innermost first.
    /// Engine state is untouched.  In the result, every thread's interval
    /// events are properly nested and completely closed: each Begin is
    /// matched by exactly one later End whose timestamp is no earlier.
    #[verifier::rlimit(100)]
    pub fn finalize_events_at(&self, now: u64) -> (evs: Vec<Event>)
        requires
            self.wf(),
            now >= self.high_ts(),
            self.order().len() <= 0x1_0000_0000,
        ensures
            finalize_rel(*self, models(evs@), now),
            forall|tid: u32|
                replay(thread_events(models(evs@), tid)) == Some(Seq::<EventModel>::empty()),
            !self.lines_tracked() ==> forall|i: int|
                0 <= i < models(evs@).len() ==> (#[trigger] models(evs@)[i]).args.line is None,
    {
        let ghost lines = self.lines_tracked();
        let mut evs: Vec<Event> = Vec::new();
        let mut i: usize = 0;
        while i < self.events.len()
            invariant
                i <= self.events.len(),
                evs@.len() == i,
                forall|q: int| 0 <= q < i ==> evs@[q]@ == self.events@[q]@,
            decreases self.events.len() - i,
        {
            evs.push(self.events[i].clone());
            i = i + 1;
        }
        proof {
            assert(models(evs@) =~= self.events_m());
            assert forall|q: int| 0 <= q < self.order().len() implies #[trigger] thread_still_open(
                models(evs@),
                self.open_frames(self.order()[q]),
                q as u32,
                now,
                lines,
            ) by {
                assert(self.thread_open_ok(q));
                let st = replay(thread_events(self.events_m(), q as u32))->Some_0;
                let frames = self.open_frames(self.order()[q]);
                assert forall|jj: int| 0 <= jj < st.len() implies begin_for(
                    #[trigger] st[jj],
                    frames[frames.len() - 1 - jj],
                    q as u32,
                    now,
                    lines,
                ) by {
                    assert(begin_for(st[jj], frames[frames.len() - 1 - jj], q as u32, self.high_ts(), lines));
                }
                assert(stack_matches(st, frames, 0, q as u32, now, lines));
            }
            assert(models(evs@) =~= self.events_m() + closing_events(
                self.order().take(0),
                self.prevs(),
                self.tids(),
                now,
                lines,
            ));
        }

        // Add End events for any unfinished stacks, in first-seen thread
        // order.
        let mut j: usize = 0;
        while j < self.thread_order.len()
            invariant
                j <= self.thread_order.len(),
                self.wf(),
                now >= self.high_ts(),
                self.order().len() <= 0x1_0000_0000,
                lines == self.lines_tracked(),
                models(evs@) == self.events_m() + closing_events(
                    self.order().take(j as int),
                    self.prevs(),
                    self.tids(),
                    now,
                    lines,
                ),
                forall|q: int|
                    0 <= q < j ==> #[trigger] replay(thread_events(models(evs@), q as u32))
                        == Some(Seq::<EventModel>::empty()),
                forall|q: int|
                    j <= q < self.order().len() ==> #[trigger] thread_still_open(
                        models(evs@),
                        self.open_frames(self.order()[q]),
                        q as u32,
                        now,
                        lines,
                    ),
            decreases self.thread_order.len() - j,
        {
            let id = self.thread_order[j];
            let ghost evm0 = models(evs@);
            proof {
                assert(self.tids().contains_key(id) && self.tids()[id] == j as u32);
                assert(thread_still_open(evm0, self.open_frames(id), j as u32, now, lines));
            }
            match self.prev_traces.get(&id) {
                Some(tr) => {
                    proof {
                        assert(self.prevs().contains_key(id));
                        assert(self.prevs()[id] == tr@);
                        assert(tr.thread_id == id);
                        assert(self.open_frames(id) == tr@.frames);
                    }
                    let mut fi: usize = 0;
                    while fi < tr.frames.len()
                        invariant
                            fi <= tr.frames.len(),
                            self.wf(),
                            now >= self.high_ts(),
                            self.order().len() <= 0x1_0000_0000,
                            lines == self.lines_tracked(),
                            self.prevs().contains_key(id),
                            tr@ == self.prevs()[id],
                            tr.thread_id == id,
                            self.tids().contains_key(id),
                            self.tids()[id] == j as u32,
                            j < self.order().len(),
                            models(evs@) == evm0 + Seq::new(
                                fi as nat,
                                |x: int| span_event(Phase::End, tr@.pid, j as u32, tr@.frames[x], now, lines),
                            ),
                            replay(thread_events(models(evs@), j as u32)) matches Some(st)
                                && stack_matches(st, tr@.frames, fi as int, j as u32, now, lines),
                            forall|q: int|
                                0 <= q < j ==> #[trigger] replay(
                                    thread_events(models(evs@), q as u32),
                                ) == Some(Seq::<EventModel>::empty()),
                            forall|q: int|
                                j < q < self.order().len() ==> #[trigger] thread_still_open(
                                    models(evs@),
                                    self.open_frames(self.order()[q]),
                                    q as u32,
                                    now,
                                    lines,
                                ),
                        decreases tr.frames.len() - fi,
                    {
                        let e = self.event(tr, &tr.frames[fi], Phase::End, now);
                        let ghost evsm = models(evs@);
                        let ghost st0 = replay(thread_events(evsm, j as u32))->Some_0;
                        evs.push(e);
                        fi = fi + 1;
                        proof {
                            assert(e@ == span_event(
                                Phase::End,
                                tr@.pid,
                                j as u32,
                                tr@.frames[fi - 1],
                                now,
                                lines,
                            ));
                            assert(models(evs@) =~= evsm.push(e@));
                            lemma_thread_events_push(evsm, e@, j as u32);
                            lemma_replay_push(thread_events(evsm, j as u32), e@);
                            assert(st0.len() == tr@.frames.len() - (fi - 1));
                            assert(begin_for(
                                st0[st0.len() - 1],
                                tr@.frames[tr@.frames.len() - 1 - (st0.len() - 1)],
                                j as u32,
                                now,
                                lines,
                            ));
                            assert(tr@.frames[tr@.frames.len() - 1 - (st0.len() - 1)]
                                == tr@.frames[fi - 1]);
                            assert(closes(st0.last(), e@));
                            assert(replay(thread_events(models(evs@), j as u32)) == Some(
                                st0.drop_last(),
                            ));
                            assert(stack_matches(
                                st0.drop_last(),
                                tr@.frames,
                                fi as int,
                                j as u32,
                                now,
                                lines,
                            ));
                            assert(Seq::new(
                                fi as nat,
                                |x: int| span_event(Phase::End, tr@.pid, j as u32, tr@.frames[x], now, lines),
                            ) =~= Seq::new(
                                (fi - 1) as nat,
                                |x: int| span_event(Phase::End, tr@.pid, j as u32, tr@.frames[x], now, lines),
                            ).push(e@));
                            assert(models(evs@) =~= evm0 + Seq::new(
                                fi as nat,
                                |x: int| span_event(Phase::End, tr@.pid, j as u32, tr@.frames[x], now, lines),
                            ));
                            assert forall|q: int| 0 <= q < j implies #[trigger] replay(
                                thread_events(models(evs@), q as u32),
                            ) == Some(Seq::<EventModel>::empty()) by {
                                lemma_thread_events_push(evsm, e@, q as u32);
                            }
                            assert forall|q: int|
                                j < q < self.order().len() implies #[trigger] thread_still_open(
                                models(evs@),
                                self.open_frames(self.order()[q]),
                                q as u32,
                                now,
                                lines,
                            ) by {
                                assert(thread_still_open(
                                    evsm,
                                    self.open_frames(self.order()[q]),
                                    q as u32,
                                    now,
                                    lines,
                                ));
                                assert(e@.tid == j as u32);
                                assert((q as u32) != (j as u32));
                                lemma_thread_events_push(evsm, e@, q as u32);
                                assert(thread_events(models(evs@), q as u32) == thread_events(
                                    evsm,
                                    q as u32,
                                ));
                            }
                        }
                    }
                    proof {
                        let st_end = replay(thread_events(models(evs@), j as u32))->Some_0;
                        assert(st_end.len() == 0);
                        assert(st_end =~= Seq::<EventModel>::empty());
                        assert(Seq::new(
                            tr@.frames.len(),
                            |x: int| span_event(Phase::End, tr@.pid, j as u32, tr@.frames[x], now, lines),
                        ) =~= thread_closings(self.prevs(), id, j as u32, now, lines));
                        assert(models(evs@) =~= evm0 + thread_closings(
                            self.prevs(),
                            id,
                            j as u32,
                            now,
                            lines,
                        ));
                    }
                },
                None => {
                    proof {
                        assert(!self.prevs().contains_key(id));
                        assert(self.open_frames(id) =~= Seq::<FrameModel>::empty());
                        let st = replay(thread_events(evm0, j as u32))->Some_0;
                        assert(st.len() == 0);
                        assert(st =~= Seq::<EventModel>::empty());
                        assert(thread_closings(self.prevs(), id, j as u32, now, lines)
                            =~= Seq::<EventModel>::empty());
                        assert(models(evs@) =~= evm0 + thread_closings(
                            self.prevs(),
                            id,
                            j as u32,
                            now,
                            lines,
                        ));
                    }
                },
            }
            proof {
                let o1 = self.order().take(j + 1);
                assert(o1.drop_last() =~= self.order().take(j as int));
                assert(o1.last() == self.order()[j as int]);
                assert(closing_events(o1, self.prevs(), self.tids(), now, lines)
                    == closing_events(self.order().take(j as int), self.prevs(), self.tids(), now, lines)
                    + thread_closings(self.prevs(), id, j as u32, now, lines));
                assert(models(evs@) =~= self.events_m() + closing_events(
                    o1,
                    self.prevs(),
                    self.tids(),
                    now,
                    lines,
                ));
            }
            j = j + 1;
        }

        proof {
            assert(self.order().take(self.order().len() as int) =~= self.order());
            lemma_closing_events_props(
                self.order(),
                self.prevs(),
                self.tids(),
                now,
                lines,
                self.order().len() as int,
            );
            let closings = closing_events(self.order(), self.prevs(), self.tids(), now, lines);
            assert forall|tid: u32|
                replay(thread_events(models(evs@), tid)) == Some(
                    Seq::<EventModel>::empty(),
                ) by {
                if (tid as int) < self.order().len() {
                    assert(replay(thread_events(models(evs@), (tid as int) as u32)) == Some(
                        Seq::<EventModel>::empty(),
                    ));
                } else {
                    assert forall|i2: int| 0 <= i2 < models(evs@).len() implies ((#[trigger] models(
                        evs@,
                    )[i2]).tid != tid || models(evs@)[i2].ph == Phase::Metadata) by {
                        if i2 < self.events_m().len() {
                            assert(models(evs@)[i2] == self.events_m()[i2]);
                        } else {
                            assert(models(evs@)[i2] == closings[i2 - self.events_m().len()]);
                        }
                    }
                    lemma_thread_events_none(models(evs@), tid);
                }
            }
            if !lines {
                assert forall|i2: int| 0 <= i2 < models(evs@).len() implies (#[trigger] models(
                    evs@,
                )[i2]).args.line is None by {
                    if i2 < self.events_m().len() {
                        assert(models(evs@)[i2] == self.events_m()[i2]);
                    } else {
                        assert(models(evs@)[i2] == closings[i2 - self.events_m().len()]);
                    }
                }
            }
        }
        evs
    }

    /// Builds the output event sequence, closing still-open stacks at the
    /// session clock's current elapsed time.  Engine state is untouched, so
    /// repeated calls each re-synthesize fresh closing events.
    pub fn finalize_events(&self) -> (evs: Vec<Event>)
        requires
            self.wf(),
            self.order().len() <= 0x1_0000_0000,
        ensures
            exists|now: u64| #[trigger] finalize_rel(*self, models(evs@), now),
            forall|tid: u32|
                replay(thread_events(models(evs@), tid)) == Some(Seq::<EventModel>::empty()),
            !self.lines_tracked() ==> forall|i: int|
                0 <= i < models(evs@).len() ==> (#[trigger] models(evs@)[i]).args.line is None,
    {
        let raw = elapsed_micros(&self.start_ts);
        // The clock is monotone, but nothing verified may depend on that:
        // never step timestamps backwards.
        let now = if raw < self.last_ts {
            self.last_ts
        } else {
            raw
        };
        let evs = self.finalize_events_at(now);
        proof {
            assert(finalize_rel(*self, models(evs@), now));
        }
        evs
    }
}

} // verus!
