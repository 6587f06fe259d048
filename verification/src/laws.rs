//! Laws of the emission discipline, stated over the same models the public
//! contracts use and proved once for all inputs.

use vstd::prelude::*;

use crate::engine::{increment_emits, increment_rel, Chrometrace};
use crate::event::{
    lemma_meta_count_add, lemma_meta_count_none, lemma_meta_count_single, meta_count, meta_event,
    span_event, EventModel, Phase,
};
use crate::trace::{
    frame_merge, lemma_shared_depth_full, lemma_shared_depth_is, root_merge, shared_depth,
    FrameModel, TraceModel,
};

verus! {

/// An unchanged stack emits nothing: when a known thread's new sample has
/// as many frames as its previous one and every root-aligned pair merges
/// (same name and file, and same line when lines are tracked), `increment`
/// appends no events at all.
pub proof fn lemma_identical_sample_emits_nothing(
    tid: u32,
    p: Seq<FrameModel>,
    t: TraceModel,
    now: u64,
    lines: bool,
)
    requires
        p.len() == t.frames.len(),
        forall|i: int| 0 <= i < p.len() ==> frame_merge(#[trigger] p[i], t.frames[i], lines),
    ensures
        increment_emits(true, tid, p, t, now, lines) == Seq::<EventModel>::empty(),
{
    lemma_shared_depth_full(p, t.frames, lines);
    assert(increment_emits(true, tid, p, t, now, lines) =~= Seq::<EventModel>::empty());
}

/// Completely disjoint consecutive stacks (no frame pair merges at any
/// shared root-aligned position) emit exactly one event per frame of both
/// stacks: first an End for every previous frame, innermost first, then a
/// Begin for every new frame, outermost first.
pub proof fn lemma_disjoint_stacks_full_turnover(
    tid: u32,
    p: Seq<FrameModel>,
    t: TraceModel,
    now: u64,
    lines: bool,
)
    requires
        forall|i: int|
            0 <= i < p.len() && i < t.frames.len() ==> !#[trigger] root_merge(
                p,
                t.frames,
                lines,
                i,
            ),
    ensures
        increment_emits(true, tid, p, t, now, lines).len() == p.len() + t.frames.len(),
        forall|i: int|
            0 <= i < p.len() ==> #[trigger] increment_emits(true, tid, p, t, now, lines)[i]
                == span_event(Phase::End, t.pid, tid, p[i], now, lines),
        forall|i: int|
            0 <= i < t.frames.len() ==> #[trigger] increment_emits(true, tid, p, t, now, lines)[p.len() + i]
                == span_event(
                Phase::Begin,
                t.pid,
                tid,
                t.frames[t.frames.len() - 1 - i],
                now,
                lines,
            ),
{
    lemma_shared_depth_is(p, t.frames, lines, 0);
    let ev = increment_emits(true, tid, p, t, now, lines);
    assert(shared_depth(p, t.frames, lines) == 0);
    assert(ev.len() == p.len() + t.frames.len());
    assert forall|i: int| 0 <= i < p.len() implies #[trigger] ev[i] == span_event(
        Phase::End,
        t.pid,
        tid,
        p[i],
        now,
        lines,
    ) by {}
    assert forall|i: int| 0 <= i < t.frames.len() implies #[trigger] ev[p.len() + i] == span_event(
        Phase::Begin,
        t.pid,
        tid,
        t.frames[t.frames.len() - 1 - i],
        now,
        lines,
    ) by {}
}

/// Thread remapping is dense, first-seen-ordered and stable: `increment`
/// never changes an assigned id; an unseen thread gets id = count of
/// threads seen before it, whatever its native id's magnitude; and only an
/// unseen thread adds a metadata event — exactly one.
pub proof fn lemma_thread_ids_stable_and_dense(
    pre: Chrometrace,
    post: Chrometrace,
    t: TraceModel,
    now: u64,
)
    requires
        pre.wf(),
        pre.order().len() < 0x1_0000_0000,
        increment_rel(pre, post, t, now),
    ensures
        forall|u: u64|
            #[trigger] pre.tids().contains_key(u) ==> post.tids().contains_key(u)
                && post.tids()[u] == pre.tids()[u],
        post.tids().contains_key(t.thread_id),
        !pre.tids().contains_key(t.thread_id) ==> (post.tids()[t.thread_id] as int)
            == pre.tids().dom().len(),
        pre.tids().contains_key(t.thread_id) ==> meta_count(post.events_m()) == meta_count(
            pre.events_m(),
        ),
        !pre.tids().contains_key(t.thread_id) ==> meta_count(post.events_m()) == meta_count(
            pre.events_m(),
        ) + 1,
{
    let known = pre.tids().contains_key(t.thread_id);
    let tid = if known {
        pre.tids()[t.thread_id]
    } else {
        pre.order().len() as u32
    };
    let prev = pre.open_frames(t.thread_id);
    let lines = pre.lines_tracked();
    let emitted = increment_emits(known, tid, prev, t, now, lines);
    let sd = shared_depth(prev, t.frames, lines);
    let meta: Seq<EventModel> = if known {
        Seq::empty()
    } else {
        seq![meta_event(t.pid, tid, t.thread_id, t.thread_name)]
    };
    let ends = Seq::new(
        (prev.len() - sd) as nat,
        |i: int| span_event(Phase::End, t.pid, tid, prev[i], now, lines),
    );
    let begins = Seq::new(
        (t.frames.len() - sd) as nat,
        |i: int| span_event(Phase::Begin, t.pid, tid, t.frames[t.frames.len() - sd - 1 - i], now, lines),
    );
    assert(emitted == meta + ends + begins);
    lemma_meta_count_add(pre.events_m(), emitted);
    lemma_meta_count_add(meta + ends, begins);
    lemma_meta_count_add(meta, ends);
    lemma_meta_count_none(ends);
    lemma_meta_count_none(begins);
    if known {
        lemma_meta_count_none(meta);
    } else {
        lemma_meta_count_single(meta_event(t.pid, tid, t.thread_id, t.thread_name));
    }
    assert((meta + ends) + begins =~= meta + ends + begins);
}

/// With line tracking off, samples whose frames differ only in their line
/// numbers cause no churn: `increment` emits nothing for them.
pub proof fn lemma_lines_off_no_churn(tid: u32, p: Seq<FrameModel>, t: TraceModel, now: u64)
    requires
        p.len() == t.frames.len(),
        forall|i: int|
            0 <= i < p.len() ==> (#[trigger] p[i]).name == t.frames[i].name && p[i].filename
                == t.frames[i].filename,
    ensures
        increment_emits(true, tid, p, t, now, false) == Seq::<EventModel>::empty(),
{
    assert forall|i: int| 0 <= i < p.len() implies frame_merge(
        #[trigger] p[i],
        t.frames[i],
        false,
    ) by {}
    lemma_identical_sample_emits_nothing(tid, p, t, now, false);
}

} // verus!
