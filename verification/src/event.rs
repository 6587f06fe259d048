//! Emitted trace events, their mathematical models, and the replay
//! discipline that states what it means for a thread's Begin/End events to
//! be properly nested.

use vstd::prelude::*;

use crate::trace::FrameModel;

verus! {

/// Phase of a trace event: interval begin, interval end, or metadata.
#[derive(Clone, Copy, Debug, PartialEq, Eq, Structural)]
pub enum Phase {
    Begin,
    End,
    Metadata,
}

/// The `args` object of an event.  `line` is present only when line
/// tracking is on; `name` is present only on thread-name metadata events.
#[derive(Debug, PartialEq, Eq)]
pub struct Args {
    pub filename: String,
    pub line: Option<u32>,
    pub name: Option<String>,
}

/// One trace event, ready for serialization.
#[derive(Debug, PartialEq, Eq)]
pub struct Event {
    pub args: Args,
    pub cat: String,
    pub name: String,
    pub ph: Phase,
    pub pid: u64,
    pub tid: u32,
    pub ts: u64,
}

/// The mathematical value of an [`Args`].
#[verifier::ext_equal]
pub struct ArgsModel {
    pub filename: Seq<char>,
    pub line: Option<u32>,
    pub name: Option<Seq<char>>,
}

/// The mathematical value of an [`Event`].
#[verifier::ext_equal]
pub struct EventModel {
    pub args: ArgsModel,
    pub cat: Seq<char>,
    pub name: Seq<char>,
    pub ph: Phase,
    pub pid: u64,
    pub tid: u32,
    pub ts: u64,
}

impl View for Args {
    type V = ArgsModel;

    open spec fn view(&self) -> ArgsModel {
        ArgsModel {
            filename: self.filename@,
            line: self.line,
            name: match self.name {
                Some(n) => Some(n@),
                None => None,
            },
        }
    }
}

impl View for Event {
    type V = EventModel;

    open spec fn view(&self) -> EventModel {
        EventModel {
            args: self.args@,
            cat: self.cat@,
            name: self.name@,
            ph: self.ph,
            pid: self.pid,
            tid: self.tid,
            ts: self.ts,
        }
    }
}

impl Clone for Args {
    fn clone(&self) -> (r: Self)
        ensures
            r@ == self@,
    {
        Args {
            filename: self.filename.clone(),
            line: self.line,
            name: match &self.name {
                Some(n) => Some(n.clone()),
                None => None,
            },
        }
    }
}

impl Clone for Event {
    fn clone(&self) -> (r: Self)
        ensures
            r@ == self@,
    {
        Event {
            args: self.args.clone(),
            cat: self.cat.clone(),
            name: self.name.clone(),
            ph: self.ph,
            pid: self.pid,
            tid: self.tid,
            ts: self.ts,
        }
    }
}

/// The models of a sequence of events.
pub open spec fn models(s: Seq<Event>) -> Seq<EventModel> {
    s.map_values(|e: Event| e@)
}

/// The fixed category label identifying the source instrument, carried by
/// every emitted event.
pub open spec fn category() -> Seq<char> {
    "py-spy"@
}

/// The interval event (Begin or End) recording `f` for remapped thread
/// `tid` at time `ts`.  The `line` argument is present exactly when line
/// tracking is on.
pub open spec fn span_event(ph: Phase, pid: u64, tid: u32, f: FrameModel, ts: u64, lines: bool) -> EventModel {
    EventModel {
        args: ArgsModel {
            filename: f.filename,
            line: if lines {
                Some(f.line)
            } else {
                None
            },
            name: None,
        },
        cat: category(),
        name: f.name,
        ph,
        pid,
        tid,
        ts,
    }
}

/// The decimal digit characters of `n`, most significant first.
pub open spec fn decimal(n: nat) -> Seq<char>
    decreases n,
{
    if n < 10 {
        seq![digit_char(n)]
    } else {
        decimal(n / 10).push(digit_char(n % 10))
    }
}

/// The character for one decimal digit.
pub open spec fn digit_char(d: nat) -> char {
    if d == 0 {
        '0'
    } else if d == 1 {
        '1'
    } else if d == 2 {
        '2'
    } else if d == 3 {
        '3'
    } else if d == 4 {
        '4'
    } else if d == 5 {
        '5'
    } else if d == 6 {
        '6'
    } else if d == 7 {
        '7'
    } else if d == 8 {
        '8'
    } else {
        '9'
    }
}

/// The display label of a thread: its native id in decimal, a separator,
/// and its name (empty when the thread has none).
pub open spec fn thread_label(id: u64, name: Option<Seq<char>>) -> Seq<char> {
    decimal(id as nat) + ": "@ + match name {
        Some(n) => n,
        None => Seq::empty(),
    }
}

/// The one-time metadata event announcing a newly seen thread.
pub open spec fn meta_event(pid: u64, tid: u32, id: u64, name: Option<Seq<char>>) -> EventModel {
    EventModel {
        args: ArgsModel { filename: Seq::empty(), line: None, name: Some(thread_label(id, name)) },
        cat: category(),
        name: "thread_name"@,
        ph: Phase::Metadata,
        pid,
        tid,
        ts: 0,
    }
}

/// Whether End event `e` closes the open Begin event `b`: same thread, same
/// function name, file and emitted line argument, and no earlier timestamp.
pub open spec fn closes(b: EventModel, e: EventModel) -> bool {
    &&& b.ph == Phase::Begin
    &&& e.ph == Phase::End
    &&& e.tid == b.tid
    &&& e.name == b.name
    &&& e.args.filename == b.args.filename
    &&& e.args.line == b.args.line
    &&& b.ts <= e.ts
}

/// One step of the replay of a thread's interval events: a Begin pushes
/// itself on the stack of open intervals, an End must close the innermost
/// open Begin, and anything else fails.
pub open spec fn replay_step(r: Option<Seq<EventModel>>, e: EventModel) -> Option<Seq<EventModel>> {
    match r {
        None => None,
        Some(st) => {
            if e.ph == Phase::Begin {
                Some(st.push(e))
            } else if e.ph == Phase::End {
                if st.len() > 0 && closes(st.last(), e) {
                    Some(st.drop_last())
                } else {
                    None
                }
            } else {
                Some(st)
            }
        },
    }
}

/// Replays a thread's interval events from an empty stack.  `Some(st)`
/// means every End so far closed the innermost open Begin and `st` holds
/// the Begin events still open, outermost first; `None` means the events
/// are not properly nested.
pub open spec fn replay(s: Seq<EventModel>) -> Option<Seq<EventModel>>
    decreases s.len(),
{
    if s.len() == 0 {
        Some(Seq::empty())
    } else {
        replay_step(replay(s.drop_last()), s.last())
    }
}

/// The interval events belonging to remapped thread `tid`: metadata events
/// take no part in nesting.
pub open spec fn thread_events(s: Seq<EventModel>, tid: u32) -> Seq<EventModel> {
    s.filter(|e: EventModel| e.tid == tid && e.ph != Phase::Metadata)
}

/// Appending one event extends a filtered sequence by that event or not at
/// all, according to the predicate.
pub proof fn lemma_filter_push<A>(s: Seq<A>, pred: spec_fn(A) -> bool, x: A)
    ensures
        s.push(x).filter(pred) == if pred(x) {
            s.filter(pred).push(x)
        } else {
            s.filter(pred)
        },
{
    reveal(Seq::filter);
    assert(s.push(x).drop_last() =~= s);
    assert(s.push(x).last() == x);
}

/// Replaying one more event is one `replay_step`.
pub proof fn lemma_replay_push(s: Seq<EventModel>, e: EventModel)
    ensures
        replay(s.push(e)) == replay_step(replay(s), e),
{
    assert(s.push(e).drop_last() =~= s);
    assert(s.push(e).last() == e);
}

/// The number of metadata events in `s`.
pub open spec fn meta_count(s: Seq<EventModel>) -> nat {
    s.filter(|e: EventModel| e.ph == Phase::Metadata).len()
}

/// Metadata counts add over concatenation.
pub proof fn lemma_meta_count_add(s: Seq<EventModel>, t: Seq<EventModel>)
    ensures
        meta_count(s + t) == meta_count(s) + meta_count(t),
{
    Seq::filter_distributes_over_add(s, t, |e: EventModel| e.ph == Phase::Metadata);
}

/// A sequence without metadata events counts none.
pub proof fn lemma_meta_count_none(s: Seq<EventModel>)
    requires
        forall|i: int| 0 <= i < s.len() ==> (#[trigger] s[i]).ph != Phase::Metadata,
    ensures
        meta_count(s) == 0,
    decreases s.len(),
{
    reveal(Seq::filter);
    if s.len() > 0 {
        lemma_meta_count_none(s.drop_last());
        assert(s.last() == s[s.len() - 1]);
    }
}

/// One metadata event counts one.
pub proof fn lemma_meta_count_single(e: EventModel)
    requires
        e.ph == Phase::Metadata,
    ensures
        meta_count(seq![e]) == 1,
{
    reveal(Seq::filter);
    assert(seq![e].drop_last() =~= Seq::<EventModel>::empty());
    assert(seq![e].last() == e);
}

/// Appending one event extends a thread's interval events by that event if
/// it is an interval event of that thread, and not at all otherwise.
pub proof fn lemma_thread_events_push(s: Seq<EventModel>, e: EventModel, tid: u32)
    ensures
        thread_events(s.push(e), tid) == if e.tid == tid && e.ph != Phase::Metadata {
            thread_events(s, tid).push(e)
        } else {
            thread_events(s, tid)
        },
{
    reveal(Seq::filter);
    assert(s.push(e).drop_last() =~= s);
    assert(s.push(e).last() == e);
}

/// A thread's interval events distribute over concatenation.
pub proof fn lemma_thread_events_add(s: Seq<EventModel>, t: Seq<EventModel>, tid: u32)
    ensures
        thread_events(s + t, tid) == thread_events(s, tid) + thread_events(t, tid),
{
    Seq::filter_distributes_over_add(s, t, |e: EventModel| e.tid == tid && e.ph != Phase::Metadata);
}

/// A sequence with no event of thread `tid` filters to the empty sequence,
/// so its replay leaves no interval open.
pub proof fn lemma_thread_events_none(s: Seq<EventModel>, tid: u32)
    requires
        forall|i: int| 0 <= i < s.len() ==> (#[trigger] s[i]).tid != tid || s[i].ph == Phase::Metadata,
    ensures
        thread_events(s, tid) == Seq::<EventModel>::empty(),
        replay(thread_events(s, tid)) == Some(Seq::<EventModel>::empty()),
    decreases s.len(),
{
    reveal(Seq::filter);
    if s.len() > 0 {
        lemma_thread_events_none(s.drop_last(), tid);
        assert(s.last() == s[s.len() - 1]);
        assert(thread_events(s, tid) =~= Seq::<EventModel>::empty());
    }
}

} // verus!
