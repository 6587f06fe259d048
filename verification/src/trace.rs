//! The sampled values: one call-stack frame, and one whole stack snapshot.

use vstd::prelude::*;

verus! {

/// One call-stack level: function name, source file name, line number.
pub struct Frame {
    pub name: String,
    pub filename: String,
    pub line: u32,
}

/// The mathematical value of a [`Frame`].
#[verifier::ext_equal]
pub struct FrameModel {
    pub name: Seq<char>,
    pub filename: Seq<char>,
    pub line: u32,
}

impl View for Frame {
    type V = FrameModel;

    open spec fn view(&self) -> FrameModel {
        FrameModel { name: self.name@, filename: self.filename@, line: self.line }
    }
}

impl Clone for Frame {
    fn clone(&self) -> (r: Self)
        ensures
            r@ == self@,
    {
        Frame { name: self.name.clone(), filename: self.filename.clone(), line: self.line }
    }
}

/// One snapshot of a thread's call stack at an instant.  `frames` is ordered
/// innermost first: index 0 is the currently executing function, the last
/// index is the entry point (the root).
pub struct StackTrace {
    pub pid: u64,
    pub thread_id: u64,
    pub thread_name: Option<String>,
    pub frames: Vec<Frame>,
}

/// The mathematical value of a [`StackTrace`].
#[verifier::ext_equal]
pub struct TraceModel {
    pub pid: u64,
    pub thread_id: u64,
    pub thread_name: Option<Seq<char>>,
    pub frames: Seq<FrameModel>,
}

impl View for StackTrace {
    type V = TraceModel;

    open spec fn view(&self) -> TraceModel {
        TraceModel {
            pid: self.pid,
            thread_id: self.thread_id,
            thread_name: match self.thread_name {
                Some(n) => Some(n@),
                None => None,
            },
            frames: self.frames@.map_values(|f: Frame| f@),
        }
    }
}

impl Clone for StackTrace {
    fn clone(&self) -> (r: Self)
        ensures
            r@ == self@,
    {
        let mut frames: Vec<Frame> = Vec::new();
        let mut i: usize = 0;
        while i < self.frames.len()
            invariant
                i <= self.frames.len(),
                frames@.len() == i,
                forall|j: int| 0 <= j < i ==> frames@[j]@ == self.frames@[j]@,
            decreases self.frames.len() - i,
        {
            frames.push(self.frames[i].clone());
            i = i + 1;
        }
        let thread_name = match &self.thread_name {
            Some(n) => Some(n.clone()),
            None => None,
        };
        let r = StackTrace { pid: self.pid, thread_id: self.thread_id, thread_name, frames };
        proof {
            assert(r@.frames =~= self@.frames);
            assert(r@ =~= self@);
        }
        r
    }
}

/// Whether two frames are close enough to merge into one interval: same
/// function and file, and additionally the same line when lines are tracked.
pub open spec fn frame_merge(a: FrameModel, b: FrameModel, lines: bool) -> bool {
    a.name == b.name && a.filename == b.filename && (!lines || a.line == b.line)
}

/// Whether `p` and `c` merge at root-aligned depth `i`: their frames `i`
/// positions in from the outermost end are close enough to merge.
pub open spec fn root_merge(p: Seq<FrameModel>, c: Seq<FrameModel>, lines: bool, i: int) -> bool {
    frame_merge(p[p.len() - 1 - i], c[c.len() - 1 - i], lines)
}

/// The number of leading frames, counted from the outermost (root) end of
/// the two stacks, that consecutive snapshots `p` and `c` share: the length
/// of the common-ancestor chain left open across the two samples.
pub open spec fn shared_depth(p: Seq<FrameModel>, c: Seq<FrameModel>, lines: bool) -> nat
    decreases p.len(),
{
    if p.len() == 0 || c.len() == 0 {
        0
    } else if frame_merge(p.last(), c.last(), lines) {
        1 + shared_depth(p.drop_last(), c.drop_last(), lines)
    } else {
        0
    }
}

/// The shared depth never exceeds either stack's depth.
pub proof fn lemma_shared_depth_le(p: Seq<FrameModel>, c: Seq<FrameModel>, lines: bool)
    ensures
        shared_depth(p, c, lines) <= p.len(),
        shared_depth(p, c, lines) <= c.len(),
    decreases p.len(),
{
    if p.len() != 0 && c.len() != 0 && frame_merge(p.last(), c.last(), lines) {
        lemma_shared_depth_le(p.drop_last(), c.drop_last(), lines);
    }
}

/// `shared_depth` is the unique count `d` such that the `d` outermost frame
/// pairs merge and the next pair (if both stacks go deeper) does not.
pub proof fn lemma_shared_depth_is(p: Seq<FrameModel>, c: Seq<FrameModel>, lines: bool, d: nat)
    requires
        d <= p.len(),
        d <= c.len(),
        forall|i: int| 0 <= i < d ==> #[trigger] root_merge(p, c, lines, i),
        d == p.len() || d == c.len() || !root_merge(p, c, lines, d as int),
    ensures
        shared_depth(p, c, lines) == d,
    decreases p.len(),
{
    if p.len() == 0 || c.len() == 0 {
    } else if frame_merge(p.last(), c.last(), lines) {
        assert(d != 0) by {
            if d == 0 {
                assert(!root_merge(p, c, lines, 0));
            }
        }
        let p1 = p.drop_last();
        let c1 = c.drop_last();
        assert forall|i: int| 0 <= i < d - 1 implies #[trigger] root_merge(p1, c1, lines, i) by {
            assert(root_merge(p, c, lines, i + 1));
            assert(p1[p1.len() - 1 - i] == p[p.len() - 1 - (i + 1)]);
            assert(c1[c1.len() - 1 - i] == c[c.len() - 1 - (i + 1)]);
        }
        if d - 1 != p1.len() && d - 1 != c1.len() {
            assert(p1[p1.len() - 1 - (d - 1)] == p[p.len() - 1 - d]);
            assert(c1[c1.len() - 1 - (d - 1)] == c[c.len() - 1 - d]);
            assert(!root_merge(p, c, lines, d as int));
        }
        lemma_shared_depth_is(p1, c1, lines, (d - 1) as nat);
    } else {
        assert(d == 0) by {
            if d > 0 {
                assert(root_merge(p, c, lines, 0));
            }
        }
    }
}

/// Every root-aligned frame pair within the shared depth merges.
pub proof fn lemma_shared_depth_matches(p: Seq<FrameModel>, c: Seq<FrameModel>, lines: bool)
    ensures
        forall|i: int|
            0 <= i < shared_depth(p, c, lines) ==> #[trigger] root_merge(p, c, lines, i),
    decreases p.len(),
{
    lemma_shared_depth_le(p, c, lines);
    if p.len() != 0 && c.len() != 0 && frame_merge(p.last(), c.last(), lines) {
        let p1 = p.drop_last();
        let c1 = c.drop_last();
        lemma_shared_depth_matches(p1, c1, lines);
        lemma_shared_depth_le(p1, c1, lines);
        assert forall|i: int| 0 <= i < shared_depth(p, c, lines) implies #[trigger] root_merge(
            p,
            c,
            lines,
            i,
        ) by {
            if i == 0 {
                assert(frame_merge(p[p.len() - 1], c[c.len() - 1], lines));
            } else {
                assert(root_merge(p1, c1, lines, i - 1));
                assert(p1[p1.len() - 1 - (i - 1)] == p[p.len() - 1 - i]);
                assert(c1[c1.len() - 1 - (i - 1)] == c[c.len() - 1 - i]);
            }
        }
    }
}

/// Stacks whose root-aligned frame pairs all merge (in particular, identical
/// stacks) share their full depth.
pub proof fn lemma_shared_depth_full(p: Seq<FrameModel>, c: Seq<FrameModel>, lines: bool)
    requires
        p.len() == c.len(),
        forall|i: int| 0 <= i < p.len() ==> frame_merge(p[i], c[i], lines),
    ensures
        shared_depth(p, c, lines) == p.len(),
{
    assert forall|i: int| 0 <= i < p.len() implies #[trigger] root_merge(p, c, lines, i) by {
        assert(frame_merge(p[p.len() - 1 - i], c[p.len() - 1 - i], lines));
    }
    lemma_shared_depth_is(p, c, lines, p.len());
}

} // verus!
