//! The capture of the call stack of the calling thread.

use vstd::prelude::*;

verus! {

/// The number of innermost frames that belong to the profiler itself and are
/// left out of every captured call stack.
pub const SKIPPED_FRAMES: usize = 4;

/// What a walk over a call stack holds.
pub ghost struct WalkView {
    /// How many of the innermost frames were left out so far.
    pub skipped: nat,
    /// How many frames the walk keeps at most.
    pub max_frames: usize,
    /// The frames kept so far, innermost first.
    pub frames: Seq<usize>,
}

impl WalkView {
    /// A walk that has seen no frame yet.
    pub open spec fn start(max_frames: usize) -> WalkView {
        WalkView { skipped: 0, max_frames, frames: Seq::empty() }
    }

    /// Nothing more was left out, and nothing more was kept, than the walk
    /// may.
    pub open spec fn wf(self) -> bool {
        &&& self.skipped <= SKIPPED_FRAMES
        &&& self.frames.len() <= self.max_frames
    }

    /// The walk after the frame at `address` was seen, and whether it goes on
    /// to the next frame: the first frames are left out, the following are
    /// kept until there are `max_frames` of them, and then the walk ends.
    pub open spec fn visit(self, address: usize) -> (WalkView, bool) {
        if self.skipped < SKIPPED_FRAMES {
            (WalkView { skipped: self.skipped + 1, ..self }, true)
        } else if self.frames.len() < self.max_frames {
            (
                WalkView { frames: self.frames.push(address), ..self },
                self.frames.len() + 1 < self.max_frames,
            )
        } else {
            (self, false)
        }
    }

    /// The walk after the frames of `stack` were seen, innermost first, as far
    /// as the walk went on.
    pub open spec fn walk(self, stack: Seq<usize>) -> WalkView
        decreases stack.len(),
    {
        if stack.len() == 0 {
            self
        } else {
            let (next, more) = self.visit(stack[0]);
            if more {
                next.walk(stack.drop_first())
            } else {
                next
            }
        }
    }

    /// What a walk in this state still keeps of `stack`.
    pub open spec fn keeps(self, stack: Seq<usize>) -> Seq<usize> {
        let left_out = if SKIPPED_FRAMES - self.skipped <= stack.len() {
            SKIPPED_FRAMES - self.skipped
        } else {
            stack.len() as int
        };
        let rest = stack.skip(left_out);
        if rest.len() <= self.max_frames - self.frames.len() {
            rest
        } else {
            rest.take(self.max_frames - self.frames.len())
        }
    }
}

/// The frames that are captured of the call stack `stack`, innermost first:
/// those after the first `SKIPPED_FRAMES`, and of them the first `max_frames`
/// at most.
pub open spec fn captured(stack: Seq<usize>, max_frames: usize) -> Seq<usize> {
    WalkView::start(max_frames).keeps(stack)
}

/// A walk keeps what it held and adds to it what it still keeps of the stack.
pub proof fn lemma_walk(walk: WalkView, stack: Seq<usize>)
    requires
        walk.wf(),
    ensures
        walk.walk(stack).wf(),
        walk.walk(stack).max_frames == walk.max_frames,
        walk.walk(stack).frames == walk.frames + walk.keeps(stack),
    decreases stack.len(),
{
    if stack.len() == 0 {
        assert(walk.frames + walk.keeps(stack) =~= walk.frames);
    } else {
        let (next, more) = walk.visit(stack[0]);
        let tail = stack.drop_first();
        if walk.skipped < SKIPPED_FRAMES {
            lemma_walk(next, tail);
            let left_out = if SKIPPED_FRAMES - walk.skipped <= stack.len() {
                SKIPPED_FRAMES - walk.skipped
            } else {
                stack.len() as int
            };
            assert(stack.skip(left_out) =~= tail.skip(left_out - 1));
        } else {
            assert(stack.skip(0) =~= stack);
            assert(tail.skip(0) =~= tail);
            if walk.frames.len() < walk.max_frames {
                let room = walk.max_frames - walk.frames.len();
                if more {
                    lemma_walk(next, tail);
                    if tail.len() <= room - 1 {
                        assert(walk.frames.push(stack[0]) + tail =~= walk.frames + stack);
                    } else {
                        assert(walk.frames.push(stack[0]) + tail.take(room - 1) =~= walk.frames
                            + stack.take(room));
                    }
                } else if stack.len() <= 1 {
                    assert(walk.frames.push(stack[0]) =~= walk.frames + stack);
                } else {
                    assert(walk.frames.push(stack[0]) =~= walk.frames + stack.take(1));
                }
            } else {
                assert(walk.frames + stack.take(0) =~= walk.frames);
            }
        }
    }
}

/// A walk from the start captures the frames after the first
/// `SKIPPED_FRAMES`, at most `max_frames` of them.
pub proof fn lemma_walk_captures(stack: Seq<usize>, max_frames: usize)
    ensures
        WalkView::start(max_frames).walk(stack).frames == captured(stack, max_frames),
        captured(stack, max_frames).len() <= max_frames,
{
    lemma_walk(WalkView::start(max_frames), stack);
    assert(Seq::<usize>::empty() + captured(stack, max_frames) =~= captured(stack, max_frames));
}

/// A call stack that is deep enough is cut to exactly `max_frames` frames:
/// the innermost ones that are not left out, in their order.
pub proof fn lemma_deep_stack_is_truncated(stack: Seq<usize>, max_frames: usize)
    requires
        stack.len() >= SKIPPED_FRAMES + max_frames,
    ensures
        captured(stack, max_frames).len() == max_frames,
        forall|k: int|
            0 <= k < max_frames ==> captured(stack, max_frames)[k] == stack[SKIPPED_FRAMES + k],
{
}

/// Without room for any frame nothing is captured.
pub proof fn lemma_no_frames_captured(stack: Seq<usize>)
    ensures
        captured(stack, 0) == Seq::<usize>::empty(),
{
    assert(captured(stack, 0) =~= Seq::<usize>::empty());
}

/// The frames kept while a call stack is walked from its innermost frame
/// outwards.
pub struct StackWalk {
    skipped: usize,
    max_frames: usize,
    frames: Vec<usize>,
}

impl View for StackWalk {
    type V = WalkView;

    closed spec fn view(&self) -> WalkView {
        WalkView {
            skipped: self.skipped as nat,
            max_frames: self.max_frames,
            frames: self.frames@,
        }
    }
}

impl StackWalk {
    /// A walk that keeps at most `max_frames` frames and has seen none yet.
    pub fn new(max_frames: usize) -> (walk: Self)
        ensures
            walk@ == WalkView::start(max_frames),
    {
        StackWalk { skipped: 0, max_frames, frames: Vec::new() }
    }

    /// Takes the next frame of the stack, the one at `address`, and says
    /// whether the walk goes on.
    pub fn visit(&mut self, address: usize) -> (more: bool)
        ensures
            (final(self)@, more) == old(self)@.visit(address),
    {
        if self.skipped < SKIPPED_FRAMES {
            self.skipped = self.skipped + 1;
            return true;
        }
        if self.frames.len() < self.max_frames {
            self.frames.push(address);
            self.frames.len() < self.max_frames
        } else {
            false
        }
    }

    /// The frames that the walk kept, innermost first.
    pub fn into_frames(self) -> (frames: Vec<usize>)
        ensures
            frames@ == self@.frames,
    {
        self.frames
    }
}

/// Walks the call stack of the calling thread with `backtrace::trace`, which
/// hands the frames to `walk`, innermost first, until `walk` says that it goes
/// no further or the stack ends. Which frames there are is not claimed: that
/// depends on the program that runs.
#[verifier::external_body]
fn walk_stack(walk: &mut StackWalk)
    ensures
        exists|stack: Seq<usize>| final(walk)@ == #[trigger] old(walk)@.walk(stack),
{
    backtrace::trace(|frame| walk.visit(frame.symbol_address() as usize));
}

/// Captures the call stack of the calling thread: the addresses of its
/// frames, innermost first, without those of the profiler itself, and at most
/// `max_frames` of them.
pub fn get_backtrace(max_frames: usize) -> (frames: Vec<usize>)
    ensures
        exists|stack: Seq<usize>| frames@ == #[trigger] captured(stack, max_frames),
        frames@.len() <= max_frames,
{
    let mut walk = StackWalk::new(max_frames);
    walk_stack(&mut walk);
    proof {
        let stack = choose|stack: Seq<usize>|
            walk@ == #[trigger] WalkView::start(max_frames).walk(stack);
        lemma_walk_captures(stack, max_frames);
    }
    walk.into_frames()
}

} // verus!
