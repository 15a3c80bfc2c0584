//! The per-frame update protocol: a timer gates the physics update, and each
//! frame issues an explicit, ordered list of compute passes over a current and
//! a scratch buffer, so that no pass reads the buffer it writes and the
//! consumer pass only sees a fully updated buffer.

use crate::voxel::HEADER_WORDS;
use vstd::prelude::*;

verus! {

/// Edge of a compute workgroup, in cells or pixels.
pub const WORKGROUP_SIZE: u32 = 8;

/// Default interval between two physics updates: a thirtieth of a second, in
/// microseconds.
pub const PHYSICS_INTERVAL_US: u64 = 33_333;

/// Brush size pushed to the consumer pass each frame.
pub const BRUSH_SIZE: u32 = 3;

/// The two grid buffers.
#[derive(Clone, Copy, Debug, PartialEq, Eq, Structural)]
pub enum Buffer {
    /// The buffer that holds the grid of this tick, which passes read.
    Current,
    /// The buffer that the update pass writes the next grid into.
    Scratch,
}

/// The compute passes of a frame.
#[derive(Clone, Copy, Debug, PartialEq, Eq, Structural)]
pub enum Pass {
    /// Computes every cell of the next grid from the current one.
    Update,
    /// Copies the next grid over the current one.
    Swap,
    /// Reads the current grid to render the frame.
    Consume,
}

impl Pass {
    /// The buffer that the pass reads.
    pub open spec fn spec_reads(self) -> Buffer {
        match self {
            Pass::Update => Buffer::Current,
            Pass::Swap => Buffer::Scratch,
            Pass::Consume => Buffer::Current,
        }
    }

    /// The buffer that the pass writes, if any.
    pub open spec fn spec_writes(self) -> Option<Buffer> {
        match self {
            Pass::Update => Some(Buffer::Scratch),
            Pass::Swap => Some(Buffer::Current),
            Pass::Consume => None,
        }
    }

    /// The buffer that the pass reads.
    pub fn reads(&self) -> (r: Buffer)
        ensures
            r == self.spec_reads(),
    {
        match self {
            Pass::Update => Buffer::Current,
            Pass::Swap => Buffer::Scratch,
            Pass::Consume => Buffer::Current,
        }
    }

    /// The buffer that the pass writes, if any.
    pub fn writes(&self) -> (r: Option<Buffer>)
        ensures
            r == self.spec_writes(),
    {
        match self {
            Pass::Update => Some(Buffer::Scratch),
            Pass::Swap => Some(Buffer::Current),
            Pass::Consume => None,
        }
    }

    /// Workgroups to dispatch: one per `8³` cells of a grid of edge
    /// `grid_dim` for the grid passes, one per `8²` pixels of a
    /// `width`×`height` frame for the consumer pass.
    pub fn workgroups(&self, grid_dim: u32, width: u32, height: u32) -> (r: (u32, u32, u32))
        ensures
            r == match self {
                Pass::Consume => (width / 8, height / 8, 1),
                _ => (grid_dim / 8, grid_dim / 8, grid_dim / 8),
            },
    {
        match self {
            Pass::Consume => (width / WORKGROUP_SIZE, height / WORKGROUP_SIZE, 1),
            _ => (grid_dim / WORKGROUP_SIZE, grid_dim / WORKGROUP_SIZE, grid_dim / WORKGROUP_SIZE),
        }
    }
}

/// The mouse buttons held, as the consumer pass reads them: bit 0 for the
/// left button, bit 1 for the middle one, bit 2 for the right one.
pub fn mouse_click_bits(left: bool, middle: bool, right: bool) -> (r: u32)
    ensures
        r == (if left { 1u32 } else { 0u32 }) + (if middle { 2u32 } else { 0u32 }) + (if right {
            4u32
        } else {
            0u32
        }),
{
    let mut mouse_buttons: u32 = 0;
    if left {
        mouse_buttons = mouse_buttons + 1;
    }
    if middle {
        mouse_buttons = mouse_buttons + 2;
    }
    if right {
        mouse_buttons = mouse_buttons + 4;
    }
    mouse_buttons
}

/// Time since the last physics update, against the interval between two
/// updates, both in microseconds.
#[derive(Clone, Copy, Debug, PartialEq, Eq, Structural)]
pub struct PhysicsTimer {
    pub elapsed: u64,
    pub trigger: u64,
}

/// The timer after one frame of `delta` microseconds: restarted if it had
/// fired, then advanced, saturating at `u64::MAX`.
pub open spec fn timer_step(t: PhysicsTimer, delta: u64) -> PhysicsTimer {
    let start: u64 = if t.elapsed >= t.trigger {
        0
    } else {
        t.elapsed
    };
    PhysicsTimer {
        elapsed: if start + delta > u64::MAX {
            u64::MAX
        } else {
            (start + delta) as u64
        },
        trigger: t.trigger,
    }
}

/// The passes of a frame: none if the frame could not be acquired; else the
/// update and the swap if the timer fired, then the consumer pass.
pub open spec fn spec_plan(fired: bool, acquired: bool) -> Seq<Pass> {
    if !acquired {
        seq![]
    } else if fired {
        seq![Pass::Update, Pass::Swap, Pass::Consume]
    } else {
        seq![Pass::Consume]
    }
}

/// A list of passes is free of hazards: no pass reads the buffer it writes,
/// every update is directly followed by the swap that publishes it, and no
/// pass after a consumer pass writes.
pub open spec fn hazard_free(plan: Seq<Pass>) -> bool {
    &&& forall|i: int| 0 <= i < plan.len() ==> #[trigger] plan[i].spec_writes() != Some(plan[i].spec_reads())
    &&& forall|i: int| 0 <= i < plan.len() && #[trigger] plan[i] == Pass::Update ==> i + 1 < plan.len() && plan[i + 1] == Pass::Swap
    &&& forall|i: int, j: int| 0 <= i < j < plan.len() && #[trigger] plan[i] == Pass::Consume ==> (#[trigger] plan[j]).spec_writes() is None
}

impl PhysicsTimer {
    /// A timer that fires every `trigger` microseconds, starting at zero.
    pub fn new(trigger: u64) -> (r: PhysicsTimer)
        ensures
            r.elapsed == 0,
            r.trigger == trigger,
    {
        PhysicsTimer { elapsed: 0, trigger }
    }

    /// Whether the interval has passed.
    pub fn triggered(&self) -> (r: bool)
        ensures
            r == (self.elapsed >= self.trigger),
    {
        self.elapsed >= self.trigger
    }

    /// Restarts the interval.
    pub fn reset(&mut self)
        ensures
            final(self).elapsed == 0,
            final(self).trigger == old(self).trigger,
    {
        self.elapsed = 0;
    }

    /// Advances the timer by `amount` microseconds, saturating at `u64::MAX`.
    pub fn tick(&mut self, amount: u64)
        ensures
            final(self).elapsed == if old(self).elapsed + amount > u64::MAX {
                u64::MAX
            } else {
                (old(self).elapsed + amount) as u64
            },
            final(self).trigger == old(self).trigger,
    {
        self.elapsed = self.elapsed.saturating_add(amount);
    }
}

/// Sequences the compute passes of each frame.
#[derive(Clone, Copy, Debug, PartialEq, Eq, Structural)]
pub struct Coordinator {
    pub timer: PhysicsTimer,
}

impl Coordinator {
    /// A coordinator whose physics update runs every `trigger` microseconds.
    pub fn new(trigger: u64) -> (r: Coordinator)
        ensures
            r.timer == (PhysicsTimer { elapsed: 0, trigger }),
    {
        Coordinator { timer: PhysicsTimer::new(trigger) }
    }

    /// Plans one frame, `delta` microseconds after the last: the timer
    /// restarts if it fired last frame and advances; the frame runs the
    /// update and the swap when the timer has fired, and the consumer pass
    /// every time. A frame that could not be acquired runs no pass, and is
    /// tried again the next frame.
    pub fn plan_tick(&mut self, delta: u64, frame_acquired: bool) -> (r: Vec<Pass>)
        ensures
            final(self).timer == timer_step(old(self).timer, delta),
            r@ == spec_plan(
                final(self).timer.elapsed >= final(self).timer.trigger,
                frame_acquired,
            ),
    {
        if self.timer.triggered() {
            self.timer.reset();
        }
        self.timer.tick(delta);
        let mut plan: Vec<Pass> = Vec::new();
        if frame_acquired {
            if self.timer.triggered() {
                plan.push(Pass::Update);
                plan.push(Pass::Swap);
            }
            plan.push(Pass::Consume);
        }
        proof {
            assert(plan@ =~= spec_plan(self.timer.elapsed >= self.timer.trigger, frame_acquired));
        }
        plan
    }
}

/// Every plan is free of hazards, whether or not the timer fired and the
/// frame was acquired.
pub proof fn lemma_plan_hazard_free(fired: bool, acquired: bool)
    ensures
        hazard_free(spec_plan(fired, acquired)),
{
}

/// The grid buffers that the passes work on, as words laid out for upload:
/// the one that holds this tick's grid, and the one that the update pass
/// writes.
pub struct DoubleBuffer {
    pub current: Vec<u32>,
    pub scratch: Vec<u32>,
}

impl DoubleBuffer {
    /// Both buffers filled with `words`.
    pub fn new(words: Vec<u32>) -> (r: DoubleBuffer)
        ensures
            r.current@ == words@,
            r.scratch@ == words@,
    {
        let scratch = copy_words(&words);
        DoubleBuffer { current: words, scratch }
    }

    /// Runs one pass: the update computes each voxel word `i` of the scratch
    /// buffer as `kernel(current, i)` and copies the header; the swap copies
    /// the scratch buffer over the current one; the consumer pass changes
    /// nothing.
    pub fn dispatch<F: Fn(&Vec<u32>, usize) -> u32>(&mut self, pass: Pass, kernel: &F)
        requires
            old(self).current@.len() == old(self).scratch@.len(),
            old(self).current@.len() >= HEADER_WORDS,
            pass == Pass::Update ==> forall|i: usize|
                HEADER_WORDS <= i < old(self).current@.len() ==> #[trigger] kernel.requires(
                    (&old(self).current, i),
                ),
        ensures
            final(self).current@.len() == old(self).current@.len(),
            final(self).scratch@.len() == old(self).scratch@.len(),
            pass == Pass::Update ==> {
                &&& final(self).current@ == old(self).current@
                &&& forall|i: int| 0 <= i < HEADER_WORDS ==> #[trigger] final(self).scratch@[i] == old(self).current@[i]
                &&& forall|i: usize|
                    HEADER_WORDS <= i < old(self).current@.len() ==> #[trigger] kernel.ensures(
                        (&old(self).current, i),
                        final(self).scratch@[i as int],
                    )
            },
            pass == Pass::Swap ==> final(self).current@ == old(self).scratch@ && final(self).scratch@ == old(self).scratch@,
            pass == Pass::Consume ==> final(self).current@ == old(self).current@ && final(self).scratch@ == old(self).scratch@,
    {
        match pass {
            Pass::Update => {
                let n = self.current.len();
                let mut i: usize = 0;
                while i < n
                    invariant
                        n == self.current@.len(),
                        self.current == old(self).current,
                        self.scratch@.len() == n,
                        n >= HEADER_WORDS,
                        i <= n,
                        forall|k: usize|
                            HEADER_WORDS <= k < n ==> #[trigger] kernel.requires((&old(self).current, k)),
                        forall|k: int| 0 <= k < HEADER_WORDS && k < i ==> #[trigger] self.scratch@[k] == old(self).current@[k],
                        forall|k: usize|
                            HEADER_WORDS <= k < i ==> #[trigger] kernel.ensures(
                                (&old(self).current, k),
                                self.scratch@[k as int],
                            ),
                    decreases n - i,
                {
                    let w = if i < HEADER_WORDS {
                        self.current[i]
                    } else {
                        kernel(&self.current, i)
                    };
                    self.scratch.set(i, w);
                    i = i + 1;
                }
            },
            Pass::Swap => {
                self.current = copy_words(&self.scratch);
            },
            Pass::Consume => {},
        }
    }
}

/// A copy of `words`.
fn copy_words(words: &Vec<u32>) -> (r: Vec<u32>)
    ensures
        r@ == words@,
{
    let mut r: Vec<u32> = Vec::new();
    let mut i: usize = 0;
    while i < words.len()
        invariant
            i <= words@.len(),
            r@ == words@.subrange(0, i as int),
        decreases words@.len() - i,
    {
        r.push(words[i]);
        i = i + 1;
        assert(r@ =~= words@.subrange(0, i as int));
    }
    assert(words@.subrange(0, i as int) =~= words@);
    r
}

} // verus!
