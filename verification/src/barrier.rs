//! Frame barrier: what each core does next, decided from its own phase and
//! from what it reads of the shared frame index, completion counter and
//! cancellation flag. Core 0 owns the frame: it publishes the frame index,
//! waits for every worker and flushes. The decisions are functions of plain
//! values; reading and writing the atomics is left to the caller.

use vstd::prelude::*;
use crate::schedule::{band_end, band_start, row_band, RowBand};

verus! {

/// Where a core stands in its frame loop.
#[derive(Clone, Copy, Debug, PartialEq, Eq, Structural)]
pub enum Phase {
    /// Between frames: the owner starts the next frame, a worker polls the frame index.
    Idle,
    /// The snapshot for the frame is taken; the core's own region is rendered next.
    RenderOwnRegion,
    /// Owner only: its region is rendered; it polls the completion counter.
    WaitForPeers,
    /// Worker only: its region is rendered; it signals completion next.
    SignalDone,
    /// The core has left its loop.
    Stopped,
}

/// What the caller has to do after a step.
#[derive(Clone, Copy, Debug, PartialEq, Eq, Structural)]
pub enum Action {
    /// Nothing yet: read the shared state again.
    Spin,
    /// Owner: write the camera snapshot, then store this frame index with release ordering.
    PublishFrame(u64),
    /// Worker: copy the camera snapshot that was published with this frame index.
    TakeSnapshot(u64),
    /// Render these rows into the framebuffer.
    Render(RowBand),
    /// Worker: add one to the completion counter with release ordering.
    SignalDone,
    /// Owner: copy the framebuffer to the display and reset the completion counter.
    Flush,
    /// Leave the loop.
    Exit,
}

/// What a core has read of the shared state, each with acquire ordering.
#[derive(Clone, Copy, Debug)]
pub struct Observed {
    pub cancelled: bool,
    pub frame_index: u64,
    pub finished: usize,
}

/// The frame loop of one core.
#[derive(Clone, Copy, Debug)]
pub struct FrameScheduler {
    pub core_id: usize,
    pub num_cores: usize,
    pub height: usize,
    pub phase: Phase,
    /// The last frame index this core published or saw.
    pub frame: u64,
}

/// The frame index after `frame`; it wraps around.
pub open spec fn next_frame(frame: u64) -> u64 {
    if frame == u64::MAX {
        0
    } else {
        (frame + 1) as u64
    }
}

/// The rows of core `core_id`, as the renderer gets them.
pub open spec fn own_band(s: FrameScheduler) -> RowBand {
    RowBand {
        start_y: band_start(s.core_id as int, s.num_cores as int, s.height as int) as usize,
        end_y: band_end(s.core_id as int, s.num_cores as int, s.height as int) as usize,
    }
}

/// One step of the frame owner.
pub open spec fn owner_step(s: FrameScheduler, seen: Observed) -> (FrameScheduler, Action) {
    match s.phase {
        Phase::Idle => if seen.cancelled {
            (FrameScheduler { phase: Phase::Stopped, ..s }, Action::Exit)
        } else {
            (
                FrameScheduler { phase: Phase::RenderOwnRegion, frame: next_frame(s.frame), ..s },
                Action::PublishFrame(next_frame(s.frame)),
            )
        },
        Phase::RenderOwnRegion => (
            FrameScheduler { phase: Phase::WaitForPeers, ..s },
            Action::Render(own_band(s)),
        ),
        Phase::WaitForPeers => if seen.cancelled {
            (FrameScheduler { phase: Phase::Stopped, ..s }, Action::Exit)
        } else if seen.finished == s.num_cores - 1 {
            (FrameScheduler { phase: Phase::Idle, ..s }, Action::Flush)
        } else {
            (s, Action::Spin)
        },
        _ => (FrameScheduler { phase: Phase::Stopped, ..s }, Action::Exit),
    }
}

/// One step of a worker.
pub open spec fn worker_step(s: FrameScheduler, seen: Observed) -> (FrameScheduler, Action) {
    match s.phase {
        Phase::Idle => if seen.cancelled {
            (FrameScheduler { phase: Phase::Stopped, ..s }, Action::Exit)
        } else if seen.frame_index != s.frame {
            (
                FrameScheduler { phase: Phase::RenderOwnRegion, frame: seen.frame_index, ..s },
                Action::TakeSnapshot(seen.frame_index),
            )
        } else {
            (s, Action::Spin)
        },
        Phase::RenderOwnRegion => (
            FrameScheduler { phase: Phase::SignalDone, ..s },
            Action::Render(own_band(s)),
        ),
        Phase::SignalDone => (FrameScheduler { phase: Phase::Idle, ..s }, Action::SignalDone),
        _ => (FrameScheduler { phase: Phase::Stopped, ..s }, Action::Exit),
    }
}

/// One step of any core.
pub open spec fn step_spec(s: FrameScheduler, seen: Observed) -> (FrameScheduler, Action) {
    if s.core_id == 0 {
        owner_step(s, seen)
    } else {
        worker_step(s, seen)
    }
}

impl FrameScheduler {
    /// The core is one of `num_cores`, and its phase is one of its role.
    pub open spec fn wf(&self) -> bool {
        &&& self.core_id < self.num_cores
        &&& self.core_id == 0 ==> self.phase != Phase::SignalDone
        &&& self.core_id != 0 ==> self.phase != Phase::WaitForPeers
    }

    /// The loop of core `core_id` of `num_cores`, before the first frame, for a
    /// frame of `height` rows.
    pub fn new(core_id: usize, num_cores: usize, height: usize) -> (s: Self)
        requires
            core_id < num_cores,
        ensures
            s.wf(),
            s == (FrameScheduler { core_id, num_cores, height, phase: Phase::Idle, frame: 0 }),
    {
        FrameScheduler { core_id, num_cores, height, phase: Phase::Idle, frame: 0 }
    }

    /// Whether this core owns the frame.
    pub fn is_owner(&self) -> (owner: bool)
        ensures
            owner == (self.core_id == 0),
    {
        self.core_id == 0
    }

    /// Decides what the core does next, given what it has just read of the
    /// shared state. The cancellation flag is looked at wherever the core
    /// would otherwise start or await work, never once a render pass is due.
    pub fn step(&mut self, seen: Observed) -> (action: Action)
        requires
            old(self).wf(),
        ensures
            final(self).wf(),
            (*final(self), action) == step_spec(*old(self), seen),
    {
        match self.phase {
            Phase::Idle => {
                if seen.cancelled {
                    self.phase = Phase::Stopped;
                    Action::Exit
                } else if self.core_id == 0 {
                    let frame: u64 = self.frame.wrapping_add(1);
                    self.frame = frame;
                    self.phase = Phase::RenderOwnRegion;
                    Action::PublishFrame(frame)
                } else if seen.frame_index != self.frame {
                    self.frame = seen.frame_index;
                    self.phase = Phase::RenderOwnRegion;
                    Action::TakeSnapshot(seen.frame_index)
                } else {
                    Action::Spin
                }
            },
            Phase::RenderOwnRegion => {
                let band: RowBand = row_band(self.core_id, self.num_cores, self.height);
                self.phase = if self.core_id == 0 {
                    Phase::WaitForPeers
                } else {
                    Phase::SignalDone
                };
                Action::Render(band)
            },
            Phase::WaitForPeers => {
                if seen.cancelled {
                    self.phase = Phase::Stopped;
                    Action::Exit
                } else if seen.finished == self.num_cores - 1 {
                    self.phase = Phase::Idle;
                    Action::Flush
                } else {
                    Action::Spin
                }
            },
            Phase::SignalDone => {
                self.phase = Phase::Idle;
                Action::SignalDone
            },
            Phase::Stopped => { Action::Exit },
        }
    }
}

/// The shared state after a core has carried out `action`.
pub open spec fn apply_action(shared: Observed, action: Action) -> Observed {
    match action {
        Action::PublishFrame(frame) => Observed { frame_index: frame, ..shared },
        Action::SignalDone => Observed { finished: (shared.finished + 1) as usize, ..shared },
        Action::Flush => Observed { finished: 0, ..shared },
        _ => shared,
    }
}

/// All cores of a machine with the state they share.
pub struct Machine {
    pub cores: Seq<FrameScheduler>,
    pub shared: Observed,
}

/// The machine before the first frame.
pub open spec fn machine_start(num_cores: usize, height: usize) -> Machine {
    Machine {
        cores: Seq::new(
            num_cores as nat,
            |i: int|
                FrameScheduler {
                    core_id: i as usize,
                    num_cores,
                    height,
                    phase: Phase::Idle,
                    frame: 0,
                },
        ),
        shared: Observed { cancelled: false, frame_index: 0, finished: 0 },
    }
}

/// Core `i` reads the shared state, takes one step and carries its action out.
pub open spec fn core_steps(m: Machine, i: int) -> Machine {
    let (core, action) = step_spec(m.cores[i], m.shared);
    Machine { cores: m.cores.update(i, core), shared: apply_action(m.shared, action) }
}

/// Some core fails and sets the cancellation flag.
pub open spec fn cancels(m: Machine) -> Machine {
    Machine { cores: m.cores, shared: Observed { cancelled: true, ..m.shared } }
}

/// The core has rendered frame `frame_index` and has signaled so.
pub open spec fn has_signaled(core: FrameScheduler, frame_index: u64) -> bool {
    core.frame == frame_index && (core.phase == Phase::Idle || core.phase == Phase::Stopped)
}

/// Number of workers below `upto` that have signaled for `frame_index`.
pub open spec fn signaled_count(cores: Seq<FrameScheduler>, frame_index: u64, upto: int) -> int
    decreases upto,
{
    if upto <= 1 {
        0
    } else {
        signaled_count(cores, frame_index, upto - 1) + (if has_signaled(
            cores[upto - 1],
            frame_index,
        ) {
            1int
        } else {
            0int
        })
    }
}

/// What holds of a machine at every moment: the counter counts the workers
/// that have signaled for the current frame, and a worker that has not seen
/// the current frame yet is idle.
pub open spec fn consistent(m: Machine) -> bool {
    let n = m.cores.len() as int;
    let owner = m.cores[0];
    &&& 1 <= n <= usize::MAX
    &&& forall|i: int|
        0 <= i < n ==> (#[trigger] m.cores[i]).wf() && m.cores[i].core_id == i
            && m.cores[i].num_cores == n
    &&& owner.frame == m.shared.frame_index
    &&& forall|i: int| 0 <= i < n && (#[trigger] m.cores[i]).phase == Phase::Stopped
        ==> m.shared.cancelled
    &&& forall|i: int|
        1 <= i < n && (#[trigger] m.cores[i]).frame != m.shared.frame_index ==> m.cores[i].phase
            == Phase::Idle || m.cores[i].phase == Phase::Stopped
    &&& owner.phase == Phase::Idle ==> m.shared.finished == 0 && forall|i: int|
        1 <= i < n ==> has_signaled(#[trigger] m.cores[i], m.shared.frame_index)
    &&& owner.phase == Phase::RenderOwnRegion || owner.phase == Phase::WaitForPeers
        ==> m.shared.finished == signaled_count(m.cores, m.shared.frame_index, n)
}

proof fn lemma_count_bounds(cores: Seq<FrameScheduler>, frame_index: u64, upto: int)
    requires
        upto <= cores.len(),
    ensures
        0 <= signaled_count(cores, frame_index, upto),
        upto >= 1 ==> signaled_count(cores, frame_index, upto) <= upto - 1,
        upto >= 1 && signaled_count(cores, frame_index, upto) == upto - 1 ==> forall|i: int|
            1 <= i < upto ==> has_signaled(#[trigger] cores[i], frame_index),
        (forall|i: int| 1 <= i < upto ==> !has_signaled(#[trigger] cores[i], frame_index))
            ==> signaled_count(cores, frame_index, upto) == 0,
    decreases upto,
{
    if upto > 1 {
        lemma_count_bounds(cores, frame_index, upto - 1);
    }
}

proof fn lemma_count_update(
    cores: Seq<FrameScheduler>,
    frame_index: u64,
    upto: int,
    i: int,
    core: FrameScheduler,
)
    requires
        0 <= i < cores.len(),
        upto <= cores.len(),
    ensures
        signaled_count(cores.update(i, core), frame_index, upto) == signaled_count(
            cores,
            frame_index,
            upto,
        ) + (if 1 <= i < upto {
            (if has_signaled(core, frame_index) {
                1int
            } else {
                0int
            }) - (if has_signaled(cores[i], frame_index) {
                1int
            } else {
                0int
            })
        } else {
            0int
        }),
    decreases upto,
{
    if upto > 1 {
        lemma_count_update(cores, frame_index, upto - 1, i, core);
    }
}

/// The machine is consistent before the first frame.
pub proof fn lemma_start_consistent(num_cores: usize, height: usize)
    requires
        num_cores >= 1,
    ensures
        consistent(machine_start(num_cores, height)),
{
}

/// Setting the cancellation flag keeps the machine consistent.
pub proof fn lemma_cancel_consistent(m: Machine)
    requires
        consistent(m),
    ensures
        consistent(cancels(m)),
{
    let after = cancels(m);
    assert forall|i: int| 0 <= i < after.cores.len() implies (#[trigger] after.cores[i]).wf()
        && after.cores[i].core_id == i && after.cores[i].num_cores == after.cores.len() by {
        assert(m.cores[i].wf());
    }
}

/// Any step of any core, in any order, keeps the machine consistent.
pub proof fn lemma_step_consistent(m: Machine, i: int)
    requires
        consistent(m),
        0 <= i < m.cores.len(),
    ensures
        consistent(core_steps(m, i)),
{
    let n = m.cores.len() as int;
    let after = core_steps(m, i);
    let (core, action) = step_spec(m.cores[i], m.shared);
    let frame_index = m.shared.frame_index;
    assert(m.cores[i].wf());
    assert(m.cores[0].wf());
    lemma_count_bounds(m.cores, frame_index, n);
    lemma_count_update(m.cores, frame_index, n, i, core);
    lemma_count_bounds(after.cores, after.shared.frame_index, n);
    assert forall|j: int| 0 <= j < n implies (#[trigger] after.cores[j]).wf()
        && after.cores[j].core_id == j && after.cores[j].num_cores == n by {
        assert(m.cores[j].wf());
    }
    assert forall|j: int|
        1 <= j < n && (#[trigger] after.cores[j]).frame
            != after.shared.frame_index implies after.cores[j].phase == Phase::Idle
        || after.cores[j].phase == Phase::Stopped by {
        assert(m.cores[j].wf());
        if m.cores[0].phase == Phase::Idle {
            assert(has_signaled(m.cores[j], frame_index));
        }
    }
    assert forall|j: int|
        0 <= j < n && (#[trigger] after.cores[j]).phase
            == Phase::Stopped implies after.shared.cancelled by {
        assert(m.cores[j].wf());
    }
    if after.cores[0].phase == Phase::Idle {
        assert forall|j: int| 1 <= j < n implies has_signaled(
            #[trigger] after.cores[j],
            after.shared.frame_index,
        ) by {
            assert(m.cores[j].wf());
        }
    }
    if i == 0 && action is PublishFrame {
        assert forall|j: int| 1 <= j < n implies !has_signaled(
            #[trigger] after.cores[j],
            after.shared.frame_index,
        ) by {
            assert(has_signaled(m.cores[j], frame_index));
        }
    }
}

/// The owner flushes only when every worker has rendered the current frame
/// and has signaled so.
pub proof fn lemma_flush_after_all_signaled(m: Machine)
    requires
        consistent(m),
        step_spec(m.cores[0], m.shared).1 == Action::Flush,
    ensures
        forall|i: int|
            1 <= i < m.cores.len() ==> (#[trigger] m.cores[i]).frame == m.shared.frame_index
                && m.cores[i].phase == Phase::Idle,
{
    assert(m.cores[0].wf());
    lemma_count_bounds(m.cores, m.shared.frame_index, m.cores.len() as int);
    assert forall|i: int| 1 <= i < m.cores.len() implies (#[trigger] m.cores[i]).frame
        == m.shared.frame_index && m.cores[i].phase == Phase::Idle by {
        assert(has_signaled(m.cores[i], m.shared.frame_index));
    }
}

/// A single core never waits: once its region is rendered, its next step flushes.
pub proof fn lemma_single_core_never_waits(m: Machine)
    requires
        consistent(m),
        m.cores.len() == 1,
        m.cores[0].phase == Phase::WaitForPeers,
        !m.shared.cancelled,
    ensures
        step_spec(m.cores[0], m.shared).1 == Action::Flush,
{
    assert(m.cores[0].wf());
    lemma_count_bounds(m.cores, m.shared.frame_index, 1);
}

} // verus!
