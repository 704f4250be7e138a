//! The per-frame render pass and the animation scheduler's state machine.
//!
//! The physics integrator works on real-valued scalars and runs on the host
//! side; each frame it projects every body to a screen-space disc and hands
//! the list here. This module repaints the frame buffer from that list and
//! keeps the Idle/Running scheduling state, with an explicit cancellation
//! flag in place of host-driven reference dropout.

use vstd::prelude::*;

use crate::buffer::{alpha_is, covered, in_bounds, rgb_is, Color, FrameBuffer};

verus! {

/// A body's screen-space footprint for one frame: a filled disc.
#[derive(Clone, Copy, PartialEq, Eq, Structural, Debug)]
pub struct Circle {
    pub x: i32,
    pub y: i32,
    pub radius: u32,
}

/// Whether pixel (x, y) belongs to at least one disc of the scene.
pub open spec fn covered_by_any(circles: Seq<Circle>, x: int, y: int) -> bool {
    exists|k: int|
        0 <= k < circles.len() && covered(
            circles[k].x as int,
            circles[k].y as int,
            circles[k].radius as int,
            x,
            y,
        )
}

/// Repaint one frame: fill the whole buffer with `background`, then draw
/// every disc in `foreground`. Afterwards each in-bounds pixel holds the
/// foreground color exactly when some disc covers it, the background color
/// otherwise, and the whole frame is opaque.
pub fn render_frame(
    fb: &mut FrameBuffer,
    circles: &Vec<Circle>,
    background: Color,
    foreground: Color,
)
    requires
        old(fb).wf(),
    ensures
        final(fb).wf(),
        final(fb).width == old(fb).width,
        final(fb).height == old(fb).height,
        final(fb)@.len() == old(fb)@.len(),
        forall|x: int, y: int|
            in_bounds(old(fb).width as int, old(fb).height as int, x, y)
                && covered_by_any(circles@, x, y)
                ==> rgb_is(final(fb)@, old(fb).width as int, x, y, foreground),
        forall|x: int, y: int|
            in_bounds(old(fb).width as int, old(fb).height as int, x, y)
                && !covered_by_any(circles@, x, y)
                ==> rgb_is(final(fb)@, old(fb).width as int, x, y, background),
        forall|x: int, y: int|
            in_bounds(old(fb).width as int, old(fb).height as int, x, y)
                ==> alpha_is(final(fb)@, old(fb).width as int, x, y, 255),
{
    let ghost w = fb.width as int;
    let ghost h = fb.height as int;
    fb.clear(background);
    let mut k: usize = 0;
    while k < circles.len()
        invariant
            k <= circles@.len(),
            fb.wf(),
            fb.width == old(fb).width,
            fb.height == old(fb).height,
            w == old(fb).width as int,
            h == old(fb).height as int,
            forall|x: int, y: int|
                in_bounds(w, h, x, y) && covered_by_any(circles@.take(k as int), x, y)
                    ==> rgb_is(fb@, w, x, y, foreground),
            forall|x: int, y: int|
                in_bounds(w, h, x, y) && !covered_by_any(circles@.take(k as int), x, y)
                    ==> rgb_is(fb@, w, x, y, background),
            forall|x: int, y: int| in_bounds(w, h, x, y) ==> alpha_is(fb@, w, x, y, 255),
        decreases circles@.len() - k,
    {
        let c = circles[k];
        let ghost before = fb@;
        fb.draw_filled_circle(c.x, c.y, c.radius, foreground);
        proof {
            let taken = circles@.take(k as int);
            let taken1 = circles@.take(k as int + 1);
            assert(taken1 =~= taken.push(c));
            assert forall|x: int, y: int|
                in_bounds(w, h, x, y) && covered_by_any(taken1, x, y)
                implies rgb_is(fb@, w, x, y, foreground) by {
                let j = choose|j: int|
                    0 <= j < taken1.len() && covered(
                        taken1[j].x as int,
                        taken1[j].y as int,
                        taken1[j].radius as int,
                        x,
                        y,
                    );
                if j < k as int {
                    assert(taken[j] == taken1[j]);
                    assert(covered_by_any(taken, x, y));
                    assert(rgb_is(before, w, x, y, foreground));
                    if !covered(c.x as int, c.y as int, c.radius as int, x, y) {
                        assert(rgb_is(fb@, w, x, y, foreground));
                    }
                } else {
                    assert(taken1[k as int] == c);
                    assert(covered(c.x as int, c.y as int, c.radius as int, x, y));
                }
            }
            assert forall|x: int, y: int|
                in_bounds(w, h, x, y) && !covered_by_any(taken1, x, y)
                implies rgb_is(fb@, w, x, y, background) by {
                assert(!covered(c.x as int, c.y as int, c.radius as int, x, y)) by {
                    assert(taken1[k as int] == c);
                }
                assert(!covered_by_any(taken, x, y)) by {
                    if covered_by_any(taken, x, y) {
                        let j = choose|j: int|
                            0 <= j < taken.len() && covered(
                                taken[j].x as int,
                                taken[j].y as int,
                                taken[j].radius as int,
                                x,
                                y,
                            );
                        assert(taken1[j] == taken[j]);
                    }
                }
                assert(rgb_is(before, w, x, y, background));
            }
        }
        k = k + 1;
    }
    proof {
        assert(circles@.take(circles@.len() as int) =~= circles@);
    }
}

/// A tick with no bodies draws nothing: no pixel is covered by an empty
/// scene, so the repainted frame is all background.
pub proof fn lemma_empty_scene_uncovered(x: int, y: int)
    ensures
        !covered_by_any(Seq::<Circle>::empty(), x, y),
{
}

/// The animation scheduler's two states: not yet started, or armed for the
/// next tick.
#[derive(Clone, Copy, PartialEq, Eq, Structural, Debug)]
pub enum RunState {
    Idle,
    Running,
}

/// The simulation state the library owns: the frame buffer and the
/// scheduling state machine. The bodies themselves live with the host's
/// integrator, which projects them to discs before every tick.
pub struct Simulation {
    /// The frame repainted on every tick.
    pub buffer: FrameBuffer,
    /// Idle until `start`, Running from then on until a cancellation is
    /// consumed by a tick.
    pub state: RunState,
    /// Set by `request_cancel`; the next tick consumes it and disarms.
    pub cancel_requested: bool,
}

impl Simulation {
    /// The simulation is well formed exactly when its frame buffer is.
    pub open spec fn wf(&self) -> bool {
        self.buffer.wf()
    }

    /// Decide the invariant at run time, for callers outside the verified
    /// world that must test it before a tick.
    pub fn invariant_holds(&self) -> (r: bool)
        ensures
            r == self.wf(),
    {
        self.buffer.invariant_holds()
    }

    /// Set up a simulation with a fresh background-filled buffer, in the
    /// Idle state. Setup cannot fail for any body count, zero included: the
    /// bodies never enter into it.
    pub fn new(width: u32, height: u32) -> (sim: Simulation)
        requires
            width <= 0x7fff_ffff,
            height <= 0x7fff_ffff,
            4 * (width as int) * (height as int) <= usize::MAX as int,
        ensures
            sim.wf(),
            sim.buffer.width == width,
            sim.buffer.height == height,
            sim.state == RunState::Idle,
            !sim.cancel_requested,
            forall|i: int| 0 <= i < sim.buffer@.len() ==> sim.buffer@[i] == 255u8,
    {
        Simulation {
            buffer: FrameBuffer::new(width, height),
            state: RunState::Idle,
            cancel_requested: false,
        }
    }

    /// Arm the scheduler: the one transition out of Idle. The first tick is
    /// then requested from the host.
    pub fn start(&mut self)
        requires
            old(self).state == RunState::Idle,
        ensures
            final(self).state == RunState::Running,
            !final(self).cancel_requested,
            final(self).buffer == old(self).buffer,
    {
        self.state = RunState::Running;
        self.cancel_requested = false;
    }

    /// Ask the scheduler to stop: the flag is consumed by the next tick,
    /// which then disarms instead of repainting.
    pub fn request_cancel(&mut self)
        ensures
            final(self).cancel_requested,
            final(self).state == old(self).state,
            final(self).buffer == old(self).buffer,
    {
        self.cancel_requested = true;
    }

    /// One scheduler tick. If a cancellation is pending it is consumed: the
    /// scheduler disarms and the frame is left alone. Otherwise the frame is
    /// repainted from this tick's discs and the scheduler stays Running; the
    /// returned flag tells the host whether to request the next tick.
    pub fn tick(&mut self, circles: &Vec<Circle>, background: Color, foreground: Color) -> (rearm:
        bool)
        requires
            old(self).wf(),
            old(self).state == RunState::Running,
        ensures
            final(self).wf(),
            final(self).buffer.width == old(self).buffer.width,
            final(self).buffer.height == old(self).buffer.height,
            !final(self).cancel_requested,
            old(self).cancel_requested ==> {
                &&& !rearm
                &&& final(self).state == RunState::Idle
                &&& final(self).buffer == old(self).buffer
            },
            !old(self).cancel_requested ==> {
                &&& rearm
                &&& final(self).state == RunState::Running
                &&& forall|x: int, y: int|
                    in_bounds(old(self).buffer.width as int, old(self).buffer.height as int, x, y)
                        && covered_by_any(circles@, x, y)
                        ==> rgb_is(final(self).buffer@, old(self).buffer.width as int, x, y,
                            foreground)
                &&& forall|x: int, y: int|
                    in_bounds(old(self).buffer.width as int, old(self).buffer.height as int, x, y)
                        && !covered_by_any(circles@, x, y)
                        ==> rgb_is(final(self).buffer@, old(self).buffer.width as int, x, y,
                            background)
                &&& forall|x: int, y: int|
                    in_bounds(old(self).buffer.width as int, old(self).buffer.height as int, x, y)
                        ==> alpha_is(final(self).buffer@, old(self).buffer.width as int, x, y, 255)
            },
    {
        if self.cancel_requested {
            self.cancel_requested = false;
            self.state = RunState::Idle;
            false
        } else {
            render_frame(&mut self.buffer, circles, background, foreground);
            true
        }
    }

    /// Whether the scheduler is armed.
    pub fn is_running(&self) -> (r: bool)
        ensures
            r == (self.state == RunState::Running),
    {
        matches!(self.state, RunState::Running)
    }

    /// The finished frame for the host's composer: the raw RGBA bytes to
    /// upload together with the buffer's dimensions.
    pub fn frame(&self) -> (r: &Vec<u8>)
        ensures
            r@ == self.buffer@,
    {
        &self.buffer.pixels
    }
}

} // verus!
