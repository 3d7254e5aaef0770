use vstd::prelude::*;

verus! {

/// What acquiring the next swapchain image reported.
#[derive(Copy, Clone, PartialEq, Eq, Structural)]
pub enum AcquireOutcome {
    /// An image was acquired; `suboptimal` tells that the swapchain no longer
    /// matches the surface exactly.
    Acquired { suboptimal: bool },
    /// The swapchain no longer matches the surface and cannot be used.
    OutOfDate,
}

/// What render nodes are told about the frame they record: its number, its
/// frame-in-flight slot, the number of slots and the swapchain image drawn to.
#[derive(Copy, Clone)]
pub struct FrameContext {
    pub frame_no: u64,
    pub ffid: u8,
    pub numff: u8,
    pub backbuf_id: u8,
}

/// The per-frame decisions of the renderer: which frame-in-flight slot the
/// next frame uses, how many frames were submitted, and whether the swapchain
/// has to be rebuilt before drawing again.
pub struct FrameRing {
    frame_index: usize,
    num_frames: usize,
    frame_no: u64,
    recreate_swapchain: bool,
}

/// What a [`FrameRing`] records.
pub struct FrameState {
    pub frame_index: nat,
    pub num_frames: nat,
    pub frame_no: nat,
    pub recreate_swapchain: bool,
}

impl View for FrameRing {
    type V = FrameState;

    closed spec fn view(&self) -> FrameState {
        FrameState {
            frame_index: self.frame_index as nat,
            num_frames: self.num_frames as nat,
            frame_no: self.frame_no as nat,
            recreate_swapchain: self.recreate_swapchain,
        }
    }
}

impl FrameState {
    /// The slot in use is the number of frames submitted, wrapped around the ring.
    pub open spec fn wf(self) -> bool {
        &&& 0 < self.num_frames
        &&& 2 * self.num_frames <= usize::MAX
        &&& self.frame_index < self.num_frames
        &&& self.frame_index == self.frame_no % self.num_frames
        &&& self.frame_no <= u64::MAX
    }
}

impl FrameRing {
    /// A ring of `num_frames` frames in flight, before the first frame.
    pub fn new(num_frames: usize) -> (r: Self)
        requires
            0 < num_frames,
            2 * num_frames <= usize::MAX,
        ensures
            r@.wf(),
            r@ == (FrameState { frame_index: 0, num_frames: num_frames as nat, frame_no: 0, recreate_swapchain: false }),
    {
        FrameRing { frame_index: 0, num_frames, frame_no: 0, recreate_swapchain: false }
    }

    /// The frame-in-flight slot the next frame uses.
    pub fn frame_index(&self) -> (r: usize)
        ensures
            r == self@.frame_index,
    {
        self.frame_index
    }

    /// Number of frames in flight.
    pub fn num_frames(&self) -> (r: usize)
        ensures
            r == self@.num_frames,
    {
        self.num_frames
    }

    /// Number of frames submitted so far.
    pub fn frame_no(&self) -> (r: u64)
        ensures
            r == self@.frame_no,
    {
        self.frame_no
    }

    /// Whether the swapchain has to be rebuilt before drawing again.
    pub fn recreate_swapchain(&self) -> (r: bool)
        ensures
            r == self@.recreate_swapchain,
    {
        self.recreate_swapchain
    }

    /// The context handed to render nodes recording a frame for swapchain image
    /// `backbuf_id`; the slot, slot count and image index are kept to their low
    /// eight bits.
    pub fn frame_context(&self, backbuf_id: usize) -> (r: FrameContext)
        ensures
            r == (FrameContext {
                frame_no: self@.frame_no as u64,
                ffid: self@.frame_index as u8,
                numff: self@.num_frames as u8,
                backbuf_id: backbuf_id as u8,
            }),
    {
        FrameContext {
            frame_no: self.frame_no,
            ffid: self.frame_index as u8,
            numff: self.num_frames as u8,
            backbuf_id: backbuf_id as u8,
        }
    }

    /// Whether to draw a frame now: not while the swapchain waits to be rebuilt.
    pub fn should_draw(&self) -> (r: bool)
        ensures
            r == !self@.recreate_swapchain,
    {
        !self.recreate_swapchain
    }

    /// Takes in what acquiring an image reported and returns whether to go on
    /// with the frame: an out-of-date swapchain stops the frame and asks for a
    /// rebuild; a suboptimal one asks for a rebuild after this frame.
    pub fn on_acquire(&mut self, outcome: AcquireOutcome) -> (go_on: bool)
        ensures
            go_on == (outcome is Acquired),
            final(self)@ == (FrameState {
                recreate_swapchain: match outcome {
                    AcquireOutcome::Acquired { suboptimal } => old(self)@.recreate_swapchain || suboptimal,
                    AcquireOutcome::OutOfDate => true,
                },
                ..old(self)@
            }),
    {
        match outcome {
            AcquireOutcome::Acquired { suboptimal } => {
                self.recreate_swapchain = self.recreate_swapchain || suboptimal;
                true
            },
            AcquireOutcome::OutOfDate => {
                self.recreate_swapchain = true;
                false
            },
        }
    }

    /// The slot of the frame submitted just before this one.
    pub fn prev_frame(&self) -> (r: usize)
        requires
            self@.wf(),
        ensures
            r == (self@.frame_index + self@.num_frames - 1) % (self@.num_frames as int),
    {
        (self.frame_index + self.num_frames - 1) % self.num_frames
    }

    /// The newest frame that the GPU is certainly done with, once at least
    /// `num_frames` frames were submitted: resources last used by it or earlier
    /// may be reused.
    pub fn safe_frame(&self) -> (r: Option<u64>)
        ensures
            r == (if self@.frame_no >= self@.num_frames {
                Some((self@.frame_no - self@.num_frames) as u64)
            } else {
                None
            }),
    {
        if self.frame_no >= self.num_frames as u64 {
            Some(self.frame_no - self.num_frames as u64)
        } else {
            None
        }
    }

    /// Closes a submitted frame: an out-of-date swapchain at submission asks for
    /// a rebuild; the next frame takes the next slot and the count goes up.
    pub fn end_frame(&mut self, submit_out_of_date: bool)
        requires
            old(self)@.wf(),
            old(self)@.frame_no < u64::MAX,
        ensures
            final(self)@.wf(),
            final(self)@ == (FrameState {
                frame_index: (old(self)@.frame_index + 1) % old(self)@.num_frames,
                frame_no: old(self)@.frame_no + 1,
                recreate_swapchain: old(self)@.recreate_swapchain || submit_out_of_date,
                ..old(self)@
            }),
    {
        if submit_out_of_date {
            self.recreate_swapchain = true;
        }
        proof {
            lemma_next_slot(self.frame_no as nat, self.num_frames as nat);
        }
        self.frame_index = (self.frame_index + 1) % self.num_frames;
        self.frame_no = self.frame_no + 1;
    }

    /// Whether a request to rebuild the swapchain for `new_extent` has work to
    /// do: the size changed, or a rebuild was asked for.
    pub fn needs_rebuild(&self, new_extent: [u32; 2], current_extent: [u32; 2]) -> (r: bool)
        ensures
            r == (new_extent@ != current_extent@ || self@.recreate_swapchain),
    {
        let resized = new_extent[0] != current_extent[0] || new_extent[1] != current_extent[1];
        proof {
            if !resized {
                assert(new_extent@ =~= current_extent@);
            }
        }
        resized || self.recreate_swapchain
    }

    /// Records that the swapchain was rebuilt.
    pub fn swapchain_rebuilt(&mut self)
        ensures
            final(self)@ == (FrameState { recreate_swapchain: false, ..old(self)@ }),
    {
        self.recreate_swapchain = false;
    }
}

proof fn lemma_next_slot(frame_no: nat, n: nat)
    requires
        n > 0,
    ensures
        ((frame_no % n) + 1) % n == (frame_no + 1) % n,
{
    vstd::arithmetic::div_mod::lemma_add_mod_noop(frame_no as int, 1, n as int);
    if n > 1 {
        vstd::arithmetic::div_mod::lemma_small_mod(1, n);
    } else {
        vstd::arithmetic::div_mod::lemma_mod_self_0(1);
    }
}

/// The slot just before the current one is where the previous frame went.
pub proof fn lemma_prev_frame(s: FrameState)
    requires
        s.wf(),
        s.frame_no > 0,
    ensures
        (s.frame_index + s.num_frames - 1) % (s.num_frames as int) == (s.frame_no - 1) % (s.num_frames as int),
{
    let n = s.num_frames as int;
    let f = s.frame_no as int - 1;
    vstd::arithmetic::div_mod::lemma_add_mod_noop(f, 1, n);
    vstd::arithmetic::div_mod::lemma_add_mod_noop(s.frame_no as int, n - 1, n);
    vstd::arithmetic::div_mod::lemma_mod_twice(f + n, n);
    vstd::arithmetic::div_mod::lemma_mod_add_multiples_vanish(f, n);
    vstd::arithmetic::div_mod::lemma_small_mod((n - 1) as nat, n as nat);
}

} // verus!
