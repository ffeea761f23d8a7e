//! Where the frames of a run lie: in the signal that is analysed and in the
//! signal that is put together again.

use crate::command::{ConfigError, Mode};
use crate::fft::{is_power_of_two, power_of_two};
use vstd::prelude::*;

verus! {

/// The lengths that fix where the frames of a run lie.
pub struct Geometry {
    pub mode: Mode,
    /// The number of samples that a frame takes from the signal.
    pub frame_size: nat,
    /// The stride from one frame to the next in the signal that is analysed.
    pub analysis_hop: nat,
    /// The length of the signal that is analysed.
    pub input_len: nat,
    /// The length of the signal that is put together.
    pub output_len: nat,
}

impl Geometry {
    /// The length of the transform: twice the frame size, so that a frame is
    /// padded with as many zeros as it has samples.
    pub open spec fn fft_size(self) -> nat {
        2 * self.frame_size
    }

    /// The stride from one frame to the next where the frames are put
    /// together with their overlap: a quarter of the frame size.
    pub open spec fn synthesis_hop(self) -> nat {
        self.frame_size / 4
    }

    /// The number of frames: as many strides as fit the signal.
    pub open spec fn frame_count(self) -> nat {
        self.input_len / self.analysis_hop
    }

    /// Where frame `frame` begins in the signal that is analysed.
    pub open spec fn analysis_offset(self, frame: nat) -> nat {
        frame * self.analysis_hop
    }

    /// How many samples frame `frame` takes from the signal: a frame that
    /// reaches beyond the end of the signal takes what is there.
    pub open spec fn analysis_extent(self, frame: nat) -> nat {
        let offset = self.analysis_offset(frame);
        if offset >= self.input_len {
            0
        } else if self.input_len - offset < self.frame_size {
            (self.input_len - offset) as nat
        } else {
            self.frame_size
        }
    }

    /// The stride from one frame to the next in the signal that is put
    /// together.
    pub open spec fn placing_hop(self) -> nat {
        match self.mode {
            Mode::TimeStretch => self.synthesis_hop(),
            Mode::PitchShift => self.analysis_hop,
        }
    }

    /// Where frame `frame` begins in the signal that is put together.
    pub open spec fn synthesis_offset(self, frame: nat) -> nat {
        frame * self.placing_hop()
    }

    /// The length to which a frame is resampled where the pitch is shifted:
    /// the length of the transform, scaled by the analysis hop over the
    /// synthesis hop. The synthesis hop being a quarter of the frame size and
    /// the transform twice as long as the frame, that is eight analysis hops.
    pub open spec fn resampled_len(self) -> nat {
        8 * self.analysis_hop
    }

    /// How many samples of frame `frame`, of which `available` are at hand,
    /// are added to the signal that is put together: a frame size of them,
    /// fewer where fewer are at hand or where the signal ends before.
    pub open spec fn synthesis_extent(self, frame: nat, available: nat) -> nat {
        let offset = self.synthesis_offset(frame);
        let room = if offset >= self.output_len {
            0
        } else {
            (self.output_len - offset) as nat
        };
        let wanted = if available < self.frame_size {
            available
        } else {
            self.frame_size
        };
        if room < wanted {
            room
        } else {
            wanted
        }
    }

    /// Whether a run of these lengths can be carried out.
    pub open spec fn acceptable(self) -> bool {
        &&& is_power_of_two(self.frame_size)
        &&& self.analysis_hop > 0
        &&& self.fits()
    }

    /// Whether every length and offset of the run fits the machine word.
    pub open spec fn fits(self) -> bool {
        &&& self.fft_size() <= usize::MAX
        &&& self.resampled_len() <= usize::MAX
        &&& self.input_len <= usize::MAX
        &&& self.output_len <= usize::MAX
        &&& self.frame_count() * self.synthesis_hop() <= usize::MAX
    }
}

/// The frames of one run.
pub struct Framing {
    mode: Mode,
    frame_size: usize,
    analysis_hop: usize,
    input_len: usize,
    output_len: usize,
}

impl View for Framing {
    type V = Geometry;

    closed spec fn view(&self) -> Geometry {
        Geometry {
            mode: self.mode,
            frame_size: self.frame_size as nat,
            analysis_hop: self.analysis_hop as nat,
            input_len: self.input_len as nat,
            output_len: self.output_len as nat,
        }
    }
}

impl Framing {
    #[verifier::type_invariant]
    spec fn well_formed(self) -> bool {
        self@.acceptable()
    }

    /// The frames of a run in mode `mode`, with frames of `frame_size`
    /// samples taken every `analysis_hop` samples from a signal of
    /// `input_len` samples and put together to one of `output_len` samples.
    ///
    /// Refused are, in this order: a frame size that is not a power of two;
    /// an analysis hop of zero; lengths that do not fit the machine word.
    pub fn new(
        mode: Mode,
        frame_size: usize,
        analysis_hop: usize,
        input_len: usize,
        output_len: usize,
    ) -> (framing: Result<Framing, ConfigError>)
        ensures
            match framing {
                Ok(f) => f@ == (Geometry {
                    mode,
                    frame_size: frame_size as nat,
                    analysis_hop: analysis_hop as nat,
                    input_len: input_len as nat,
                    output_len: output_len as nat,
                }) && f@.acceptable(),
                Err(ConfigError::FrameSize) => !is_power_of_two(frame_size as nat),
                Err(ConfigError::ZeroHop) => is_power_of_two(frame_size as nat) && analysis_hop
                    == 0,
                Err(ConfigError::TooLarge) => is_power_of_two(frame_size as nat) && analysis_hop
                    > 0 && !(Geometry {
                    mode,
                    frame_size: frame_size as nat,
                    analysis_hop: analysis_hop as nat,
                    input_len: input_len as nat,
                    output_len: output_len as nat,
                }).fits(),
            },
    {
        if !power_of_two(frame_size) {
            return Err(ConfigError::FrameSize);
        }
        if analysis_hop == 0 {
            return Err(ConfigError::ZeroHop);
        }
        if frame_size > usize::MAX / 2 || analysis_hop > usize::MAX / 8 {
            return Err(ConfigError::TooLarge);
        }
        let frames: usize = input_len / analysis_hop;
        match frames.checked_mul(frame_size / 4) {
            None => Err(ConfigError::TooLarge),
            Some(_) => Ok(Framing { mode, frame_size, analysis_hop, input_len, output_len }),
        }
    }

    /// Whether the duration or the pitch is changed.
    pub fn mode(&self) -> (mode: Mode)
        ensures
            mode == self@.mode,
    {
        self.mode
    }

    /// The number of samples that a frame takes from the signal.
    pub fn frame_size(&self) -> (n: usize)
        ensures
            n == self@.frame_size,
    {
        self.frame_size
    }

    /// The length of the transform.
    pub fn fft_size(&self) -> (n: usize)
        ensures
            n == self@.fft_size(),
            n >= 2,
            is_power_of_two(n as nat),
    {
        proof {
            use_type_invariant(self);
            lemma_double_power(self.frame_size as nat);
        }
        2 * self.frame_size
    }

    /// The stride of the frames in the signal that is analysed.
    pub fn analysis_hop(&self) -> (n: usize)
        ensures
            n == self@.analysis_hop,
            n > 0,
    {
        proof {
            use_type_invariant(self);
        }
        self.analysis_hop
    }

    /// The stride of the frames where they are put together with their
    /// overlap.
    pub fn synthesis_hop(&self) -> (n: usize)
        ensures
            n == self@.synthesis_hop(),
    {
        self.frame_size / 4
    }

    /// The number of frames.
    pub fn frame_count(&self) -> (n: usize)
        ensures
            n == self@.frame_count(),
    {
        proof {
            use_type_invariant(self);
        }
        self.input_len / self.analysis_hop
    }

    /// The length of the signal that is put together.
    pub fn output_len(&self) -> (n: usize)
        ensures
            n == self@.output_len,
    {
        self.output_len
    }

    /// Where frame `frame` begins in the signal that is analysed.
    pub fn analysis_offset(&self, frame: usize) -> (offset: usize)
        requires
            frame < self@.frame_count(),
        ensures
            offset == self@.analysis_offset(frame as nat),
            offset + self@.analysis_extent(frame as nat) <= self@.input_len,
    {
        proof {
            use_type_invariant(self);
            lemma_stride(frame as nat, self.analysis_hop as nat, self.input_len as nat);
        }
        frame * self.analysis_hop
    }

    /// How many samples frame `frame` takes from the signal.
    pub fn analysis_extent(&self, frame: usize) -> (extent: usize)
        requires
            frame < self@.frame_count(),
        ensures
            extent == self@.analysis_extent(frame as nat),
            extent <= self@.frame_size,
    {
        let offset = self.analysis_offset(frame);
        let left: usize = self.input_len - offset;
        if left < self.frame_size {
            left
        } else {
            self.frame_size
        }
    }

    /// Where frame `frame` begins in the signal that is put together.
    pub fn synthesis_offset(&self, frame: usize) -> (offset: usize)
        requires
            frame < self@.frame_count(),
        ensures
            offset == self@.synthesis_offset(frame as nat),
    {
        proof {
            use_type_invariant(self);
            lemma_stride(frame as nat, self.analysis_hop as nat, self.input_len as nat);
            let frames = self@.frame_count();
            let hop = self@.synthesis_hop();
            assert(frame * hop <= frames * hop) by (nonlinear_arith)
                requires
                    frame < frames,
                    hop >= 0,
            ;
        }
        match self.mode {
            Mode::TimeStretch => frame * (self.frame_size / 4),
            Mode::PitchShift => frame * self.analysis_hop,
        }
    }

    /// The length to which a frame is resampled where the pitch is shifted.
    pub fn resampled_len(&self) -> (n: usize)
        ensures
            n == self@.resampled_len(),
    {
        proof {
            use_type_invariant(self);
        }
        8 * self.analysis_hop
    }

    /// How many samples of frame `frame`, of which `available` are at hand,
    /// are added to the signal that is put together.
    pub fn synthesis_extent(&self, frame: usize, available: usize) -> (extent: usize)
        requires
            frame < self@.frame_count(),
        ensures
            extent == self@.synthesis_extent(frame as nat, available as nat),
            extent <= available,
            extent <= self@.frame_size,
            extent > 0 ==> self@.synthesis_offset(frame as nat) + extent <= self@.output_len,
    {
        let offset = self.synthesis_offset(frame);
        let room: usize = if offset >= self.output_len {
            0
        } else {
            self.output_len - offset
        };
        let wanted: usize = if available < self.frame_size {
            available
        } else {
            self.frame_size
        };
        if room < wanted {
            room
        } else {
            wanted
        }
    }

    /// Turns a buffer of the length of the transform round by a frame size,
    /// in place. Before the transform this brings the middle of the padded
    /// frame to the start of the buffer; after the inverse transform it
    /// brings it back. The length being two frame sizes, turning to the
    /// right and turning to the left come to the same.
    pub fn center<T: Copy>(&self, buffer: &mut Vec<T>)
        requires
            old(buffer).len() == self@.fft_size(),
        ensures
            final(buffer)@ == turned(old(buffer)@),
    {
        let half: usize = self.frame_size;
        let mut j: usize = 0;
        while j < half
            invariant
                j <= half,
                buffer.len() == 2 * half,
                buffer.len() == old(buffer).len(),
                forall|k: int| 0 <= k < j ==> #[trigger] buffer@[k] == old(buffer)@[k + half],
                forall|k: int| 0 <= k < j ==> #[trigger] buffer@[k + half] == old(buffer)@[k],
                forall|k: int| j <= k < half ==> #[trigger] buffer@[k] == old(buffer)@[k],
                forall|k: int|
                    j <= k < half ==> #[trigger] buffer@[k + half] == old(buffer)@[k + half],
            decreases half - j,
        {
            let front = buffer[j];
            let back = buffer[j + half];
            buffer.set(j, back);
            buffer.set(j + half, front);
            j += 1;
        }
        proof {
            let before = old(buffer)@;
            assert forall|k: int| 0 <= k < buffer@.len() implies buffer@[k] == turned(before)[k] by {
                lemma_turn_index(k, half as int);
                if k < half {
                    assert(buffer@[k] == before[k + half]);
                } else {
                    assert(buffer@[(k - half) + half] == before[k - half]);
                }
            }
            assert(buffer@ =~= turned(before));
        }
    }
}

/// `buffer` turned round by half its length: every entry moves half the
/// length on, and what passes the end comes in at the start.
pub open spec fn turned<T>(buffer: Seq<T>) -> Seq<T> {
    Seq::new(buffer.len(), |j: int| buffer[(j + buffer.len() / 2) % (buffer.len() as int)])
}

/// Turned round twice, a buffer of even length is as it was.
pub proof fn lemma_turned_twice<T>(buffer: Seq<T>)
    requires
        buffer.len() % 2 == 0,
    ensures
        turned(turned(buffer)) == buffer,
{
    let len = buffer.len() as int;
    let half = len / 2;
    assert forall|j: int| 0 <= j < len implies turned(turned(buffer))[j] == buffer[j] by {
        let once = (j + half) % len;
        lemma_turn_index(j, half);
        lemma_turn_index(once, half);
    }
    assert(turned(turned(buffer)) =~= buffer);
}

/// Where an entry stands after a turn by half the length.
proof fn lemma_turn_index(j: int, half: int)
    requires
        0 <= j < 2 * half,
    ensures
        (j + half) % (2 * half) == if j < half {
            j + half
        } else {
            j - half
        },
{
    if j < half {
        vstd::arithmetic::div_mod::lemma_fundamental_div_mod_converse(j + half, 2 * half, 0, j + half);
    } else {
        vstd::arithmetic::div_mod::lemma_fundamental_div_mod_converse(j + half, 2 * half, 1, j - half);
    }
}

/// Twice a power of two is a power of two, and at least 2.
proof fn lemma_double_power(n: nat)
    requires
        is_power_of_two(n),
    ensures
        is_power_of_two(2 * n),
        2 * n >= 2,
{
    let k = choose|k: nat| n == #[trigger] vstd::arithmetic::power2::pow2(k);
    vstd::arithmetic::power2::lemma_pow2_unfold(k + 1);
    vstd::arithmetic::power2::lemma_pow2_pos(k);
    assert(2 * n == vstd::arithmetic::power2::pow2(k + 1));
}

/// A frame that is counted begins a stride before the end of the signal, or
/// earlier.
proof fn lemma_stride(frame: nat, hop: nat, len: nat)
    requires
        hop > 0,
        frame < len / hop,
    ensures
        frame * hop + hop <= len,
{
    vstd::arithmetic::div_mod::lemma_fundamental_div_mod(len as int, hop as int);
    vstd::arithmetic::div_mod::lemma_mod_pos_bound(len as int, hop as int);
    let count = len / hop;
    assert(frame * hop + hop <= hop * count) by (nonlinear_arith)
        requires
            frame < count,
            hop > 0,
    ;
}

/// The frames of a run lie inside the signal, each a stride after the one
/// before, and what the last of them leaves over is less than a stride.
pub proof fn lemma_frames_cover(geometry: Geometry)
    requires
        geometry.analysis_hop > 0,
    ensures
        forall|frame: nat|
            frame < geometry.frame_count() ==> #[trigger] geometry.analysis_offset(frame)
                + geometry.analysis_hop <= geometry.input_len,
        geometry.input_len < (geometry.frame_count() + 1) * geometry.analysis_hop,
{
    let hop = geometry.analysis_hop;
    let len = geometry.input_len;
    assert forall|frame: nat| frame < geometry.frame_count() implies #[trigger]
        geometry.analysis_offset(frame) + hop <= len by {
        lemma_stride(frame, hop, len);
    }
    vstd::arithmetic::div_mod::lemma_fundamental_div_mod(len as int, hop as int);
    vstd::arithmetic::div_mod::lemma_mod_pos_bound(len as int, hop as int);
    let count = len / hop;
    assert((count + 1) * hop == hop * count + hop) by (nonlinear_arith);
}

/// What a frame adds to the signal that is put together lies inside that
/// signal and inside what of the frame is at hand.
pub proof fn lemma_extent_inside(geometry: Geometry, frame: nat, available: nat)
    ensures
        geometry.synthesis_extent(frame, available) <= available,
        geometry.synthesis_extent(frame, available) <= geometry.frame_size,
        geometry.synthesis_extent(frame, available) > 0 ==> geometry.synthesis_offset(frame)
            + geometry.synthesis_extent(frame, available) <= geometry.output_len,
{
}

} // verus!
