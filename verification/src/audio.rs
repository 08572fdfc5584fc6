//! The bookkeeping of captured and received voice.
//!
//! Samples are 32-bit floats. Here they are carried as their bit patterns and
//! never looked into: what is decided is which sample goes where. The arithmetic
//! on them (averaging channels, resampling, gain, mixing) is the caller's.
//!
//! * [`Framer`] cuts a stream of 48 kHz mono samples into frames of
//!   [`FRAME_SAMPLES`].
//! * [`Mixer`] keeps one jitter buffer per remote speaker and says, for every
//!   frame to be played, which samples are to be averaged.

use crate::lists::lemma_filter_from;
use crate::protocol::SAMPLE_RATE;
use std::collections::VecDeque;
use vstd::prelude::*;

verus! {

/// 20 ms of mono audio at 48 kHz.
pub const FRAME_SAMPLES: usize = 960;

/// The bit pattern of the gain 1.0, with which a new speaker starts.
pub const UNIT_GAIN: u32 = 0x3f80_0000;

/// Number of consecutive silent renders before a speaker is forgotten. This is
/// deliberately generous, so that a speaker's gain survives brief gaps between
/// packets instead of starting over whenever the buffer momentarily drains.
pub const IDLE_LIMIT: u32 = 200;

// ---- interleaved channels ---------------------------------------------------

/// `n` divided by `d`, rounded up.
pub open spec fn ceil_div(n: nat, d: nat) -> nat {
    (n + d - 1) as nat / d
}

/// The number of channels that `channels` stands for: at least one.
pub open spec fn channel_count(channels: usize) -> nat {
    if channels == 0 {
        1
    } else {
        channels as nat
    }
}

/// The samples of the `i`-th frame of interleaved audio. The last frame may be
/// cut short.
pub open spec fn group(s: Seq<u32>, ch: nat, i: int) -> Seq<u32> {
    if (i + 1) * ch <= s.len() {
        s.subrange(i * ch, (i + 1) * ch)
    } else {
        s.subrange(i * ch, s.len() as int)
    }
}

proof fn lemma_ceil_step(n: nat, d: nat, i: nat)
    requires
        d > 0,
    ensures
        i < ceil_div(n, d) <==> i * d < n,
{
    assert(i < (n + d - 1) as nat / d <==> i * d < n) by (nonlinear_arith)
        requires
            d > 0,
    ;
}

/// Cuts interleaved audio into the groups of samples that sound at the same
/// time, one per channel.
pub fn channel_groups(interleaved: &[u32], channels: usize) -> (r: Vec<Vec<u32>>)
    ensures
        r@.len() == ceil_div(interleaved@.len(), channel_count(channels)),
        forall|i: int| 0 <= i < r@.len() ==> (#[trigger] r@[i])@ == group(
            interleaved@,
            channel_count(channels),
            i,
        ),
{
    let ch: usize = if channels == 0 {
        1
    } else {
        channels
    };
    let n = interleaved.len();
    let mut r: Vec<Vec<u32>> = Vec::new();
    let mut at: usize = 0;
    proof {
        lemma_ceil_step(n as nat, ch as nat, 0);
    }
    while at < n
        invariant
            ch == channel_count(channels),
            ch > 0,
            n == interleaved@.len(),
            at <= n,
            at < n ==> at == r@.len() * ch,
            at == n ==> r@.len() == ceil_div(n as nat, ch as nat),
            forall|i: int| 0 <= i < r@.len() ==> (#[trigger] r@[i])@ == group(
                interleaved@,
                ch as nat,
                i,
            ),
        decreases n - at,
    {
        let end: usize = if n - at < ch {
            n
        } else {
            at + ch
        };
        let mut one: Vec<u32> = Vec::new();
        let mut j: usize = at;
        while j < end
            invariant
                at <= j <= end <= n,
                n == interleaved@.len(),
                one@ == interleaved@.subrange(at as int, j as int),
            decreases end - j,
        {
            one.push(interleaved[j]);
            assert(interleaved@.subrange(at as int, j + 1) =~= one@);
            j += 1;
        }
        let ghost k = r@.len();
        assert((k + 1) * ch == k * ch + ch) by (nonlinear_arith);
        assert(one@ == group(interleaved@, ch as nat, k as int));
        proof {
            lemma_ceil_step(n as nat, ch as nat, k);
            lemma_ceil_step(n as nat, ch as nat, (k + 1) as nat);
        }
        r.push(one);
        at = end;
    }
    r
}

/// `n` interleaved samples, in which every channel of a frame has its value.
pub open spec fn fanned(values: Seq<u32>, n: nat, ch: nat) -> Seq<u32> {
    Seq::new(n, |i: int| values[i / ch as int])
}

/// The inverse of mixing down: every channel of a frame gets the frame's value.
pub fn fan_out(values: &Vec<u32>, out_len: usize, channels: usize) -> (r: Vec<u32>)
    requires
        values@.len() == ceil_div(out_len as nat, channel_count(channels)),
    ensures
        r@.len() == out_len,
        r@ == fanned(values@, out_len as nat, channel_count(channels)),
{
    let ch: usize = if channels == 0 {
        1
    } else {
        channels
    };
    let mut r: Vec<u32> = Vec::new();
    let mut frame: usize = 0;
    let mut slot: usize = 0;
    while r.len() < out_len
        invariant
            ch == channel_count(channels),
            ch > 0,
            r@.len() <= out_len,
            values@.len() == ceil_div(out_len as nat, ch as nat),
            slot < ch,
            r@.len() == frame * ch + slot,
            forall|i: int| 0 <= i < r@.len() ==> #[trigger] r@[i] == values@[i / ch as int],
        decreases out_len - r@.len(),
    {
        proof {
            lemma_ceil_step(out_len as nat, ch as nat, frame as nat);
            let at = r@.len() as int;
            assert(at / ch as int == frame) by (nonlinear_arith)
                requires
                    at == frame * ch + slot,
                    0 <= slot < ch,
            ;
        }
        r.push(values[frame]);
        slot += 1;
        if slot == ch {
            assert((frame + 1) * ch == frame * ch + ch) by (nonlinear_arith);
            slot = 0;
            frame += 1;
        }
    }
    assert(r@ =~= fanned(values@, out_len as nat, ch as nat));
    r
}

// ---- Framer -----------------------------------------------------------------

/// Collects 48 kHz mono samples from a capture device and hands them out in
/// whole frames.
pub struct Framer {
    dev_rate: u32,
    channels: usize,
    pending: Vec<u32>,
}

/// The whole frames at the front of a stream.
pub open spec fn frames_of(s: Seq<u32>) -> Seq<Seq<u32>> {
    Seq::new(
        s.len() / FRAME_SAMPLES as nat,
        |i: int| s.subrange(i * FRAME_SAMPLES, (i + 1) * FRAME_SAMPLES),
    )
}

/// What is left of a stream behind its whole frames.
pub open spec fn leftover(s: Seq<u32>) -> Seq<u32> {
    s.skip((s.len() / FRAME_SAMPLES as nat) * FRAME_SAMPLES)
}

/// The contents of a list of frames.
pub open spec fn contents(frames: Seq<Vec<u32>>) -> Seq<Seq<u32>> {
    frames.map_values(|f: Vec<u32>| f@)
}

impl Framer {
    /// The samples that wait for the rest of their frame.
    pub closed spec fn pending(&self) -> Seq<u32> {
        self.pending@
    }

    pub closed spec fn device_rate(&self) -> u32 {
        self.dev_rate
    }

    pub closed spec fn device_channels(&self) -> usize {
        self.channels
    }

    /// Less than a frame waits.
    pub open spec fn wf(&self) -> bool {
        self.pending().len() < FRAME_SAMPLES
    }

    pub fn new(dev_rate: u32, channels: usize) -> (r: Self)
        ensures
            r.wf(),
            r.pending() == Seq::<u32>::empty(),
            r.device_rate() == dev_rate,
            r.device_channels() == channels,
    {
        Framer { dev_rate, channels, pending: Vec::new() }
    }

    /// The sample rate of the device.
    pub fn dev_rate(&self) -> (r: u32)
        ensures
            r == self.device_rate(),
    {
        self.dev_rate
    }

    /// The samples of one callback, grouped for mixing down to mono.
    pub fn mono_groups(&self, interleaved: &[u32]) -> (r: Vec<Vec<u32>>)
        ensures
            r@.len() == ceil_div(interleaved@.len(), channel_count(self.device_channels())),
            forall|i: int| 0 <= i < r@.len() ==> (#[trigger] r@[i])@ == group(
                interleaved@,
                channel_count(self.device_channels()),
                i,
            ),
    {
        channel_groups(interleaved, self.channels)
    }

    /// Feeds one callback's worth of 48 kHz mono samples; returns the frames
    /// that are now complete.
    pub fn push(&mut self, resampled: &[u32]) -> (r: Vec<Vec<u32>>)
        requires
            old(self).wf(),
        ensures
            final(self).wf(),
            contents(r@) == frames_of(old(self).pending() + resampled@),
            final(self).pending() == leftover(old(self).pending() + resampled@),
            final(self).device_rate() == old(self).device_rate(),
            final(self).device_channels() == old(self).device_channels(),
    {
        let ghost all = self.pending@ + resampled@;
        self.pending.extend_from_slice(resampled);
        assert(self.pending@ =~= all);
        let mut out: Vec<Vec<u32>> = Vec::new();
        assert(all.skip(0) =~= all);
        while self.pending.len() >= FRAME_SAMPLES
            invariant
                all == old(self).pending@ + resampled@,
                self.dev_rate == old(self).dev_rate,
                self.channels == old(self).channels,
                out@.len() * FRAME_SAMPLES <= all.len(),
                self.pending@ == all.skip(out@.len() * FRAME_SAMPLES),
                forall|i: int| 0 <= i < out@.len() ==> (#[trigger] out@[i])@ == all.subrange(
                    i * FRAME_SAMPLES,
                    (i + 1) * FRAME_SAMPLES,
                ),
            decreases self.pending@.len(),
        {
            let ghost k = out@.len();
            let ghost before = self.pending@;
            let mut head = self.pending.split_off(FRAME_SAMPLES);
            std::mem::swap(&mut self.pending, &mut head);
            assert(head@ =~= all.subrange(k * FRAME_SAMPLES, (k + 1) * FRAME_SAMPLES));
            assert(self.pending@ =~= all.skip((k + 1) * FRAME_SAMPLES));
            out.push(head);
        }
        assert(out@.len() == all.len() / FRAME_SAMPLES as nat);
        assert(contents(out@) =~= frames_of(all));
        out
    }
}

// ---- Mixer ------------------------------------------------------------------

/// Per-speaker playback state: a jitter buffer and the speaker's smoothed gain.
struct Source {
    id: u64,
    buf: VecDeque<u32>,
    gain: u32,
    idle: u32,
}

#[verifier::ext_equal]
pub struct SourceView {
    pub id: u64,
    pub buf: Seq<u32>,
    pub gain: u32,
    pub idle: u32,
}

impl View for Source {
    type V = SourceView;

    closed spec fn view(&self) -> SourceView {
        SourceView { id: self.id, buf: self.buf@, gain: self.gain, idle: self.idle }
    }
}

impl SourceView {
    /// A speaker with nothing buffered has been silent for one more render.
    pub open spec fn aged(self) -> SourceView {
        SourceView {
            idle: if self.buf.len() > 0 {
                0
            } else if self.idle == u32::MAX {
                u32::MAX
            } else {
                (self.idle + 1) as u32
            },
            ..self
        }
    }

    /// The first `n` buffered samples are gone, or all of them if there are fewer.
    pub open spec fn drained(self, n: nat) -> SourceView {
        SourceView {
            buf: if n <= self.buf.len() {
                self.buf.skip(n as int)
            } else {
                Seq::empty()
            },
            ..self
        }
    }

    /// More samples arrived. If the buffer has fallen more than `rate` samples
    /// behind, which is a second, what was in it is dropped.
    pub open spec fn heard(self, samples: Seq<u32>, gain: u32, rate: u32) -> SourceView {
        SourceView {
            buf: if self.buf.len() > rate {
                samples
            } else {
                self.buf + samples
            },
            gain: if samples.len() == 0 {
                self.gain
            } else {
                gain
            },
            ..self
        }
    }
}

/// A speaker that has not been heard before.
pub open spec fn fresh(id: u64) -> SourceView {
    SourceView { id, buf: Seq::empty(), gain: UNIT_GAIN, idle: 0 }
}

/// No speaker is kept twice.
pub open spec fn distinct_ids(sources: Seq<SourceView>) -> bool {
    forall|i: int, j: int|
        0 <= i < j < sources.len() ==> (#[trigger] sources[i]).id != (#[trigger] sources[j]).id
}

pub open spec fn knows(sources: Seq<SourceView>, id: u64) -> bool {
    exists|i: int| 0 <= i < sources.len() && (#[trigger] sources[i]).id == id
}

/// The speakers after samples of `id` arrived.
pub open spec fn after_frame(
    sources: Seq<SourceView>,
    id: u64,
    samples: Seq<u32>,
    gain: u32,
    rate: u32,
) -> Seq<SourceView> {
    if knows(sources, id) {
        sources.map_values(
            |s: SourceView|
                if s.id == id {
                    s.heard(samples, gain, rate)
                } else {
                    s
                },
        )
    } else {
        sources.push(fresh(id).heard(samples, gain, rate))
    }
}

/// The speakers that have not been silent for too long.
pub open spec fn lively(sources: Seq<SourceView>) -> Seq<SourceView> {
    sources.filter(|s: SourceView| s.idle < IDLE_LIMIT)
}

/// The speakers after `n` frames were rendered.
pub open spec fn after_render(sources: Seq<SourceView>, n: nat) -> Seq<SourceView> {
    lively(sources.map_values(|s: SourceView| s.aged().drained(n)))
}

/// The `k`-th buffered sample of every speaker that has that many.
pub open spec fn voices_at(sources: Seq<SourceView>, k: int) -> Seq<u32> {
    sources.filter(|s: SourceView| k < s.buf.len()).map_values(|s: SourceView| s.buf[k])
}

/// How many speakers have audio buffered.
pub open spec fn count_active(sources: Seq<SourceView>) -> nat {
    sources.filter(|s: SourceView| s.buf.len() > 0).len()
}

/// The cue sample of the `k`-th frame.
pub open spec fn cue_at(cues: Seq<u32>, k: int) -> Option<u32> {
    if k < cues.len() {
        Some(cues[k])
    } else {
        None
    }
}

/// The cue samples to be played after more arrived.
pub open spec fn cues_queued(cues: Seq<u32>, samples: Seq<u32>) -> Seq<u32> {
    cues + samples
}

/// The cue samples still to be played after `n` frames were rendered.
pub open spec fn cues_left(cues: Seq<u32>, n: nat) -> Seq<u32> {
    if n <= cues.len() {
        cues.skip(n as int)
    } else {
        Seq::empty()
    }
}

/// What sounds in one frame: the samples of the active speakers, to be averaged,
/// and the sample of a notification cue, to be added on top.
pub struct FrameMix {
    pub voices: Vec<u32>,
    pub cue: Option<u32>,
}

/// Equal-weight mixer for an output device that runs at `rate` Hz.
pub struct Mixer {
    sources: Vec<Source>,
    cues: VecDeque<u32>,
    rate: u32,
}

impl Mixer {
    pub closed spec fn sources(&self) -> Seq<SourceView> {
        self.sources@.map_values(|s: Source| s@)
    }

    /// The cue samples still to be played.
    pub closed spec fn cues(&self) -> Seq<u32> {
        self.cues@
    }

    pub closed spec fn device_rate(&self) -> u32 {
        self.rate
    }

    pub open spec fn wf(&self) -> bool {
        distinct_ids(self.sources())
    }

    pub fn new(rate: u32) -> (r: Self)
        ensures
            r.wf(),
            r.sources() == Seq::<SourceView>::empty(),
            r.cues() == Seq::<u32>::empty(),
            r.device_rate() == rate,
    {
        let r = Mixer { sources: Vec::new(), cues: VecDeque::new(), rate };
        assert(r.sources() =~= Seq::<SourceView>::empty());
        r
    }

    /// The sample rate of the device.
    pub fn rate(&self) -> (r: u32)
        ensures
            r == self.device_rate(),
    {
        self.rate
    }

    fn find(&self, id: u64) -> (r: Option<usize>)
        ensures
            match r {
                Some(i) => i < self.sources@.len() && self.sources()[i as int].id == id,
                None => !knows(self.sources(), id),
            },
    {
        let mut i: usize = 0;
        while i < self.sources.len()
            invariant
                i <= self.sources@.len(),
                forall|j: int| 0 <= j < i ==> (#[trigger] self.sources()[j]).id != id,
            decreases self.sources@.len() - i,
        {
            if self.sources[i].id == id {
                return Some(i);
            }
            i += 1;
        }
        None
    }

    /// The gain that the next frame of speaker `id` starts from.
    pub fn gain(&self, id: u64) -> (r: u32)
        requires
            self.wf(),
        ensures
            forall|i: int|
                0 <= i < self.sources().len() && (#[trigger] self.sources()[i]).id == id ==> r
                    == self.sources()[i].gain,
            !knows(self.sources(), id) ==> r == UNIT_GAIN,
    {
        match self.find(id) {
            Some(i) => self.sources[i].gain,
            None => UNIT_GAIN,
        }
    }

    /// Enqueues a frame from remote speaker `id`, already at the device's rate
    /// and levelled; `gain` is where the levelling ended.
    pub fn push_frame(&mut self, id: u64, samples: &Vec<u32>, gain: u32)
        requires
            old(self).wf(),
        ensures
            final(self).wf(),
            final(self).sources() == after_frame(
                old(self).sources(),
                id,
                samples@,
                gain,
                old(self).device_rate(),
            ),
            final(self).cues() == old(self).cues(),
            final(self).device_rate() == old(self).device_rate(),
    {
        let ghost before = self.sources();
        let at = match self.find(id) {
            Some(i) => i,
            None => {
                self.sources.push(Source { id, buf: VecDeque::new(), gain: UNIT_GAIN, idle: 0 });
                self.sources.len() - 1
            },
        };
        let ghost mid = self.sources();
        assert(mid =~= if knows(before, id) {
            before
        } else {
            before.push(fresh(id))
        });
        let rate = self.rate;
        let src = &mut self.sources[at];
        let ghost src0 = src@;
        if samples.len() > 0 {
            src.gain = gain;
        }
        if src.buf.len() > rate as usize {
            src.buf.clear();
        }
        let ghost base = src.buf@;
        let mut i: usize = 0;
        while i < samples.len()
            invariant
                i <= samples@.len(),
                src.buf@ == base + samples@.take(i as int),
                src.id == src0.id,
                src.idle == src0.idle,
                src.gain == if samples@.len() == 0 {
                    src0.gain
                } else {
                    gain
                },
            decreases samples@.len() - i,
        {
            src.buf.push_back(samples[i]);
            assert(samples@.take(i + 1) =~= samples@.take(i as int).push(samples@[i as int]));
            i += 1;
        }
        assert(samples@.take(i as int) =~= samples@);
        assert(src@ =~= src0.heard(samples@, gain, rate));
        assert(self.sources() =~= mid.update(at as int, mid[at as int].heard(samples@, gain, rate)));
        assert(self.sources() =~= after_frame(before, id, samples@, gain, rate));
    }

    /// Enqueues a notification cue at the device's rate. It is played at the
    /// level it has, on top of whatever the speakers say.
    pub fn push_sfx(&mut self, samples: &Vec<u32>)
        requires
            old(self).wf(),
        ensures
            final(self).wf(),
            final(self).sources() == old(self).sources(),
            final(self).cues() == cues_queued(old(self).cues(), samples@),
            final(self).device_rate() == old(self).device_rate(),
    {
        let mut i: usize = 0;
        while i < samples.len()
            invariant
                i <= samples@.len(),
                self.sources == old(self).sources,
                self.rate == old(self).rate,
                self.cues@ == old(self).cues@ + samples@.take(i as int),
            decreases samples@.len() - i,
        {
            self.cues.push_back(samples[i]);
            assert(samples@.take(i + 1) =~= samples@.take(i as int).push(samples@[i as int]));
            i += 1;
        }
        assert(samples@.take(i as int) =~= samples@);
    }

    /// Number of speakers with audio still buffered.
    pub fn active_sources(&self) -> (r: usize)
        ensures
            r == count_active(self.sources()),
    {
        let mut n: usize = 0;
        let mut i: usize = 0;
        while i < self.sources.len()
            invariant
                n <= i <= self.sources@.len(),
                n == count_active(self.sources().take(i as int)),
            decreases self.sources@.len() - i,
        {
            proof {
                lemma_active_step(self.sources(), i as int);
            }
            if self.sources[i].buf.len() > 0 {
                n += 1;
            }
            i += 1;
        }
        assert(self.sources().take(i as int) =~= self.sources());
        n
    }

    /// Every speaker with nothing buffered ages; the others are fresh again.
    fn age(&mut self)
        ensures
            final(self).sources() == old(self).sources().map_values(|s: SourceView| s.aged()),
            final(self).cues == old(self).cues,
            final(self).rate == old(self).rate,
    {
        let mut i: usize = 0;
        while i < self.sources.len()
            invariant
                i <= self.sources@.len(),
                self.sources@.len() == old(self).sources@.len(),
                self.cues == old(self).cues,
                self.rate == old(self).rate,
                forall|j: int|
                    0 <= j < i ==> (#[trigger] self.sources()[j]) == old(self).sources()[j].aged(),
                forall|j: int|
                    i <= j < self.sources@.len() ==> (#[trigger] self.sources()[j]) == old(
                        self,
                    ).sources()[j],
            decreases self.sources@.len() - i,
        {
            let ghost before = self.sources();
            let src = &mut self.sources[i];
            if src.buf.len() == 0 {
                src.idle = src.idle.saturating_add(1);
            } else {
                src.idle = 0;
            }
            assert(self.sources() =~= before.update(i as int, before[i as int].aged()));
            i += 1;
        }
        assert(self.sources() =~= old(self).sources().map_values(|s: SourceView| s.aged()));
    }

    /// Takes the front sample off every buffer that has one.
    fn pop_voices(&mut self) -> (r: Vec<u32>)
        ensures
            r@ == voices_at(old(self).sources(), 0),
            final(self).sources() == old(self).sources().map_values(|s: SourceView| s.drained(1)),
            final(self).cues == old(self).cues,
            final(self).rate == old(self).rate,
    {
        let mut voices: Vec<u32> = Vec::new();
        let mut i: usize = 0;
        assert(voices_at(old(self).sources().take(0), 0) =~= Seq::<u32>::empty());
        while i < self.sources.len()
            invariant
                i <= self.sources@.len(),
                self.sources@.len() == old(self).sources@.len(),
                self.cues == old(self).cues,
                self.rate == old(self).rate,
                voices@ == voices_at(old(self).sources().take(i as int), 0),
                forall|j: int|
                    0 <= j < i ==> (#[trigger] self.sources()[j]) == old(self).sources()[j].drained(1),
                forall|j: int|
                    i <= j < self.sources@.len() ==> (#[trigger] self.sources()[j]) == old(
                        self,
                    ).sources()[j],
            decreases self.sources@.len() - i,
        {
            let ghost before = self.sources();
            proof {
                lemma_voices_step(old(self).sources(), i as int, 0);
            }
            let src = &mut self.sources[i];
            let front = src.buf.pop_front();
            if let Some(s) = front {
                voices.push(s);
            }
            assert(self.sources()[i as int] =~= before[i as int].drained(1));
            assert(self.sources() =~= before.update(i as int, before[i as int].drained(1)));
            i += 1;
        }
        assert(old(self).sources().take(i as int) =~= old(self).sources());
        assert(self.sources() =~= old(self).sources().map_values(|s: SourceView| s.drained(1)));
        voices
    }

    /// Forgets speakers that have been silent for a long time.
    fn prune(&mut self)
        ensures
            final(self).sources() == lively(old(self).sources()),
            final(self).cues == old(self).cues,
            final(self).rate == old(self).rate,
    {
        let mut all: Vec<Source> = Vec::new();
        std::mem::swap(&mut self.sources, &mut all);
        let ghost before = old(self).sources();
        assert(self.sources() =~= lively(before.take(0)));
        let mut i: usize = 0;
        let n = all.len();
        while i < n
            invariant
                i <= n,
                n == before.len(),
                all@.map_values(|s: Source| s@) =~= before.skip(i as int),
                self.sources() == lively(before.take(i as int)),
                self.cues == old(self).cues,
                self.rate == old(self).rate,
            decreases n - i,
        {
            let ghost rest = all@.map_values(|s: Source| s@);
            assert(rest.len() == n - i);
            let src = all.remove(0);
            assert(src@ == rest[0]);
            assert(src@ == before[i as int]);
            proof {
                lemma_lively_step(before, i as int);
            }
            let ghost kept = self.sources();
            if src.idle < IDLE_LIMIT {
                self.sources.push(src);
                assert(self.sources() =~= kept.push(src@));
            }
            i += 1;
            assert(all@.map_values(|s: Source| s@) =~= rest.skip(1));
        }
        assert(before.take(i as int) =~= before);
    }

    /// Renders an interleaved output buffer of `out_len` samples: says for each
    /// of its frames which samples sound in it, takes them off the buffers, and
    /// forgets the speakers that have been silent for too long.
    pub fn render(&mut self, out_len: usize, channels: usize) -> (r: Vec<FrameMix>)
        requires
            old(self).wf(),
        ensures
            final(self).wf(),
            r@.len() == ceil_div(out_len as nat, channel_count(channels)),
            forall|k: int|
                0 <= k < r@.len() ==> (#[trigger] r@[k]).voices@ == voices_at(old(self).sources(), k)
                    && r@[k].cue == cue_at(old(self).cues(), k),
            final(self).sources() == after_render(old(self).sources(), r@.len()),
            final(self).cues() == cues_left(old(self).cues(), r@.len()),
            final(self).device_rate() == old(self).device_rate(),
    {
        let ch: usize = if channels == 0 {
            1
        } else {
            channels
        };
        let frames: usize = if out_len == 0 {
            0
        } else {
            (out_len - 1) / ch + 1
        };
        proof {
            lemma_ceil_exact(out_len as nat, ch as nat);
        }
        let ghost s0 = self.sources();
        let ghost c0 = self.cues@;
        self.age();
        assert(self.sources() =~= s0.map_values(|s: SourceView| s.aged().drained(0))) by {
            lemma_drained_all(0);
        }
        assert(c0.skip(0) =~= c0);
        let mut r: Vec<FrameMix> = Vec::new();
        while r.len() < frames
            invariant
                s0 == old(self).sources(),
                c0 == old(self).cues@,
                r@.len() <= frames,
                self.rate == old(self).rate,
                self.sources() == s0.map_values(|s: SourceView| s.aged().drained(r@.len())),
                self.cues@ == if r@.len() <= c0.len() {
                    c0.skip(r@.len() as int)
                } else {
                    Seq::empty()
                },
                forall|k: int|
                    0 <= k < r@.len() ==> (#[trigger] r@[k]).voices@ == voices_at(s0, k) && r@[k].cue
                        == cue_at(c0, k),
            decreases frames - r@.len(),
        {
            let ghost k = r@.len();
            proof {
                lemma_voices_shift(s0, k);
            }
            let voices = self.pop_voices();
            let ghost c1 = self.cues@;
            let cue = self.cues.pop_front();
            assert(cue == cue_at(c0, k as int));
            assert(self.sources() =~= s0.map_values(|s: SourceView| s.aged().drained(k + 1))) by {
                lemma_drained_all(k);
            }
            assert(self.cues@ =~= if k + 1 <= c0.len() {
                c0.skip(k as int + 1)
            } else {
                Seq::empty()
            });
            r.push(FrameMix { voices, cue });
        }
        proof {
            lemma_render_keeps_distinct(s0, frames as nat);
        }
        self.prune();
        r
    }
}

proof fn lemma_ceil_exact(n: nat, d: nat)
    requires
        d > 0,
    ensures
        ceil_div(n, d) == if n == 0 {
            0
        } else {
            (n - 1) as nat / d + 1
        },
{
    if n == 0 {
        assert((d - 1) as nat / d == 0) by (nonlinear_arith)
            requires
                d > 0,
        ;
    } else {
        assert((n - 1 + d) as nat / d == (n - 1) as nat / d + 1) by (nonlinear_arith)
            requires
                d > 0,
                n > 0,
        ;
    }
}

proof fn lemma_drained_all(k: nat)
    ensures
        forall|s: SourceView| #[trigger] s.drained(0) == s,
        forall|s: SourceView| #[trigger] s.drained(k).drained(1) == s.drained(k + 1),
{
    assert forall|s: SourceView| #[trigger] s.drained(0) == s by {
        assert(s.drained(0).buf =~= s.buf);
    }
    assert forall|s: SourceView| #[trigger] s.drained(k).drained(1) == s.drained(k + 1) by {
        assert(s.drained(k).drained(1).buf =~= s.drained(k + 1).buf);
    }
}

/// Popping one sample per frame reaches the `k`-th sample in the `k`-th frame.
proof fn lemma_voices_shift(sources: Seq<SourceView>, k: nat)
    ensures
        voices_at(sources.map_values(|s: SourceView| s.aged().drained(k)), 0) == voices_at(
            sources,
            k as int,
        ),
    decreases sources.len(),
{
    let f = |s: SourceView| s.aged().drained(k);
    let shifted = sources.map_values(f);
    if sources.len() == 0 {
        assert(shifted =~= sources);
        reveal(Seq::filter);
        assert(voices_at(shifted, 0) =~= voices_at(sources, k as int));
    } else {
        let n = sources.len() - 1;
        lemma_voices_shift(sources.take(n), k);
        assert(sources.take(n).map_values(f) =~= shifted.take(n));
        lemma_voices_step(sources, n, k as int);
        lemma_voices_step(shifted, n, 0);
        assert(sources.take(n + 1) =~= sources);
        assert(shifted.take(n + 1) =~= shifted);
        if k < sources[n].buf.len() {
            assert(shifted[n].buf[0] == sources[n].buf[k as int]);
        }
    }
}

proof fn lemma_lively_distinct(sources: Seq<SourceView>)
    requires
        distinct_ids(sources),
    ensures
        distinct_ids(lively(sources)),
{
    let kept = lively(sources);
    assert forall|a: int, b: int| 0 <= a < b < kept.len() implies (#[trigger] kept[a]).id != (
    #[trigger] kept[b]).id by {
        let i = lemma_filter_from(sources, |s: SourceView| s.idle < IDLE_LIMIT, a);
        let j = lemma_filter_from(sources, |s: SourceView| s.idle < IDLE_LIMIT, b);
        assert(i != j);
        assert(sources[i].id != sources[j].id);
    }
}

proof fn lemma_render_keeps_distinct(sources: Seq<SourceView>, n: nat)
    requires
        distinct_ids(sources),
    ensures
        distinct_ids(after_render(sources, n)),
{
    let aged = sources.map_values(|s: SourceView| s.aged().drained(n));
    assert(distinct_ids(aged)) by {
        assert forall|i: int, j: int| 0 <= i < j < aged.len() implies (#[trigger] aged[i]).id != (
        #[trigger] aged[j]).id by {
            assert(sources[i].id != sources[j].id);
        }
    }
    lemma_lively_distinct(aged);
}

proof fn lemma_active_step(sources: Seq<SourceView>, i: int)
    requires
        0 <= i < sources.len(),
    ensures
        count_active(sources.take(i + 1)) == count_active(sources.take(i)) + if sources[i].buf.len()
            > 0 {
            1nat
        } else {
            0nat
        },
{
    assert(sources.take(i + 1) =~= sources.take(i).push(sources[i]));
    sources.take(i).lemma_filter_push(sources[i], |s: SourceView| s.buf.len() > 0);
}

proof fn lemma_voices_step(sources: Seq<SourceView>, i: int, k: int)
    requires
        0 <= i < sources.len(),
    ensures
        voices_at(sources.take(i + 1), k) == if k < sources[i].buf.len() {
            voices_at(sources.take(i), k).push(sources[i].buf[k])
        } else {
            voices_at(sources.take(i), k)
        },
{
    let has = |s: SourceView| k < s.buf.len();
    assert(sources.take(i + 1) =~= sources.take(i).push(sources[i]));
    sources.take(i).lemma_filter_push(sources[i], has);
    assert(voices_at(sources.take(i + 1), k) =~= if k < sources[i].buf.len() {
        voices_at(sources.take(i), k).push(sources[i].buf[k])
    } else {
        voices_at(sources.take(i), k)
    });
}

proof fn lemma_lively_step(sources: Seq<SourceView>, i: int)
    requires
        0 <= i < sources.len(),
    ensures
        lively(sources.take(i + 1)) == if sources[i].idle < IDLE_LIMIT {
            lively(sources.take(i)).push(sources[i])
        } else {
            lively(sources.take(i))
        },
{
    assert(sources.take(i + 1) =~= sources.take(i).push(sources[i]));
    sources.take(i).lemma_filter_push(sources[i], |s: SourceView| s.idle < IDLE_LIMIT);
}

// ---- cues -------------------------------------------------------------------

/// A notification sound.
#[derive(Debug, Clone, Copy, PartialEq, Eq, Structural)]
pub enum Cue {
    /// Somebody joined the group.
    Join,
    /// Somebody left it.
    Leave,
    /// A text line was sent or received.
    Message,
}

/// One tone of a cue: its pitch and how long it lasts.
#[derive(Debug, Clone, Copy, PartialEq, Eq, Structural)]
pub struct Tone {
    pub hz: u32,
    pub ms: u32,
}

/// The tones of a cue, one after the other: rising on join, falling on leave,
/// a single one for a message.
pub open spec fn tones(cue: Cue) -> Seq<Tone> {
    match cue {
        Cue::Join => seq![Tone { hz: 660, ms: 90 }, Tone { hz: 880, ms: 120 }],
        Cue::Leave => seq![Tone { hz: 660, ms: 90 }, Tone { hz: 440, ms: 120 }],
        Cue::Message => seq![Tone { hz: 740, ms: 80 }],
    }
}

pub fn cue_tones(cue: Cue) -> (r: Vec<Tone>)
    ensures
        r@ == tones(cue),
{
    let mut r: Vec<Tone> = Vec::new();
    match cue {
        Cue::Join => {
            r.push(Tone { hz: 660, ms: 90 });
            r.push(Tone { hz: 880, ms: 120 });
        },
        Cue::Leave => {
            r.push(Tone { hz: 660, ms: 90 });
            r.push(Tone { hz: 440, ms: 120 });
        },
        Cue::Message => {
            r.push(Tone { hz: 740, ms: 80 });
        },
    }
    assert(r@ =~= tones(cue));
    r
}

pub open spec fn tone_samples(tone: Tone, rate: u32) -> int {
    tone.ms * rate / 1000
}

/// How many samples a tone lasts at `rate` Hz.
pub fn tone_len(tone: Tone, rate: u32) -> (r: u64)
    ensures
        r == tone_samples(tone, rate),
{
    assert(tone.ms * rate <= u32::MAX * u32::MAX) by (nonlinear_arith)
        requires
            tone.ms <= u32::MAX,
            rate <= u32::MAX,
    ;
    tone.ms as u64 * rate as u64 / 1000
}

// ---- laws -------------------------------------------------------------------

/// Framing loses no sample and changes no order: the frames one after the
/// other, followed by what is left, are the stream.
pub proof fn framing_keeps_every_sample(s: Seq<u32>)
    ensures
        frames_of(s).flatten() + leftover(s) == s,
{
    lemma_flat_frames(s, frames_of(s).len() as int);
    assert(frames_of(s).take(frames_of(s).len() as int) =~= frames_of(s));
    assert(frames_of(s).flatten() + leftover(s) =~= s);
}

proof fn lemma_flat_frames(s: Seq<u32>, k: int)
    requires
        0 <= k <= frames_of(s).len(),
    ensures
        frames_of(s).take(k).flatten() == s.take(k * FRAME_SAMPLES),
    decreases k,
{
    if k == 0 {
        reveal_with_fuel(Seq::<_>::flatten, 1);
        assert(frames_of(s).take(0).flatten() =~= s.take(0));
    } else {
        lemma_flat_frames(s, k - 1);
        let f = frames_of(s);
        assert(f.take(k) =~= f.take(k - 1).push(f[k - 1]));
        f.take(k - 1).lemma_flatten_push(f[k - 1]);
        assert(s.take(k * FRAME_SAMPLES) =~= s.take((k - 1) * FRAME_SAMPLES) + f[k - 1]);
    }
}

/// How a stream is cut into callbacks does not matter: what `a` and then `b`
/// complete is what `a` followed by `b` completes at once.
pub proof fn framing_ignores_callback_size(pending: Seq<u32>, a: Seq<u32>, b: Seq<u32>)
    ensures
        frames_of(pending + a) + frames_of(leftover(pending + a) + b) == frames_of(
            pending + (a + b),
        ),
        leftover(leftover(pending + a) + b) == leftover(pending + (a + b)),
{
    let s = pending + a;
    let t = leftover(s) + b;
    let all = pending + (a + b);
    let n = (s.len() / FRAME_SAMPLES as nat) as int;
    assert(all =~= s + b);
    assert(t =~= all.skip(n * FRAME_SAMPLES));
    let m = (t.len() / FRAME_SAMPLES as nat) as int;
    assert(all.len() / FRAME_SAMPLES as nat == n + m);
    let l = frames_of(s) + frames_of(t);
    let r = frames_of(all);
    assert(l.len() == r.len());
    assert forall|i: int| 0 <= i < l.len() implies l[i] == r[i] by {
        if i < n {
            assert(l[i] =~= r[i]);
        } else {
            assert(l[i] == t.subrange((i - n) * FRAME_SAMPLES, (i - n + 1) * FRAME_SAMPLES));
            assert(l[i] =~= r[i]);
        }
    }
    assert(l =~= r);
    assert(leftover(t) =~= leftover(all));
}

/// Equal weight: a speaker adds exactly one sample, its own next one, to every
/// frame for which it has audio, and nothing to the others, wherever it stands
/// among the speakers.
pub proof fn each_speaker_counts_once(
    before: Seq<SourceView>,
    s: SourceView,
    behind: Seq<SourceView>,
    k: int,
)
    ensures
        voices_at(before.push(s) + behind, k) == if k < s.buf.len() {
            voices_at(before, k).push(s.buf[k]) + voices_at(behind, k)
        } else {
            voices_at(before, k) + voices_at(behind, k)
        },
{
    let has = |s: SourceView| k < s.buf.len();
    let front = before.push(s);
    lemma_voices_step(front, before.len() as int, k);
    assert(front.take(before.len() as int + 1) =~= front);
    assert(front.take(before.len() as int) =~= before);
    Seq::filter_distributes_over_add(front, behind, has);
    assert(voices_at(front + behind, k) =~= voices_at(front, k) + voices_at(behind, k));
}

/// What is averaged in the next frame is one sample of every active speaker.
pub proof fn the_average_is_over_the_active_speakers(sources: Seq<SourceView>)
    ensures
        voices_at(sources, 0).len() == count_active(sources),
    decreases sources.len(),
{
    if sources.len() == 0 {
        reveal(Seq::filter);
    } else {
        let n = sources.len() - 1;
        the_average_is_over_the_active_speakers(sources.take(n));
        lemma_voices_step(sources, n, 0);
        lemma_active_step(sources, n);
        assert(sources.take(n + 1) =~= sources);
    }
}

/// A mixer with nothing buffered for a frame is silent in it.
pub proof fn drained_speakers_are_silent(sources: Seq<SourceView>, k: int)
    requires
        forall|i: int| 0 <= i < sources.len() ==> (#[trigger] sources[i]).buf.len() <= k,
    ensures
        voices_at(sources, k) == Seq::<u32>::empty(),
    decreases sources.len(),
{
    if sources.len() == 0 {
        reveal(Seq::filter);
        assert(voices_at(sources, k) =~= Seq::<u32>::empty());
    } else {
        let n = sources.len() - 1;
        drained_speakers_are_silent(sources.take(n), k);
        lemma_voices_step(sources, n, k);
        assert(sources.take(n + 1) =~= sources);
    }
}

/// No speaker's buffer grows more than a second beyond the frame it was just
/// given.
pub proof fn latency_is_capped(
    sources: Seq<SourceView>,
    id: u64,
    samples: Seq<u32>,
    gain: u32,
    rate: u32,
    i: int,
)
    requires
        0 <= i < after_frame(sources, id, samples, gain, rate).len(),
        after_frame(sources, id, samples, gain, rate)[i].id == id,
    ensures
        after_frame(sources, id, samples, gain, rate)[i].buf.len() <= rate + samples.len(),
{
    if !knows(sources, id) && i < sources.len() {
        assert(sources[i].id == id);
    }
}

/// Something that happens to the speakers: a render of `n` frames, or samples
/// that arrive from speaker `id`.
pub ghost enum MixerStep {
    Render { n: nat },
    Frame { id: u64, samples: Seq<u32>, gain: u32 },
}

/// The speakers after a number of steps, on a device that runs at `rate` Hz.
pub open spec fn after_steps(sources: Seq<SourceView>, steps: Seq<MixerStep>, rate: u32) -> Seq<
    SourceView,
>
    decreases steps.len(),
{
    if steps.len() == 0 {
        sources
    } else {
        let before = after_steps(sources, steps.drop_last(), rate);
        match steps.last() {
            MixerStep::Render { n } => after_render(before, n),
            MixerStep::Frame { id, samples, gain } => after_frame(before, id, samples, gain, rate),
        }
    }
}

/// How many of the steps are renders.
pub open spec fn renders(steps: Seq<MixerStep>) -> nat
    decreases steps.len(),
{
    if steps.len() == 0 {
        0
    } else if steps.last() is Render {
        renders(steps.drop_last()) + 1
    } else {
        renders(steps.drop_last())
    }
}

/// Nothing arrives from `id` in any of the steps.
pub open spec fn keeps_silent(steps: Seq<MixerStep>, id: u64) -> bool {
    forall|k: int| 0 <= k < steps.len() ==> !((#[trigger] steps[k]) is Frame && steps[k]->id == id)
}

/// A speaker that has gone silent keeps its place and its gain until it has been
/// silent for `IDLE_LIMIT` renders in a row, and is forgotten with the render
/// that makes it so many. How long the renders are and what others say in
/// between does not matter.
pub proof fn silence_is_forgiven_until_the_limit(
    sources: Seq<SourceView>,
    s: SourceView,
    steps: Seq<MixerStep>,
    rate: u32,
)
    requires
        distinct_ids(sources),
        sources.contains(s),
        s.buf.len() == 0,
        s.idle < IDLE_LIMIT,
        keeps_silent(steps, s.id),
    ensures
        s.idle + renders(steps) < 200 ==> after_steps(sources, steps, rate).contains(
            SourceView { idle: (s.idle + renders(steps)) as u32, ..s },
        ),
        s.idle + renders(steps) >= 200 ==> !knows(after_steps(sources, steps, rate), s.id),
        distinct_ids(after_steps(sources, steps, rate)),
    decreases steps.len(),
{
    if steps.len() == 0 {
        assert(SourceView { idle: (s.idle + renders(steps)) as u32, ..s } =~= s);
    } else {
        let front = steps.drop_last();
        assert(keeps_silent(front, s.id)) by {
            assert forall|k: int| 0 <= k < front.len() implies !((#[trigger] front[k]) is Frame
                && front[k]->id == s.id) by {
                assert(front[k] == steps[k]);
            }
        }
        silence_is_forgiven_until_the_limit(sources, s, front, rate);
        let before = after_steps(sources, front, rate);
        let m = renders(front);
        let now = SourceView { idle: (s.idle + m) as u32, ..s };
        match steps.last() {
            MixerStep::Render { n } => {
                lemma_render_keeps_distinct(before, n);
                if s.idle + m < IDLE_LIMIT {
                    let next = SourceView { idle: (s.idle + m + 1) as u32, ..s };
                    assert(now.aged().drained(n) =~= next);
                    lemma_render_one(before, now, n);
                } else {
                    lemma_render_unknown(before, s.id, n);
                }
            },
            MixerStep::Frame { id, samples, gain } => {
                assert(steps[steps.len() - 1] is Frame);
                lemma_frame_of_another(before, id, samples, gain, rate);
                if s.idle + m < IDLE_LIMIT {
                    assert(now.id != id);
                }
            },
        }
    }
}

/// A frame touches nobody but its speaker.
proof fn lemma_frame_of_another(
    sources: Seq<SourceView>,
    id: u64,
    samples: Seq<u32>,
    gain: u32,
    rate: u32,
)
    requires
        distinct_ids(sources),
    ensures
        distinct_ids(after_frame(sources, id, samples, gain, rate)),
        forall|s: SourceView| s.id != id && sources.contains(s) ==> #[trigger] after_frame(
            sources,
            id,
            samples,
            gain,
            rate,
        ).contains(s),
        forall|other: u64| other != id && !knows(sources, other) ==> !#[trigger] knows(
            after_frame(sources, id, samples, gain, rate),
            other,
        ),
{
    let after = after_frame(sources, id, samples, gain, rate);
    assert forall|i: int, j: int| 0 <= i < j < after.len() implies (#[trigger] after[i]).id != (
    #[trigger] after[j]).id by {
        assert(i < sources.len() ==> sources[i].id == after[i].id);
        assert(j < sources.len() ==> sources[j].id == after[j].id);
    }
    assert forall|s: SourceView| s.id != id && sources.contains(s) implies #[trigger] after.contains(
        s,
    ) by {
        let i = choose|i: int| 0 <= i < sources.len() && sources[i] == s;
        assert(after[i] == s);
    }
    assert forall|other: u64| other != id && !knows(sources, other) implies !#[trigger] knows(
        after,
        other,
    ) by {
        if knows(after, other) {
            let i = choose|i: int| 0 <= i < after.len() && (#[trigger] after[i]).id == other;
            assert(sources[i].id == other);
        }
    }
}

/// A speaker with audio to play is fresh again after the render, whatever its
/// idle count was.
pub proof fn speaking_resets_the_silence(sources: Seq<SourceView>, s: SourceView, n: nat)
    requires
        distinct_ids(sources),
        sources.contains(s),
        s.buf.len() > 0,
    ensures
        after_render(sources, n).contains(SourceView { idle: 0, ..s.drained(n) }),
{
    assert(s.aged().drained(n) =~= SourceView { idle: 0, ..s.drained(n) });
    lemma_render_one(sources, s, n);
}

/// What one render makes of one speaker.
proof fn lemma_render_one(sources: Seq<SourceView>, s: SourceView, n: nat)
    requires
        distinct_ids(sources),
        sources.contains(s),
    ensures
        s.aged().idle < IDLE_LIMIT ==> after_render(sources, n).contains(s.aged().drained(n)),
        s.aged().idle >= IDLE_LIMIT ==> !knows(after_render(sources, n), s.id),
{
    let f = |x: SourceView| x.aged().drained(n);
    let aged = sources.map_values(f);
    let keep = |x: SourceView| x.idle < IDLE_LIMIT;
    let i = choose|i: int| 0 <= i < sources.len() && sources[i] == s;
    assert(aged[i] == s.aged().drained(n));
    if s.aged().idle < IDLE_LIMIT {
        aged.lemma_filter_contains(keep, i);
    } else {
        let kept = lively(aged);
        assert forall|j: int| 0 <= j < kept.len() implies (#[trigger] kept[j]).id != s.id by {
            let at = lemma_filter_from(aged, |s: SourceView| s.idle < IDLE_LIMIT, j);
            assert(at != i);
            assert(sources[at].id != sources[i].id);
        }
    }
}

proof fn lemma_render_unknown(sources: Seq<SourceView>, id: u64, n: nat)
    requires
        !knows(sources, id),
    ensures
        !knows(after_render(sources, n), id),
{
    let aged = sources.map_values(|x: SourceView| x.aged().drained(n));
    let kept = lively(aged);
    assert forall|j: int| 0 <= j < kept.len() implies (#[trigger] kept[j]).id != id by {
        let at = lemma_filter_from(aged, |s: SourceView| s.idle < IDLE_LIMIT, j);
        assert(sources[at].id != id);
    }
}

/// A frame is 20 ms long, and less than a frame is left waiting.
pub proof fn frames_are_whole(s: Seq<u32>, i: int)
    ensures
        0 <= i < frames_of(s).len() ==> 50 * frames_of(s)[i].len() == 48_000,
        SAMPLE_RATE == 48_000,
        leftover(s).len() < 960,
{
}

/// Interleaved audio is cut into groups of one sample per channel: no sample is
/// lost, doubled or moved, no group is empty, and only the last can be short.
pub proof fn grouping_keeps_every_sample(s: Seq<u32>, ch: nat, i: int, j: int)
    requires
        ch > 0,
    ensures
        0 <= j < s.len() ==> {
            &&& 0 <= j / ch as int
            &&& j / (ch as int) < ceil_div(s.len(), ch)
            &&& j % (ch as int) < group(s, ch, j / ch as int).len()
            &&& group(s, ch, j / ch as int)[j % ch as int] == s[j]
        },
        0 <= i < ceil_div(s.len(), ch) ==> {
            &&& 0 < group(s, ch, i).len() <= ch
            &&& i + 1 < ceil_div(s.len(), ch) ==> group(s, ch, i).len() == ch
            &&& i + 1 == ceil_div(s.len(), ch) ==> i * ch + group(s, ch, i).len() == s.len()
        },
{
    let n = s.len();
    if 0 <= j < n {
        let q = j / ch as int;
        let r = j % ch as int;
        assert(j == q * ch + r && 0 <= r < ch && 0 <= q) by (nonlinear_arith)
            requires
                ch > 0,
                j >= 0,
                q == j / ch as int,
                r == j % ch as int,
        ;
        lemma_ceil_step(n, ch, q as nat);
        assert((q + 1) * ch == q * ch + ch) by (nonlinear_arith);
    }
    if 0 <= i < ceil_div(n, ch) {
        lemma_ceil_step(n, ch, i as nat);
        lemma_ceil_step(n, ch, (i + 1) as nat);
        assert((i + 1) * ch == i * ch + ch) by (nonlinear_arith);
        assert(0 <= i * ch) by (nonlinear_arith)
            requires
                0 <= i,
        ;
    }
}

/// A channel count of zero is taken for one, any other for itself.
pub proof fn there_is_a_channel(channels: usize)
    ensures
        channel_count(channels) >= 1,
        channels >= 1 ==> channel_count(channels) == channels,
        channels == 0 ==> channel_count(channels) == 1,
{
}

/// Fanning out gives every channel of a frame the frame's value, and so nothing
/// but that value stands in any group of the result.
pub proof fn fanning_out_fills_every_channel(values: Seq<u32>, n: nat, ch: nat, i: int, k: int)
    requires
        ch > 0,
        values.len() == ceil_div(n, ch),
        0 <= i < values.len(),
    ensures
        fanned(values, n, ch).len() == n,
        0 <= k < group(fanned(values, n, ch), ch, i).len() ==> group(fanned(values, n, ch), ch, i)[k]
            == values[i],
{
    let out = fanned(values, n, ch);
    grouping_keeps_every_sample(out, ch, i, 0);
    if 0 <= k < group(out, ch, i).len() {
        assert((i + 1) * ch == i * ch + ch) by (nonlinear_arith);
        let at = i * ch + k;
        assert(0 <= i * ch) by (nonlinear_arith)
            requires
                0 <= i,
        ;
        assert(at / ch as int == i) by (nonlinear_arith)
            requires
                at == i * ch + k,
                0 <= k < ch,
                0 <= i,
        ;
        assert(out.len() == n);
        lemma_ceil_step(n, ch, i as nat);
        if (i + 1) * ch <= n {
            assert(group(out, ch, i) == out.subrange(i * ch, (i + 1) * ch));
        } else {
            assert(group(out, ch, i) == out.subrange(i * ch, n as int));
            assert(group(out, ch, i).len() == n - i * ch);
        }
        assert(at < n);
        assert(group(out, ch, i)[k] == out[at]);
        assert(out[at] == values[at / ch as int]);
    }
}

/// What arrives is queued behind what is buffered, sample by sample, unless the
/// buffer is more than `rate` samples behind, which are then dropped; the gain
/// becomes the one that comes with the samples.
pub proof fn frames_are_queued(s: SourceView, samples: Seq<u32>, gain: u32, rate: u32, i: int)
    ensures
        ({
            let after = s.heard(samples, gain, rate);
            let kept = if s.buf.len() <= rate {
                s.buf.len() as int
            } else {
                0
            };
            &&& after.buf.len() == kept + samples.len()
            &&& 0 <= i < kept ==> after.buf[i] == s.buf[i]
            &&& 0 <= i < samples.len() ==> after.buf[kept + i] == samples[i]
            &&& after.id == s.id
            &&& after.idle == s.idle
            &&& samples.len() > 0 ==> after.gain == gain
            &&& samples.len() == 0 ==> after.gain == s.gain
        }),
{
}

/// A frame changes its speaker, or adds it with the frame alone and the unit
/// gain until then, and leaves everybody else as they are.
pub proof fn frames_reach_their_speaker(
    sources: Seq<SourceView>,
    id: u64,
    samples: Seq<u32>,
    gain: u32,
    rate: u32,
    i: int,
)
    ensures
        ({
            let after = after_frame(sources, id, samples, gain, rate);
            &&& 0 <= i < sources.len() && sources[i].id != id ==> after[i] == sources[i]
            &&& 0 <= i < sources.len() && sources[i].id == id ==> {
                &&& after.len() == sources.len()
                &&& after[i] == sources[i].heard(samples, gain, rate)
            }
            &&& (forall|k: int| 0 <= k < sources.len() ==> (#[trigger] sources[k]).id != id) ==> {
                &&& after.len() == sources.len() + 1
                &&& after.last().id == id
                &&& after.last().buf == samples
                &&& after.last().idle == 0
                &&& after.last().gain == if samples.len() > 0 {
                    gain
                } else {
                    0x3f80_0000
                }
            }
        }),
{
    if 0 <= i < sources.len() && sources[i].id == id {
        assert(knows(sources, id));
    }
    if !knows(sources, id) {
        let after = after_frame(sources, id, samples, gain, rate);
        assert(after.last().buf =~= samples);
    }
}

/// The samples that are buffered for a speaker, none if it is not known.
pub open spec fn buffered(sources: Seq<SourceView>, id: u64) -> Seq<u32>
    decreases sources.len(),
{
    if sources.len() == 0 {
        Seq::empty()
    } else if sources.last().id == id {
        sources.last().buf
    } else {
        buffered(sources.drop_last(), id)
    }
}

proof fn lemma_buffered(sources: Seq<SourceView>, i: int)
    requires
        distinct_ids(sources),
        0 <= i < sources.len(),
    ensures
        buffered(sources, sources[i].id) == sources[i].buf,
    decreases sources.len(),
{
    let n = sources.len() - 1;
    if i < n {
        let front = sources.drop_last();
        assert(sources[i].id != sources[n].id);
        assert(distinct_ids(front)) by {
            assert forall|a: int, b: int| 0 <= a < b < front.len() implies (#[trigger] front[a]).id
                != (#[trigger] front[b]).id by {
                assert(sources[a].id != sources[b].id);
            }
        }
        lemma_buffered(front, i);
    }
}

proof fn lemma_buffered_unknown(sources: Seq<SourceView>, id: u64)
    requires
        !knows(sources, id),
    ensures
        buffered(sources, id).len() == 0,
    decreases sources.len(),
{
    if sources.len() > 0 {
        let front = sources.drop_last();
        assert(sources[sources.len() - 1].id != id);
        assert(!knows(front, id)) by {
            assert forall|k: int| 0 <= k < front.len() implies (#[trigger] front[k]).id != id by {
                assert(sources[k].id != id);
            }
        }
        lemma_buffered_unknown(front, id);
    }
}

/// A speaker is known by at most one buffer: the one that is listed for it, and
/// nothing if none is.
pub proof fn buffers_are_those_of_their_speakers(sources: Seq<SourceView>, id: u64, i: int)
    requires
        distinct_ids(sources),
    ensures
        0 <= i < sources.len() && sources[i].id == id ==> buffered(sources, id) == sources[i].buf,
        (forall|k: int| 0 <= k < sources.len() ==> (#[trigger] sources[k]).id != id) ==> buffered(
            sources,
            id,
        ).len() == 0,
{
    if 0 <= i < sources.len() && sources[i].id == id {
        lemma_buffered(sources, i);
    }
    if !knows(sources, id) {
        lemma_buffered_unknown(sources, id);
    }
}

/// The samples of `id` that arrive in the steps, in the order of their arrival.
pub open spec fn arrived(steps: Seq<MixerStep>, id: u64) -> Seq<u32>
    decreases steps.len(),
{
    if steps.len() == 0 {
        Seq::empty()
    } else {
        match steps.last() {
            MixerStep::Frame { id: from, samples, gain: _ } if from == id => arrived(
                steps.drop_last(),
                id,
            ) + samples,
            _ => arrived(steps.drop_last(), id),
        }
    }
}

/// The samples of `id` that are played in the steps: frame `k` of a render plays
/// the `k`-th of those that are buffered, if there are so many.
pub open spec fn played(sources: Seq<SourceView>, steps: Seq<MixerStep>, rate: u32, id: u64) -> Seq<u32>
    decreases steps.len(),
{
    if steps.len() == 0 {
        Seq::empty()
    } else {
        let before = played(sources, steps.drop_last(), rate, id);
        let buf = buffered(after_steps(sources, steps.drop_last(), rate), id);
        match steps.last() {
            MixerStep::Render { n } => if n <= buf.len() {
                before + buf.take(n as int)
            } else {
                before + buf
            },
            _ => before,
        }
    }
}

/// `id` is never more than `rate` samples behind when a frame of it arrives.
pub open spec fn keeps_up(sources: Seq<SourceView>, steps: Seq<MixerStep>, rate: u32, id: u64) -> bool {
    forall|k: int|
        0 <= k < steps.len() && (#[trigger] steps[k]) is Frame && steps[k]->id == id ==> buffered(
            after_steps(sources, steps.take(k), rate),
            id,
        ).len() <= rate
}

/// Nothing that arrives is lost, doubled or moved: over any run of frames and
/// renders in which a speaker does not fall a second behind, what is played of it
/// and then what stays buffered are what was buffered and then what arrived. So
/// it is even if the speaker is forgotten on the way.
pub proof fn what_arrives_is_played_in_order(
    sources: Seq<SourceView>,
    steps: Seq<MixerStep>,
    rate: u32,
    id: u64,
)
    requires
        distinct_ids(sources),
        keeps_up(sources, steps, rate, id),
    ensures
        played(sources, steps, rate, id) + buffered(after_steps(sources, steps, rate), id)
            == buffered(sources, id) + arrived(steps, id),
        distinct_ids(after_steps(sources, steps, rate)),
    decreases steps.len(),
{
    if steps.len() == 0 {
        assert(played(sources, steps, rate, id) + buffered(sources, id) =~= buffered(sources, id)
            + arrived(steps, id));
    } else {
        let n = steps.len() - 1;
        let front = steps.drop_last();
        assert(front =~= steps.take(n));
        assert(keeps_up(sources, front, rate, id)) by {
            assert forall|k: int|
                0 <= k < front.len() && (#[trigger] front[k]) is Frame && front[k]->id == id implies buffered(
                after_steps(sources, front.take(k), rate),
                id,
            ).len() <= rate by {
                assert(front[k] == steps[k]);
                assert(front.take(k) =~= steps.take(k));
            }
        }
        what_arrives_is_played_in_order(sources, front, rate, id);
        let mid = after_steps(sources, front, rate);
        let buf = buffered(mid, id);
        let so_far = played(sources, front, rate, id);
        assert(steps[n] == steps.last());
        match steps.last() {
            MixerStep::Render { n: count } => {
                lemma_render_keeps_distinct(mid, count);
                lemma_buffered_render(mid, id, count);
                let left = buffered(after_render(mid, count), id);
                if count <= buf.len() {
                    assert(buf =~= buf.take(count as int) + left);
                    assert(so_far + buf.take(count as int) + left =~= so_far + buf);
                } else {
                    assert(so_far + buf + left =~= so_far + buf);
                }
            },
            MixerStep::Frame { id: from, samples, gain } => {
                lemma_frame_of_another(mid, from, samples, gain, rate);
                lemma_buffered_frame(mid, from, samples, gain, rate, id);
                if from == id {
                    assert(so_far + (buf + samples) =~= (so_far + buf) + samples);
                    assert(buffered(sources, id) + (arrived(front, id) + samples) =~= (buffered(
                        sources,
                        id,
                    ) + arrived(front, id)) + samples);
                }
            },
        }
    }
}

proof fn lemma_buffered_frame(
    sources: Seq<SourceView>,
    from: u64,
    samples: Seq<u32>,
    gain: u32,
    rate: u32,
    id: u64,
)
    requires
        distinct_ids(sources),
        from == id ==> buffered(sources, id).len() <= rate,
    ensures
        buffered(after_frame(sources, from, samples, gain, rate), id) == if from == id {
            buffered(sources, id) + samples
        } else {
            buffered(sources, id)
        },
{
    let after = after_frame(sources, from, samples, gain, rate);
    lemma_frame_of_another(sources, from, samples, gain, rate);
    if knows(sources, id) {
        let i = choose|i: int| 0 <= i < sources.len() && (#[trigger] sources[i]).id == id;
        lemma_buffered(sources, i);
        frames_reach_their_speaker(sources, from, samples, gain, rate, i);
        assert(after[i].id == id);
        lemma_buffered(after, i);
        if from == id {
            assert(after[i].buf =~= sources[i].buf + samples);
        }
    } else {
        lemma_buffered_unknown(sources, id);
        if from == id {
            frames_reach_their_speaker(sources, from, samples, gain, rate, 0);
            let n = sources.len() as int;
            assert(after[n] == after.last());
            lemma_buffered(after, n);
            assert(buffered(sources, id) + samples =~= samples);
        } else {
            assert(!knows(after, id));
            lemma_buffered_unknown(after, id);
            assert(buffered(after, id) =~= buffered(sources, id));
        }
    }
}

proof fn lemma_buffered_render(sources: Seq<SourceView>, id: u64, n: nat)
    requires
        distinct_ids(sources),
    ensures
        buffered(after_render(sources, n), id) == if n <= buffered(sources, id).len() {
            buffered(sources, id).skip(n as int)
        } else {
            Seq::empty()
        },
{
    let after = after_render(sources, n);
    let buf = buffered(sources, id);
    lemma_render_keeps_distinct(sources, n);
    if knows(sources, id) {
        let i = choose|i: int| 0 <= i < sources.len() && (#[trigger] sources[i]).id == id;
        let s = sources[i];
        lemma_buffered(sources, i);
        assert(sources.contains(s));
        lemma_render_one(sources, s, n);
        if s.aged().idle < IDLE_LIMIT {
            let next = s.aged().drained(n);
            let j = choose|j: int| 0 <= j < after.len() && after[j] == next;
            lemma_buffered(after, j);
        } else {
            lemma_buffered_unknown(after, id);
            assert(buffered(after, id) =~= Seq::<u32>::empty());
            assert(buf.len() == 0);
            assert(buf.skip(0) =~= Seq::<u32>::empty());
        }
    } else {
        lemma_buffered_unknown(sources, id);
        lemma_render_unknown(sources, id, n);
        lemma_buffered_unknown(after, id);
        assert(buffered(after, id) =~= Seq::<u32>::empty());
        assert(buf.skip(0) =~= Seq::<u32>::empty());
    }
}

/// A render leaves of a speaker with audio what it did not play, with its gain
/// and no silence counted; whoever is known afterwards was known before.
pub proof fn rendering_takes_from_the_front(
    sources: Seq<SourceView>,
    s: SourceView,
    n: nat,
    id: u64,
) -> (after: SourceView)
    requires
        distinct_ids(sources),
        sources.contains(s),
        s.buf.len() > 0,
    ensures
        after_render(sources, n).contains(after),
        after.id == s.id,
        after.gain == s.gain,
        after.idle == 0,
        after.buf.len() == if n <= s.buf.len() {
            s.buf.len() - n
        } else {
            0
        },
        forall|k: int| 0 <= k < after.buf.len() ==> #[trigger] after.buf[k] == s.buf[n + k],
        (forall|k: int| 0 <= k < sources.len() ==> (#[trigger] sources[k]).id != id) ==> !knows(
            after_render(sources, n),
            id,
        ),
{
    speaking_resets_the_silence(sources, s, n);
    if !knows(sources, id) {
        lemma_render_unknown(sources, id, n);
    }
    SourceView { idle: 0, ..s.drained(n) }
}

/// Cues are played in the order in which they came, each sample once, from the
/// first frame of a render on: what `n` frames play and what is left then are
/// what waited, and what arrives goes to the end.
pub proof fn cues_are_played_in_order(cues: Seq<u32>, samples: Seq<u32>, n: nat, k: int)
    ensures
        0 <= k < n && k < cues.len() ==> cue_at(cues, k) == Some(cues[k]),
        k >= cues.len() ==> cue_at(cues, k) is None,
        n <= cues.len() ==> Seq::new(n, |j: int| cue_at(cues, j)->0) + cues_left(cues, n) == cues,
        n > cues.len() ==> cues_left(cues, n).len() == 0,
        cues_queued(cues, samples).len() == cues.len() + samples.len(),
        0 <= k < cues.len() ==> cues_queued(cues, samples)[k] == cues[k],
        0 <= k < samples.len() ==> cues_queued(cues, samples)[cues.len() + k] == samples[k],
{
    if n <= cues.len() {
        assert(Seq::new(n, |j: int| cue_at(cues, j)->0) + cues_left(cues, n) =~= cues);
    }
}

/// One more speaker is one more active speaker if it has audio.
pub proof fn active_speakers_have_audio(sources: Seq<SourceView>, s: SourceView)
    ensures
        count_active(Seq::empty()) == 0,
        s.buf.len() > 0 ==> count_active(sources.push(s)) == count_active(sources) + 1,
        s.buf.len() == 0 ==> count_active(sources.push(s)) == count_active(sources),
{
    reveal(Seq::filter);
    let all = sources.push(s);
    lemma_active_step(all, sources.len() as int);
    assert(all.take(sources.len() as int + 1) =~= all);
    assert(all.take(sources.len() as int) =~= sources);
}

/// A tone lasts for its milliseconds, rounded down to whole samples.
pub proof fn tones_last_their_time(tone: Tone, rate: u32)
    ensures
        tone_samples(tone, rate) * 1000 <= tone.ms * rate < (tone_samples(tone, rate) + 1) * 1000,
{
}

} // verus!
