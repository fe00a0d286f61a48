//! The playback engine: the clips in flight, the commands that start, stop
//! and inspect them, and the per-tick mixing of their samples into the
//! output and loopback sinks.
use vstd::prelude::*;

verus! {

/// The most clips that may play at once; a further request is refused.
pub const MAX_CLIPS: usize = 32;

/// The sinks that a playback is routed to.
#[derive(Clone, Copy, Debug, PartialEq, Eq, Structural)]
pub enum SoundDevices {
    /// The physical output and the loopback device.
    Both,
    /// The physical output only.
    Output,
    /// The loopback device only.
    Loopback,
}

/// One clip in flight: its decoded samples and how far it has played.
pub struct PlaybackHandle {
    pub id: u64,
    pub name: String,
    pub samples: Vec<i16>,
    pub cursor: usize,
    pub sinks: SoundDevices,
}

/// One line of a status snapshot: a clip in flight and its progress, as the
/// samples played out of the clip's length.
pub struct StatusEntry {
    pub id: u64,
    pub name: String,
    pub position: usize,
    pub length: usize,
}

/// Why a play request was refused.
#[derive(Clone, Copy, Debug, PartialEq, Eq, Structural)]
pub enum MixerError {
    /// `MAX_CLIPS` clips are already playing.
    TooManyConcurrentClips,
    /// Every playback id has been handed out.
    IdsExhausted,
}

/// A request to the engine.
pub enum Command {
    /// Start playing a decoded clip on the given sinks.
    PlaySound(String, Vec<i16>, SoundDevices),
    /// Stop every clip in flight.
    StopAll,
    /// Ask for a status snapshot, tagged with the caller's token.
    PlayStatus(u64),
}

/// The engine's answer to a command.
pub enum Reply {
    Started(u64),
    Refused(MixerError),
    Stopped(usize),
    Status(u64, Vec<StatusEntry>),
}

/// The engine's state: the clips in flight, in the order they were started.
pub struct Mixer {
    pub handles: Vec<PlaybackHandle>,
    pub next_id: u64,
}

pub open spec fn to_output(d: SoundDevices) -> bool {
    d is Both || d is Output
}

pub open spec fn to_loopback(d: SoundDevices) -> bool {
    d is Both || d is Loopback
}

pub open spec fn routed(d: SoundDevices, loopback: bool) -> bool {
    if loopback {
        to_loopback(d)
    } else {
        to_output(d)
    }
}

/// The sample that a handle gives `k` samples into the next tick (silence
/// past its end).
pub open spec fn sample_at(h: PlaybackHandle, k: int) -> int {
    if 0 <= k && h.cursor + k < h.samples@.len() {
        h.samples@[h.cursor + k] as int
    } else {
        0
    }
}

/// The sum, at offset `k`, of every handle routed to the sink.
pub open spec fn sink_sum(hs: Seq<PlaybackHandle>, loopback: bool, k: int) -> int
    decreases hs.len(),
{
    if hs.len() == 0 {
        0
    } else {
        sink_sum(hs.drop_last(), loopback, k) + (if routed(hs.last().sinks, loopback) {
            sample_at(hs.last(), k)
        } else {
            0
        })
    }
}

/// The input sample at `k`, or silence past the end of the captured buffer.
pub open spec fn input_at(input: Seq<i16>, k: int) -> int {
    if 0 <= k < input.len() {
        input[k] as int
    } else {
        0
    }
}

/// Hard clipping to the 16-bit sample range.
pub open spec fn clamp16(x: int) -> i16 {
    if x > 32767 {
        32767i16
    } else if x < -32768 {
        (-32768) as i16
    } else {
        x as i16
    }
}

/// A handle after `frames` more samples have been played.
pub open spec fn step(h: PlaybackHandle, frames: int) -> PlaybackHandle {
    PlaybackHandle {
        cursor: if h.cursor + frames < h.samples@.len() {
            (h.cursor + frames) as usize
        } else {
            h.samples@.len() as usize
        },
        ..h
    }
}

pub open spec fn finished(h: PlaybackHandle) -> bool {
    h.cursor >= h.samples@.len()
}

/// The handles after a tick of `frames` samples: each advanced, those that
/// reached their end removed, the order kept.
pub open spec fn advance(hs: Seq<PlaybackHandle>, frames: int) -> Seq<PlaybackHandle>
    decreases hs.len(),
{
    if hs.len() == 0 {
        Seq::empty()
    } else {
        let rest = advance(hs.drop_first(), frames);
        if finished(step(hs[0], frames)) {
            rest
        } else {
            seq![step(hs[0], frames)] + rest
        }
    }
}

pub open spec fn unique_ids(hs: Seq<PlaybackHandle>) -> bool {
    forall|i: int, j: int| 0 <= i < j < hs.len() ==> (#[trigger] hs[i]).id != (#[trigger] hs[j]).id
}

/// A status entry describes a handle.
pub open spec fn describes(e: StatusEntry, h: PlaybackHandle) -> bool {
    &&& e.id == h.id
    &&& e.name@ == h.name@
    &&& e.position == h.cursor
    &&& e.length == h.samples@.len()
}

/// Every handle of `after` is new (its id had not been handed out in
/// `before`) or continues a handle of `before` with the same id: same
/// length, same position or further.
#[verifier::opaque]
pub open spec fn keeps_progress(before: Mixer, after: Mixer) -> bool {
    &&& after.next_id >= before.next_id
    &&& forall|j: int|
        0 <= j < after.handles@.len() ==> (#[trigger] after.handles@[j]).id >= before.next_id
            || exists|i: int|
            0 <= i < before.handles@.len() && before.handles@[i].id == after.handles@[j].id
                && before.handles@[i].cursor <= after.handles@[j].cursor
                && before.handles@[i].samples@.len() == after.handles@[j].samples@.len()
}

impl Mixer {
    pub open spec fn wf(&self) -> bool {
        &&& self.handles@.len() <= MAX_CLIPS
        &&& unique_ids(self.handles@)
        &&& forall|i: int|
            0 <= i < self.handles@.len() ==> (#[trigger] self.handles@[i]).id < self.next_id
                && self.handles@[i].cursor <= self.handles@[i].samples@.len()
    }

    /// An engine with nothing playing.
    pub fn new() -> (r: Mixer)
        ensures
            r.wf(),
            r.handles@.len() == 0,
            r.next_id == 0,
    {
        Mixer { handles: Vec::new(), next_id: 0 }
    }

    /// Starts a clip from its beginning; clips already playing go on.
    pub fn play_sound(&mut self, name: String, samples: Vec<i16>, sinks: SoundDevices) -> (r: Result<
        u64,
        MixerError,
    >)
        requires
            old(self).wf(),
        ensures
            final(self).wf(),
            keeps_progress(*old(self), *final(self)),
            old(self).handles@.len() >= MAX_CLIPS ==> r == Err::<u64, MixerError>(
                MixerError::TooManyConcurrentClips,
            ) && final(self).handles@ == old(self).handles@ && final(self).next_id == old(
                self,
            ).next_id,
            old(self).handles@.len() < MAX_CLIPS && old(self).next_id == u64::MAX ==> r == Err::<
                u64,
                MixerError,
            >(MixerError::IdsExhausted) && final(self).handles@ == old(self).handles@
                && final(self).next_id == old(self).next_id,
            old(self).handles@.len() < MAX_CLIPS && old(self).next_id < u64::MAX ==> r == Ok::<
                u64,
                MixerError,
            >(old(self).next_id) && final(self).next_id == old(self).next_id + 1
                && final(self).handles@ == old(self).handles@.push(
                (PlaybackHandle { id: old(self).next_id, name, samples, cursor: 0, sinks }),
            ),
    {
        proof {
            lemma_keeps_progress_refl(*self);
        }
        if self.handles.len() >= MAX_CLIPS {
            return Err(MixerError::TooManyConcurrentClips);
        }
        if self.next_id == u64::MAX {
            return Err(MixerError::IdsExhausted);
        }
        let id = self.next_id;
        let ghost before = *self;
        self.handles.push(PlaybackHandle { id, name, samples, cursor: 0, sinks });
        self.next_id = id + 1;
        proof {
            lemma_start_keeps_progress(before, *self);
        }
        Ok(id)
    }

    /// Stops every clip in flight at once; returns how many there were.
    pub fn stop_all(&mut self) -> (r: usize)
        requires
            old(self).wf(),
        ensures
            final(self).wf(),
            keeps_progress(*old(self), *final(self)),
            r == old(self).handles@.len(),
            final(self).handles@.len() == 0,
            final(self).next_id == old(self).next_id,
    {
        let n = self.handles.len();
        self.handles.clear();
        proof {
            reveal(keeps_progress);
        }
        n
    }

    /// A snapshot of the clips in flight, in the order they were started.
    pub fn status(&self) -> (r: Vec<StatusEntry>)
        ensures
            r@.len() == self.handles@.len(),
            forall|i: int| 0 <= i < r@.len() ==> describes(#[trigger] r@[i], self.handles@[i]),
    {
        let mut r: Vec<StatusEntry> = Vec::new();
        let mut i: usize = 0;
        while i < self.handles.len()
            invariant
                i <= self.handles@.len(),
                r@.len() == i,
                forall|j: int| 0 <= j < i ==> describes(#[trigger] r@[j], self.handles@[j]),
            decreases self.handles@.len() - i,
        {
            let h = &self.handles[i];
            r.push(
                StatusEntry {
                    id: h.id,
                    name: h.name.clone(),
                    position: h.cursor,
                    length: h.samples.len(),
                },
            );
            i += 1;
        }
        r
    }

    /// Mixes the next `frames` samples and advances every clip by that much.
    /// The output sink gets the clipped sum of the clips routed to it; the
    /// loopback sink gets the clipped sum of its clips and the captured
    /// input. Clips that reach their end are removed.
    pub fn mix_tick(&mut self, frames: usize, input: &Vec<i16>) -> (r: (Vec<i16>, Vec<i16>))
        requires
            old(self).wf(),
        ensures
            final(self).wf(),
            keeps_progress(*old(self), *final(self)),
            final(self).next_id == old(self).next_id,
            final(self).handles@ == advance(old(self).handles@, frames as int),
            r.0@.len() == frames,
            r.1@.len() == frames,
            forall|k: int|
                0 <= k < frames ==> #[trigger] r.0@[k] == clamp16(
                    sink_sum(old(self).handles@, false, k),
                ),
            forall|k: int|
                0 <= k < frames ==> #[trigger] r.1@[k] == clamp16(
                    sink_sum(old(self).handles@, true, k) + input_at(input@, k),
                ),
    {
        let mut out: Vec<i16> = Vec::new();
        let mut lb: Vec<i16> = Vec::new();
        let mut k: usize = 0;
        while k < frames
            invariant
                k <= frames,
                *self == *old(self),
                old(self).wf(),
                out@.len() == k,
                lb@.len() == k,
                forall|q: int|
                    0 <= q < k ==> #[trigger] out@[q] == clamp16(sink_sum(self.handles@, false, q)),
                forall|q: int|
                    0 <= q < k ==> #[trigger] lb@[q] == clamp16(
                        sink_sum(self.handles@, true, q) + input_at(input@, q),
                    ),
            decreases frames - k,
        {
            let mut so: i32 = 0;
            let mut sl: i32 = 0;
            let mut j: usize = 0;
            while j < self.handles.len()
                invariant
                    j <= self.handles@.len(),
                    *self == *old(self),
                    old(self).wf(),
                    so == sink_sum(self.handles@.take(j as int), false, k as int),
                    sl == sink_sum(self.handles@.take(j as int), true, k as int),
                    -32768 * j <= so <= 32767 * j,
                    -32768 * j <= sl <= 32767 * j,
                decreases self.handles@.len() - j,
            {
                let h = &self.handles[j];
                let s: i32 = if k < h.samples.len() - h.cursor {
                    h.samples[h.cursor + k] as i32
                } else {
                    0
                };
                proof {
                    let t = self.handles@.take(j + 1);
                    assert(t.drop_last() =~= self.handles@.take(j as int));
                    assert(t.last() == self.handles@[j as int]);
                    assert(s == sample_at(self.handles@[j as int], k as int));
                }
                if routes_output(h.sinks) {
                    so = so + s;
                }
                if routes_loopback(h.sinks) {
                    sl = sl + s;
                }
                j += 1;
            }
            proof {
                assert(self.handles@.take(self.handles@.len() as int) =~= self.handles@);
            }
            let inp: i32 = if k < input.len() {
                input[k] as i32
            } else {
                0
            };
            out.push(clamp_sample(so));
            lb.push(clamp_sample(sl + inp));
            k += 1;
        }
        let ghost before = *self;
        self.advance_handles(frames);
        proof {
            lemma_tick_keeps_progress(before, *self, frames as int);
        }
        (out, lb)
    }

    fn advance_handles(&mut self, frames: usize)
        requires
            old(self).wf(),
        ensures
            final(self).wf(),
            final(self).next_id == old(self).next_id,
            final(self).handles@ == advance(old(self).handles@, frames as int),
    {
        let mut rest: Vec<PlaybackHandle> = Vec::new();
        std::mem::swap(&mut self.handles, &mut rest);
        let ghost hs = rest@;
        let mut kept: Vec<PlaybackHandle> = Vec::new();
        proof {
            assert(hs.skip(hs.len() as int) =~= Seq::<PlaybackHandle>::empty());
            assert(hs.take(hs.len() as int) =~= hs);
        }
        while rest.len() > 0
            invariant
                rest@.len() <= hs.len(),
                rest@ == hs.take(rest@.len() as int),
                kept@ == advance(hs.skip(rest@.len() as int), frames as int),
                hs == old(self).handles@,
                old(self).wf(),
            decreases rest@.len(),
        {
            let ghost n = rest@.len() as int;
            match rest.pop() {
                Some(h0) => {
                    let mut h = h0;
                    proof {
                        assert(h == hs[n - 1]);
                        assert(h.cursor <= h.samples@.len());
                        assert(hs.skip(n - 1).drop_first() =~= hs.skip(n));
                        assert(hs.skip(n - 1)[0] == hs[n - 1]);
                        assert(rest@ =~= hs.take(n - 1));
                    }
                    let remaining = h.samples.len() - h.cursor;
                    if frames < remaining {
                        h.cursor = h.cursor + frames;
                    } else {
                        h.cursor = h.samples.len();
                    }
                    assert(h == step(hs[n - 1], frames as int));
                    if h.cursor < h.samples.len() {
                        let ghost before = kept@;
                        kept.insert(0, h);
                        assert(kept@ =~= seq![step(hs[n - 1], frames as int)] + before);
                    }
                },
                None => {},
            }
        }
        proof {
            assert(hs.skip(0) =~= hs);
            lemma_advance(hs, frames as int);
        }
        self.handles = kept;
    }

    /// Carries out one command and gives the engine's reply.
    pub fn handle(&mut self, command: Command) -> (r: Reply)
        requires
            old(self).wf(),
        ensures
            final(self).wf(),
            keeps_progress(*old(self), *final(self)),
            match command {
                Command::PlaySound(name, samples, sinks) => {
                    &&& old(self).handles@.len() >= MAX_CLIPS ==> r == Reply::Refused(
                        MixerError::TooManyConcurrentClips,
                    ) && final(self).handles@ == old(self).handles@ && final(self).next_id == old(
                        self,
                    ).next_id
                    &&& old(self).handles@.len() < MAX_CLIPS && old(self).next_id == u64::MAX
                        ==> r == Reply::Refused(MixerError::IdsExhausted) && final(self).handles@
                        == old(self).handles@ && final(self).next_id == old(self).next_id
                    &&& old(self).handles@.len() < MAX_CLIPS && old(self).next_id < u64::MAX ==> r
                        == Reply::Started(old(self).next_id) && final(self).next_id == old(
                        self,
                    ).next_id + 1 && final(self).handles@
                        == old(self).handles@.push(
                        (PlaybackHandle { id: old(self).next_id, name, samples, cursor: 0, sinks }),
                    )
                },
                Command::StopAll => {
                    &&& r == Reply::Stopped(old(self).handles@.len() as usize)
                    &&& final(self).handles@.len() == 0
                    &&& final(self).next_id == old(self).next_id
                },
                Command::PlayStatus(token) => {
                    &&& final(self).handles@ == old(self).handles@
                    &&& final(self).next_id == old(self).next_id
                    &&& r matches Reply::Status(t, entries) && t == token && entries@.len()
                        == old(self).handles@.len() && forall|i: int|
                        0 <= i < entries@.len() ==> describes(
                            #[trigger] entries@[i],
                            old(self).handles@[i],
                        )
                },
            },
    {
        match command {
            Command::PlaySound(name, samples, sinks) => match self.play_sound(name, samples, sinks) {
                Ok(id) => Reply::Started(id),
                Err(e) => Reply::Refused(e),
            },
            Command::StopAll => Reply::Stopped(self.stop_all()),
            Command::PlayStatus(token) => {
                proof {
                    lemma_keeps_progress_refl(*self);
                }
                Reply::Status(token, self.status())
            },
        }
    }
}

fn routes_output(d: SoundDevices) -> (r: bool)
    ensures
        r == to_output(d),
{
    match d {
        SoundDevices::Loopback => false,
        _ => true,
    }
}

fn routes_loopback(d: SoundDevices) -> (r: bool)
    ensures
        r == to_loopback(d),
{
    match d {
        SoundDevices::Output => false,
        _ => true,
    }
}

fn clamp_sample(x: i32) -> (r: i16)
    ensures
        r == clamp16(x as int),
{
    if x > 32767 {
        32767
    } else if x < -32768 {
        -32768
    } else {
        x as i16
    }
}

/// What a tick does to each handle: every handle left comes from one handle
/// before, advanced; none is added; ids stay unique.
pub proof fn lemma_advance(hs: Seq<PlaybackHandle>, frames: int)
    requires
        frames >= 0,
    ensures
        advance(hs, frames).len() <= hs.len(),
        forall|i: int|
            0 <= i < advance(hs, frames).len() ==> exists|j: int|
                0 <= j < hs.len() && #[trigger] advance(hs, frames)[i] == step(hs[j], frames),
        forall|i: int|
            0 <= i < advance(hs, frames).len() ==> !finished(#[trigger] advance(hs, frames)[i]),
        unique_ids(hs) ==> unique_ids(advance(hs, frames)),
    decreases hs.len(),
{
    if hs.len() > 0 {
        let rest = hs.drop_first();
        lemma_advance(rest, frames);
        let ar = advance(rest, frames);
        assert forall|i: int| 0 <= i < ar.len() implies exists|j: int|
            0 <= j < hs.len() && #[trigger] ar[i] == step(hs[j], frames) by {
            let j = choose|j: int| 0 <= j < rest.len() && ar[i] == step(rest[j], frames);
            assert(rest[j] == hs[j + 1]);
        }
        if !finished(step(hs[0], frames)) {
            let a = seq![step(hs[0], frames)] + ar;
            assert(advance(hs, frames) == a);
            assert forall|i: int| 0 <= i < a.len() implies exists|j: int|
                0 <= j < hs.len() && #[trigger] a[i] == step(hs[j], frames) by {
                if i == 0 {
                    assert(a[0] == step(hs[0], frames));
                } else {
                    assert(a[i] == ar[i - 1]);
                }
            }
            assert forall|i: int| 0 <= i < a.len() implies !finished(#[trigger] a[i]) by {
                if i > 0 {
                    assert(a[i] == ar[i - 1]);
                }
            }
            if unique_ids(hs) {
                assert forall|x: int, y: int| 0 <= x < y < rest.len() implies (#[trigger] rest[x]).id
                    != (#[trigger] rest[y]).id by {
                    assert(rest[x] == hs[x + 1] && rest[y] == hs[y + 1]);
                }
                assert forall|x: int, y: int| 0 <= x < y < a.len() implies (#[trigger] a[x]).id
                    != (#[trigger] a[y]).id by {
                    assert(a[y] == ar[y - 1]);
                    let jy = choose|j: int|
                        0 <= j < hs.len() && ar[y - 1] == step(hs[j], frames);
                    if x == 0 {
                        let jr = choose|j: int|
                            0 <= j < rest.len() && ar[y - 1] == step(rest[j], frames);
                        assert(rest[jr] == hs[jr + 1]);
                        assert(hs[0].id != hs[jr + 1].id);
                    } else {
                        assert(a[x] == ar[x - 1]);
                    }
                }
            }
        } else {
            if unique_ids(hs) {
                assert forall|x: int, y: int| 0 <= x < y < rest.len() implies (#[trigger] rest[x]).id
                    != (#[trigger] rest[y]).id by {
                    assert(rest[x] == hs[x + 1] && rest[y] == hs[y + 1]);
                }
            }
        }
    }
}

proof fn lemma_sink_sum_concat(a: Seq<PlaybackHandle>, b: Seq<PlaybackHandle>, loopback: bool, k: int)
    ensures
        sink_sum(a + b, loopback, k) == sink_sum(a, loopback, k) + sink_sum(b, loopback, k),
    decreases b.len(),
{
    if b.len() == 0 {
        assert(a + b =~= a);
    } else {
        lemma_sink_sum_concat(a, b.drop_last(), loopback, k);
        assert((a + b).drop_last() =~= a + b.drop_last());
        assert((a + b).last() == b.last());
    }
}

/// Once every clip is stopped, a tick holds no clip audio: the output sink
/// is silent and the loopback sink carries the captured input alone.
pub proof fn lemma_stopped_tick_is_silent(hs: Seq<PlaybackHandle>, input: Seq<i16>, k: int)
    requires
        hs.len() == 0,
    ensures
        sink_sum(hs, false, k) == 0,
        sink_sum(hs, true, k) == 0,
        clamp16(sink_sum(hs, false, k)) == 0,
        clamp16(sink_sum(hs, true, k) + input_at(input, k)) == input_at(input, k),
{
}

/// A clip's progress never goes back: after a tick, the handle with a given
/// id stands at the same position or further, in a clip of the same length.
pub proof fn lemma_progress_never_decreases(hs: Seq<PlaybackHandle>, frames: int, i: int, j: int)
    requires
        frames >= 0,
        unique_ids(hs),
        forall|q: int|
            0 <= q < hs.len() ==> (#[trigger] hs[q]).cursor <= hs[q].samples@.len() <= usize::MAX,
        0 <= i < advance(hs, frames).len(),
        0 <= j < hs.len(),
        advance(hs, frames)[i].id == hs[j].id,
    ensures
        advance(hs, frames)[i].cursor >= hs[j].cursor,
        advance(hs, frames)[i].samples@.len() == hs[j].samples@.len(),
        advance(hs, frames)[i].name@ == hs[j].name@,
{
    lemma_advance(hs, frames);
    let j0 = choose|j0: int| 0 <= j0 < hs.len() && advance(hs, frames)[i] == step(hs[j0], frames);
    assert(hs[j0].id == hs[j].id);
    if j0 != j {
        if j0 < j {
            assert(hs[j0].id != hs[j].id);
        } else {
            assert(hs[j].id != hs[j0].id);
        }
    }
}

/// A status snapshot taken while clips play lists each of them, exactly
/// once, in order.
pub proof fn lemma_status_lists_every_clip(m: Mixer, entries: Seq<StatusEntry>)
    requires
        entries.len() == m.handles@.len(),
        forall|i: int| 0 <= i < entries.len() ==> describes(#[trigger] entries[i], m.handles@[i]),
        m.wf(),
    ensures
        forall|i: int, j: int| 0 <= i < j < entries.len() ==> (#[trigger] entries[i]).id != (#[trigger] entries[j]).id,
        forall|i: int| 0 <= i < entries.len() ==> (#[trigger] entries[i]).position <= entries[i].length,
{
    assert forall|i: int, j: int| 0 <= i < j < entries.len() implies (#[trigger] entries[i]).id != (#[trigger] entries[j]).id by {
        assert(describes(entries[i], m.handles@[i]));
        assert(describes(entries[j], m.handles@[j]));
    }
    assert forall|i: int| 0 <= i < entries.len() implies (#[trigger] entries[i]).position <= entries[i].length by {
        assert(describes(entries[i], m.handles@[i]));
    }
}

/// What a handle contributes to a mix: its samples, position and sinks.
pub open spec fn audio_of(hs: Seq<PlaybackHandle>) -> Seq<(Seq<i16>, usize, SoundDevices)> {
    hs.map_values(|h: PlaybackHandle| (h.samples@, h.cursor, h.sinks))
}

proof fn lemma_sink_sum_split(b: Seq<PlaybackHandle>, j: int, loopback: bool, k: int)
    requires
        0 <= j < b.len(),
    ensures
        sink_sum(b, loopback, k) == sink_sum(b.remove(j), loopback, k) + sink_sum(
            seq![b[j]],
            loopback,
            k,
        ),
{
    let pre = b.take(j);
    let post = b.skip(j + 1);
    assert(b =~= pre + seq![b[j]] + post);
    assert(b.remove(j) =~= pre + post);
    lemma_sink_sum_concat(pre + seq![b[j]], post, loopback, k);
    lemma_sink_sum_concat(pre, seq![b[j]], loopback, k);
    lemma_sink_sum_concat(pre, post, loopback, k);
}

/// Mixing does not depend on the order in which clips were started, for any
/// reordering: two sets of handles carrying the same audio, counted with
/// multiplicity and in whatever order, sum to the same samples on each sink.
pub proof fn lemma_mix_any_order(a: Seq<PlaybackHandle>, b: Seq<PlaybackHandle>, loopback: bool, k: int)
    requires
        audio_of(a).to_multiset() == audio_of(b).to_multiset(),
    ensures
        sink_sum(a, loopback, k) == sink_sum(b, loopback, k),
        clamp16(sink_sum(a, loopback, k)) == clamp16(sink_sum(b, loopback, k)),
    decreases a.len(),
{
    audio_of(a).to_multiset_ensures();
    audio_of(b).to_multiset_ensures();
    if a.len() == 0 {
        assert(audio_of(b).len() == 0);
        assert(b.len() == 0);
    } else {
        let a0 = a.drop_last();
        let x = a.last();
        let ax = (x.samples@, x.cursor, x.sinks);
        assert(audio_of(a) =~= audio_of(a0).push(ax));
        audio_of(a0).to_multiset_ensures();
        assert(audio_of(a).to_multiset().count(ax) > 0);
        assert(audio_of(b).contains(ax));
        let j = choose|j: int| 0 <= j < audio_of(b).len() && audio_of(b)[j] == ax;
        let b0 = b.remove(j);
        assert(audio_of(b0) =~= audio_of(b).remove(j));
        assert(audio_of(b0).to_multiset() =~= audio_of(b).to_multiset().remove(ax));
        assert(audio_of(a0).to_multiset() =~= audio_of(a).to_multiset().remove(ax));
        lemma_mix_any_order(a0, b0, loopback, k);
        lemma_sink_sum_split(b, j, loopback, k);
        assert(b[j].samples@ == x.samples@ && b[j].cursor == x.cursor && b[j].sinks == x.sinks);
        assert(seq![b[j]].drop_last() =~= Seq::<PlaybackHandle>::empty());
        assert(seq![b[j]].last() == b[j]);
        assert(sink_sum(Seq::<PlaybackHandle>::empty(), loopback, k) == 0);
        assert(sink_sum(seq![b[j]].drop_last(), loopback, k) == 0);
        assert(sample_at(b[j], k) == sample_at(x, k));
        assert(sink_sum(seq![b[j]], loopback, k) == (if routed(x.sinks, loopback) {
            sample_at(x, k)
        } else {
            0
        }));
    }
}

proof fn lemma_keeps_progress_refl(m: Mixer)
    ensures
        keeps_progress(m, m),
{
    reveal(keeps_progress);
    assert forall|j: int| 0 <= j < m.handles@.len() implies (#[trigger] m.handles@[j]).id >= m.next_id
        || exists|i: int|
        0 <= i < m.handles@.len() && m.handles@[i].id == m.handles@[j].id && m.handles@[i].cursor
            <= m.handles@[j].cursor && m.handles@[i].samples@.len()
            == m.handles@[j].samples@.len() by {
        assert(m.handles@[j] == m.handles@[j]);
    }
}

proof fn lemma_start_keeps_progress(before: Mixer, after: Mixer)
    requires
        after.handles@.len() == before.handles@.len() + 1,
        forall|q: int| 0 <= q < before.handles@.len() ==> after.handles@[q] == before.handles@[q],
        after.handles@.last().id == before.next_id,
        after.next_id >= before.next_id,
    ensures
        keeps_progress(before, after),
{
    reveal(keeps_progress);
    assert forall|j: int| 0 <= j < after.handles@.len() implies (#[trigger] after.handles@[j]).id
        >= before.next_id || exists|i: int|
        0 <= i < before.handles@.len() && before.handles@[i].id == after.handles@[j].id
            && before.handles@[i].cursor <= after.handles@[j].cursor
            && before.handles@[i].samples@.len() == after.handles@[j].samples@.len() by {
        if j < before.handles@.len() {
            assert(before.handles@[j] == after.handles@[j]);
        }
    }
}

proof fn lemma_tick_keeps_progress(before: Mixer, after: Mixer, frames: int)
    requires
        before.wf(),
        frames >= 0,
        after.next_id == before.next_id,
        after.handles@ == advance(before.handles@, frames),
    ensures
        keeps_progress(before, after),
{
    reveal(keeps_progress);
    let hs = before.handles@;
    lemma_advance(hs, frames);
    assert forall|j: int| 0 <= j < after.handles@.len() implies (#[trigger] after.handles@[j]).id
        >= before.next_id || exists|i: int|
        0 <= i < hs.len() && hs[i].id == after.handles@[j].id && hs[i].cursor
            <= after.handles@[j].cursor && hs[i].samples@.len() == after.handles@[j].samples@.len() by {
        let i = choose|i: int| 0 <= i < hs.len() && advance(hs, frames)[j] == step(hs[i], frames);
        assert(hs[i].samples.len() == hs[i].samples@.len());
        assert(hs[i].cursor <= hs[i].samples@.len());
    }
}

/// Continuing a handle is transitive: what holds across two stretches of
/// events holds across both together.
pub proof fn lemma_keeps_progress_trans(a: Mixer, b: Mixer, c: Mixer)
    requires
        keeps_progress(a, b),
        keeps_progress(b, c),
    ensures
        keeps_progress(a, c),
{
    reveal(keeps_progress);
    assert forall|k: int| 0 <= k < c.handles@.len() implies (#[trigger] c.handles@[k]).id >= a.next_id
        || exists|i: int|
        0 <= i < a.handles@.len() && a.handles@[i].id == c.handles@[k].id && a.handles@[i].cursor
            <= c.handles@[k].cursor && a.handles@[i].samples@.len()
            == c.handles@[k].samples@.len() by {
        if c.handles@[k].id < b.next_id {
            let j = choose|j: int|
                0 <= j < b.handles@.len() && b.handles@[j].id == c.handles@[k].id
                    && b.handles@[j].cursor <= c.handles@[k].cursor && b.handles@[j].samples@.len()
                    == c.handles@[k].samples@.len();
            if b.handles@[j].id < a.next_id {
                assert(b.handles@[j].id >= a.next_id || exists|i: int|
                    0 <= i < a.handles@.len() && a.handles@[i].id == b.handles@[j].id
                        && a.handles@[i].cursor <= b.handles@[j].cursor
                        && a.handles@[i].samples@.len() == b.handles@[j].samples@.len());
            }
        }
    }
}

proof fn lemma_keeps_progress_run(states: Seq<Mixer>, n: int)
    requires
        0 <= n < states.len(),
        forall|k: int| 0 <= k < states.len() - 1 ==> keeps_progress(#[trigger] states[k], states[k + 1]),
    ensures
        keeps_progress(states[0], states[n]),
    decreases n,
{
    if n == 0 {
        lemma_keeps_progress_refl(states[0]);
    } else {
        lemma_keeps_progress_run(states, n - 1);
        assert(keeps_progress(states[n - 1], states[n]));
        lemma_keeps_progress_trans(states[0], states[n - 1], states[n]);
    }
}

/// A clip's progress never goes back, whatever happens between two status
/// queries: across any run of engine states in which each step keeps
/// progress (every command and tick does), a clip listed in both snapshots
/// stands at the same position or further, within its unchanged length.
pub proof fn lemma_progress_across_events(
    states: Seq<Mixer>,
    first: Seq<StatusEntry>,
    second: Seq<StatusEntry>,
    i: int,
    j: int,
)
    requires
        states.len() >= 1,
        states[0].wf(),
        states.last().wf(),
        forall|k: int| 0 <= k < states.len() - 1 ==> keeps_progress(#[trigger] states[k], states[k + 1]),
        first.len() == states[0].handles@.len(),
        forall|q: int| 0 <= q < first.len() ==> describes(#[trigger] first[q], states[0].handles@[q]),
        second.len() == states.last().handles@.len(),
        forall|q: int|
            0 <= q < second.len() ==> describes(#[trigger] second[q], states.last().handles@[q]),
        0 <= i < first.len(),
        0 <= j < second.len(),
        first[i].id == second[j].id,
    ensures
        first[i].position <= second[j].position <= second[j].length,
        second[j].length == first[i].length,
{
    reveal(keeps_progress);
    let a = states[0];
    let c = states.last();
    lemma_keeps_progress_run(states, states.len() - 1);
    assert(describes(first[i], a.handles@[i]));
    assert(describes(second[j], c.handles@[j]));
    assert(a.handles@[i].id < a.next_id);
    let i0 = choose|i0: int|
        0 <= i0 < a.handles@.len() && a.handles@[i0].id == c.handles@[j].id && a.handles@[i0].cursor
            <= c.handles@[j].cursor && a.handles@[i0].samples@.len() == c.handles@[j].samples@.len();
    if i0 != i {
        if i0 < i {
            assert(a.handles@[i0].id != a.handles@[i].id);
        } else {
            assert(a.handles@[i].id != a.handles@[i0].id);
        }
    }
}

} // verus!
