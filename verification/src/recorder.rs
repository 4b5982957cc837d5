//! Recording of the dry signal.
//!
//! The capture thread only pushes samples into a ring; a writing thread takes
//! them out in batches and appends them to a file whose two length fields are
//! filled in at the end.
use crate::ring;
use crate::single::Bits;
use crate::text;
use crate::wav;
use vstd::prelude::*;

verus! {

/// Samples that the ring holds: two seconds at 48 kHz.
pub const RING_SAMPLES: usize = 96_000;

/// Samples that the writing thread takes out in one batch.
pub const BATCH: usize = 4096;

/// What control and audio threads share.
#[derive(Clone, Copy, PartialEq, Eq, Structural, Debug)]
pub struct RecorderState {
    /// Is a recording under way?
    pub active: bool,
    /// Samples written to the file.
    pub frames_written: u64,
    /// Samples lost because the ring was full.
    pub dropped: u64,
}

impl Default for RecorderState {
    fn default() -> (s: RecorderState)
        ensures
            s == (RecorderState { active: false, frames_written: 0, dropped: 0 }),
    {
        RecorderState { active: false, frames_written: 0, dropped: 0 }
    }
}

/// What can go wrong.
#[derive(Clone, Copy, PartialEq, Eq, Structural, Debug)]
pub enum RecorderError {
    /// A recording is under way already.
    AlreadyRecording,
    /// The reading end of the ring is gone.
    NoConsumer,
    /// The file could not be written or finished.
    WriteFailed,
    /// The writing thread died.
    WriterDied,
}

/// The capture thread's end.
pub struct RecorderSink {
    pub producer: rtrb::Producer<Bits>,
}

/// The control end.
pub struct Recorder {
    pub state: RecorderState,
    pub consumer: Option<rtrb::Consumer<Bits>>,
    pub sample_rate: u32,
    pub current: Option<String>,
}

/// How the writing thread ended.
pub enum Joined {
    /// There was none.
    NoWriter,
    /// It gave the ring back, and finished the file or not.
    Finished { consumer: rtrb::Consumer<Bits>, ok: bool },
    /// It died.
    Died,
}

/// What the writing thread does next.
#[derive(Clone, Copy, PartialEq, Eq, Structural, Debug)]
pub enum WriterStep {
    /// Take the next batch at once.
    Again,
    /// Wait a moment: nothing has come.
    Wait,
    /// Finish the file.
    Finish,
}

impl RecorderSink {
    /// Pushes a block of the dry signal, where a recording is under way; else
    /// nothing happens at all. What the ring has no room for is counted.
    pub fn push(&mut self, state: &mut RecorderState, mono: &[Bits])
        requires
            ring::on_record(old(self).producer),
        ensures
            ring::on_record(final(self).producer),
            ring::stream_in(final(self).producer) == ring::stream_in(old(self).producer),
            ring::room(final(self).producer) == ring::room(old(self).producer),
            !old(state).active ==> *final(self) == *old(self) && *final(state) == *old(state),
            old(state).active ==> exists|flags: Seq<bool>, dropped: int| #[trigger]
                ring::pushed(old(self).producer, final(self).producer, mono@, flags, dropped)
                    && *final(state) == (RecorderState {
                    dropped: old(state).dropped.wrapping_add(dropped as u64),
                    ..*old(state)
                }),
            old(state).active && ring::written(old(self).producer).len() + mono@.len()
                <= ring::room(old(self).producer) ==> *final(state) == *old(state)
                && ring::written(final(self).producer) == ring::written(old(self).producer) + mono@,
    {
        if !state.active {
            return;
        }
        let dropped: u64 = ring::push_block(&mut self.producer, mono);
        state.dropped = state.dropped.wrapping_add(dropped);
        proof {
            let flags = choose|flags: Seq<bool>| #[trigger]
                ring::pushed(old(self).producer, self.producer, mono@, flags, dropped as int);
            assert(ring::pushed(
                old(self).producer,
                self.producer,
                mono@,
                flags,
                dropped as int,
            ));
        }
    }
}

/// What is answered to a request to stop, once the writing thread has ended:
/// the path of the file under way, or what went wrong.
pub open spec fn answer_to_stop(current: Option<String>, joined: Joined) -> Result<
    Option<String>,
    RecorderError,
> {
    match joined {
        Joined::NoWriter => Ok(current),
        Joined::Finished { consumer, ok } => if ok {
            Ok(current)
        } else {
            Err(RecorderError::WriteFailed)
        },
        Joined::Died => Err(RecorderError::WriterDied),
    }
}

/// The file under way after that: none, unless something went wrong.
pub open spec fn current_after(current: Option<String>, joined: Joined) -> Option<String> {
    if answer_to_stop(current, joined) is Ok {
        None
    } else {
        current
    }
}

/// To stop once more is answered with no file, and changes nothing.
pub proof fn a_second_stop_finds_nothing(current: Option<String>, joined: Joined)
    requires
        answer_to_stop(current, joined) is Ok,
    ensures
        answer_to_stop(current, joined) == Ok::<Option<String>, RecorderError>(current),
        answer_to_stop(current_after(current, joined), Joined::NoWriter) == Ok::<
            Option<String>,
            RecorderError,
        >(None),
        current_after(current_after(current, joined), Joined::NoWriter) is None,
{
}

impl Recorder {
    /// Makes both ends.
    pub fn new(sample_rate: u32) -> (ends: (RecorderSink, Recorder))
        ensures
            ring::written(ends.0.producer).len() == 0,
            ring::room(ends.0.producer) == RING_SAMPLES,
            ends.1.consumer matches Some(c) && ring::taken(c).len() == 0 && ring::stream_out(c)
                == ring::stream_in(ends.0.producer) && ring::depth(c) == RING_SAMPLES,
            ends.1.state == (RecorderState { active: false, frames_written: 0, dropped: 0 }),
            ends.1.sample_rate == sample_rate,
            ends.1.current is None,
    {
        let (producer, consumer) = ring::ring(RING_SAMPLES);
        (
            RecorderSink { producer },
            Recorder {
                state: RecorderState::default(),
                consumer: Some(consumer),
                sample_rate,
                current: None,
            },
        )
    }

    /// The shared state.
    pub fn state(&self) -> (s: &RecorderState)
        ensures
            *s == self.state,
    {
        &self.state
    }

    /// Is a recording under way?
    pub fn is_recording(&self) -> (r: bool)
        ensures
            r == self.state.active,
    {
        self.state.active
    }

    /// The file being written.
    pub fn current_path(&self) -> (p: Option<&String>)
        ensures
            p is None <==> self.current is None,
            p matches Some(s) ==> self.current == Some(*s),
    {
        match &self.current {
            Some(s) => Some(s),
            None => None,
        }
    }

    /// Prepares a recording: hands the reading end of the ring over, with what
    /// an earlier recording may have left in it thrown away, and sets the
    /// counts back. Refused while one is under way, or where the reading end is
    /// gone; nothing changes then.
    pub fn start(&mut self) -> (r: Result<rtrb::Consumer<Bits>, RecorderError>)
        requires
            old(self).consumer matches Some(c) ==> ring::in_order(c),
        ensures
            r matches Err(e) ==> *final(self) == *old(self) && e == (if old(self).state.active {
                RecorderError::AlreadyRecording
            } else {
                RecorderError::NoConsumer
            }),
            r is Ok <==> !old(self).state.active && old(self).consumer is Some,
            r matches Ok(c) ==> {
                &&& ring::in_order(c)
                &&& ring::stream_out(c) == ring::stream_out(old(self).consumer->0)
                &&& ring::taken(old(self).consumer->0).is_prefix_of(ring::taken(c))
                &&& ring::misses(c) == ring::misses(old(self).consumer->0) + 1 || ring::taken(
                    c,
                ).len() >= ring::taken(old(self).consumer->0).len() + u64::MAX
                &&& *final(self) == (Recorder {
                    consumer: None,
                    state: RecorderState { active: false, frames_written: 0, dropped: 0 },
                    ..*old(self)
                })
            },
    {
        if self.is_recording() {
            return Err(RecorderError::AlreadyRecording);
        }
        match self.consumer.take() {
            None => Err(RecorderError::NoConsumer),
            Some(mut c) => {
                ring::drain(&mut c);
                self.state.frames_written = 0;
                self.state.dropped = 0;
                Ok(c)
            },
        }
    }

    /// The file is there: from now on samples are taken.
    pub fn started(&mut self, path: String)
        ensures
            final(self).current == Some(path),
            *final(self) == (Recorder {
                state: RecorderState { active: true, ..old(self).state },
                current: final(self).current,
                ..*old(self)
            }),
    {
        self.state.active = true;
        self.current = Some(path);
    }

    /// Asks for the end of the recording: no more samples are taken. Returns
    /// whether there was one.
    pub fn stop(&mut self) -> (was: bool)
        ensures
            was == old(self).state.active,
            *final(self) == (Recorder {
                state: RecorderState { active: false, ..old(self).state },
                ..*old(self)
            }),
    {
        let was: bool = self.state.active;
        self.state.active = false;
        was
    }

    /// The writing thread has ended. The reading end comes back in any case, so
    /// that there can be another recording; the file's path comes back where
    /// the file was finished.
    pub fn stopped(&mut self, joined: Joined) -> (r: Result<Option<String>, RecorderError>)
        ensures
            final(self).state == old(self).state,
            final(self).sample_rate == old(self).sample_rate,
            match joined {
                Joined::NoWriter => final(self).consumer == old(self).consumer,
                Joined::Finished { consumer, ok } => final(self).consumer == Some(consumer),
                Joined::Died => final(self).consumer == old(self).consumer,
            },
            r == answer_to_stop(old(self).current, joined),
            final(self).current == current_after(old(self).current, joined),
    {
        match joined {
            Joined::NoWriter => {},
            Joined::Finished { consumer, ok } => {
                self.consumer = Some(consumer);
                if !ok {
                    return Err(RecorderError::WriteFailed);
                }
            },
            Joined::Died => {
                return Err(RecorderError::WriterDied);
            },
        }
        Ok(self.current.take())
    }
}

/// Takes one batch out of the ring. Returns how many samples came.
pub fn take_batch(c: &mut rtrb::Consumer<Bits>, buf: &mut Vec<Bits>) -> (moved: usize)
    requires
        ring::in_order(*old(c)),
    ensures
        ring::in_order(*final(c)),
        ring::stream_out(*final(c)) == ring::stream_out(*old(c)),
        moved <= old(buf)@.len(),
        final(buf)@.len() == old(buf)@.len(),
        ring::taken(*final(c)) == ring::taken(*old(c)) + final(buf)@.take(moved as int),
        final(buf)@.skip(moved as int) == old(buf)@.skip(moved as int),
        ring::misses(*final(c)) == ring::misses(*old(c)) + (if moved < old(buf)@.len() {
            1nat
        } else {
            0nat
        }),
        moved < old(buf)@.len() ==> moved >= ring::ready(*old(c)),
{
    let n: usize = buf.len();
    ring::pop_into(c, buf, n)
}

/// What the writing thread does after a batch of `moved` samples, with
/// `active` as it was before the batch was taken: it finishes only once
/// recording had stopped and the ring was found empty after that, so that the
/// last samples are not left behind.
pub fn after_batch(active: bool, moved: usize) -> (step: WriterStep)
    ensures
        step == WriterStep::Finish <==> !active && moved == 0,
        step == WriterStep::Wait <==> active && moved == 0,
        step == WriterStep::Again <==> moved > 0,
{
    if moved > 0 {
        WriterStep::Again
    } else if active {
        WriterStep::Wait
    } else {
        WriterStep::Finish
    }
}

/// Counts a batch that has reached the file.
pub fn note_written(state: &mut RecorderState, moved: usize)
    ensures
        *final(state) == (RecorderState {
            frames_written: old(state).frames_written.wrapping_add(moved as u64),
            ..*old(state)
        }),
{
    state.frames_written = state.frames_written.wrapping_add(moved as u64);
}

/// Bytes to put into a file at some place.
pub struct Patch {
    pub at: u32,
    pub bytes: Vec<u8>,
}

/// A file being written: it begins with a header whose length fields are zero.
#[derive(Clone, Copy, PartialEq, Eq, Structural, Debug)]
pub struct WavWriter {
    pub data_bytes: u32,
}

/// A file with `bytes` written over what stands at `at`.
pub open spec fn overwritten(file: Seq<u8>, at: int, bytes: Seq<u8>) -> Seq<u8> {
    file.take(at) + bytes + file.skip(at + bytes.len())
}

impl WavWriter {
    /// Begins a file: returns the header to write first.
    pub fn create(sample_rate: u32) -> (r: (WavWriter, Vec<u8>))
        requires
            sample_rate * 4 <= u32::MAX,
        ensures
            r.0.data_bytes == 0,
            r.1@ == wav::header_bytes(sample_rate, 0, 0),
            r.1@.len() == wav::HEADER_LEN,
    {
        (WavWriter { data_bytes: 0 }, wav::header(sample_rate, 0, 0))
    }

    /// Goes on with samples: returns the bytes to append.
    pub fn write(&mut self, samples: &[Bits]) -> (bytes: Vec<u8>)
        requires
            old(self).data_bytes + 4 * samples@.len() <= u32::MAX,
        ensures
            bytes@ == wav::sample_bytes(samples@),
            final(self).data_bytes == old(self).data_bytes + 4 * samples@.len(),
    {
        let mut bytes: Vec<u8> = Vec::new();
        wav::push_samples(&mut bytes, samples);
        assert(bytes@ =~= wav::sample_bytes(samples@));
        self.data_bytes = self.data_bytes + samples.len() as u32 * 4;
        bytes
    }

    /// Finishes the file: returns the two length fields to fill in.
    pub fn finalize(self) -> (r: (Patch, Patch))
        requires
            36 + self.data_bytes <= u32::MAX,
        ensures
            r.0.at == 4,
            r.0.bytes@ == wav::le32((36 + self.data_bytes) as u32),
            r.1.at == 40,
            r.1.bytes@ == wav::le32(self.data_bytes),
    {
        (
            Patch { at: 4, bytes: wav::le_bytes(wav::HEADER_LEN - 8 + self.data_bytes) },
            Patch { at: 40, bytes: wav::le_bytes(self.data_bytes) },
        )
    }
}

/// A file written piece by piece and finished is the file written in one go:
/// the header with zero lengths, the samples behind it, and the two length
/// fields filled in.
pub proof fn a_finished_recording_is_a_whole_file(samples: Seq<Bits>, rate: u32)
    requires
        36 + 4 * samples.len() <= u32::MAX,
    ensures
        overwritten(
            overwritten(
                wav::header_bytes(rate, 0, 0) + wav::sample_bytes(samples),
                4,
                wav::le32((36 + 4 * samples.len()) as u32),
            ),
            40,
            wav::le32((4 * samples.len()) as u32),
        ) == wav::file_bytes(samples, rate),
{
    reveal(wav::header_bytes);
    let n = samples.len() as int;
    let riff = (36 + 4 * n) as u32;
    let data = (4 * n) as u32;
    let body = wav::sample_bytes(samples);
    let a = wav::header_bytes(rate, 0, 0) + body;
    let b = overwritten(a, 4, wav::le32(riff));
    assert(b =~= wav::header_bytes(rate, riff, 0) + body);
    let c = overwritten(b, 40, wav::le32(data));
    assert(c =~= wav::header_bytes(rate, riff, data) + body);
}

/// Writing in pieces appends the same bytes as writing at once.
pub proof fn pieces_join_up(a: Seq<Bits>, b: Seq<Bits>)
    ensures
        wav::sample_bytes(a) + wav::sample_bytes(b) == wav::sample_bytes(a + b),
    decreases b.len(),
{
    if b.len() == 0 {
        assert(a + b =~= a);
        assert(wav::sample_bytes(a) + wav::sample_bytes(b) =~= wav::sample_bytes(a));
    } else {
        pieces_join_up(a, b.drop_last());
        assert((a + b).drop_last() =~= a + b.drop_last());
        assert(wav::sample_bytes(a) + wav::sample_bytes(b) =~= (wav::sample_bytes(a)
            + wav::sample_bytes(b.drop_last())) + wav::le32(b.last()));
    }
}

/// Blocks of samples put one behind the other.
pub open spec fn joined_up(blocks: Seq<Seq<Bits>>) -> Seq<Bits>
    decreases blocks.len(),
{
    if blocks.len() == 0 {
        Seq::empty()
    } else {
        joined_up(blocks.drop_last()) + blocks.last()
    }
}

/// A file after the bytes of each batch have been appended to it.
pub open spec fn grown(file: Seq<u8>, batches: Seq<Seq<Bits>>) -> Seq<u8>
    decreases batches.len(),
{
    if batches.len() == 0 {
        file
    } else {
        grown(file, batches.drop_last()) + wav::sample_bytes(batches.last())
    }
}

/// The count of samples written after each batch has been counted.
pub open spec fn count_after(count: u64, batches: Seq<Seq<Bits>>) -> u64
    decreases batches.len(),
{
    if batches.len() == 0 {
        count
    } else {
        count_after(count, batches.drop_last()).wrapping_add(batches.last().len() as u64)
    }
}

/// The count of a recording is the number of samples in its file: counted batch by
/// batch from zero, it comes to as many as all batches hold together.
pub proof fn every_sample_written_is_counted(batches: Seq<Seq<Bits>>)
    requires
        joined_up(batches).len() <= u64::MAX,
    ensures
        count_after(0, batches) == joined_up(batches).len(),
    decreases batches.len(),
{
    if batches.len() > 0 {
        every_sample_written_is_counted(batches.drop_last());
    }
}

proof fn lemma_grown(file: Seq<u8>, batches: Seq<Seq<Bits>>)
    ensures
        grown(file, batches) == file + wav::sample_bytes(joined_up(batches)),
    decreases batches.len(),
{
    if batches.len() == 0 {
        assert(file + wav::sample_bytes(joined_up(batches)) =~= file);
    } else {
        let front = batches.drop_last();
        lemma_grown(file, front);
        pieces_join_up(joined_up(front), batches.last());
        assert(grown(file, batches) =~= file + (wav::sample_bytes(joined_up(front))
            + wav::sample_bytes(batches.last())));
    }
}

/// A recording holds exactly what was pushed while it ran. `p0` and `c0` are the two
/// ends of the ring when it began, with nothing in between; `p1` and `c1` are the ends
/// when it was over, with everything taken. Where the blocks pushed went in whole, and
/// each batch taken was appended to a file that begins with the header, the finished
/// file is the one that holds those blocks one behind the other.
pub proof fn a_recording_holds_what_was_pushed(
    p0: rtrb::Producer<Bits>,
    p1: rtrb::Producer<Bits>,
    c0: rtrb::Consumer<Bits>,
    c1: rtrb::Consumer<Bits>,
    blocks: Seq<Seq<Bits>>,
    batches: Seq<Seq<Bits>>,
    rate: u32,
)
    requires
        ring::stream_in(p1) == ring::stream_out(c1),
        ring::on_record(p1),
        ring::in_order(c1),
        ring::taken(c0).len() == ring::written(p0).len(),
        ring::taken(c1).len() == ring::written(p1).len(),
        ring::written(p1) == ring::written(p0) + joined_up(blocks),
        ring::taken(c1) == ring::taken(c0) + joined_up(batches),
        36 + 4 * joined_up(blocks).len() <= u32::MAX,
    ensures
        joined_up(batches) == joined_up(blocks),
        overwritten(
            overwritten(
                grown(wav::header_bytes(rate, 0, 0), batches),
                4,
                wav::le32((36 + 4 * joined_up(batches).len()) as u32),
            ),
            40,
            wav::le32((4 * joined_up(batches).len()) as u32),
        ) == wav::file_bytes(joined_up(blocks), rate),
{
    let a = joined_up(batches);
    let b = joined_up(blocks);
    let n = ring::taken(c0).len();
    assert forall|i: int| 0 <= i < a.len() implies a[i] == b[i] by {
        assert(a[i] == ring::taken(c1)[n + i]);
        assert(b[i] == ring::written(p1)[n + i]);
        ring::what_goes_in_comes_out(p1, c1, n + i);
    }
    assert(a =~= b);
    lemma_grown(wav::header_bytes(rate, 0, 0), batches);
    a_finished_recording_is_a_whole_file(b, rate);
}

/// The name of a recording made at a time in seconds.
pub open spec fn name_at(unix_secs: u64) -> Seq<char> {
    "wego-"@ + text::decimal(unix_secs as int) + ".wav"@
}

/// The name of a recording made at a time in seconds.
pub fn timestamped_name(unix_secs: u64) -> (name: String)
    ensures
        name@ == name_at(unix_secs),
{
    let mut name: String = String::new();
    let front: Vec<char> = text::chars_of("wego-");
    let back: Vec<char> = text::chars_of(".wav");
    text::push_range(&mut name, &front, 0, front.len());
    text::push_decimal(&mut name, unix_secs);
    text::push_range(&mut name, &back, 0, back.len());
    assert(front@.subrange(0, front@.len() as int) =~= "wego-"@);
    assert(back@.subrange(0, back@.len() as int) =~= ".wav"@);
    assert(name@ =~= name_at(unix_secs));
    name
}

/// A recording that was not written whole is never answered with a file, and one that was
/// is answered with it. A file stays under way only where something went wrong.
pub proof fn a_failed_recording_is_told(current: Option<String>, consumer: rtrb::Consumer<Bits>)
    ensures
        answer_to_stop(current, Joined::Died) is Err,
        answer_to_stop(current, Joined::Finished { consumer, ok: false }) is Err,
        answer_to_stop(current, Joined::Died) != answer_to_stop(
            current,
            Joined::Finished { consumer, ok: false },
        ),
        answer_to_stop(current, Joined::Finished { consumer, ok: true }) == Ok::<
            Option<String>,
            RecorderError,
        >(current),
        current_after(current, Joined::Finished { consumer, ok: true }) is None,
        current_after(current, Joined::Finished { consumer, ok: false }) == current,
        current_after(current, Joined::Died) == current,
{
}

/// Overwriting changes the bytes that it is handed and no others.
pub proof fn overwriting_touches_nothing_else(file: Seq<u8>, at: int, bytes: Seq<u8>, i: int)
    requires
        0 <= at,
        at + bytes.len() <= file.len(),
        0 <= i < file.len(),
    ensures
        overwritten(file, at, bytes).len() == file.len(),
        at <= i < at + bytes.len() ==> overwritten(file, at, bytes)[i] == bytes[i - at],
        i < at || i >= at + bytes.len() ==> overwritten(file, at, bytes)[i] == file[i],
{
}

/// Recordings made at different times have different names, all of them WAV files.
pub proof fn different_times_have_different_names(a: u64, b: u64)
    requires
        a != b,
    ensures
        name_at(a) != name_at(b),
        ".wav"@.is_suffix_of(name_at(a)),
{
    reveal_strlit("wego-");
    reveal_strlit(".wav");
    let x = text::decimal(a as int);
    let y = text::decimal(b as int);
    text::a_decimal_says_its_number(a as int);
    text::a_decimal_says_its_number(b as int);
    let n = name_at(a);
    assert(n.subrange(5, n.len() - 4) =~= x);
    assert(name_at(b).subrange(5, name_at(b).len() - 4) =~= y);
    assert(n.subrange(n.len() - 4, n.len() as int) =~= ".wav"@);
}

} // verus!
