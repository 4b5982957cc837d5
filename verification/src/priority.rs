//! Whether any audio thread has got real-time priority.
use vstd::prelude::*;

verus! {

/// The record of attempts.
pub struct Promotions {
    pub promoted: bool,
    /// What the system has been asked so far: block size and sample rate of
    /// each request.
    pub asked: Ghost<Seq<(u32, u32)>>,
}

/// Asks the system for real-time priority for the calling thread, by
/// `audio_thread_priority::promote_current_thread_to_real_time`, and says
/// whether it was granted. The request, with exactly these arguments, is put on
/// record. A sample rate of zero is always refused. For any other rate the
/// answer is the system's, and nothing is claimed of it. The handle that comes
/// back is dropped, which leaves the priority as it is.
#[verifier::external_body]
fn ask_for_priority(p: &mut Promotions, buffer_frames: u32, sample_rate: u32) -> (granted: bool)
    ensures
        final(p).promoted == old(p).promoted,
        final(p).asked@ == old(p).asked@.push((buffer_frames, sample_rate)),
        sample_rate == 0 ==> !granted,
{
    audio_thread_priority::promote_current_thread_to_real_time(buffer_frames, sample_rate).is_ok()
}

impl Promotions {
    /// No attempt yet.
    pub fn new() -> (p: Promotions)
        ensures
            !p.promoted,
            p.asked@.len() == 0,
    {
        Promotions { promoted: false, asked: Ghost(Seq::empty()) }
    }

    /// Notes the outcome of an attempt, and hands it on.
    pub fn note(&mut self, granted: bool) -> (r: bool)
        ensures
            r == granted,
            final(self).promoted == (old(self).promoted || granted),
            final(self).asked@ == old(self).asked@,
    {
        if granted {
            self.promoted = true;
        }
        granted
    }

    /// Tries to raise the calling thread to real-time priority. A refusal is no
    /// error: it is handed back for the caller to count.
    pub fn promote_audio_thread(&mut self, buffer_frames: u32, sample_rate: u32) -> (r: bool)
        ensures
            final(self).asked@ == old(self).asked@.push((buffer_frames, sample_rate)),
            final(self).promoted == (old(self).promoted || r),
            sample_rate == 0 ==> !r,
    {
        let granted: bool = ask_for_priority(self, buffer_frames, sample_rate);
        self.note(granted)
    }
}

/// Has any attempt succeeded?
pub fn was_promoted(p: &Promotions) -> (r: bool)
    ensures
        r == p.promoted,
{
    p.promoted
}

} // verus!
