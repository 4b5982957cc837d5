//! The offline correction job: its state, and what each outcome of a step leads
//! to.
use crate::paths;
use crate::single::{self, Bits};
use crate::takes;
use vstd::prelude::*;

verus! {

/// Told where the file holds no samples.
pub const NO_AUDIO: &'static str = "文件里没有音频数据";

/// Told where no voice is found.
pub const NO_VOICE: &'static str = "整段音频里没有检测到人声 —— 确认录的是干声，不是伴奏";

/// Told where a job is under way.
pub const BUSY: &'static str = "已有离线任务在跑";

/// Where a job stands.
#[derive(Clone, Copy, PartialEq, Eq, Structural, Debug)]
pub enum Stage {
    Idle,
    Reading,
    Tracking,
    Correcting,
    Writing,
    Done,
    Failed,
    Cancelled,
}

impl Stage {
    /// The stage, for display.
    pub open spec fn shown(self) -> Seq<char> {
        match self {
            Stage::Idle => "空闲"@,
            Stage::Reading => "读取音频"@,
            Stage::Tracking => "提取音高轨"@,
            Stage::Correcting => "重新校准"@,
            Stage::Writing => "写入文件"@,
            Stage::Done => "完成"@,
            Stage::Failed => "失败"@,
            Stage::Cancelled => "已取消"@,
        }
    }

    /// The stage, for display.
    pub fn label(self) -> (s: &'static str)
        ensures
            s@ == self.shown(),
    {
        match self {
            Stage::Idle => "空闲",
            Stage::Reading => "读取音频",
            Stage::Tracking => "提取音高轨",
            Stage::Correcting => "重新校准",
            Stage::Writing => "写入文件",
            Stage::Done => "完成",
            Stage::Failed => "失败",
            Stage::Cancelled => "已取消",
        }
    }

    /// The number of the stage.
    pub open spec fn number(self) -> u32 {
        match self {
            Stage::Idle => 0,
            Stage::Reading => 1,
            Stage::Tracking => 2,
            Stage::Correcting => 3,
            Stage::Writing => 4,
            Stage::Done => 5,
            Stage::Failed => 6,
            Stage::Cancelled => 7,
        }
    }

    /// The number of the stage.
    pub fn code(self) -> (n: u32)
        ensures
            n == self.number(),
    {
        match self {
            Stage::Idle => 0,
            Stage::Reading => 1,
            Stage::Tracking => 2,
            Stage::Correcting => 3,
            Stage::Writing => 4,
            Stage::Done => 5,
            Stage::Failed => 6,
            Stage::Cancelled => 7,
        }
    }

    /// The stage of a number; numbers without one stand for idle.
    pub fn from_code(n: u32) -> (s: Stage)
        ensures
            n <= 7 ==> s.number() == n,
            n > 7 ==> s == Stage::Idle,
    {
        match n {
            1 => Stage::Reading,
            2 => Stage::Tracking,
            3 => Stage::Correcting,
            4 => Stage::Writing,
            5 => Stage::Done,
            6 => Stage::Failed,
            7 => Stage::Cancelled,
            _ => Stage::Idle,
        }
    }
}

/// No two stages have one number.
pub proof fn stages_have_their_own_numbers(a: Stage, b: Stage)
    requires
        a.number() == b.number(),
    ensures
        a == b,
{
}

/// The state of the job.
pub struct JobState {
    pub running: bool,
    /// The recording that is corrected, or was last.
    pub input: String,
    pub cancel: bool,
    pub progress: Bits,
    pub stage: Stage,
    pub output: Option<String>,
    pub error: Option<String>,
    pub octave_fixes: u32,
    pub gap_fills: u32,
}

impl Default for JobState {
    fn default() -> (s: JobState)
        ensures
            s.input@ == Seq::<char>::empty(),
            s == (JobState {
                running: false,
                input: s.input,
                cancel: false,
                progress: single::ZERO,
                stage: Stage::Idle,
                output: None,
                error: None,
                octave_fixes: 0,
                gap_fills: 0,
            }),
    {
        JobState {
            running: false,
            input: String::new(),
            cancel: false,
            progress: single::ZERO,
            stage: Stage::Idle,
            output: None,
            error: None,
            octave_fixes: 0,
            gap_fills: 0,
        }
    }
}

/// How a step of the job came out.
pub enum Event {
    /// The file was read and holds so many samples.
    Read(usize),
    /// It could not be read.
    ReadFailed(String),
    /// The pitch was followed.
    Followed { voiced: usize, octave_fixes: usize, gap_fills: usize },
    /// Following or correcting was broken off.
    Stopped,
    /// The voice was corrected.
    Corrected,
    /// The result was written, to the file that was asked for.
    Written,
    /// It could not be written.
    WriteFailed(String),
}

/// What the job does next.
#[derive(PartialEq, Eq, Debug)]
pub enum Next {
    Track,
    Correct,
    /// Write the result to this file.
    Write(String),
    End,
}

/// The file that a job makes: beside its recording, under its name with a suffix.
pub open spec fn destination(s: JobState) -> Seq<char> {
    paths::with_suffix(s.input@, takes::CORRECTED_ENDING@)
}

/// The state of a job that has failed.
pub open spec fn failed(s: JobState, error: String) -> JobState {
    JobState {
        running: false,
        stage: Stage::Failed,
        progress: single::ZERO,
        error: Some(error),
        ..s
    }
}

impl JobState {
    /// Is a job under way?
    pub fn is_running(&self) -> (r: bool)
        ensures
            r == self.running,
    {
        self.running
    }

    /// How far the job is, from 0 to 1.
    pub fn progress(&self) -> (p: Bits)
        ensures
            p == self.progress,
    {
        self.progress
    }

    /// Where the job stands.
    pub fn stage(&self) -> (s: Stage)
        ensures
            s == self.stage,
    {
        self.stage
    }

    /// The file that the job has made.
    pub fn output(&self) -> (o: Option<String>)
        ensures
            o == self.output,
    {
        match &self.output {
            Some(s) => Some(s.clone()),
            None => None,
        }
    }

    /// Why the job failed.
    pub fn error(&self) -> (e: Option<String>)
        ensures
            e == self.error,
    {
        match &self.error {
            Some(s) => Some(s.clone()),
            None => None,
        }
    }

    /// Octave errors mended.
    pub fn octave_fixes(&self) -> (n: u32)
        ensures
            n == self.octave_fixes,
    {
        self.octave_fixes
    }

    /// Frames filled in.
    pub fn gap_fills(&self) -> (n: u32)
        ensures
            n == self.gap_fills,
    {
        self.gap_fills
    }

    /// Asks the job to stop.
    pub fn cancel(&mut self)
        ensures
            *final(self) == (JobState { cancel: true, ..*old(self) }),
    {
        self.cancel = true;
    }

    /// Notes stage and progress. Returns whether the job is to go on.
    pub fn set(&mut self, stage: Stage, p: Bits) -> (go_on: bool)
        ensures
            *final(self) == (JobState {
                stage,
                progress: single::clamped(p, single::ZERO, single::ONE),
                ..*old(self)
            }),
            go_on == !old(self).cancel,
    {
        self.stage = stage;
        self.progress = single::clamp(p, single::ZERO, single::ONE);
        !self.cancel
    }

    /// Starts a job on a recording, unless one is under way: jobs do not queue.
    pub fn start_recorrect(&mut self, input: String) -> (r: Result<(), &'static str>)
        ensures
            r is Err <==> old(self).running,
            r matches Err(e) ==> e@ == BUSY@ && *final(self) == *old(self),
            r is Ok ==> *final(self) == (JobState {
                running: true,
                input,
                cancel: false,
                progress: single::ZERO,
                stage: Stage::Reading,
                output: None,
                error: None,
                octave_fixes: 0,
                gap_fills: 0,
            }),
    {
        if self.running {
            return Err(BUSY);
        }
        self.running = true;
        self.input = input;
        self.cancel = false;
        self.output = None;
        self.error = None;
        self.octave_fixes = 0;
        self.gap_fills = 0;
        self.stage = Stage::Reading;
        self.progress = single::ZERO;
        Ok(())
    }

    /// Takes the outcome of a step and says what comes next. A job ends with a
    /// file, with an error, or cancelled with neither. The file that is to be written
    /// is the one that is shown once it is there, and no other.
    pub fn run(&mut self, event: Event) -> (next: Next)
        ensures
            match event {
                Event::Read(n) => if n == 0 {
                    next == Next::End && exists|e: String|
                        e@ == NO_AUDIO@ && *final(self) == failed(*old(self), e)
                } else {
                    next == Next::Track && *final(self) == *old(self)
                },
                Event::ReadFailed(e) => next == Next::End && *final(self) == failed(*old(self), e),
                Event::Followed { voiced, octave_fixes, gap_fills } => if voiced == 0 {
                    next == Next::End && exists|e: String|
                        e@ == NO_VOICE@ && *final(self) == failed(*old(self), e)
                } else {
                    next == Next::Correct && *final(self) == (JobState {
                        octave_fixes: octave_fixes as u32,
                        gap_fills: gap_fills as u32,
                        ..*old(self)
                    })
                },
                Event::Stopped => next == Next::End && *final(self) == (JobState {
                    running: false,
                    stage: Stage::Cancelled,
                    progress: single::ZERO,
                    ..*old(self)
                }),
                Event::Corrected => next matches Next::Write(path) && path@ == destination(
                    *old(self),
                ) && *final(self) == (JobState {
                    stage: Stage::Writing,
                    progress: single::ONE,
                    ..*old(self)
                }),
                Event::Written => next == Next::End && *final(self) == (JobState {
                    running: false,
                    stage: Stage::Done,
                    progress: single::ONE,
                    output: final(self).output,
                    ..*old(self)
                }) && (final(self).output matches Some(path) && path@ == destination(*old(self))),
                Event::WriteFailed(e) => next == Next::End && *final(self) == failed(*old(self), e),
            },
    {
        match event {
            Event::Read(n) => {
                if n == 0 {
                    self.fail(NO_AUDIO.to_owned());
                    Next::End
                } else {
                    Next::Track
                }
            },
            Event::ReadFailed(e) => {
                self.fail(e);
                Next::End
            },
            Event::Followed { voiced, octave_fixes, gap_fills } => {
                if voiced == 0 {
                    self.fail(NO_VOICE.to_owned());
                    Next::End
                } else {
                    self.octave_fixes = octave_fixes as u32;
                    self.gap_fills = gap_fills as u32;
                    Next::Correct
                }
            },
            Event::Stopped => {
                self.running = false;
                self.stage = Stage::Cancelled;
                self.progress = single::ZERO;
                Next::End
            },
            Event::Corrected => {
                self.stage = Stage::Writing;
                self.progress = single::ONE;
                Next::Write(output_path(self.input.as_str()))
            },
            Event::Written => {
                self.running = false;
                self.output = Some(output_path(self.input.as_str()));
                self.stage = Stage::Done;
                self.progress = single::ONE;
                Next::End
            },
            Event::WriteFailed(e) => {
                self.fail(e);
                Next::End
            },
        }
    }

    fn fail(&mut self, e: String)
        ensures
            *final(self) == failed(*old(self), e),
    {
        self.running = false;
        self.error = Some(e);
        self.stage = Stage::Failed;
        self.progress = single::ZERO;
    }
}

/// Where the corrected version of a recording goes: beside it, under its name
/// with a suffix.
pub fn output_path(input: &str) -> (r: String)
    ensures
        r@ == paths::with_suffix(input@, takes::CORRECTED_ENDING@),
{
    paths::replace_name(input, takes::CORRECTED_ENDING)
}

/// The file that a job makes of a recording lies in the recording's directory,
/// under the name by which the listing takes it for that recording's corrected
/// version.
pub proof fn the_output_is_listed_with_its_recording(input: Seq<char>)
    requires
        paths::file_name(input) is Some,
    ensures
        ({
            let (a, b) = paths::file_name(input)->0;
            let out = paths::with_suffix(input, takes::CORRECTED_ENDING@);
            let name = out.subrange(a, out.len() as int);
            &&& out.take(a) == input.take(a)
            &&& paths::file_name(out) == Some((a, out.len() as int))
            &&& name == takes::corrected_name_of(input.subrange(a, b))
            &&& takes::names_wav(name)
            &&& takes::corrected_stem(paths::stem(name))
            &&& takes::source_stem(paths::stem(name)) == paths::stem(input.subrange(a, b))
        }),
{
    reveal_strlit("-corrected.wav");
    let (a, b) = paths::file_name(input)->0;
    paths::a_new_ending_keeps_the_directory(input, takes::CORRECTED_ENDING@);
    takes::corrected_versions_find_their_recordings(input.subrange(a, b));
}

/// A failed job shows an error and no file, if it had none before.
pub proof fn a_failed_job_leaves_no_file(s: JobState, error: String)
    requires
        s.output is None,
    ensures
        failed(s, error).output is None,
        failed(s, error).error is Some,
        !failed(s, error).running,
{
}

} // verus!
