//! The voice conversion job, which runs as a process of its own: what is asked
//! of the process, what its lines mean, and how the job ends.
use crate::paths;
use crate::single::{self, Bits};
use crate::text;
use vstd::prelude::*;

verus! {

/// What the name of a converted version ends in.
pub const CLONED_ENDING: &'static str = "-cloned.wav";

/// Told where a job is under way.
pub const BUSY: &'static str = "已有一个转换任务在跑";

/// Told, with the path behind it, where the program is missing.
pub const NO_PROGRAM: &'static str = "找不到推理程序：";

pub const PREPARING: &'static str = "准备中";

pub const FAILED: &'static str = "失败";

pub const CANCELLED: &'static str = "已取消";

pub const FINISHED: &'static str = "完成";

/// Told where the process ends without an answer: the exit code stands between
/// the two.
pub const NO_RESULT: &'static str = "推理程序没有给出结果就退出了（";

pub const NO_RESULT_HINT: &'static str = "）——多半是模型文件损坏，或者这台机器缺少运行库";

pub const EXIT_CODE: &'static str = "退出码 ";

pub const EXIT_UNKNOWN: &'static str = "退出码未知";

/// The state of the job.
pub struct CloneState {
    pub running: bool,
    pub cancel: bool,
    pub progress: Bits,
    pub stage: String,
    pub output: Option<String>,
    pub error: Option<String>,
}

/// A line of the process that means something.
pub enum Line {
    Stage(String),
    Progress(Bits),
    Done(String),
    Failed(String),
}

/// What the process has answered so far.
pub struct Reply {
    pub done: Option<String>,
    pub failure: Option<String>,
}

/// An argument of the process.
pub enum Arg {
    Text(String),
    Models,
    Input,
    Output,
}

/// What a line means, as text.
pub enum Meaning {
    Stage(Seq<char>),
    Progress(Seq<char>),
    Done(Seq<char>),
    Failed(Seq<char>),
    Nothing,
}

/// What follows a word in front.
pub open spec fn behind(s: Seq<char>, word: Seq<char>) -> Seq<char> {
    s.skip(word.len() as int)
}

/// What a line means. Lines that begin with none of the four words mean
/// nothing: libraries may print lines of their own.
pub open spec fn meaning(line: Seq<char>) -> Meaning {
    let s = text::trimmed(line);
    if "STAGE "@.is_prefix_of(s) {
        Meaning::Stage(behind(s, "STAGE "@))
    } else if "PROGRESS "@.is_prefix_of(s) {
        Meaning::Progress(text::trimmed(behind(s, "PROGRESS "@)))
    } else if "OK "@.is_prefix_of(s) {
        Meaning::Done(text::trimmed(behind(s, "OK "@)))
    } else if "ERR "@.is_prefix_of(s) {
        Meaning::Failed(text::trimmed(behind(s, "ERR "@)))
    } else {
        Meaning::Nothing
    }
}

/// Does a parsed line say what the text means, where `number` is what the text
/// of a progress line reads as?
pub open spec fn says(line: Option<Line>, m: Meaning, number: Option<Bits>) -> bool {
    match m {
        Meaning::Stage(t) => line matches Some(Line::Stage(s)) && s@ == t,
        Meaning::Progress(_) => match number {
            Some(n) => line == Some(Line::Progress(n)),
            None => line is None,
        },
        Meaning::Done(t) => line matches Some(Line::Done(s)) && s@ == t,
        Meaning::Failed(t) => line matches Some(Line::Failed(s)) && s@ == t,
        Meaning::Nothing => line is None,
    }
}

fn after(chars: &[char], a: usize, b: usize, word: &str) -> (r: usize)
    requires
        a <= b <= chars@.len(),
        word@.is_prefix_of(chars@.subrange(a as int, b as int)),
    ensures
        a <= r <= b,
        chars@.subrange(r as int, b as int) == behind(chars@.subrange(a as int, b as int), word@),
{
    let w: Vec<char> = text::chars_of(word);
    let r: usize = a + w.len();
    assert(chars@.subrange(r as int, b as int) =~= behind(
        chars@.subrange(a as int, b as int),
        word@,
    ));
    r
}

fn rest_trimmed(chars: &[char], a: usize, b: usize, word: &str) -> (s: String)
    requires
        a <= b <= chars@.len(),
        word@.is_prefix_of(chars@.subrange(a as int, b as int)),
    ensures
        s@ == text::trimmed(behind(chars@.subrange(a as int, b as int), word@)),
{
    let r: usize = after(chars, a, b, word);
    let (c, d): (usize, usize) = text::trim_range(chars, r, b);
    text::string_of(chars, c, d)
}

/// The number in a progress line, as text.
pub fn progress_text(line: &str) -> (r: Option<String>)
    ensures
        match meaning(line@) {
            Meaning::Progress(t) => r matches Some(s) && s@ == t,
            _ => r is None,
        },
{
    let chars: Vec<char> = text::chars_of(line);
    assert(chars@.subrange(0, chars@.len() as int) =~= line@);
    let (a, b): (usize, usize) = text::trim_range(&chars, 0, chars.len());
    if text::begins_with(&chars, a, b, "STAGE ") {
        None
    } else if text::begins_with(&chars, a, b, "PROGRESS ") {
        Some(rest_trimmed(&chars, a, b, "PROGRESS "))
    } else {
        None
    }
}

/// Parses a line of the process. `number` is what [`progress_text`] of the line
/// reads as; a progress line whose text is no number is dropped.
pub fn parse_line(line: &str, number: Option<Bits>) -> (r: Option<Line>)
    ensures
        says(r, meaning(line@), number),
{
    let chars: Vec<char> = text::chars_of(line);
    assert(chars@.subrange(0, chars@.len() as int) =~= line@);
    let (a, b): (usize, usize) = text::trim_range(&chars, 0, chars.len());
    if text::begins_with(&chars, a, b, "STAGE ") {
        let r: usize = after(&chars, a, b, "STAGE ");
        Some(Line::Stage(text::string_of(&chars, r, b)))
    } else if text::begins_with(&chars, a, b, "PROGRESS ") {
        match number {
            Some(n) => Some(Line::Progress(n)),
            None => None,
        }
    } else if text::begins_with(&chars, a, b, "OK ") {
        Some(Line::Done(rest_trimmed(&chars, a, b, "OK ")))
    } else if text::begins_with(&chars, a, b, "ERR ") {
        Some(Line::Failed(rest_trimmed(&chars, a, b, "ERR ")))
    } else {
        None
    }
}

/// Where the converted version of a recording goes: beside it, under its name
/// with a suffix of its own.
pub fn output_path(input: &str) -> (r: String)
    ensures
        r@ == paths::with_suffix(input@, CLONED_ENDING@),
{
    paths::replace_name(input, CLONED_ENDING)
}

/// Is this argument that text?
pub open spec fn arg_is(a: Arg, t: Seq<char>) -> bool {
    a matches Arg::Text(s) && s@ == t
}

/// The arguments of the process: models, input, output and speaker, each behind
/// its flag.
pub fn build_command(speaker: usize) -> (args: Vec<Arg>)
    ensures
        args@.len() == 8,
        arg_is(args@[0], "--models"@),
        args@[1] == Arg::Models,
        arg_is(args@[2], "--input"@),
        args@[3] == Arg::Input,
        arg_is(args@[4], "--output"@),
        args@[5] == Arg::Output,
        arg_is(args@[6], "--speaker"@),
        arg_is(args@[7], text::decimal(speaker as int)),
{
    let mut number: String = String::new();
    text::push_decimal(&mut number, speaker as u64);
    assert(number@ =~= text::decimal(speaker as int));
    let mut args: Vec<Arg> = Vec::new();
    args.push(Arg::Text("--models".to_owned()));
    args.push(Arg::Models);
    args.push(Arg::Text("--input".to_owned()));
    args.push(Arg::Input);
    args.push(Arg::Text("--output".to_owned()));
    args.push(Arg::Output);
    args.push(Arg::Text("--speaker".to_owned()));
    args.push(Arg::Text(number));
    args
}

/// Why a job does not start.
#[derive(Clone, Copy, PartialEq, Eq, Structural, Debug)]
pub enum StartError {
    /// The program is missing.
    NoProgram,
    /// A job is under way.
    Busy,
}

/// What is told where the process ends without an answer.
pub open spec fn no_result(code: Option<i32>) -> Seq<char> {
    NO_RESULT@ + (match code {
        Some(c) => EXIT_CODE@ + text::signed_decimal(c as int),
        None => EXIT_UNKNOWN@,
    }) + NO_RESULT_HINT@
}

fn no_result_text(code: Option<i32>) -> (s: String)
    ensures
        s@ == no_result(code),
{
    let mut s: String = String::new();
    text::push_text(&mut s, NO_RESULT);
    match code {
        Some(c) => {
            text::push_text(&mut s, EXIT_CODE);
            text::push_signed(&mut s, c);
        },
        None => {
            text::push_text(&mut s, EXIT_UNKNOWN);
        },
    }
    text::push_text(&mut s, NO_RESULT_HINT);
    assert(s@ =~= no_result(code));
    s
}

impl Default for CloneState {
    fn default() -> (s: CloneState)
        ensures
            !s.running,
            !s.cancel,
            s.progress == single::ZERO,
            s.stage@.len() == 0,
            s.output is None,
            s.error is None,
    {
        CloneState {
            running: false,
            cancel: false,
            progress: single::ZERO,
            stage: String::new(),
            output: None,
            error: None,
        }
    }
}

impl CloneState {
    /// Is a job under way?
    pub fn is_running(&self) -> (r: bool)
        ensures
            r == self.running,
    {
        self.running
    }

    /// How far the job is, from 0 to 1.
    pub fn progress(&self) -> (p: Bits)
        ensures
            p == self.progress,
    {
        self.progress
    }

    /// What the job is at.
    pub fn stage(&self) -> (s: String)
        ensures
            s == self.stage,
    {
        self.stage.clone()
    }

    /// The file that the job has made.
    pub fn output(&self) -> (o: Option<String>)
        ensures
            o == self.output,
    {
        match &self.output {
            Some(s) => Some(s.clone()),
            None => None,
        }
    }

    /// Why the job failed.
    pub fn error(&self) -> (e: Option<String>)
        ensures
            e == self.error,
    {
        match &self.error {
            Some(s) => Some(s.clone()),
            None => None,
        }
    }

    /// Notes that the job is to be broken off; the caller ends the process.
    pub fn cancel(&mut self)
        ensures
            *final(self) == (CloneState { cancel: true, ..*old(self) }),
    {
        self.cancel = true;
    }

    /// Starts a job, where the program is there and no job is under way.
    /// Nothing changes otherwise.
    pub fn start(&mut self, program_there: bool) -> (r: Result<(), StartError>)
        ensures
            r == (if !program_there {
                Err::<(), StartError>(StartError::NoProgram)
            } else if old(self).running {
                Err(StartError::Busy)
            } else {
                Ok(())
            }),
            r is Err ==> *final(self) == *old(self),
            r is Ok ==> final(self).stage@ == PREPARING@ && *final(self) == (CloneState {
                running: true,
                cancel: false,
                progress: single::ZERO,
                stage: final(self).stage,
                output: None,
                error: None,
            }),
    {
        if !program_there {
            return Err(StartError::NoProgram);
        }
        if self.running {
            return Err(StartError::Busy);
        }
        self.running = true;
        self.cancel = false;
        self.output = None;
        self.error = None;
        self.progress = single::ZERO;
        self.stage = PREPARING.to_owned();
        Ok(())
    }

    /// Takes one line of the process.
    pub fn on_line(&mut self, reply: &mut Reply, line: Line)
        ensures
            match line {
                Line::Stage(s) => *final(self) == (CloneState { stage: s, ..*old(self) })
                    && *final(reply) == *old(reply),
                Line::Progress(p) => *final(self) == (CloneState {
                    progress: single::clamped(p, single::ZERO, single::ONE),
                    ..*old(self)
                }) && *final(reply) == *old(reply),
                Line::Done(p) => *final(self) == *old(self) && *final(reply) == (Reply {
                    done: Some(p),
                    ..*old(reply)
                }),
                Line::Failed(e) => *final(self) == *old(self) && *final(reply) == (Reply {
                    failure: Some(e),
                    ..*old(reply)
                }),
            },
    {
        match line {
            Line::Stage(s) => {
                self.stage = s;
            },
            Line::Progress(p) => {
                self.progress = single::clamp(p, single::ZERO, single::ONE);
            },
            Line::Done(p) => {
                reply.done = Some(p);
            },
            Line::Failed(e) => {
                reply.failure = Some(e);
            },
        }
    }

    /// The process has ended. A job that was broken off counts as such whatever
    /// the process said; a reported failure counts before a reported result;
    /// and no report at all is a failure.
    pub fn conclude(&mut self, reply: Reply, code: Option<i32>) -> (r: Result<(), String>)
        ensures
            old(self).cancel ==> r is Ok && final(self).stage@ == CANCELLED@ && *final(self) == (
            CloneState { stage: final(self).stage, ..*old(self) }),
            !old(self).cancel ==> match (reply.failure, reply.done) {
                (Some(e), _) => r == Err::<(), String>(e) && *final(self) == *old(self),
                (None, Some(p)) => r is Ok && final(self).stage@ == FINISHED@ && *final(self) == (
                CloneState {
                    output: Some(p),
                    stage: final(self).stage,
                    progress: single::ONE,
                    ..*old(self)
                }),
                (None, None) => r matches Err(e) && e@ == no_result(code) && *final(self)
                    == *old(self),
            },
    {
        if self.cancel {
            self.stage = CANCELLED.to_owned();
            return Ok(());
        }
        if let Some(e) = reply.failure {
            return Err(e);
        }
        match reply.done {
            Some(p) => {
                self.output = Some(p);
                self.stage = FINISHED.to_owned();
                self.progress = single::ONE;
                Ok(())
            },
            None => Err(no_result_text(code)),
        }
    }

    /// The job is over. An error is shown unless the job was broken off.
    pub fn finish(&mut self, result: Result<(), String>)
        ensures
            match result {
                Ok(_) => *final(self) == (CloneState { running: false, ..*old(self) }),
                Err(e) => final(self).stage@ == FAILED@ && *final(self) == (CloneState {
                    running: false,
                    stage: final(self).stage,
                    error: if old(self).cancel {
                        old(self).error
                    } else {
                        Some(e)
                    },
                    ..*old(self)
                }),
            },
    {
        if let Err(e) = result {
            if !self.cancel {
                self.error = Some(e);
            }
            self.stage = FAILED.to_owned();
        }
        self.running = false;
    }
}

/// Corrected and converted versions of one recording do not overwrite each
/// other.
pub proof fn the_two_versions_have_their_own_names(input: Seq<char>)
    ensures
        paths::with_suffix(input, CLONED_ENDING@) != paths::with_suffix(
            input,
            crate::takes::CORRECTED_ENDING@,
        ),
{
    reveal_strlit("-cloned.wav");
    reveal_strlit("-corrected.wav");
    let a = paths::with_suffix(input, CLONED_ENDING@);
    let b = paths::with_suffix(input, crate::takes::CORRECTED_ENDING@);
    assert(a.len() != b.len());
}

/// A line is a word and what follows it, whatever white space stands round the line. Only
/// what follows a stage is kept as it is.
pub proof fn a_line_is_a_word_and_its_text(t: Seq<char>, front: Seq<char>, back: Seq<char>)
    requires
        t.len() > 0,
        !text::is_space(t.last()),
        forall|i: int| 0 <= i < front.len() ==> text::is_space(#[trigger] front[i]),
        forall|i: int| 0 <= i < back.len() ==> text::is_space(#[trigger] back[i]),
    ensures
        meaning(front + ("STAGE "@ + t) + back) == Meaning::Stage(t),
        !text::is_space(t[0]) ==> meaning(front + ("PROGRESS "@ + t) + back) == Meaning::Progress(t),
        !text::is_space(t[0]) ==> meaning(front + ("OK "@ + t) + back) == Meaning::Done(t),
        !text::is_space(t[0]) ==> meaning(front + ("ERR "@ + t) + back) == Meaning::Failed(t),
{
    reveal_strlit("STAGE ");
    reveal_strlit("PROGRESS ");
    reveal_strlit("OK ");
    reveal_strlit("ERR ");
    let none = Seq::<char>::empty();
    if !text::is_space(t[0]) {
        text::trimming_undoes_white_space(none, t, none);
        assert(none + t + none =~= t);
    }
    lemma_word_in_front("STAGE "@, t, front, back);
    lemma_word_in_front("PROGRESS "@, t, front, back);
    lemma_word_in_front("OK "@, t, front, back);
    lemma_word_in_front("ERR "@, t, front, back);
    assert(("PROGRESS "@ + t)[0] == 'P');
    assert(("OK "@ + t)[0] == 'O');
    assert(("ERR "@ + t)[0] == 'E');
    assert(("STAGE "@)[0] == 'S' && ("PROGRESS "@)[0] == 'P' && ("OK "@)[0] == 'O');
}

proof fn lemma_word_in_front(word: Seq<char>, t: Seq<char>, front: Seq<char>, back: Seq<char>)
    requires
        word.len() > 0,
        !text::is_space(word[0]),
        t.len() > 0,
        !text::is_space(t.last()),
        forall|i: int| 0 <= i < front.len() ==> text::is_space(#[trigger] front[i]),
        forall|i: int| 0 <= i < back.len() ==> text::is_space(#[trigger] back[i]),
    ensures
        text::trimmed(front + (word + t) + back) == word + t,
        word.is_prefix_of(word + t),
        behind(word + t, word) == t,
{
    text::trimming_undoes_white_space(front, word + t, back);
    assert((word + t).subrange(0, word.len() as int) =~= word);
    assert((word + t).skip(word.len() as int) =~= t);
}

/// A line that begins with none of the four words means nothing.
pub proof fn other_lines_mean_nothing(line: Seq<char>)
    requires
        text::trimmed(line).len() == 0 || (text::trimmed(line)[0] != 'S' && text::trimmed(line)[0]
            != 'P' && text::trimmed(line)[0] != 'O' && text::trimmed(line)[0] != 'E'),
    ensures
        meaning(line) == Meaning::Nothing,
{
    reveal_strlit("STAGE ");
    reveal_strlit("PROGRESS ");
    reveal_strlit("OK ");
    reveal_strlit("ERR ");
    let s = text::trimmed(line);
    if s.len() > 0 {
        assert(("STAGE "@)[0] == 'S' && ("PROGRESS "@)[0] == 'P' && ("OK "@)[0] == 'O' && ("ERR "@)[0]
            == 'E');
    }
}

} // verus!
