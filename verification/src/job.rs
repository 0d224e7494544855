//! Making or unpacking an archive on behalf of a user: what each file on the
//! way calls for, and what is told of the progress.

use crate::report::ErrorPayload;
use crate::text;
use crate::text::{decimal, joined};
use crate::writer::WriterMode;
use vstd::prelude::*;

verus! {

/// After how many bytes of a file progress is told again.
pub const PROGRESS_CHUNK: u64 = 1024 * 1024;

/// How files are packed, by what the user asked for.
pub fn writer_mode(solid: bool, block_size: u64) -> (mode: WriterMode)
    ensures
        mode == if solid {
            WriterMode::Solid { target_bytes: block_size }
        } else {
            WriterMode::PerFile
        },
{
    if solid {
        WriterMode::Solid { target_bytes: block_size }
    } else {
        WriterMode::PerFile
    }
}

/// What a summary says of the settings beyond level and threads.
pub open spec fn note_of(long: bool, solid: bool, block_size: u64) -> Seq<char> {
    (if long {
        ", long"@
    } else {
        ""@
    }) + (if solid {
        ", solid "@ + text::decimal_text((block_size / 1048576) as nat) + "MB"@
    } else {
        ""@
    })
}

/// What a summary says of the settings beyond level and threads.
pub fn settings_note(long: bool, solid: bool, block_size: u64) -> (res: String)
    ensures
        res@ == note_of(long, solid, block_size),
{
    let mut res = String::from_str(
        if long {
            ", long"
        } else {
            ""
        },
    );
    if solid {
        let mut more = joined(", solid ", decimal(block_size / 1048576).as_str());
        more.append("MB");
        res.append(more.as_str());
    } else {
        res.append("");
    }
    res
}

/// What is to be done with something that was met on the way.
#[derive(Debug, Clone, Copy, PartialEq, Eq, Structural)]
pub enum WalkStep {
    AddDir,
    AddLink,
    AddFile,
    /// A device or a socket: left out.
    Skip,
}

/// What is to be done with something, by what it is.
pub open spec fn step_for(is_dir: bool, is_symlink: bool, is_file: bool) -> WalkStep {
    if is_dir {
        WalkStep::AddDir
    } else if is_symlink {
        WalkStep::AddLink
    } else if is_file {
        WalkStep::AddFile
    } else {
        WalkStep::Skip
    }
}

/// What is to be done with something, by what it is.
pub fn walk_step(is_dir: bool, is_symlink: bool, is_file: bool) -> (step: WalkStep)
    ensures
        step == step_for(is_dir, is_symlink, is_file),
{
    if is_dir {
        WalkStep::AddDir
    } else if is_symlink {
        WalkStep::AddLink
    } else if is_file {
        WalkStep::AddFile
    } else {
        WalkStep::Skip
    }
}

/// How many files there are, and how many bytes they have together.
#[derive(Debug, Clone, Copy, PartialEq, Eq, Structural)]
pub struct Tally {
    pub files: u64,
    pub bytes: u64,
}

impl Tally {
    /// No file.
    pub fn new() -> (t: Self)
        ensures
            t == (Tally { files: 0, bytes: 0 }),
    {
        Tally { files: 0, bytes: 0 }
    }

    /// Whether one more file of `len` bytes can be counted.
    pub open spec fn takes(self, len: u64) -> bool {
        self.files < u64::MAX && self.bytes + len <= u64::MAX
    }

    /// With one more file of `len` bytes.
    pub open spec fn with(self, len: u64) -> Tally {
        Tally { files: (self.files + 1) as u64, bytes: (self.bytes + len) as u64 }
    }

    /// Counts a file. Where that would exceed 64 bits nothing is counted, and
    /// the answer is no.
    pub fn count(&mut self, len: u64) -> (counted: bool)
        ensures
            counted == old(self).takes(len),
            *final(self) == if counted {
                old(self).with(len)
            } else {
                *old(self)
            },
    {
        if self.files < u64::MAX && len <= u64::MAX - self.bytes {
            self.files = self.files + 1;
            self.bytes = self.bytes + len;
            true
        } else {
            false
        }
    }
}

/// Says when enough of a file has been read for progress to be told.
#[derive(Debug, Clone, Copy, PartialEq, Eq, Structural)]
pub struct Ticker {
    pub bytes_so_far: u64,
    pub last_emit: u64,
    pub threshold: u64,
}

impl Ticker {
    /// Nothing read yet.
    pub fn new(threshold: u64) -> (t: Self)
        ensures
            t == (Ticker { bytes_so_far: 0, last_emit: 0, threshold }),
            t.wf(),
    {
        Ticker { bytes_so_far: 0, last_emit: 0, threshold }
    }

    /// Progress was last told of no more than what was read, and not longer
    /// ago than the threshold.
    pub open spec fn wf(self) -> bool {
        &&& self.last_emit <= self.bytes_so_far
        &&& self.bytes_so_far - self.last_emit < self.threshold || self.threshold == 0
    }

    /// Takes note of `n` more bytes. Says how many there are in all if progress
    /// is to be told now.
    pub fn advance(&mut self, n: usize) -> (told: Option<u64>)
        requires
            old(self).wf(),
            old(self).bytes_so_far + n <= u64::MAX,
        ensures
            final(self).wf(),
            final(self).bytes_so_far == old(self).bytes_so_far + n,
            final(self).threshold == old(self).threshold,
            if final(self).bytes_so_far - old(self).last_emit >= old(self).threshold {
                &&& told == Some(final(self).bytes_so_far)
                &&& final(self).last_emit == final(self).bytes_so_far
            } else {
                &&& told is None
                &&& final(self).last_emit == old(self).last_emit
            },
    {
        self.bytes_so_far = self.bytes_so_far + n as u64;
        if self.bytes_so_far - self.last_emit >= self.threshold {
            self.last_emit = self.bytes_so_far;
            Some(self.bytes_so_far)
        } else {
            None
        }
    }
}

/// How far an operation has come.
#[derive(Debug)]
pub struct Progress {
    /// `compress` or `extract`.
    pub phase: &'static str,
    pub current_bytes: u64,
    pub total_bytes: u64,
    pub current_file: Option<String>,
    pub files_done: u64,
    pub files_total: u64,
}

/// Whether `p` says that `done` is done of `total`, and names `file`.
pub open spec fn tells(
    p: Progress,
    phase: Seq<char>,
    current_bytes: int,
    file: Option<Seq<char>>,
    files_done: u64,
    total: Tally,
) -> bool {
    &&& p.phase@ == phase
    &&& p.current_bytes == current_bytes
    &&& p.total_bytes == total.bytes
    &&& p.files_done == files_done
    &&& p.files_total == total.files
    &&& match file {
        Some(name) => p.current_file matches Some(f) && f@ == name,
        None => p.current_file is None,
    }
}

/// An operation on its way: what there is to do, what is done, and how far the
/// file at hand has come.
pub struct Job {
    pub phase: &'static str,
    pub total: Tally,
    pub done: Tally,
    pub ticker: Ticker,
}

/// What a job that makes an archive comes to.
#[derive(Debug, Clone, Copy, PartialEq, Eq, Structural)]
pub struct Summary {
    pub files: u64,
    pub bytes_in: u64,
    pub bytes_out: u64,
}

impl Job {
    /// What holds of every job.
    pub open spec fn wf(self) -> bool {
        self.ticker.wf() && self.ticker.threshold == PROGRESS_CHUNK
    }

    /// A job with all of `total` to do.
    pub fn new(phase: &'static str, total: Tally) -> (job: Self)
        ensures
            job.wf(),
            job.phase == phase,
            job.total == total,
            job.done == (Tally { files: 0, bytes: 0 }),
            job.ticker.bytes_so_far == 0,
    {
        Job { phase, total, done: Tally::new(), ticker: Ticker::new(PROGRESS_CHUNK) }
    }

    /// What is told before anything is done.
    pub fn started(&self) -> (p: Progress)
        requires
            self.wf(),
        ensures
            tells(p, self.phase@, self.done.bytes as int, None, self.done.files, self.total),
    {
        Progress {
            phase: self.phase,
            current_bytes: self.done.bytes,
            total_bytes: self.total.bytes,
            current_file: None,
            files_done: self.done.files,
            files_total: self.total.files,
        }
    }

    /// Whether the job goes on with the next thing on the way: not once a cancel
    /// was asked for.
    pub fn proceed(&self, cancelled: bool) -> (res: core::result::Result<(), ErrorPayload>)
        ensures
            match res {
                Ok(_) => !cancelled,
                Err(p) => cancelled && p.is_cancelled(),
            },
    {
        if cancelled {
            Err(ErrorPayload::cancelled())
        } else {
            Ok(())
        }
    }

    /// What is to be done with the next thing on the way. A file starts from its
    /// first byte.
    pub fn next(&mut self, is_dir: bool, is_symlink: bool, is_file: bool) -> (step: WalkStep)
        requires
            old(self).wf(),
        ensures
            final(self).wf(),
            final(self).phase == old(self).phase,
            final(self).total == old(self).total,
            final(self).done == old(self).done,
            step == step_for(is_dir, is_symlink, is_file),
            final(self).ticker == (Ticker {
                bytes_so_far: 0,
                last_emit: 0,
                threshold: PROGRESS_CHUNK,
            }),
    {
        self.ticker = Ticker::new(PROGRESS_CHUNK);
        walk_step(is_dir, is_symlink, is_file)
    }

    /// Takes note of `n` more bytes of the file at hand, unless a cancel was
    /// asked for. Says what is to be told, if anything is.
    pub fn read(&mut self, cancelled: bool, path: &str, n: usize) -> (res: core::result::Result<
        Option<Progress>,
        ErrorPayload,
    >)
        requires
            old(self).wf(),
            old(self).done.bytes + old(self).ticker.bytes_so_far + n <= u64::MAX,
        ensures
            final(self).wf(),
            final(self).phase == old(self).phase,
            final(self).total == old(self).total,
            final(self).done == old(self).done,
            if cancelled {
                (res matches Err(p) && p.is_cancelled()) && *final(self) == *old(self)
            } else {
                let so_far = old(self).ticker.bytes_so_far + n;
                &&& final(self).ticker.bytes_so_far == so_far
                &&& if so_far - old(self).ticker.last_emit >= PROGRESS_CHUNK {
                    &&& (res matches Ok(Some(p)) && tells(
                        p,
                        old(self).phase@,
                        old(self).done.bytes + so_far,
                        Some(path@),
                        old(self).done.files,
                        old(self).total,
                    ))
                    &&& final(self).ticker.last_emit == so_far
                } else {
                    &&& (res matches Ok(told) && told is None)
                    &&& final(self).ticker.last_emit == old(self).ticker.last_emit
                }
            },
    {
        if cancelled {
            return Err(ErrorPayload::cancelled());
        }
        match self.ticker.advance(n) {
            Some(within_file) => Ok(
                Some(
                    Progress {
                        phase: self.phase,
                        current_bytes: self.done.bytes + within_file,
                        total_bytes: self.total.bytes,
                        current_file: Some(String::from_str(path)),
                        files_done: self.done.files,
                        files_total: self.total.files,
                    },
                ),
            ),
            None => Ok(None),
        }
    }

    /// Counts the file at hand, of `len` bytes, as done, and says what is to be
    /// told. Where the counts would exceed 64 bits there is nothing to tell,
    /// and nothing is counted.
    pub fn file_done(&mut self, path: &str, len: u64) -> (told: Option<Progress>)
        requires
            old(self).wf(),
        ensures
            final(self).wf(),
            final(self).phase == old(self).phase,
            final(self).total == old(self).total,
            final(self).ticker == old(self).ticker,
            if old(self).done.takes(len) {
                &&& final(self).done == old(self).done.with(len)
                &&& (told matches Some(p) && tells(
                    p,
                    old(self).phase@,
                    old(self).done.bytes + len,
                    Some(path@),
                    (old(self).done.files + 1) as u64,
                    old(self).total,
                ))
            } else {
                told is None && final(self).done == old(self).done
            },
    {
        if self.done.count(len) {
            Some(
                Progress {
                    phase: self.phase,
                    current_bytes: self.done.bytes,
                    total_bytes: self.total.bytes,
                    current_file: Some(String::from_str(path)),
                    files_done: self.done.files,
                    files_total: self.total.files,
                },
            )
        } else {
            None
        }
    }

    /// What the job comes to, with an archive of `bytes_out` bytes.
    pub fn summary(&self, bytes_out: u64) -> (s: Summary)
        ensures
            s == (Summary { files: self.done.files, bytes_in: self.done.bytes, bytes_out }),
    {
        Summary { files: self.done.files, bytes_in: self.done.bytes, bytes_out }
    }
}

/// Counting files one by one adds up all of them.
pub open spec fn counted(start: Tally, lens: Seq<u64>) -> Tally
    decreases lens.len(),
{
    if lens.len() == 0 {
        start
    } else {
        counted(start, lens.drop_last()).with(lens.last())
    }
}

/// Lengths added up.
pub open spec fn sum(lens: Seq<u64>) -> nat
    decreases lens.len(),
{
    if lens.len() == 0 {
        0
    } else {
        sum(lens.drop_last()) + lens.last() as nat
    }
}

/// The files that were counted, and their bytes, are exactly those there were,
/// as long as they fit into 64 bits.
pub proof fn law_counts_all(lens: Seq<u64>)
    requires
        lens.len() <= u64::MAX,
        sum(lens) <= u64::MAX,
    ensures
        counted(Tally { files: 0, bytes: 0 }, lens) == (Tally {
            files: lens.len() as u64,
            bytes: sum(lens) as u64,
        }),
    decreases lens.len(),
{
    if lens.len() > 0 {
        law_counts_all(lens.drop_last());
    }
}

/// Files share frames exactly if that was asked for, and then of the size that
/// was asked for.
pub proof fn law_packing_as_asked(block_size: u64, solid: WriterMode, plain: WriterMode)
    requires
        call_ensures(writer_mode, (true, block_size), solid),
        call_ensures(writer_mode, (false, block_size), plain),
    ensures
        solid == (WriterMode::Solid { target_bytes: block_size }),
        plain == WriterMode::PerFile,
{
}

/// A summary names long-range mode and shared frames exactly where they were
/// asked for, with the size of the frames in megabytes.
pub proof fn law_note(long: bool, solid: bool, block_size: u64, res: String, megabytes: String)
    requires
        call_ensures(settings_note, (long, solid, block_size), res),
        call_ensures(decimal, (block_size / 1048576,), megabytes),
    ensures
        !long && !solid ==> res@.len() == 0,
        long && !solid ==> res@ == ", long"@,
        !long && solid ==> res@ == ", solid "@ + megabytes@ + "MB"@,
        long && solid ==> res@ == ", long"@ + ", solid "@ + megabytes@ + "MB"@,
{
    reveal_strlit("");
    assert(""@ =~= Seq::empty());
    let tail = ", solid "@ + megabytes@ + "MB"@;
    assert(Seq::<char>::empty() + tail =~= tail);
    assert(", long"@ + Seq::empty() =~= ", long"@);
    assert(", long"@ + tail =~= ", long"@ + ", solid "@ + megabytes@ + "MB"@);
}

/// Directories, links and files are added as what they are, and nothing else is.
pub proof fn law_steps_of_a_walk(is_dir: bool, is_symlink: bool, is_file: bool, step: WalkStep)
    requires
        call_ensures(walk_step, (is_dir, is_symlink, is_file), step),
    ensures
        step == WalkStep::AddDir <==> is_dir,
        step == WalkStep::AddLink <==> is_symlink && !is_dir,
        step == WalkStep::AddFile <==> is_file && !is_symlink && !is_dir,
        step == WalkStep::Skip <==> !is_file && !is_symlink && !is_dir,
{
}

/// Counting a file adds one to the files and its length to the bytes, or nothing
/// to either where the sums do not fit.
pub proof fn law_one_file_counts_once(len: u64)
    ensures
        forall|t: &mut Tally, counted: bool| #[trigger]
            call_ensures(Tally::count, (t, len), counted) ==> {
                &&& counted ==> final(t).files == t.files + 1 && final(t).bytes == t.bytes
                    + len
                &&& !counted ==> *final(t) == *t && (t.files == u64::MAX || t.bytes
                    + len > u64::MAX)
            },
{
}

/// Progress is told exactly when as much as the threshold has come since it was
/// told last, and then of all that has come.
pub proof fn law_ticks(n: usize)
    ensures
        forall|t: &mut Ticker, told: Option<u64>| #[trigger]
            call_ensures(Ticker::advance, (t, n), told) ==> {
                let now = t.bytes_so_far + n;
                &&& final(t).bytes_so_far == now
                &&& final(t).threshold == t.threshold
                &&& told is Some <==> now - t.last_emit >= t.threshold
                &&& told is Some ==> told == Some(now as u64) && final(t).last_emit == now
                &&& told is None ==> final(t).last_emit == t.last_emit
            },
{
}

/// A job goes on exactly until a cancel is asked for.
pub proof fn law_cancel_stops(job: Job, cancelled: bool, res: core::result::Result<
    (),
    ErrorPayload,
>)
    requires
        call_ensures(Job::proceed, (&job, cancelled), res),
    ensures
        res is Ok <==> !cancelled,
        res matches Err(p) ==> p.code@ == "errCancelled"@,
{
}

/// What is told while a file is read: how far the whole job has come, all there
/// is to do, and the file. A cancel ends it and changes nothing.
pub proof fn law_progress_within_a_file(cancelled: bool, path: &str, n: usize)
    ensures
        forall|
            job: &mut Job,
            res: core::result::Result<Option<Progress>, ErrorPayload>,
        | #[trigger]
            call_ensures(Job::read, (job, cancelled, path, n), res) ==> {
                &&& final(job).total == job.total && final(job).done == job.done
                &&& cancelled <==> res is Err
                &&& cancelled ==> *final(job) == *job
                &&& !cancelled ==> final(job).ticker.bytes_so_far
                    == job.ticker.bytes_so_far + n
                &&& res matches Ok(Some(p)) ==> {
                    &&& p.current_bytes == job.done.bytes + job.ticker.bytes_so_far + n
                    &&& p.total_bytes == job.total.bytes
                    &&& p.files_done == job.done.files
                    &&& p.files_total == job.total.files
                    &&& (p.current_file matches Some(name) && name@ == path@)
                    &&& p.phase@ == job.phase@
                }
                &&& res matches Ok(told) ==> (told is Some <==> job.ticker.bytes_so_far + n
                    - job.ticker.last_emit >= PROGRESS_CHUNK)
            },
{
}

/// A file that is done counts as one file with its length, and the progress that
/// is told has it in.
pub proof fn law_progress_behind_a_file(path: &str, len: u64)
    ensures
        forall|job: &mut Job, told: Option<Progress>| #[trigger]
            call_ensures(Job::file_done, (job, path, len), told) ==> {
                &&& final(job).total == job.total
                &&& told matches Some(p) ==> {
                    &&& final(job).done.files == job.done.files + 1
                    &&& final(job).done.bytes == job.done.bytes + len
                    &&& p.current_bytes == job.done.bytes + len
                    &&& p.files_done == job.done.files + 1
                    &&& p.total_bytes == job.total.bytes
                    &&& p.files_total == job.total.files
                    &&& (p.current_file matches Some(name) && name@ == path@)
                    &&& p.phase@ == job.phase@
                }
                &&& told is None ==> final(job).done == job.done && (job.done.files
                    == u64::MAX || job.done.bytes + len > u64::MAX)
            },
{
}

/// A job starts with nothing done, tells that first, and comes to what was done.
pub proof fn law_job_from_start_to_end(
    phase: &'static str,
    total: Tally,
    job: Job,
    p: Progress,
    later: Job,
    bytes_out: u64,
    s: Summary,
)
    requires
        call_ensures(Job::new, (phase, total), job),
        call_ensures(Job::started, (&job,), p),
        call_ensures(Job::summary, (&later, bytes_out), s),
    ensures
        job.total == total && job.done.files == 0 && job.done.bytes == 0,
        job.phase@ == phase@ && p.phase@ == phase@,
        p.current_bytes == 0 && p.files_done == 0 && p.current_file is None,
        p.total_bytes == total.bytes && p.files_total == total.files,
        s.files == later.done.files,
        s.bytes_in == later.done.bytes,
        s.bytes_out == bytes_out,
{
}

/// Each thing on the way is dealt with by what it is, and a file is read from its
/// first byte; what was done so far stays.
pub proof fn law_next_thing(is_dir: bool, is_symlink: bool, is_file: bool, same: WalkStep)
    requires
        call_ensures(walk_step, (is_dir, is_symlink, is_file), same),
    ensures
        forall|job: &mut Job, step: WalkStep| #[trigger]
            call_ensures(Job::next, (job, is_dir, is_symlink, is_file), step) ==> {
                &&& step == same
                &&& final(job).done == job.done && final(job).total == job.total
                &&& final(job).phase == job.phase
                &&& final(job).ticker.bytes_so_far == 0 && final(job).ticker.last_emit == 0
                &&& final(job).ticker.threshold == 1048576
            },
{
}

/// A tally starts with nothing, and a ticker with nothing told.
pub proof fn law_fresh_counts(t: Tally, threshold: u64, ticker: Ticker)
    requires
        call_ensures(Tally::new, (), t),
        call_ensures(Ticker::new, (threshold,), ticker),
    ensures
        t.files == 0 && t.bytes == 0,
        ticker.bytes_so_far == 0 && ticker.last_emit == 0 && ticker.threshold == threshold,
        PROGRESS_CHUNK == 1048576,
{
}

} // verus!
