//! State of a front end that runs one encode or decode at a time and shows
//! its progress.

use crate::profile::{profile_params, Profile};
use crate::raster::RasterParams;
use crate::ui::{HelpTopic, Tab};
use std::path::PathBuf;
use std::sync::mpsc::Receiver;
use std::time::Instant;
use vstd::prelude::*;

verus! {

/// `std::path::PathBuf`, carried through as it is.
#[verifier::external_type_specification]
#[verifier::external_body]
pub struct ExPathBuf(PathBuf);

/// `std::time::Instant`, carried through as it is.
#[verifier::external_type_specification]
#[verifier::external_body]
pub struct ExInstant(Instant);

/// `std::sync::mpsc::Receiver`, carried through as it is.
#[verifier::external_type_specification]
#[verifier::external_body]
#[verifier::reject_recursive_types(T)]
pub struct ExReceiver<T>(Receiver<T>);

/// What a running encode or decode reports. Reports are advisory: a sender
/// never waits for a receiver.
#[derive(Clone, Debug)]
pub enum ProgressMsg {
    /// `done` of `total` units of the stage `name` are done.
    Stage { name: String, done: u64, total: u64 },
    /// The work has ended well.
    Done,
    /// The work has ended with this error.
    Error(String),
}

/// What an encode is to do.
#[derive(Clone, Debug)]
pub struct EncodeJob {
    pub input: Option<PathBuf>,
    pub out_frames: Option<PathBuf>,
    pub out_mkv: Option<PathBuf>,
    pub fps: u32,
    pub profile: Profile,
    pub ffmpeg_path: Option<PathBuf>,
    pub rp: RasterParams,
}

/// An encode job as it starts out: no paths chosen yet, 24 frames per
/// second, the archive profile.
pub open spec fn fresh_encode_job(job: EncodeJob) -> bool {
    &&& job.input is None
    &&& job.out_frames is None
    &&& job.out_mkv is None
    &&& job.fps == 24
    &&& job.profile == Profile::Archive
    &&& job.ffmpeg_path is None
    &&& job.rp == profile_params(Profile::Archive)
}

impl Default for EncodeJob {
    fn default() -> (job: EncodeJob)
        ensures
            fresh_encode_job(job),
    {
        let profile = Profile::Archive;
        let (rp, _fec) = profile.defaults();
        EncodeJob {
            input: None,
            out_frames: None,
            out_mkv: None,
            fps: 24,
            profile,
            ffmpeg_path: None,
            rp,
        }
    }
}

/// What a decode is to do.
#[derive(Clone, Debug)]
pub struct DecodeJob {
    pub input_frames: Option<PathBuf>,
    pub input_mkv: Option<PathBuf>,
    pub out_tar: Option<PathBuf>,
    pub profile: Profile,
    pub ffmpeg_path: Option<PathBuf>,
    pub rp: RasterParams,
}

/// A decode job as it starts out: no paths chosen yet, the archive profile.
pub open spec fn fresh_decode_job(job: DecodeJob) -> bool {
    &&& job.input_frames is None
    &&& job.input_mkv is None
    &&& job.out_tar is None
    &&& job.profile == Profile::Archive
    &&& job.ffmpeg_path is None
    &&& job.rp == profile_params(Profile::Archive)
}

impl Default for DecodeJob {
    fn default() -> (job: DecodeJob)
        ensures
            fresh_decode_job(job),
    {
        let profile = Profile::Archive;
        let (rp, _fec) = profile.defaults();
        DecodeJob {
            input_frames: None,
            input_mkv: None,
            out_tar: None,
            profile,
            ffmpeg_path: None,
            rp,
        }
    }
}

/// How far the running work has come.
#[derive(Debug)]
pub struct Progress {
    pub stage: String,
    pub done: u64,
    pub total: u64,
    pub started_at: Instant,
}

impl Progress {
    /// Units of work that are left, if an estimate of the time they take can
    /// be made: some work must be done and some must have been asked for.
    pub fn remaining(&self) -> (left: Option<u64>)
        ensures
            left == if self.done == 0 || self.total == 0 {
                None
            } else if self.total >= self.done {
                Some((self.total - self.done) as u64)
            } else {
                Some(0u64)
            },
    {
        if self.done == 0 || self.total == 0 {
            return None;
        }
        Some(self.total.saturating_sub(self.done))
    }
}

/// Everything a front end shows.
pub struct AppState {
    pub tab: Tab,
    pub encode: EncodeJob,
    pub decode: DecodeJob,
    pub log: String,
    pub show_help: Option<HelpTopic>,
    pub is_running: bool,
    pub progress: Option<Progress>,
    pub progress_rx: Option<Receiver<ProgressMsg>>,
}

impl Default for AppState {
    /// The encode tab, fresh jobs, nothing running, an empty log.
    fn default() -> (state: AppState)
        ensures
            state.tab == Tab::Encode,
            fresh_encode_job(state.encode),
            fresh_decode_job(state.decode),
            state.log@ == Seq::<char>::empty(),
            state.show_help is None,
            !state.is_running,
            state.progress is None,
            state.progress_rx is None,
    {
        AppState {
            tab: Tab::Encode,
            encode: EncodeJob::default(),
            decode: DecodeJob::default(),
            log: String::new(),
            show_help: None,
            is_running: false,
            progress: None,
            progress_rx: None,
        }
    }
}

impl AppState {
    /// Takes over what a report says. A stage updates the progress shown, or
    /// starts it at `now`; the end of the work clears the progress and lets go
    /// of the channel; an error is logged before that.
    pub fn on_progress(&mut self, msg: ProgressMsg, now: Instant)
        ensures
            final(self).tab == old(self).tab,
            final(self).encode == old(self).encode,
            final(self).decode == old(self).decode,
            final(self).show_help == old(self).show_help,
            match msg {
                ProgressMsg::Stage { name, done, total } => {
                    &&& final(self).is_running == old(self).is_running
                    &&& final(self).progress_rx == old(self).progress_rx
                    &&& final(self).log@ == old(self).log@
                    &&& final(self).progress is Some
                    &&& final(self).progress->Some_0.stage == name
                    &&& final(self).progress->Some_0.done == done
                    &&& final(self).progress->Some_0.total == total
                    &&& final(self).progress->Some_0.started_at == if old(self).progress is Some {
                        old(self).progress->Some_0.started_at
                    } else {
                        now
                    }
                },
                ProgressMsg::Done => {
                    &&& !final(self).is_running
                    &&& final(self).log@ == old(self).log@
                    &&& final(self).progress is None
                    &&& final(self).progress_rx is None
                },
                ProgressMsg::Error(e) => {
                    &&& !final(self).is_running
                    &&& final(self).log@ == old(self).log@ + "Error: "@ + e@ + "\n"@
                    &&& final(self).progress is None
                    &&& final(self).progress_rx is None
                },
            },
    {
        match msg {
            ProgressMsg::Stage { name, done, total } => {
                let started_at = match &self.progress {
                    Some(prog) => prog.started_at,
                    None => now,
                };
                self.progress = Some(Progress { stage: name, done, total, started_at });
            },
            ProgressMsg::Done => {
                self.is_running = false;
                self.progress = None;
                self.progress_rx = None;
            },
            ProgressMsg::Error(e) => {
                self.log.push_str("Error: ");
                self.log.push_str(e.as_str());
                self.log.push_str("\n");
                self.is_running = false;
                self.progress = None;
                self.progress_rx = None;
            },
        }
    }
}

} // verus!
