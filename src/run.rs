//! The decisions of a resize run over a directory tree, one event at a time.
//! The caller performs each action (checking the source, walking the tree,
//! decoding, resizing and writing an image) and reports what happened.
use vstd::prelude::*;
use crate::dispatch::{is_image_file, is_image_name, target_dimensions, target_size};
use crate::options::{FilterKind, ResizeConfig};

verus! {

/// Where a run stands.
#[derive(Clone, Copy, Debug, PartialEq, Eq, Structural)]
pub enum Phase {
    /// The source path has not been checked yet.
    Start,
    /// Waiting for the next entry of the walk.
    Walking,
    /// Waiting for the current image to be decoded.
    Decoding,
    /// Waiting for the current image to be resized and written back.
    Saving,
    /// The run is over; nothing more happens.
    Finished,
}

/// Why a run stopped early.
#[derive(Clone, Copy, Debug, PartialEq, Eq, Structural)]
pub enum RunError {
    /// The source path is not a directory.
    NotADirectory,
    /// The directory walk failed.
    Traversal,
    /// An image could not be decoded, resized or written.
    ImageIo,
}

/// What the caller reports.
#[derive(Debug)]
pub enum Event {
    /// Whether the source path is a directory.
    SourceChecked { is_dir: bool },
    /// The walk produced an entry: whether it is a regular file, and its name.
    Entry { is_file: bool, file_name: String },
    /// The walk has no more entries.
    WalkEnded,
    /// The current image was decoded and has these dimensions.
    Decoded { width: u32, height: u32 },
    /// The current image was resized and written back.
    Saved,
    /// The last action failed.
    Failed,
}

/// What the caller is to do next.
#[derive(Clone, Copy, Debug, PartialEq, Eq, Structural)]
pub enum Action {
    /// Begin walking the source directory and report its first entry.
    StartWalk,
    /// Report the next entry of the walk.
    NextEntry,
    /// Decode the current file and report its dimensions.
    Decode,
    /// Resize the current image to this size with this filter and write it back.
    Resize { width: u32, height: u32, filter: FilterKind },
    /// The run succeeded.
    Finish,
    /// The run failed.
    Abort { error: RunError },
}

/// Whether `event` is one that may come in phase `phase`.
pub open spec fn accepts_event(phase: Phase, event: Event) -> bool {
    match phase {
        Phase::Start => event is SourceChecked,
        Phase::Walking => event is Entry || event is WalkEnded || event is Failed,
        Phase::Decoding => event is Decoded || event is Failed,
        Phase::Saving => event is Saved || event is Failed,
        Phase::Finished => false,
    }
}

/// The next phase and action after `event` in phase `phase`.
pub open spec fn next_step(phase: Phase, config: ResizeConfig, event: Event) -> (Phase, Action) {
    match event {
        Event::SourceChecked { is_dir } => if is_dir {
            (Phase::Walking, Action::StartWalk)
        } else {
            (Phase::Finished, Action::Abort { error: RunError::NotADirectory })
        },
        Event::Entry { is_file, file_name } => if is_file && is_image_name(file_name@) {
            (Phase::Decoding, Action::Decode)
        } else {
            (Phase::Walking, Action::NextEntry)
        },
        Event::WalkEnded => (Phase::Finished, Action::Finish),
        Event::Decoded { width, height } => {
            let size = target_size(config.mode, width, height);
            (Phase::Saving, Action::Resize { width: size.0, height: size.1, filter: config.filter })
        },
        Event::Saved => (Phase::Walking, Action::NextEntry),
        Event::Failed => if phase == Phase::Walking {
            (Phase::Finished, Action::Abort { error: RunError::Traversal })
        } else {
            (Phase::Finished, Action::Abort { error: RunError::ImageIo })
        },
    }
}

/// A resize run: its configuration and where it stands.
pub struct Dispatcher {
    pub config: ResizeConfig,
    pub phase: Phase,
}

impl Dispatcher {
    /// A run that has not yet checked its source path.
    pub fn new(config: ResizeConfig) -> (r: Dispatcher)
        ensures
            r.config == config,
            r.phase == Phase::Start,
    {
        Dispatcher { config, phase: Phase::Start }
    }

    /// Whether `event` may be reported now.
    pub fn accepts(&self, event: &Event) -> (r: bool)
        ensures
            r == accepts_event(self.phase, *event),
    {
        match self.phase {
            Phase::Start => matches!(event, Event::SourceChecked { .. }),
            Phase::Walking => matches!(event, Event::Entry { .. } | Event::WalkEnded | Event::Failed),
            Phase::Decoding => matches!(event, Event::Decoded { .. } | Event::Failed),
            Phase::Saving => matches!(event, Event::Saved | Event::Failed),
            Phase::Finished => false,
        }
    }

    /// Takes one event and says what to do next. A source that is not a
    /// directory stops the run before any walk; only regular files named like
    /// images are decoded; every failure stops the run.
    pub fn step(&mut self, event: Event) -> (r: Action)
        requires
            accepts_event(old(self).phase, event),
        ensures
            final(self).config == old(self).config,
            (final(self).phase, r) == next_step(old(self).phase, old(self).config, event),
    {
        match event {
            Event::SourceChecked { is_dir } => {
                if is_dir {
                    self.phase = Phase::Walking;
                    Action::StartWalk
                } else {
                    self.phase = Phase::Finished;
                    Action::Abort { error: RunError::NotADirectory }
                }
            },
            Event::Entry { is_file, file_name } => {
                if is_file && is_image_file(file_name.as_str()) {
                    self.phase = Phase::Decoding;
                    Action::Decode
                } else {
                    self.phase = Phase::Walking;
                    Action::NextEntry
                }
            },
            Event::WalkEnded => {
                self.phase = Phase::Finished;
                Action::Finish
            },
            Event::Decoded { width, height } => {
                let size = target_dimensions(self.config.mode, width, height);
                self.phase = Phase::Saving;
                Action::Resize { width: size.0, height: size.1, filter: self.config.filter }
            },
            Event::Saved => {
                self.phase = Phase::Walking;
                Action::NextEntry
            },
            Event::Failed => {
                let error = if self.phase == Phase::Walking {
                    RunError::Traversal
                } else {
                    RunError::ImageIo
                };
                self.phase = Phase::Finished;
                Action::Abort { error }
            },
        }
    }

    /// Whether the run is over.
    pub fn is_finished(&self) -> (r: bool)
        ensures
            r == (self.phase == Phase::Finished),
    {
        self.phase == Phase::Finished
    }
}

} // verus!
