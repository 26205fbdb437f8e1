//! Progress reporting as data: the library records what it would have shown,
//! and the surrounding program renders the recorded events with whatever
//! widget it prefers. Events are recorded only for the channels the caller
//! switched on, mirroring which callbacks were registered.

use vstd::prelude::*;

verus! {

/// One thing the library reported while working.
#[derive(Debug)]
pub enum ProgressEvent {
    /// A bar of the given length began.
    Started(u64),
    /// A spinner with the given message began.
    Spinner(String),
    /// A bar or spinner advanced by the given amount.
    Update(u64),
    /// A bar or spinner finished.
    Finished,
}

/// The recorded progress of one operation.
pub struct Progress {
    pub start_enabled: bool,
    pub spinner_enabled: bool,
    pub update_enabled: bool,
    pub finish_enabled: bool,
    pub events: Vec<ProgressEvent>,
}

/// A handle for one bar or spinner; inactive when its channel was off.
pub struct ProgressBar {
    pub active: bool,
}

impl Progress {
    /// No channels on, nothing recorded.
    pub fn new() -> (r: Progress)
        ensures
            !r.start_enabled && !r.spinner_enabled && !r.update_enabled && !r.finish_enabled,
            r.events@.len() == 0,
    {
        Progress {
            start_enabled: false,
            spinner_enabled: false,
            update_enabled: false,
            finish_enabled: false,
            events: Vec::new(),
        }
    }

    /// Switches on the recording of started bars.
    pub fn with_progress_start(&mut self)
        ensures
            *final (self) == (Progress { start_enabled: true, ..*old(self) }),
    {
        self.start_enabled = true;
    }

    /// Switches on the recording of started spinners.
    pub fn with_progress_spinner(&mut self)
        ensures
            *final (self) == (Progress { spinner_enabled: true, ..*old(self) }),
    {
        self.spinner_enabled = true;
    }

    /// Switches on the recording of advances.
    pub fn with_progress_update(&mut self)
        ensures
            *final (self) == (Progress { update_enabled: true, ..*old(self) }),
    {
        self.update_enabled = true;
    }

    /// Switches on the recording of completions.
    pub fn with_progress_finish(&mut self)
        ensures
            *final (self) == (Progress { finish_enabled: true, ..*old(self) }),
    {
        self.finish_enabled = true;
    }

    /// Begins a bar of the given length.
    pub fn bar(&mut self, len: u64) -> (r: ProgressBar)
        ensures
            r.active == old(self).start_enabled,
            old(self).start_enabled ==> final (self).events@ == old(self).events@.push(
                ProgressEvent::Started(len),
            ),
            !old(self).start_enabled ==> final (self).events@ == old(self).events@,
            final (self).start_enabled == old(self).start_enabled,
            final (self).spinner_enabled == old(self).spinner_enabled,
            final (self).update_enabled == old(self).update_enabled,
            final (self).finish_enabled == old(self).finish_enabled,
    {
        if self.start_enabled {
            self.events.push(ProgressEvent::Started(len));
            ProgressBar { active: true }
        } else {
            ProgressBar { active: false }
        }
    }

    /// Begins a spinner with the given message.
    pub fn spinner(&mut self, msg: &str) -> (r: ProgressBar)
        ensures
            r.active == old(self).spinner_enabled,
            old(self).spinner_enabled ==> final (self).events@.len() == old(
                self,
            ).events@.len() + 1 && (final (self).events@.last() matches ProgressEvent::Spinner(m)
                && m@ == msg@),
            !old(self).spinner_enabled ==> final (self).events@ == old(self).events@,
            final (self).start_enabled == old(self).start_enabled,
            final (self).spinner_enabled == old(self).spinner_enabled,
            final (self).update_enabled == old(self).update_enabled,
            final (self).finish_enabled == old(self).finish_enabled,
    {
        if self.spinner_enabled {
            self.events.push(ProgressEvent::Spinner(msg.to_owned()));
            ProgressBar { active: true }
        } else {
            ProgressBar { active: false }
        }
    }

    /// Advances a bar or spinner.
    pub fn update(&mut self, bar: &ProgressBar, delta: u64)
        ensures
            bar.active && old(self).update_enabled ==> final (self).events@ == old(
                self,
            ).events@.push(ProgressEvent::Update(delta)),
            !(bar.active && old(self).update_enabled) ==> final (self).events@ == old(
                self,
            ).events@,
            final (self).start_enabled == old(self).start_enabled,
            final (self).spinner_enabled == old(self).spinner_enabled,
            final (self).update_enabled == old(self).update_enabled,
            final (self).finish_enabled == old(self).finish_enabled,
    {
        if bar.active && self.update_enabled {
            self.events.push(ProgressEvent::Update(delta));
        }
    }

    /// Finishes a bar or spinner.
    pub fn finish(&mut self, bar: &ProgressBar)
        ensures
            bar.active && old(self).finish_enabled ==> final (self).events@ == old(
                self,
            ).events@.push(ProgressEvent::Finished),
            !(bar.active && old(self).finish_enabled) ==> final (self).events@ == old(
                self,
            ).events@,
            final (self).start_enabled == old(self).start_enabled,
            final (self).spinner_enabled == old(self).spinner_enabled,
            final (self).update_enabled == old(self).update_enabled,
            final (self).finish_enabled == old(self).finish_enabled,
    {
        if bar.active && self.finish_enabled {
            self.events.push(ProgressEvent::Finished);
        }
    }

    /// Hands the recorded events out for rendering, leaving none behind.
    pub fn drain(&mut self) -> (r: Vec<ProgressEvent>)
        ensures
            r@ == old(self).events@,
            final (self).events@.len() == 0,
    {
        let mut out: Vec<ProgressEvent> = Vec::new();
        core::mem::swap(&mut out, &mut self.events);
        out
    }
}

} // verus!
