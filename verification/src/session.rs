//! The lifecycle of one client's session: register on connect, then a
//! read loop in which each complete line is broadcast and either a clean
//! close (a zero-byte read) or a read error ends the session, and finally
//! an unconditional removal from the registry. The concurrent task that
//! owns the connection's read half drives this module: it performs the
//! suspending reads and writes and feeds each read's outcome in here,
//! where the decisions are made.

use vstd::prelude::*;
use crate::registry::Registry;

verus! {

/// What one suspension on "read one line" came back with.
pub enum ReadOutcome {
    /// Zero bytes were read: the peer closed cleanly.
    Closed,
    /// A complete line of text, trailing newline included.
    Line(String),
    /// The read failed.
    Failed,
}

/// What the session asks its driving task to do next.
pub enum SessionAction {
    /// Broadcast this line, tagged with the session's identifier, to
    /// every other registered client, then await the next line.
    Broadcast(String),
    /// Stop reading and tear the session down: the peer is gone.
    Stop,
}

/// One client's session: its connection identifier and whether it is
/// still in its reading loop.
pub struct Session {
    id: String,
    active: bool,
}

impl Session {
    /// The session's connection identifier.
    pub closed spec fn id(&self) -> Seq<char> {
        self.id@
    }

    /// Whether the session is still reading: it has registered and has
    /// not yet disconnected.
    pub closed spec fn active(&self) -> bool {
        self.active
    }

    /// Admits a connecting client: registers its identifier with the
    /// outbound write handle of its connection — replacing any entry that
    /// already sat under the same identifier — and starts the session in
    /// its reading state.
    pub fn register<W>(reg: &mut Registry<W>, id: String, handle: W) -> (s: Session)
        requires
            old(reg).wf(),
        ensures
            final(reg).wf(),
            final(reg)@ == old(reg)@.insert(id@, handle),
            s.id() == id@,
            s.active(),
    {
        reg.insert(id.clone(), handle);
        Session { id, active: true }
    }

    /// Decides, from one read's outcome, what the session does next: a
    /// line is handed on for broadcast unchanged and the session keeps
    /// reading; a clean close and a read error both end the session, the
    /// same way.
    pub fn on_read(&mut self, outcome: ReadOutcome) -> (a: SessionAction)
        requires
            old(self).active(),
        ensures
            final(self).id() == old(self).id(),
            match outcome {
                ReadOutcome::Line(line) => a == SessionAction::Broadcast(line)
                    && final(self).active(),
                ReadOutcome::Closed => a == SessionAction::Stop && !final(self).active(),
                ReadOutcome::Failed => a == SessionAction::Stop && !final(self).active(),
            },
    {
        match outcome {
            ReadOutcome::Line(line) => SessionAction::Broadcast(line),
            ReadOutcome::Closed => {
                self.active = false;
                SessionAction::Stop
            },
            ReadOutcome::Failed => {
                self.active = false;
                SessionAction::Stop
            },
        }
    }

    /// Ends the session: removes its identifier from the registry,
    /// unconditionally and the same way however the session ended — a
    /// no-op if the entry is already gone.
    pub fn finish<W>(self, reg: &mut Registry<W>)
        requires
            old(reg).wf(),
        ensures
            final(reg).wf(),
            final(reg)@ == old(reg)@.remove(self.id()),
            !final(reg)@.contains_key(self.id()),
    {
        reg.remove(&self.id);
    }
}

} // verus!
