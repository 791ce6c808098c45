//! A system's frame pipeline as a state machine: the front snapshot that the
//! current epoch's handles read, the back buffer that the previous epoch's
//! handles still read, the inbox of the open frame, and the fold that turns
//! the back buffer into the next front.
//!
//! The fold itself and any waiting are the caller's: `begin_fold` refuses
//! while the previous epoch is still read (the backpressure), and the caller
//! retries once those handles are gone.
use vstd::prelude::*;

verus! {

/// A misuse of the pipeline's protocol.
#[derive(Clone, Copy, Debug, PartialEq, Eq, Structural)]
pub enum ProtocolViolation {
    /// The handle belongs to an epoch that can no longer take this call.
    StaleHandle,
    /// `publish` without a fold in progress.
    NotFolding,
    /// The system has shut down.
    Exited,
}

/// What `begin_fold` answers when it cannot start.
#[derive(Clone, Copy, Debug, PartialEq, Eq, Structural)]
pub enum FoldRefused {
    /// A fold is already running.
    Folding,
    /// Handles of the previous epoch still read the back buffer.
    Backpressure,
    /// The system has shut down.
    Exited,
}

/// What `publish` did with the folded snapshot.
#[derive(Clone, Copy, Debug, PartialEq, Eq, Structural)]
pub enum Published {
    /// The snapshot is the front of the given epoch.
    Epoch(u64),
    /// No handle was left to read it; the system shut down.
    Exited,
}

/// A handle on one epoch of a system: it reads that epoch's snapshot and
/// may send messages while its epoch is current.
#[derive(Debug)]
pub struct SystemHandle {
    epoch: u64,
}

impl SystemHandle {
    pub closed spec fn spec_epoch(&self) -> u64 {
        self.epoch
    }

    /// The epoch this handle reads.
    pub fn epoch(&self) -> (r: u64)
        ensures
            r == self.spec_epoch(),
    {
        self.epoch
    }
}

/// The abstract state of a system.
pub struct Pipeline<M, D> {
    /// The epoch of the front snapshot.
    pub epoch: u64,
    /// The snapshot of the current epoch.
    pub front: D,
    /// The snapshot of the previous epoch; `None` while a fold holds it.
    pub back: Option<D>,
    /// Messages sent on current handles since the last fold began, in order.
    pub inbox: Seq<M>,
    /// Live handles of the current epoch.
    pub readers: nat,
    /// Live handles of the previous epoch, which read the back buffer.
    pub back_readers: nat,
    /// Handles that advanced from the current epoch and wait for the next.
    pub waiting: nat,
    /// Some handle of the current epoch advanced: the epoch takes no more messages.
    pub advanced: bool,
    pub folding: bool,
    pub exited: bool,
}

impl<M, D> Pipeline<M, D> {
    pub open spec fn can_fold(self) -> bool {
        !self.folding && !self.exited && self.back_readers == 0
    }

    pub open spec fn can_send(self, epoch: u64) -> bool {
        !self.exited && epoch == self.epoch && !self.advanced
    }

    pub open spec fn send(self, epoch: u64, m: M) -> Pipeline<M, D> {
        if self.can_send(epoch) {
            Pipeline { inbox: self.inbox.push(m), ..self }
        } else {
            self
        }
    }

    pub open spec fn release(self, epoch: u64) -> Pipeline<M, D> {
        if epoch == self.epoch && self.readers > 0 {
            Pipeline { readers: (self.readers - 1) as nat, ..self }
        } else if epoch + 1 == self.epoch && self.back_readers > 0 {
            Pipeline { back_readers: (self.back_readers - 1) as nat, ..self }
        } else {
            self
        }
    }

    /// A handle of `epoch` advances.
    pub open spec fn advance(self, epoch: u64) -> Pipeline<M, D> {
        if epoch == self.epoch && self.readers > 0 {
            Pipeline {
                readers: (self.readers - 1) as nat,
                waiting: self.waiting + 1,
                advanced: true,
                ..self
            }
        } else if epoch + 1 == self.epoch && self.back_readers > 0 {
            Pipeline { back_readers: (self.back_readers - 1) as nat, readers: self.readers + 1, ..self }
        } else {
            self
        }
    }

    pub open spec fn begin_fold(self) -> Pipeline<M, D> {
        if self.can_fold() {
            Pipeline { inbox: Seq::empty(), back: None, folding: true, ..self }
        } else {
            self
        }
    }

    pub open spec fn publish(self, next: D) -> Pipeline<M, D> {
        if !self.folding {
            self
        } else if self.readers + self.waiting == 0 {
            Pipeline { back: Some(next), folding: false, exited: true, ..self }
        } else {
            Pipeline {
                epoch: (self.epoch + 1) as u64,
                front: next,
                back: Some(self.front),
                readers: self.waiting,
                back_readers: self.readers,
                waiting: 0,
                advanced: false,
                folding: false,
                ..self
            }
        }
    }

    /// The snapshot that a handle of `epoch` reads, if it can read one.
    pub open spec fn snapshot(self, epoch: u64) -> Option<D> {
        if epoch == self.epoch {
            Some(self.front)
        } else if epoch + 1 == self.epoch && self.back is Some {
            self.back
        } else {
            None
        }
    }
}

/// A system: a double-buffered snapshot, advanced one fold at a time.
pub struct System<M, D> {
    epoch: u64,
    front: D,
    back: Option<D>,
    inbox: Vec<M>,
    readers: u64,
    back_readers: u64,
    waiting: u64,
    advanced: bool,
    folding: bool,
    exited: bool,
}

impl<M, D> System<M, D> {
    pub closed spec fn view(&self) -> Pipeline<M, D> {
        Pipeline {
            epoch: self.epoch,
            front: self.front,
            back: self.back,
            inbox: self.inbox@,
            readers: self.readers as nat,
            back_readers: self.back_readers as nat,
            waiting: self.waiting as nat,
            advanced: self.advanced,
            folding: self.folding,
            exited: self.exited,
        }
    }

    /// The back buffer is held by a fold exactly while one runs, and a fold
    /// never runs while the previous epoch is read.
    pub closed spec fn wf(&self) -> bool {
        &&& self.back is None <==> self.folding
        &&& self.folding ==> self.back_readers == 0
        &&& self.exited ==> !self.folding
    }

    /// A system whose front and back buffers start as given, with one handle
    /// on epoch 0, which reads `front`.
    pub fn new(front: D, back: D) -> (r: (System<M, D>, SystemHandle))
        ensures
            r.0.wf(),
            r.0@ == (Pipeline::<M, D> {
                epoch: 0,
                front,
                back: Some(back),
                inbox: Seq::empty(),
                readers: 1,
                back_readers: 0,
                waiting: 0,
                advanced: false,
                folding: false,
                exited: false,
            }),
            r.1.spec_epoch() == 0,
            r.0@.snapshot(r.1.spec_epoch()) == Some(front),
    {
        let system = System {
            epoch: 0,
            front,
            back: Some(back),
            inbox: Vec::new(),
            readers: 1,
            back_readers: 0,
            waiting: 0,
            advanced: false,
            folding: false,
            exited: false,
        };
        (system, SystemHandle { epoch: 0 })
    }

    /// Another handle on the same epoch as `h`.
    pub fn clone_handle(&mut self, h: &SystemHandle) -> (r: Result<SystemHandle, ProtocolViolation>)
        requires
            old(self).wf(),
        ensures
            final(self).wf(),
            h.spec_epoch() == old(self)@.epoch && old(self)@.readers < u64::MAX ==> {
                &&& r is Ok && r->Ok_0.spec_epoch() == h.spec_epoch()
                &&& final(self)@ == (Pipeline { readers: old(self)@.readers + 1, ..old(self)@ })
            },
            h.spec_epoch() + 1 == old(self)@.epoch && old(self)@.back_readers > 0
                && old(self)@.back_readers < u64::MAX ==> {
                &&& r is Ok && r->Ok_0.spec_epoch() == h.spec_epoch()
                &&& final(self)@ == (Pipeline { back_readers: old(self)@.back_readers + 1, ..old(self)@ })
            },
            r is Err ==> r == Err::<SystemHandle, _>(ProtocolViolation::StaleHandle) && final(self)@ == old(self)@,
    {
        if h.epoch == self.epoch && self.readers < u64::MAX {
            self.readers = self.readers + 1;
            Ok(SystemHandle { epoch: h.epoch })
        } else if self.epoch > 0 && h.epoch == self.epoch - 1 && self.back_readers > 0
            && self.back_readers < u64::MAX {
            self.back_readers = self.back_readers + 1;
            Ok(SystemHandle { epoch: h.epoch })
        } else {
            Err(ProtocolViolation::StaleHandle)
        }
    }

    /// Sends `m` for the next fold. Only a handle of the current epoch may
    /// send, and only until some handle of that epoch advances.
    pub fn send(&mut self, h: &SystemHandle, m: M) -> (r: Result<(), ProtocolViolation>)
        requires
            old(self).wf(),
        ensures
            final(self).wf(),
            final(self)@ == old(self)@.send(h.spec_epoch(), m),
            r is Ok <==> old(self)@.can_send(h.spec_epoch()),
            old(self)@.exited ==> r == Err::<(), _>(ProtocolViolation::Exited),
            !old(self)@.exited && !old(self)@.can_send(h.spec_epoch())
                ==> r == Err::<(), _>(ProtocolViolation::StaleHandle),
    {
        if self.exited {
            Err(ProtocolViolation::Exited)
        } else if h.epoch != self.epoch || self.advanced {
            Err(ProtocolViolation::StaleHandle)
        } else {
            self.inbox.push(m);
            Ok(())
        }
    }

    /// Gives up a handle.
    pub fn drop_handle(&mut self, h: SystemHandle)
        requires
            old(self).wf(),
        ensures
            final(self).wf(),
            final(self)@ == old(self)@.release(h.spec_epoch()),
    {
        if h.epoch == self.epoch && self.readers > 0 {
            self.readers = self.readers - 1;
        } else if self.epoch > 0 && h.epoch == self.epoch - 1 && self.back_readers > 0 {
            self.back_readers = self.back_readers - 1;
        }
    }

    /// Advances a handle: one of the current epoch stops reading it and waits
    /// for the next, which `resolve` hands out once published, and from then
    /// on no handle of its epoch may send; one of the previous epoch moves
    /// straight to the current one. Returns the epoch to resolve.
    pub fn next_frame(&mut self, h: SystemHandle) -> (r: Result<u64, ProtocolViolation>)
        requires
            old(self).wf(),
        ensures
            final(self).wf(),
            (h.spec_epoch() == old(self)@.epoch && old(self)@.readers > 0 && old(self)@.waiting < u64::MAX
                && old(self)@.epoch < u64::MAX) ==> {
                &&& r == Ok::<u64, ProtocolViolation>((old(self)@.epoch + 1) as u64)
                &&& final(self)@ == old(self)@.advance(h.spec_epoch())
            },
            (h.spec_epoch() + 1 == old(self)@.epoch && old(self)@.back_readers > 0
                && old(self)@.readers < u64::MAX) ==> {
                &&& r == Ok::<u64, ProtocolViolation>(old(self)@.epoch)
                &&& final(self)@ == old(self)@.advance(h.spec_epoch())
            },
            r is Err ==> r == Err::<u64, _>(ProtocolViolation::StaleHandle) && final(self)@ == old(self)@,
    {
        if h.epoch == self.epoch && self.readers > 0 && self.waiting < u64::MAX && self.epoch < u64::MAX {
            self.readers = self.readers - 1;
            self.waiting = self.waiting + 1;
            self.advanced = true;
            Ok(self.epoch + 1)
        } else if self.epoch > 0 && h.epoch == self.epoch - 1 && self.back_readers > 0 && self.readers < u64::MAX {
            self.back_readers = self.back_readers - 1;
            self.readers = self.readers + 1;
            Ok(self.epoch)
        } else {
            Err(ProtocolViolation::StaleHandle)
        }
    }

    /// The handle for `epoch` that an advanced handle waits for, once that
    /// epoch is the current one; `None` while it is not yet published.
    pub fn resolve(&self, epoch: u64) -> (r: Option<SystemHandle>)
        ensures
            r is Some <==> epoch == self@.epoch,
            r is Some ==> r->Some_0.spec_epoch() == epoch,
    {
        if epoch == self.epoch {
            Some(SystemHandle { epoch })
        } else {
            None
        }
    }

    /// The epoch of the front snapshot.
    pub fn epoch(&self) -> (r: u64)
        ensures
            r == self@.epoch,
    {
        self.epoch
    }

    /// The system has shut down.
    pub fn exited(&self) -> (r: bool)
        ensures
            r == self@.exited,
    {
        self.exited
    }

    /// The snapshot of the current epoch.
    pub fn front(&self) -> (r: &D)
        ensures
            *r == self@.front,
    {
        &self.front
    }

    /// The snapshot that `h` reads: the front for a handle of the current
    /// epoch, the back buffer for one of the previous epoch.
    pub fn read(&self, h: &SystemHandle) -> (r: Option<&D>)
        ensures
            match self@.snapshot(h.spec_epoch()) {
                Some(d) => r is Some && *r->Some_0 == d,
                None => r is None,
            },
    {
        if h.epoch == self.epoch {
            Some(&self.front)
        } else if self.epoch > 0 && h.epoch == self.epoch - 1 {
            match &self.back {
                Some(b) => Some(b),
                None => None,
            }
        } else {
            None
        }
    }

    /// Starts a fold: hands out the back buffer and the messages sent since the
    /// last fold began, or refuses while a fold runs, after shutdown, or while
    /// the previous epoch is still read.
    pub fn begin_fold(&mut self) -> (r: Result<(D, Vec<M>), FoldRefused>)
        requires
            old(self).wf(),
        ensures
            final(self).wf(),
            final(self)@ == old(self)@.begin_fold(),
            r is Ok <==> old(self)@.can_fold(),
            r is Ok ==> r->Ok_0.0 == old(self)@.back->Some_0 && r->Ok_0.1@ == old(self)@.inbox,
            old(self)@.folding ==> r == Err::<(D, Vec<M>), _>(FoldRefused::Folding),
            !old(self)@.folding && old(self)@.exited ==> r == Err::<(D, Vec<M>), _>(FoldRefused::Exited),
            !old(self)@.folding && !old(self)@.exited && old(self)@.back_readers > 0
                ==> r == Err::<(D, Vec<M>), _>(FoldRefused::Backpressure),
    {
        if self.folding {
            return Err(FoldRefused::Folding);
        }
        if self.exited {
            return Err(FoldRefused::Exited);
        }
        if self.back_readers > 0 {
            return Err(FoldRefused::Backpressure);
        }
        let back = self.back.take().unwrap();
        let mut inbox: Vec<M> = Vec::new();
        std::mem::swap(&mut self.inbox, &mut inbox);
        self.folding = true;
        Ok((back, inbox))
    }

    /// Ends the fold with its result. Where no handle of the current epoch is
    /// live or waiting, nobody can read the result and the system shuts down;
    /// otherwise the result becomes the front of the next epoch, the old front
    /// becomes the back buffer, and the waiting handles move on to the new epoch.
    pub fn publish(&mut self, next: D) -> (r: Result<Published, ProtocolViolation>)
        requires
            old(self).wf(),
            old(self)@.epoch < u64::MAX,
        ensures
            final(self).wf(),
            final(self)@ == old(self)@.publish(next),
            !old(self)@.folding ==> r == Err::<Published, _>(ProtocolViolation::NotFolding),
            old(self)@.folding && old(self)@.readers + old(self)@.waiting == 0
                ==> r == Ok::<_, ProtocolViolation>(Published::Exited),
            old(self)@.folding && old(self)@.readers + old(self)@.waiting > 0
                ==> r == Ok::<_, ProtocolViolation>(Published::Epoch((old(self)@.epoch + 1) as u64)),
    {
        if !self.folding {
            return Err(ProtocolViolation::NotFolding);
        }
        if self.readers == 0 && self.waiting == 0 {
            self.folding = false;
            self.exited = true;
            self.back = Some(next);
            return Ok(Published::Exited);
        }
        let mut old_front = next;
        std::mem::swap(&mut self.front, &mut old_front);
        self.back = Some(old_front);
        self.epoch = self.epoch + 1;
        self.back_readers = self.readers;
        self.readers = self.waiting;
        self.waiting = 0;
        self.advanced = false;
        self.folding = false;
        Ok(Published::Epoch(self.epoch))
    }
}

/// A system whose previous epoch is still read cannot fold, and its snapshots
/// stay as they are; messages sent meanwhile are kept, in order, and the fold
/// that follows once the last reader of the previous epoch lets go receives
/// every one of them, together with the back buffer.
pub proof fn lemma_backpressure<M, D>(s: Pipeline<M, D>, m: M, e: u64)
    requires
        !s.folding,
        !s.exited,
        !s.advanced,
        s.back is Some,
        s.back_readers == 1,
        e + 1 == s.epoch,
    ensures
        !s.can_fold(),
        s.begin_fold() == s,
        !s.send(s.epoch, m).can_fold(),
        s.send(s.epoch, m).front == s.front,
        s.send(s.epoch, m).back == s.back,
        s.send(s.epoch, m).release(e).can_fold(),
        s.send(s.epoch, m).release(e).inbox == s.inbox.push(m),
        s.send(s.epoch, m).release(e).back == s.back,
{
}

/// The result of a fold is what the next epoch reads, and the snapshot it
/// replaces is what the previous epoch's handles go on reading.
pub proof fn lemma_publish_rotates<M, D>(s: Pipeline<M, D>, next: D)
    requires
        s.folding,
        s.readers + s.waiting > 0,
        s.epoch < u64::MAX,
    ensures
        s.publish(next).snapshot(s.publish(next).epoch) == Some(next),
        s.publish(next).snapshot(s.epoch) == Some(s.front),
{
}

/// A handle's snapshot stays as it is while messages are sent.
pub proof fn lemma_send_keeps_snapshots<M, D>(s: Pipeline<M, D>, e: u64, m: M, epoch: u64)
    ensures
        s.send(e, m).snapshot(epoch) == s.snapshot(epoch),
{
}

/// Once a handle's epoch has been left behind by a publish, sends on it are
/// refused and reach no inbox.
pub proof fn lemma_stale_send_rejected<M, D>(s: Pipeline<M, D>, m: M, next: D)
    requires
        s.folding,
        s.readers + s.waiting > 0,
        s.epoch < u64::MAX,
    ensures
        s.publish(next).send(s.epoch, m) == s.publish(next),
{
}

/// Once any handle of an epoch advances, every other handle of that epoch is
/// stale too: its sends are refused and reach no inbox.
pub proof fn lemma_advanced_clone_rejected<M, D>(s: Pipeline<M, D>, m: M)
    requires
        s.readers > 0,
    ensures
        s.advance(s.epoch).send(s.epoch, m) == s.advance(s.epoch),
{
}

} // verus!
