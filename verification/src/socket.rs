//! Decision logic of a reconnecting socket client.
//!
//! The transport itself (opening connections, transmitting frames, timers)
//! is the host's business; this model owns the two policies the client
//! enforces around it: a bounded first-in-first-out buffer of outgoing
//! messages held while the connection is down (oldest dropped on overflow),
//! and a reconnect delay that grows by a fixed step up to a cap and resets
//! to zero whenever the connection proves healthy.

use vstd::prelude::*;

verus! {

/// Most messages held while disconnected; pushing onto a full buffer drops
/// the oldest message.
pub const BUFFER_CAP: usize = 10;

/// Seconds added to the reconnect delay after each failed connection.
pub const RETRY_STEP_SECS: u64 = 15;

/// Largest reconnect delay, in seconds.
pub const RETRY_MAX_SECS: u64 = 600;

/// A buffer with `m` appended and the oldest message dropped if the cap is
/// exceeded.
pub open spec fn push_capped<M>(buf: Seq<M>, m: M) -> Seq<M> {
    if buf.len() + 1 > BUFFER_CAP {
        buf.push(m).drop_first()
    } else {
        buf.push(m)
    }
}

/// The client state of a reconnecting socket: its outgoing-message buffer
/// and its current reconnect delay.
pub struct Socket<M> {
    message_buffer: Vec<M>,
    retry_secs: u64,
}

impl<M> Socket<M> {
    /// The buffered outgoing messages, oldest first.
    pub closed spec fn buffer(&self) -> Seq<M> {
        self.message_buffer@
    }

    /// The current reconnect delay, in seconds.
    pub closed spec fn retry(&self) -> u64 {
        self.retry_secs
    }

    /// The buffer never exceeds its cap.
    pub open spec fn wf(&self) -> bool {
        self.buffer().len() <= BUFFER_CAP
    }

    /// A fresh client: nothing buffered, no delay.
    pub fn new() -> (r: Self)
        ensures
            r.wf(),
            r.buffer() == Seq::<M>::empty(),
            r.retry() == 0,
    {
        Socket { message_buffer: Vec::new(), retry_secs: 0 }
    }

    /// Number of messages awaiting transmission.
    pub fn buffered_len(&self) -> (r: usize)
        ensures
            r == self.buffer().len(),
    {
        self.message_buffer.len()
    }

    /// The current reconnect delay, in seconds.
    pub fn retry_secs(&self) -> (r: u64)
        ensures
            r == self.retry(),
    {
        self.retry_secs
    }

    /// Decide what to do with an outgoing message: hand it back for
    /// transmission while the connection is open, otherwise buffer it,
    /// dropping the oldest message if the buffer is full.
    pub fn send(&mut self, msg: M, open: bool) -> (r: Option<M>)
        requires
            old(self).wf(),
        ensures
            final(self).wf(),
            final(self).retry() == old(self).retry(),
            open ==> r == Some(msg) && final(self).buffer() == old(self).buffer(),
            !open ==> r is None && final(self).buffer() == push_capped(old(self).buffer(), msg),
    {
        if open {
            Some(msg)
        } else {
            self.buffer_message(msg);
            None
        }
    }

    /// Buffer a message whose transmission failed after all, dropping the
    /// oldest message if the buffer is full.
    pub fn buffer_message(&mut self, msg: M)
        requires
            old(self).wf(),
        ensures
            final(self).wf(),
            final(self).retry() == old(self).retry(),
            final(self).buffer() == push_capped(old(self).buffer(), msg),
    {
        self.message_buffer.push(msg);
        if self.message_buffer.len() > BUFFER_CAP {
            self.message_buffer.remove(0);
            proof {
                assert(self.message_buffer@ =~= push_capped(
                    old(self).message_buffer@,
                    msg,
                ));
            }
        }
    }

    /// The connection opened: the reconnect delay resets and every buffered
    /// message is handed back, oldest first, to be transmitted.
    pub fn on_open(&mut self) -> (r: Vec<M>)
        requires
            old(self).wf(),
        ensures
            final(self).wf(),
            final(self).retry() == 0,
            final(self).buffer() == Seq::<M>::empty(),
            r@ == old(self).buffer(),
    {
        self.retry_secs = 0;
        let mut drained: Vec<M> = Vec::new();
        core::mem::swap(&mut drained, &mut self.message_buffer);
        drained
    }

    /// A message arrived: the connection is healthy, so the reconnect delay
    /// resets.
    pub fn on_message(&mut self)
        requires
            old(self).wf(),
        ensures
            final(self).wf(),
            final(self).retry() == 0,
            final(self).buffer() == old(self).buffer(),
    {
        self.retry_secs = 0;
    }

    /// The connection closed: the reconnect delay grows by one step, up to
    /// the cap.  Returns how many seconds to wait before reconnecting.
    pub fn on_close(&mut self) -> (r: u64)
        requires
            old(self).wf(),
        ensures
            final(self).wf(),
            final(self).buffer() == old(self).buffer(),
            final(self).retry() as int == if old(self).retry() + RETRY_STEP_SECS
                <= RETRY_MAX_SECS {
                old(self).retry() + RETRY_STEP_SECS
            } else {
                RETRY_MAX_SECS as int
            },
            r == final(self).retry(),
    {
        if self.retry_secs <= RETRY_MAX_SECS - RETRY_STEP_SECS {
            self.retry_secs = self.retry_secs + RETRY_STEP_SECS;
        } else {
            self.retry_secs = RETRY_MAX_SECS;
        }
        self.retry_secs
    }
}

} // verus!
