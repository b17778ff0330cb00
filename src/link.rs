//! The serial line to a dumper, and a channel over it that keeps the record
//! of every call the driver makes on the line.

use vstd::prelude::*;

verus! {

/// The serial line to a dumper, as the driver uses it.
pub trait Link {
    /// Discards whatever input is pending, sends `request`, and returns all
    /// that arrives until a read yields nothing or fails. Fails only when
    /// the request could not be sent.
    fn exchange(&mut self, request: &[u8]) -> Result<Vec<u8>, ()>;

    /// Sets the read timeout, in milliseconds.
    fn set_timeout_ms(&mut self, ms: u64);

    /// Receives a block transfer from the device into `sink`; returns the
    /// number of payload bytes.
    fn receive_transfer(&mut self, sink: &mut Vec<u8>) -> Result<usize, ()>;
}

/// What one exchange on the line brought back: the reply, or `None` when
/// the request could not be sent.
pub open spec fn reply_view(r: Result<Vec<u8>, ()>) -> Option<Seq<u8>> {
    match r {
        Ok(b) => Some(b@),
        Err(_) => None,
    }
}

/// A [`Link`] that is only reached through its own methods, each of which
/// records the call it makes: the requests sent, the replies, the timeouts
/// set, and each block transfer with the timeout in force and its outcome.
pub struct Channel<L: Link> {
    link: L,
    sent: Ghost<Seq<Seq<u8>>>,
    replies: Ghost<Seq<Option<Seq<u8>>>>,
    timeouts: Ghost<Seq<u64>>,
    transfers: Ghost<Seq<(u64, Result<usize, ()>)>>,
}

impl<L: Link> Channel<L> {
    /// The requests sent on the line, in order.
    pub closed spec fn sent(&self) -> Seq<Seq<u8>> {
        self.sent@
    }

    /// The reply to each request, in order.
    pub closed spec fn replies(&self) -> Seq<Option<Seq<u8>>> {
        self.replies@
    }

    /// The read timeouts set on the line, in order.
    pub closed spec fn timeouts(&self) -> Seq<u64> {
        self.timeouts@
    }

    /// Each block transfer: the read timeout last set before it, and its
    /// outcome.
    pub closed spec fn transfers(&self) -> Seq<(u64, Result<usize, ()>)> {
        self.transfers@
    }

    /// Takes over `link`, with nothing recorded yet.
    pub fn new(link: L) -> (r: Channel<L>)
        ensures
            r.sent() == Seq::<Seq<u8>>::empty(),
            r.replies() == Seq::<Option<Seq<u8>>>::empty(),
            r.timeouts() == Seq::<u64>::empty(),
            r.transfers() == Seq::<(u64, Result<usize, ()>)>::empty(),
    {
        Channel {
            link,
            sent: Ghost(Seq::empty()),
            replies: Ghost(Seq::empty()),
            timeouts: Ghost(Seq::empty()),
            transfers: Ghost(Seq::empty()),
        }
    }

    /// Sends `request` and collects the reply.
    pub fn exchange(&mut self, request: &[u8]) -> (r: Result<Vec<u8>, ()>)
        ensures
            final(self).sent() == old(self).sent().push(request@),
            final(self).replies() == old(self).replies().push(reply_view(r)),
            final(self).timeouts() == old(self).timeouts(),
            final(self).transfers() == old(self).transfers(),
    {
        let r = self.link.exchange(request);
        self.sent = Ghost(self.sent@.push(request@));
        self.replies = Ghost(self.replies@.push(reply_view(r)));
        r
    }

    /// Sets the read timeout.
    pub fn set_timeout_ms(&mut self, ms: u64)
        ensures
            final(self).timeouts() == old(self).timeouts().push(ms),
            final(self).sent() == old(self).sent(),
            final(self).replies() == old(self).replies(),
            final(self).transfers() == old(self).transfers(),
    {
        self.link.set_timeout_ms(ms);
        self.timeouts = Ghost(self.timeouts@.push(ms));
    }

    /// Receives a block transfer into `sink`.
    pub fn receive_transfer(&mut self, sink: &mut Vec<u8>) -> (r: Result<usize, ()>)
        requires
            old(self).timeouts().len() > 0,
        ensures
            final(self).transfers() == old(self).transfers().push((old(self).timeouts().last(), r)),
            final(self).timeouts() == old(self).timeouts(),
            final(self).sent() == old(self).sent(),
            final(self).replies() == old(self).replies(),
    {
        let r = self.link.receive_transfer(sink);
        self.transfers = Ghost(self.transfers@.push((self.timeouts@.last(), r)));
        r
    }
}

} // verus!
