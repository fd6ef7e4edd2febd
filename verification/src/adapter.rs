//! The per-tick service adapter.
//!
//! The network context polls a `ServiceAdapter` once per tick: commands
//! routed in by `handle_command` wait in four internal queues, and the
//! driver pops pending dials, listens and disconnects one at a time
//! (most-recently-queued first, a deliberate asymmetry) while
//! `drain_outgoing_messages` empties the whole message buffer oldest first.

use vstd::prelude::*;

verus! {

/// One outgoing protocol message: target peers, protocol id and payload.
#[derive(Debug)]
pub struct OutMessage {
    pub targets: Vec<usize>,
    pub protocol: usize,
    pub payload: Vec<u8>,
}

impl View for OutMessage {
    type V = (Seq<usize>, usize, Seq<u8>);

    open spec fn view(&self) -> (Seq<usize>, usize, Seq<u8>) {
        (self.targets@, self.protocol, self.payload@)
    }
}

/// A command from the dispatch context to the network context.
#[derive(Debug)]
pub enum Command {
    /// Open an outbound connection to the address.
    Dial(Vec<u8>),
    /// Start listening on the address.
    Listen(Vec<u8>),
    /// Close the connection with the peer id.
    Disconnect(usize),
    /// Send the given protocol messages.
    SendMessages(Vec<OutMessage>),
}

/// The single integration point the network context polls once per tick.
pub struct ServiceAdapter {
    dials: Vec<Vec<u8>>,
    listens: Vec<Vec<u8>>,
    disconnects: Vec<usize>,
    outgoing: Vec<OutMessage>,
}

impl ServiceAdapter {
    /// Pending dial addresses, oldest first.
    pub closed spec fn dials_view(self) -> Seq<Seq<u8>> {
        self.dials@.map_values(|v: Vec<u8>| v@)
    }

    /// Pending listen addresses, oldest first.
    pub closed spec fn listens_view(self) -> Seq<Seq<u8>> {
        self.listens@.map_values(|v: Vec<u8>| v@)
    }

    /// Pending disconnect requests, oldest first.
    pub closed spec fn disconnects_view(self) -> Seq<usize> {
        self.disconnects@
    }

    /// The buffered outgoing messages, oldest first.
    pub closed spec fn outgoing_view(self) -> Seq<(Seq<usize>, usize, Seq<u8>)> {
        self.outgoing@.map_values(|m: OutMessage| m@)
    }

    /// An adapter with all queues empty.
    pub fn new() -> (a: Self)
        ensures
            a.dials_view() == Seq::<Seq<u8>>::empty(),
            a.listens_view() == Seq::<Seq<u8>>::empty(),
            a.disconnects_view() == Seq::<usize>::empty(),
            a.outgoing_view() == Seq::<(Seq<usize>, usize, Seq<u8>)>::empty(),
    {
        let a = ServiceAdapter {
            dials: Vec::new(),
            listens: Vec::new(),
            disconnects: Vec::new(),
            outgoing: Vec::new(),
        };
        proof {
            assert(a.dials_view() =~= Seq::<Seq<u8>>::empty());
            assert(a.listens_view() =~= Seq::<Seq<u8>>::empty());
            assert(a.disconnects_view() =~= Seq::<usize>::empty());
            assert(a.outgoing_view() =~= Seq::<(Seq<usize>, usize, Seq<u8>)>::empty());
        }
        a
    }

    /// Routes one received command into the matching internal queue; a
    /// message batch is appended to the outgoing buffer in order.
    pub fn handle_command(&mut self, cmd: Command)
        ensures
            match cmd {
                Command::Dial(a) => final(self).dials_view() == old(self).dials_view()
                    + seq![a@] && final(self).listens_view() == old(self).listens_view()
                    && final(self).disconnects_view() == old(self).disconnects_view()
                    && final(self).outgoing_view() == old(self).outgoing_view(),
                Command::Listen(a) => final(self).listens_view() == old(self).listens_view()
                    + seq![a@] && final(self).dials_view() == old(self).dials_view()
                    && final(self).disconnects_view() == old(self).disconnects_view()
                    && final(self).outgoing_view() == old(self).outgoing_view(),
                Command::Disconnect(id) => final(self).disconnects_view() == old(self).disconnects_view() + seq![id] && final(self).dials_view() == old(self).dials_view() && final(self).listens_view() == old(self).listens_view()
                    && final(self).outgoing_view() == old(self).outgoing_view(),
                Command::SendMessages(ms) => final(self).outgoing_view() == old(self).outgoing_view() + ms@.map_values(|m: OutMessage| m@) && final(self).dials_view() == old(self).dials_view() && final(self).listens_view() == old(self).listens_view() && final(self).disconnects_view() == old(self).disconnects_view(),
            },
    {
        match cmd {
            Command::Dial(a) => {
                let ghost av = a@;
                self.dials.push(a);
                proof {
                    assert(self.dials_view() =~= old(self).dials_view() + seq![av]);
                }
            }
            Command::Listen(a) => {
                let ghost av = a@;
                self.listens.push(a);
                proof {
                    assert(self.listens_view() =~= old(self).listens_view() + seq![av]);
                }
            }
            Command::Disconnect(id) => {
                self.disconnects.push(id);
                proof {
                    assert(self.disconnects_view() =~= old(self).disconnects_view() + seq![id]);
                }
            }
            Command::SendMessages(ms) => {
                let ghost msv = ms@;
                let mut ms = ms;
                self.outgoing.append(&mut ms);
                proof {
                    assert(self.outgoing_view() =~= old(self).outgoing_view()
                        + msv.map_values(|m: OutMessage| m@));
                }
            }
        }
    }

    /// Pops the most recently queued dial address, if any.
    pub fn next_dial(&mut self) -> (r: Option<Vec<u8>>)
        ensures
            match r {
                Some(a) => old(self).dials_view().len() > 0 && a@ == old(self).dials_view().last() && final(self).dials_view() == old(self).dials_view().drop_last(),
                None => old(self).dials_view().len() == 0 && final(self).dials_view() == old(self).dials_view(),
            },
            final(self).listens_view() == old(self).listens_view(),
            final(self).disconnects_view() == old(self).disconnects_view(),
            final(self).outgoing_view() == old(self).outgoing_view(),
    {
        let r = self.dials.pop();
        proof {
            if old(self).dials@.len() > 0 {
                assert(self.dials_view() =~= old(self).dials_view().drop_last());
            }
        }
        r
    }

    /// Pops the most recently queued listen address, if any.
    pub fn next_listen(&mut self) -> (r: Option<Vec<u8>>)
        ensures
            match r {
                Some(a) => old(self).listens_view().len() > 0 && a@ == old(self).listens_view().last() && final(self).listens_view() == old(self).listens_view().drop_last(),
                None => old(self).listens_view().len() == 0 && final(self).listens_view()
                    == old(self).listens_view(),
            },
            final(self).dials_view() == old(self).dials_view(),
            final(self).disconnects_view() == old(self).disconnects_view(),
            final(self).outgoing_view() == old(self).outgoing_view(),
    {
        let r = self.listens.pop();
        proof {
            if old(self).listens@.len() > 0 {
                assert(self.listens_view() =~= old(self).listens_view().drop_last());
            }
        }
        r
    }

    /// Pops the most recently queued disconnect request, if any.
    pub fn next_disconnect(&mut self) -> (r: Option<usize>)
        ensures
            match r {
                Some(id) => old(self).disconnects_view().len() > 0 && id == old(self).disconnects_view().last() && final(self).disconnects_view() == old(self).disconnects_view().drop_last(),
                None => old(self).disconnects_view().len() == 0 && final(self).disconnects_view() == old(self).disconnects_view(),
            },
            final(self).dials_view() == old(self).dials_view(),
            final(self).listens_view() == old(self).listens_view(),
            final(self).outgoing_view() == old(self).outgoing_view(),
    {
        self.disconnects.pop()
    }

    /// Returns the whole outgoing buffer, oldest first — the exact sequence
    /// of messages queued since the last drain, in queueing order — and
    /// leaves the buffer empty.
    pub fn drain_outgoing_messages(&mut self) -> (r: Vec<OutMessage>)
        ensures
            r@.map_values(|m: OutMessage| m@) == old(self).outgoing_view(),
            final(self).outgoing_view() == Seq::<(Seq<usize>, usize, Seq<u8>)>::empty(),
            final(self).dials_view() == old(self).dials_view(),
            final(self).listens_view() == old(self).listens_view(),
            final(self).disconnects_view() == old(self).disconnects_view(),
    {
        let mut out: Vec<OutMessage> = Vec::new();
        std::mem::swap(&mut out, &mut self.outgoing);
        proof {
            assert(self.outgoing_view() =~= Seq::<(Seq<usize>, usize, Seq<u8>)>::empty());
        }
        out
    }
}

} // verus!
