//! The gossip protocol handler and its dispatcher.
//!
//! `GossipProtocolHandler::handle_event` is the whole protocol state
//! machine: on an outbound connection opening it announces the node's own
//! address with a `ShareAddr` envelope; on a `ShareAddr` message it records
//! the peer's address (if new) and replies with a `ReturnNodeAddrs`
//! envelope carrying the updated table; a received `ReturnNodeAddrs` is
//! noted and deliberately not merged back into the local table.  A payload that
//! fails to decode is reported as an error and never stops the dispatcher:
//! `dispatch_events` keeps processing the events that follow.

use vstd::prelude::*;

use crate::adapter::{Command, OutMessage};
use crate::bytes::clone_bytes;
use crate::codec::{
    decode_envelope, encode_envelope, sp_envelope, spec_enc_envelope, DecodeError, Envelope,
    MessageType,
};
use crate::table::{enc_table, table_contains, PeerAddressTable};

verus! {

/// The endpoint role of a connection, as the transport reports it.
#[derive(Clone, Copy, Debug, PartialEq, Eq, Structural)]
pub enum EndpointKind {
    /// The local node opened the connection.
    Dialer,
    /// The local node accepted the connection.
    Listener,
}

/// An event delivered by the network context.  Variants the protocol does
/// not know are carried as `Unknown` and ignored.
#[derive(Debug)]
pub enum Event {
    /// A protocol substream opened with a peer.
    CustomProtocolOpen { peer: usize, protocol: usize, version: u32 },
    /// A protocol message from a peer, possibly without a payload.
    CustomMessage { peer: usize, protocol: usize, payload: Option<Vec<u8>> },
    /// Connection bookkeeping information; informational only.
    NodeInfo { peer: usize, endpoint: EndpointKind, listen_address: Vec<u8> },
    /// Any other transport event.
    Unknown,
}

/// Static configuration of the gossip handler.
pub struct GossipConfig {
    /// Announce the node's own address when an outbound connection opens.
    /// The node announces only when it was the dialing side.
    pub announce_on_open: bool,
    /// The node's externally reachable listen address.
    pub local_addr: Vec<u8>,
}

// ---------------------------------------------------------------------------
// The protocol as a mathematical step function
// ---------------------------------------------------------------------------

/// The table after one event: only a decodable `ShareAddr` message with a
/// fresh address adds an entry (with counter zero); nothing else changes it.
pub open spec fn step_table(t: Seq<(Seq<u8>, u64)>, e: Event) -> Seq<(Seq<u8>, u64)> {
    match e {
        Event::CustomMessage { peer: _, protocol: _, payload } => match payload {
            Some(p) => match sp_envelope(p@) {
                Some(m) => if m.0 == MessageType::ShareAddr && !table_contains(t, m.1) {
                    t + seq![(m.1, 0u64)]
                } else {
                    t
                },
                None => t,
            },
            None => t,
        },
        _ => t,
    }
}

/// Whether an event carries a payload that fails to decode.
pub open spec fn step_err(e: Event) -> bool {
    match e {
        Event::CustomMessage { peer: _, protocol: _, payload } => match payload {
            Some(p) => sp_envelope(p@) is None,
            None => false,
        },
        _ => false,
    }
}

/// The payload the handler sends in response to one event, if any.
pub open spec fn step_reply(cfg: GossipConfig, t: Seq<(Seq<u8>, u64)>, e: Event) -> Option<
    Seq<u8>,
> {
    match e {
        Event::CustomProtocolOpen { peer: _, protocol: _, version: _ } => if cfg.announce_on_open {
            Some(spec_enc_envelope(MessageType::ShareAddr, cfg.local_addr@, 0))
        } else {
            None
        },
        Event::CustomMessage { peer: _, protocol: _, payload } => match payload {
            Some(p) => match sp_envelope(p@) {
                Some(m) => if m.0 == MessageType::ShareAddr {
                    Some(spec_enc_envelope(
                        MessageType::ReturnNodeAddrs,
                        enc_table(step_table(t, e)),
                        0,
                    ))
                } else {
                    None
                },
                None => None,
            },
            None => None,
        },
        _ => None,
    }
}

/// One command that sends exactly one message to all peers on protocol 0
/// with the given payload.
pub open spec fn is_single_send(cmds: Seq<Command>, payload: Seq<u8>) -> bool {
    cmds.len() == 1 && match cmds[0] {
        Command::SendMessages(ms) => ms@.len() == 1 && ms@[0].targets@.len() == 0
            && ms@[0].protocol == 0 && ms@[0].payload@ == payload,
        _ => false,
    }
}

/// A single `SendMessages` command carrying one message with the payload,
/// addressed to all peers on protocol 0, the placeholder routing the
/// protocol currently uses.
fn single_send(payload: Vec<u8>) -> (cmds: Vec<Command>)
    ensures
        is_single_send(cmds@, payload@),
{
    let msg = OutMessage { targets: Vec::new(), protocol: 0, payload };
    let mut ms: Vec<OutMessage> = Vec::new();
    ms.push(msg);
    let mut cmds: Vec<Command> = Vec::new();
    cmds.push(Command::SendMessages(ms));
    proof {
        assert(cmds@.len() == 1);
    }
    cmds
}

// ---------------------------------------------------------------------------
// The handler
// ---------------------------------------------------------------------------

/// The gossip protocol state machine.
pub struct GossipProtocolHandler {
    pub config: GossipConfig,
}

impl GossipProtocolHandler {
    pub fn new(config: GossipConfig) -> (h: Self)
        ensures
            h.config == config,
    {
        GossipProtocolHandler { config }
    }

    /// Runs the protocol on one event.
    ///
    /// On an outbound `CustomProtocolOpen` (with announcing configured) the
    /// result is exactly one `ShareAddr` envelope carrying the local
    /// address.  On a decodable `ShareAddr` message the peer's address is
    /// recorded if absent and the reply is exactly one `ReturnNodeAddrs`
    /// envelope carrying the serialized updated table.  A payload that does
    /// not decode is reported as `Err` and leaves the table untouched; the
    /// caller logs it and goes on.
    pub fn handle_event(&self, table: &mut PeerAddressTable, event: &Event) -> (r: Result<
        Vec<Command>,
        DecodeError,
    >)
        requires
            old(table).wf(),
        ensures
            final(table).wf(),
            final(table)@ == step_table(old(table)@, *event),
            r is Err <==> step_err(*event),
            match r {
                Ok(cmds) => match step_reply(self.config, old(table)@, *event) {
                    Some(p) => is_single_send(cmds@, p),
                    None => cmds@.len() == 0,
                },
                Err(e) => e == DecodeError::Malformed,
            },
    {
        match event {
            Event::CustomProtocolOpen { peer: _, protocol: _, version: _ } => {
                if self.config.announce_on_open {
                    let data = clone_bytes(self.config.local_addr.as_slice());
                    let env = Envelope { mtype: MessageType::ShareAddr, data, timestamp: 0 };
                    let payload = encode_envelope(&env);
                    Ok(single_send(payload))
                } else {
                    Ok(Vec::new())
                }
            }
            Event::CustomMessage { peer: _, protocol: _, payload } => match payload {
                Some(p) => match decode_envelope(p.as_slice()) {
                    Ok(env) => match env.mtype {
                        MessageType::ShareAddr => {
                            table.insert_if_absent(env.data);
                            let ser = table.serialize();
                            let renv = Envelope {
                                mtype: MessageType::ReturnNodeAddrs,
                                data: ser,
                                timestamp: 0,
                            };
                            let rp = encode_envelope(&renv);
                            Ok(single_send(rp))
                        }
                        MessageType::ReturnNodeAddrs => {
                            // The returned table is deliberately not merged
                            // into the local one: transitive peer discovery
                            // is left out of this protocol.
                            Ok(Vec::new())
                        }
                    },
                    Err(_) => Err(DecodeError::Malformed),
                },
                None => Ok(Vec::new()),
            },
            Event::NodeInfo { peer: _, endpoint: _, listen_address: _ } => Ok(Vec::new()),
            Event::Unknown => Ok(Vec::new()),
        }
    }
}

// ---------------------------------------------------------------------------
// The dispatcher as a fold over events
// ---------------------------------------------------------------------------

/// The table after a sequence of events, processed strictly in order.
pub open spec fn dispatch_table(t: Seq<(Seq<u8>, u64)>, events: Seq<Event>) -> Seq<
    (Seq<u8>, u64),
>
    decreases events.len(),
{
    if events.len() == 0 {
        t
    } else {
        dispatch_table(step_table(t, events[0]), events.skip(1))
    }
}

/// The payloads sent over a sequence of events, in sending order.
pub open spec fn dispatch_payloads(
    cfg: GossipConfig,
    t: Seq<(Seq<u8>, u64)>,
    events: Seq<Event>,
) -> Seq<Seq<u8>>
    decreases events.len(),
{
    if events.len() == 0 {
        Seq::empty()
    } else {
        let rest = dispatch_payloads(cfg, step_table(t, events[0]), events.skip(1));
        match step_reply(cfg, t, events[0]) {
            Some(p) => seq![p] + rest,
            None => rest,
        }
    }
}

/// How many events of a sequence carry payloads that fail to decode.
pub open spec fn dispatch_errors(events: Seq<Event>) -> nat
    decreases events.len(),
{
    if events.len() == 0 {
        0
    } else {
        (if step_err(events[0]) {
            1nat
        } else {
            0nat
        }) + dispatch_errors(events.skip(1))
    }
}

/// The payloads of all messages inside `SendMessages` commands, in order.
pub open spec fn send_payloads(cmds: Seq<Command>) -> Seq<Seq<u8>>
    decreases cmds.len(),
{
    if cmds.len() == 0 {
        Seq::empty()
    } else {
        (match cmds[0] {
            Command::SendMessages(ms) => ms@.map_values(|m: OutMessage| m.payload@),
            _ => Seq::empty(),
        }) + send_payloads(cmds.skip(1))
    }
}

/// A payload that fails to decode changes nothing and is skipped: the
/// dispatch of the events after it runs exactly as if it had not come,
/// with only the error count raised.
pub proof fn lemma_undecodable_event_is_skipped(
    cfg: GossipConfig,
    t: Seq<(Seq<u8>, u64)>,
    e: Event,
    events: Seq<Event>,
)
    requires
        step_err(e),
    ensures
        dispatch_table(t, seq![e] + events) == dispatch_table(t, events),
        dispatch_payloads(cfg, t, seq![e] + events) == dispatch_payloads(cfg, t, events),
        dispatch_errors(seq![e] + events) == 1 + dispatch_errors(events),
{
    let w = seq![e] + events;
    assert(w[0] == e);
    assert(w.skip(1) =~= events);
    assert(step_table(t, e) == t);
    assert(step_reply(cfg, t, e) is None);
}

/// Processing the same event twice in a row changes the table no more than
/// processing it once: in particular a repeated `ShareAddr` message leaves
/// a single entry for its address, with the counter of the first pass.
pub proof fn lemma_step_table_idempotent(t: Seq<(Seq<u8>, u64)>, e: Event)
    ensures
        step_table(step_table(t, e), e) == step_table(t, e),
{
    let t1 = step_table(t, e);
    match e {
        Event::CustomMessage { peer: _, protocol: _, payload } => match payload {
            Some(p) => match sp_envelope(p@) {
                Some(m) => {
                    if m.0 == MessageType::ShareAddr && !table_contains(t, m.1) {
                        assert(t1[t.len() as int].0 == m.1);
                        assert(table_contains(t1, m.1));
                    }
                }
                None => {}
            },
            None => {}
        },
        _ => {}
    }
}

/// Sent payloads distribute over command-list concatenation.
proof fn lemma_send_payloads_concat(a: Seq<Command>, b: Seq<Command>)
    ensures
        send_payloads(a + b) == send_payloads(a) + send_payloads(b),
    decreases a.len(),
{
    if a.len() == 0 {
        assert(a + b =~= b);
        assert(send_payloads(a) + send_payloads(b) =~= send_payloads(b));
    } else {
        lemma_send_payloads_concat(a.skip(1), b);
        assert((a + b)[0] == a[0]);
        assert((a + b).skip(1) =~= a.skip(1) + b);
        let h = match a[0] {
            Command::SendMessages(ms) => ms@.map_values(|m: OutMessage| m.payload@),
            _ => Seq::<Seq<u8>>::empty(),
        };
        assert(send_payloads(a + b) == h + (send_payloads(a.skip(1)) + send_payloads(b)));
        assert(h + (send_payloads(a.skip(1)) + send_payloads(b)) =~= (h + send_payloads(
            a.skip(1),
        )) + send_payloads(b));
    }
}

impl GossipProtocolHandler {
    /// Processes events one at a time to completion, in order.  A payload
    /// that fails to decode is counted and skipped — the events after it
    /// are still processed — and every sent payload is accounted for in
    /// order.
    pub fn dispatch_events(&self, table: &mut PeerAddressTable, events: &Vec<Event>) -> (r: (
        Vec<Command>,
        usize,
    ))
        requires
            old(table).wf(),
        ensures
            final(table).wf(),
            final(table)@ == dispatch_table(old(table)@, events@),
            send_payloads(r.0@) == dispatch_payloads(self.config, old(table)@, events@),
            r.1 == dispatch_errors(events@),
    {
        let mut cmds: Vec<Command> = Vec::new();
        let mut errs: usize = 0;
        let n = events.len();
        let mut i: usize = 0;
        proof {
            assert(events@.skip(0) =~= events@);
            assert(send_payloads(cmds@) =~= Seq::<Seq<u8>>::empty());
        }
        while i < n
            invariant
                n == events@.len(),
                i <= n,
                errs <= i,
                table.wf(),
                dispatch_table(old(table)@, events@) == dispatch_table(
                    table@,
                    events@.skip(i as int),
                ),
                dispatch_payloads(self.config, old(table)@, events@) == send_payloads(cmds@)
                    + dispatch_payloads(self.config, table@, events@.skip(i as int)),
                dispatch_errors(events@) == errs + dispatch_errors(events@.skip(i as int)),
            decreases n - i,
        {
            let ghost t_pre = table@;
            let ghost cmds_pre = cmds@;
            proof {
                assert(events@.skip(i as int)[0] == events@[i as int]);
                assert(events@.skip(i as int).skip(1) =~= events@.skip(i + 1));
            }
            let e = &events[i];
            match self.handle_event(table, e) {
                Ok(newc) => {
                    let ghost newv = newc@;
                    proof {
                        match step_reply(self.config, t_pre, events@[i as int]) {
                            Some(p) => {
                                assert(is_single_send(newv, p));
                                assert(newv.skip(1) =~= Seq::<Command>::empty());
                                assert(send_payloads(newv.skip(1)) =~= Seq::<Seq<u8>>::empty());
                                match newv[0] {
                                    Command::SendMessages(ms) => {
                                        assert(ms@.map_values(|m: OutMessage| m.payload@)
                                            =~= seq![p]);
                                        assert(send_payloads(newv) == ms@.map_values(
                                            |m: OutMessage| m.payload@,
                                        ) + send_payloads(newv.skip(1)));
                                        assert(seq![p] + Seq::<Seq<u8>>::empty() =~= seq![p]);
                                    }
                                    _ => {
                                        assert(false);
                                    }
                                }
                                assert(send_payloads(newv) =~= seq![p]);
                            }
                            None => {
                                assert(newv.len() == 0);
                                assert(send_payloads(newv) =~= Seq::<Seq<u8>>::empty());
                            }
                        }
                    }
                    let mut newc = newc;
                    cmds.append(&mut newc);
                    proof {
                        lemma_send_payloads_concat(cmds_pre, newv);
                        assert((send_payloads(cmds_pre) + send_payloads(newv))
                            + dispatch_payloads(self.config, table@, events@.skip(i + 1))
                            =~= send_payloads(cmds_pre) + (send_payloads(newv)
                            + dispatch_payloads(self.config, table@, events@.skip(i + 1))));
                        if send_payloads(newv).len() == 0 {
                            assert(send_payloads(newv) + dispatch_payloads(
                                self.config,
                                table@,
                                events@.skip(i + 1),
                            ) =~= dispatch_payloads(self.config, table@, events@.skip(i + 1)));
                        }
                    }
                }
                Err(_) => {
                    errs += 1;
                }
            }
            i += 1;
        }
        proof {
            assert(events@.skip(n as int).len() == 0);
            assert(dispatch_payloads(self.config, table@, events@.skip(n as int))
                =~= Seq::<Seq<u8>>::empty());
            assert(send_payloads(cmds@) + Seq::<Seq<u8>>::empty() =~= send_payloads(cmds@));
        }
        (cmds, errs)
    }
}

} // verus!
