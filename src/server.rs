//! One connection's protocol state machine: the upgrade handshake, then
//! decoding the peer's frames and echoing their data back.
//!
//! The socket and the HTTP header parser stay with the caller: it hands
//! this machine the parser's outcome and the bytes it read, and sends the
//! bytes this machine returns.
use vstd::prelude::*;
use std::collections::VecDeque;
use crate::frame::{
    decode_spec, lemma_decode_consumes, encode_spec, pack_message, parse_frame, DecodeError, Opcode,
    MAX_PAYLOAD_LEN,
};
use crate::handshake::{handshake_response, push_all, response_spec, KEY_HEADER, RESPONSE_HEAD};

verus! {

/// Where a connection stands in the protocol.
#[derive(Debug, Clone, Copy, PartialEq, Eq, Structural)]
pub enum ClientState {
    AwaitingHandshake,
    HandshakeResponse,
    Connected,
}

pub open spec fn rank(s: ClientState) -> nat {
    match s {
        ClientState::AwaitingHandshake => 0,
        ClientState::HandshakeResponse => 1,
        ClientState::Connected => 2,
    }
}

/// A connection stays where it is or moves one step forward.
pub open spec fn may_step(from: ClientState, to: ClientState) -> bool {
    to == from || rank(to) == rank(from) + 1
}

/// A sequence of steps never moves a connection back, and a connected one
/// stays connected.
pub proof fn lemma_state_monotone(s0: ClientState, s1: ClientState, s2: ClientState)
    requires
        may_step(s0, s1),
        may_step(s1, s2),
    ensures
        rank(s0) <= rank(s2),
        s0 == ClientState::Connected ==> s2 == ClientState::Connected,
        s2 == ClientState::AwaitingHandshake ==> s0 == ClientState::AwaitingHandshake,
{
}

/// The readiness a connection waits for.
#[derive(Debug, Clone, Copy, PartialEq, Eq, Structural)]
pub struct Interest {
    pub readable: bool,
    pub writable: bool,
}

/// What the caller does after handing an event to a connection.
#[derive(Debug)]
pub enum Action {
    /// Nothing to send; wait for the next event.
    Continue,
    /// Write these bytes to the socket.
    Send(Vec<u8>),
    /// Tear the connection down.
    Close,
}

/// The interest that a connection in state `s` with `queued` pending
/// messages must be registered with.
pub open spec fn interest_spec(s: ClientState, queued: nat) -> Interest {
    match s {
        ClientState::AwaitingHandshake => Interest { readable: true, writable: false },
        ClientState::HandshakeResponse => Interest { readable: false, writable: true },
        ClientState::Connected => Interest { readable: true, writable: queued > 0 },
    }
}

/// Opcodes whose payload is echoed back.
pub open spec fn is_data(op: Opcode) -> bool {
    op is Text || op is Binary
}

/// The value of the last header named `name`.
pub open spec fn header_value(hs: Seq<(Seq<char>, Seq<char>)>, name: Seq<char>) -> Option<
    Seq<char>,
>
    decreases hs.len(),
{
    if hs.len() == 0 {
        None
    } else if hs.last().0 == name {
        Some(hs.last().1)
    } else {
        header_value(hs.drop_last(), name)
    }
}

pub open spec fn headers_view(hs: Seq<(String, String)>) -> Seq<(Seq<char>, Seq<char>)> {
    hs.map_values(|h: (String, String)| (h.0@, h.1@))
}

/// The value of the last header in `headers` named `name`.
pub fn find_header(headers: &Vec<(String, String)>, name: &String) -> (r: Option<String>)
    ensures
        match r {
            Some(v) => header_value(headers_view(headers@), name@) == Some(v@),
            None => header_value(headers_view(headers@), name@) is None,
        },
{
    let ghost hv = headers_view(headers@);
    let mut i: usize = headers.len();
    assert(hv.subrange(0, i as int) =~= hv);
    while i > 0
        invariant
            i <= headers@.len(),
            hv == headers_view(headers@),
            header_value(hv, name@) == header_value(hv.subrange(0, i as int), name@),
        decreases i,
    {
        let ghost sub = hv.subrange(0, i as int);
        assert(sub.drop_last() =~= hv.subrange(0, i - 1));
        if headers[i - 1].0 == *name {
            return Some(headers[i - 1].1.clone());
        }
        i = i - 1;
    }
    None
}

/// What the buffered bytes `buf` give an echoing connection: the data
/// messages of the frames decoded in order, the bytes left for later, and
/// whether the connection must close (a Close frame, or a decode error
/// other than a short buffer).
pub open spec fn drain_frames(buf: Seq<u8>) -> (Seq<(Opcode, Seq<u8>)>, Seq<u8>, bool)
    decreases buf.len(),
    via drain_frames_decreases
{
    match decode_spec(buf) {
        Ok((f, n)) => {
            if f.opcode is Close {
                (Seq::empty(), buf.skip(n as int), true)
            } else {
                let (e, rest, close) = drain_frames(buf.skip(n as int));
                if is_data(f.opcode) {
                    (seq![(f.opcode, f.payload)] + e, rest, close)
                } else {
                    (e, rest, close)
                }
            }
        },
        Err(DecodeError::Incomplete) => (Seq::empty(), buf, false),
        Err(_) => (Seq::empty(), buf, true),
    }
}

#[via_fn]
proof fn drain_frames_decreases(buf: Seq<u8>) {
    lemma_decode_consumes(buf);
}

/// The server side of one connection.
pub struct WebSocktServer {
    state: ClientState,
    headers: Vec<(String, String)>,
    message_buffer: VecDeque<(Opcode, Vec<u8>)>,
    inbound: Vec<u8>,
}

impl WebSocktServer {
    pub closed spec fn spec_state(&self) -> ClientState {
        self.state
    }

    /// The request headers, fixed once the handshake is parsed.
    pub closed spec fn spec_headers(&self) -> Seq<(Seq<char>, Seq<char>)> {
        headers_view(self.headers@)
    }

    /// The messages waiting to be sent, oldest first.
    pub closed spec fn queue(&self) -> Seq<(Opcode, Seq<u8>)> {
        self.message_buffer@.map_values(|m: (Opcode, Vec<u8>)| (m.0, m.1@))
    }

    /// Bytes read but not yet decoded.
    pub closed spec fn pending(&self) -> Seq<u8> {
        self.inbound@
    }

    /// Nothing is queued before the connection is connected, and every
    /// queued message is a data message that fits in one frame.
    pub open spec fn wf(&self) -> bool {
        &&& self.spec_state() != ClientState::Connected ==> self.queue().len() == 0
        &&& forall|i: int|
            0 <= i < self.queue().len() ==> is_data(#[trigger] self.queue()[i].0)
                && self.queue()[i].1.len() <= MAX_PAYLOAD_LEN
    }

    /// What handing the parser's outcome does to a connection.
    pub open spec fn handshake_step(
        pre: Self,
        upgrade: bool,
        headers: Seq<(Seq<char>, Seq<char>)>,
        post: Self,
    ) -> bool {
        &&& may_step(pre.spec_state(), post.spec_state())
        &&& if pre.spec_state() == ClientState::AwaitingHandshake && upgrade {
            &&& post.spec_state() == ClientState::HandshakeResponse
            &&& post.spec_headers() == headers
            &&& post.queue() == pre.queue()
            &&& post.pending() == pre.pending()
        } else {
            post == pre
        }
    }

    /// What handing read bytes `data` does to a connection, and the action
    /// `r` it asks for.
    pub open spec fn read_step(pre: Self, data: Seq<u8>, post: Self, r: Action) -> bool {
        &&& may_step(pre.spec_state(), post.spec_state())
        &&& !(r is Send)
        &&& pre.spec_state() != ClientState::Connected ==> post == pre && r is Continue
        &&& pre.spec_state() == ClientState::Connected ==> {
            let (echo, rest, close) = drain_frames(pre.pending() + data);
            &&& post.spec_state() == ClientState::Connected
            &&& post.spec_headers() == pre.spec_headers()
            &&& post.queue() == pre.queue() + echo
            &&& post.pending() == rest
            &&& (r is Close <==> close)
        }
    }

    /// What a writable socket does to a connection, and the action `r` it
    /// asks for.
    pub open spec fn write_step(pre: Self, post: Self, r: Action) -> bool {
        &&& may_step(pre.spec_state(), post.spec_state())
        &&& post.spec_headers() == pre.spec_headers()
        &&& post.pending() == pre.pending()
        &&& match pre.spec_state() {
            ClientState::AwaitingHandshake => post == pre && r is Continue,
            ClientState::HandshakeResponse => match header_value(pre.spec_headers(), KEY_HEADER@) {
                Some(key) => {
                    &&& post.spec_state() == ClientState::Connected
                    &&& post.queue() == pre.queue()
                    &&& r matches Action::Send(b) && b@ == response_spec(RESPONSE_HEAD, key)
                },
                None => post == pre && r is Close,
            },
            ClientState::Connected => if pre.queue().len() == 0 {
                post == pre && r is Continue
            } else {
                &&& post.spec_state() == ClientState::Connected
                &&& post.queue() == pre.queue().drop_first()
                &&& r matches Action::Send(b) && b@ == encode_spec(
                    pre.queue()[0].0,
                    pre.queue()[0].1,
                    None,
                )
            },
        }
    }

    /// A connection that waits for the upgrade request.
    pub fn new() -> (r: WebSocktServer)
        ensures
            r.wf(),
            r.spec_state() == ClientState::AwaitingHandshake,
            r.spec_headers().len() == 0,
            r.queue().len() == 0,
            r.pending().len() == 0,
    {
        let r = WebSocktServer {
            state: ClientState::AwaitingHandshake,
            headers: Vec::new(),
            message_buffer: VecDeque::new(),
            inbound: Vec::new(),
        };
        assert(r.queue() =~= Seq::empty());
        r
    }

    pub fn state(&self) -> (r: ClientState)
        ensures
            r == self.spec_state(),
    {
        self.state
    }

    /// The readiness this connection must be registered with now.
    pub fn interest(&self) -> (r: Interest)
        ensures
            r == interest_spec(self.spec_state(), self.queue().len()),
    {
        match self.state {
            ClientState::AwaitingHandshake => Interest { readable: true, writable: false },
            ClientState::HandshakeResponse => Interest { readable: false, writable: true },
            ClientState::Connected => Interest {
                readable: true,
                writable: self.message_buffer.len() > 0,
            },
        }
    }

    /// Hands over the header parser's outcome. While the handshake is
    /// awaited and the parser has seen a complete upgrade request, the
    /// headers are kept and the response becomes due; otherwise nothing
    /// changes.
    pub fn handshake_parsed(&mut self, upgrade: bool, headers: Vec<(String, String)>)
        requires
            old(self).wf(),
        ensures
            final(self).wf(),
            Self::handshake_step(*old(self), upgrade, headers_view(headers@), *final(self)),
    {
        if self.state == ClientState::AwaitingHandshake && upgrade {
            self.headers = headers;
            self.state = ClientState::HandshakeResponse;
            assert(self.queue() == old(self).queue());
            assert(self.wf());
        }
    }

    /// Hands over bytes read from the socket. Before the handshake is done
    /// they are no frames and are ignored. Once connected they are buffered
    /// and every complete frame is decoded in turn: data frames are queued
    /// for echo, a Close frame or a malformed frame asks for teardown, and
    /// Ping, Pong, continuation and reserved frames are consumed without a
    /// reply.
    pub fn read(&mut self, data: &[u8]) -> (r: Action)
        requires
            old(self).wf(),
        ensures
            final(self).wf(),
            Self::read_step(*old(self), data@, *final(self), r),
    {
        if self.state != ClientState::Connected {
            return Action::Continue;
        }
        push_all(&mut self.inbound, data);
        assert(self.queue() == old(self).queue());
        let ghost all = self.inbound@;
        assert(all == old(self).pending() + data@);
        let ghost q0 = self.queue();
        loop
            invariant
                self.wf(),
                self.state == ClientState::Connected,
                old(self).spec_state() == ClientState::Connected,
                all == old(self).pending() + data@,
                q0 == old(self).queue(),
                self.spec_headers() == old(self).spec_headers(),
                ({
                    let (echo, rest, close) = drain_frames(self.inbound@);
                    let (echo0, rest0, close0) = drain_frames(all);
                    &&& self.queue() + echo == q0 + echo0
                    &&& rest == rest0
                    &&& close == close0
                }),
            decreases self.inbound@.len(),
        {
            proof {
                lemma_decode_consumes(self.inbound@);
            }
            let ghost before = self.inbound@;
            let ghost qb = self.queue();
            let ghost (echo_b, rest_b, close_b) = drain_frames(before);
            match parse_frame(self.inbound.as_slice()) {
                Err(DecodeError::Incomplete) => {
                    assert(echo_b =~= Seq::<(Opcode, Seq<u8>)>::empty());
                    assert(rest_b == before && !close_b);
                    assert(qb + echo_b =~= qb);
                    return Action::Continue;
                },
                Err(_) => {
                    assert(echo_b =~= Seq::<(Opcode, Seq<u8>)>::empty());
                    assert(qb + echo_b =~= qb);
                    return Action::Close;
                },
                Ok((f, n)) => {
                    let rest = self.inbound.split_off(n);
                    self.inbound = rest;
                    assert(self.inbound@ == before.skip(n as int));
                    let ghost (echo_a, rest_a, close_a) = drain_frames(self.inbound@);
                    match f.opcode {
                        Opcode::Close => {
                            assert(echo_b =~= Seq::<(Opcode, Seq<u8>)>::empty());
                            assert(rest_b == self.inbound@ && close_b);
                            assert(qb + echo_b =~= qb);
                            return Action::Close;
                        },
                        Opcode::Text | Opcode::Binary => {
                            self.message_buffer.push_back((f.opcode, f.payload));
                            assert(self.queue() =~= qb.push((f@.opcode, f@.payload)));
                            assert(echo_b == seq![(f@.opcode, f@.payload)] + echo_a);
                            assert(self.queue() + echo_a =~= qb + echo_b);
                        },
                        _ => {
                            assert(echo_b == echo_a);
                        },
                    }
                },
            }
        }
    }

    /// The socket is writable. A due handshake response is produced when
    /// the request carried a key, and the connection is then connected;
    /// without a key the connection is dropped before any response. Once
    /// connected, the oldest queued message is framed, unmasked.
    pub fn write(&mut self) -> (r: Action)
        requires
            old(self).wf(),
        ensures
            final(self).wf(),
            Self::write_step(*old(self), *final(self), r),
    {
        match self.state {
            ClientState::AwaitingHandshake => Action::Continue,
            ClientState::HandshakeResponse => {
                let name = KEY_HEADER.to_owned();
                match find_header(&self.headers, &name) {
                    Some(key) => {
                        let response = handshake_response(RESPONSE_HEAD, key.as_str());
                        self.state = ClientState::Connected;
                        assert(self.queue() == old(self).queue());
                        Action::Send(response)
                    },
                    None => Action::Close,
                }
            },
            ClientState::Connected => {
                let ghost q = self.queue();
                if self.message_buffer.len() == 0 {
                    return Action::Continue;
                }
                match self.message_buffer.pop_front() {
                    None => Action::Continue,
                    Some((op, msg)) => {
                        assert(self.queue() =~= q.drop_first());
                        assert(q[0] == (op, msg@));
                        assert(is_data(q[0].0));
                        match pack_message(op, msg.as_slice(), None) {
                            Ok(bytes) => Action::Send(bytes),
                            Err(_) => Action::Close,
                        }
                    },
                }
            },
        }
    }
} // impl WebSocktServer

/// No single event moves a connection back: a connected connection stays
/// connected, and bytes handed to a connection that awaits the handshake
/// change nothing.
pub proof fn lemma_no_regression(
    pre: WebSocktServer,
    post: WebSocktServer,
    upgrade: bool,
    headers: Seq<(Seq<char>, Seq<char>)>,
    data: Seq<u8>,
    r: Action,
)
    requires
        WebSocktServer::handshake_step(pre, upgrade, headers, post) || WebSocktServer::read_step(
            pre,
            data,
            post,
            r,
        ) || WebSocktServer::write_step(pre, post, r),
    ensures
        rank(pre.spec_state()) <= rank(post.spec_state()),
        pre.spec_state() == ClientState::Connected ==> post.spec_state() == ClientState::Connected,
        post.spec_state() == ClientState::AwaitingHandshake ==> pre.spec_state()
            == ClientState::AwaitingHandshake,
        WebSocktServer::read_step(pre, data, post, r) && pre.spec_state()
            == ClientState::AwaitingHandshake ==> post == pre,
{
}

} // verus!
