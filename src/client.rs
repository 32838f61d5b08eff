//! A connection that answers the upgrade handshake and then only listens:
//! it hands each decoded frame to its caller and sends nothing back.
use vstd::prelude::*;
use crate::frame::{decode_spec, lemma_decode_consumes, parse_frame, DecodeError, Frame};
use crate::handshake::push_all;
use crate::handshake::{handshake_response, response_spec, RESPONSE_HEAD, KEY_HEADER};
use crate::server::{
    find_header, header_value, headers_view, may_step, Action, ClientState, Interest,
};

verus! {

pub struct WebSocketClient {
    state: ClientState,
    headers: Vec<(String, String)>,
    inbound: Vec<u8>,
}

impl WebSocketClient {
    pub closed spec fn spec_state(&self) -> ClientState {
        self.state
    }

    /// The request headers, fixed once the handshake is parsed.
    pub closed spec fn spec_headers(&self) -> Seq<(Seq<char>, Seq<char>)> {
        headers_view(self.headers@)
    }

    /// Bytes read but not yet decoded.
    pub closed spec fn pending(&self) -> Seq<u8> {
        self.inbound@
    }

    /// A connection that waits for the upgrade request.
    pub fn new() -> (r: WebSocketClient)
        ensures
            r.spec_state() == ClientState::AwaitingHandshake,
            r.spec_headers().len() == 0,
            r.pending().len() == 0,
    {
        WebSocketClient {
            state: ClientState::AwaitingHandshake,
            headers: Vec::new(),
            inbound: Vec::new(),
        }
    }

    pub fn state(&self) -> (r: ClientState)
        ensures
            r == self.spec_state(),
    {
        self.state
    }

    /// The readiness this connection must be registered with now: writable
    /// while the response is due, readable otherwise.
    pub fn interest(&self) -> (r: Interest)
        ensures
            r.writable == (self.spec_state() == ClientState::HandshakeResponse),
            r.readable == !r.writable,
    {
        let writable = self.state == ClientState::HandshakeResponse;
        Interest { readable: !writable, writable }
    }

    /// Hands over the header parser's outcome; see
    /// `WebSocktServer::handshake_parsed`.
    pub fn handshake_parsed(&mut self, upgrade: bool, headers: Vec<(String, String)>)
        ensures
            may_step(old(self).spec_state(), final(self).spec_state()),
            if old(self).spec_state() == ClientState::AwaitingHandshake && upgrade {
                &&& final(self).spec_state() == ClientState::HandshakeResponse
                &&& final(self).spec_headers() == headers_view(headers@)
                &&& final(self).pending() == old(self).pending()
            } else {
                *final(self) == *old(self)
            },
    {
        if self.state == ClientState::AwaitingHandshake && upgrade {
            self.headers = headers;
            self.state = ClientState::HandshakeResponse;
        }
    }

    /// Hands over bytes read from the socket. Before the connection is
    /// connected they are no frames and are ignored (`Ok(None)`). Once
    /// connected they are buffered and the first complete frame is taken
    /// off the buffer and returned; a short buffer is kept for the next
    /// read (`Ok(None)`), and any other decode error is returned, asking for
    /// teardown. Calling again with no bytes yields the next buffered frame.
    pub fn read(&mut self, data: &[u8]) -> (r: Result<Option<Frame>, DecodeError>)
        ensures
            final(self).spec_state() == old(self).spec_state(),
            final(self).spec_headers() == old(self).spec_headers(),
            old(self).spec_state() != ClientState::Connected ==> *final(self) == *old(self)
                && r == Ok::<Option<Frame>, DecodeError>(None),
            old(self).spec_state() == ClientState::Connected ==> {
                let buf = old(self).pending() + data@;
                match decode_spec(buf) {
                    Ok((fv, n)) => {
                        &&& r matches Ok(Some(f)) && f@ == fv
                        &&& final(self).pending() == buf.skip(n as int)
                    },
                    Err(DecodeError::Incomplete) => {
                        &&& r == Ok::<Option<Frame>, DecodeError>(None)
                        &&& final(self).pending() == buf
                    },
                    Err(e) => r == Err::<Option<Frame>, DecodeError>(e),
                }
            },
    {
        if self.state != ClientState::Connected {
            return Ok(None);
        }
        push_all(&mut self.inbound, data);
        proof {
            lemma_decode_consumes(self.inbound@);
        }
        match parse_frame(self.inbound.as_slice()) {
            Ok((f, n)) => {
                let rest = self.inbound.split_off(n);
                self.inbound = rest;
                Ok(Some(f))
            },
            Err(DecodeError::Incomplete) => Ok(None),
            Err(e) => Err(e),
        }
    }

    /// The socket is writable. A due handshake response is produced when
    /// the request carried a key, and the connection is then connected;
    /// without a key the connection is dropped. In any other state there is
    /// nothing to write.
    pub fn write(&mut self) -> (r: Action)
        ensures
            may_step(old(self).spec_state(), final(self).spec_state()),
            final(self).spec_headers() == old(self).spec_headers(),
            final(self).pending() == old(self).pending(),
            old(self).spec_state() != ClientState::HandshakeResponse ==> *final(self) == *old(
                self,
            ) && r is Continue,
            old(self).spec_state() == ClientState::HandshakeResponse ==> match header_value(
                old(self).spec_headers(),
                KEY_HEADER@,
            ) {
                Some(key) => {
                    &&& final(self).spec_state() == ClientState::Connected
                    &&& r matches Action::Send(b) && b@ == response_spec(RESPONSE_HEAD, key)
                },
                None => *final(self) == *old(self) && r is Close,
            },
    {
        if self.state != ClientState::HandshakeResponse {
            return Action::Continue;
        }
        let name = KEY_HEADER.to_owned();
        match find_header(&self.headers, &name) {
            Some(key) => {
                let response = handshake_response(RESPONSE_HEAD, key.as_str());
                self.state = ClientState::Connected;
                Action::Send(response)
            },
            None => Action::Close,
        }
    }
}

} // verus!
