//! The connection registry: tokens handed out on accept, and each event
//! routed to the connection its token names.
use vstd::prelude::*;
use std::collections::HashMap;
use crate::server::{Action, ClientState, Interest, WebSocktServer};

verus! {

broadcast use vstd::std_specs::hash::group_hash_axioms;

/// The token under which the listening socket is registered.
pub const SERVER_TOKEN: usize = 0;

/// All open connections, each under the token it was accepted with.
pub struct WebSocktHandler {
    clients: HashMap<usize, WebSocktServer>,
    token_counter: usize,
}

impl WebSocktHandler {
    /// The registered connections by token.
    pub closed spec fn spec_clients(&self) -> Map<usize, WebSocktServer> {
        self.clients@
    }

    /// The last token handed out.
    pub closed spec fn last_token(&self) -> usize {
        self.token_counter
    }

    /// Every registered token was handed out, none is the listener's, and
    /// every connection is well formed.
    pub open spec fn wf(&self) -> bool {
        &&& self.last_token() >= 1
        &&& forall|t: usize|
            #[trigger] self.spec_clients().contains_key(t) ==> SERVER_TOKEN < t
                <= self.last_token() && self.spec_clients()[t].wf()
    }

    /// An empty registry.
    pub fn new() -> (r: WebSocktHandler)
        ensures
            r.wf(),
            r.spec_clients() == Map::<usize, WebSocktServer>::empty(),
            r.last_token() == 1,
    {
        WebSocktHandler { clients: HashMap::new(), token_counter: 1 }
    }

    /// Registers a newly accepted connection under a token that no
    /// connection has held, and returns the token; `None` once the tokens
    /// are used up.
    pub fn accept(&mut self) -> (r: Option<usize>)
        requires
            old(self).wf(),
        ensures
            final(self).wf(),
            match r {
                Some(t) => {
                    &&& t != SERVER_TOKEN
                    &&& t == old(self).last_token() + 1
                    &&& final(self).last_token() == t
                    &&& !old(self).spec_clients().contains_key(t)
                    &&& final(self).spec_clients().remove(t) == old(self).spec_clients()
                    &&& final(self).spec_clients().contains_key(t)
                    &&& final(self).spec_clients()[t].spec_state()
                        == ClientState::AwaitingHandshake
                    &&& final(self).spec_clients()[t].queue().len() == 0
                    &&& final(self).spec_clients()[t].pending().len() == 0
                },
                None => old(self).last_token() == usize::MAX && *final(self) == *old(self),
            },
    {
        if self.token_counter == usize::MAX {
            return None;
        }
        self.token_counter = self.token_counter + 1;
        let t = self.token_counter;
        self.clients.insert(t, WebSocktServer::new());
        assert(self.spec_clients().remove(t) =~= old(self).spec_clients());
        Some(t)
    }

    /// Forgets the connection under `token`.
    pub fn remove(&mut self, token: usize)
        requires
            old(self).wf(),
        ensures
            final(self).wf(),
            final(self).spec_clients() == old(self).spec_clients().remove(token),
            final(self).last_token() == old(self).last_token(),
    {
        self.clients.remove(&token);
        assert forall|t: usize| #[trigger] self.spec_clients().contains_key(t) implies old(
            self,
        ).spec_clients().contains_key(t) && self.spec_clients()[t] == old(self).spec_clients()[t] by {
        }
    }

    /// The state of the connection under `token`.
    pub fn state(&self, token: usize) -> (r: Option<ClientState>)
        ensures
            match r {
                Some(s) => self.spec_clients().contains_key(token)
                    && s == self.spec_clients()[token].spec_state(),
                None => !self.spec_clients().contains_key(token),
            },
    {
        match self.clients.get(&token) {
            Some(c) => Some(c.state()),
            None => None,
        }
    }

    /// The readiness to re-register the connection under `token` with.
    pub fn interest(&self, token: usize) -> (r: Option<Interest>)
        ensures
            match r {
                Some(i) => self.spec_clients().contains_key(token) && i == crate::server::interest_spec(
                    self.spec_clients()[token].spec_state(),
                    self.spec_clients()[token].queue().len(),
                ),
                None => !self.spec_clients().contains_key(token),
            },
    {
        match self.clients.get(&token) {
            Some(c) => Some(c.interest()),
            None => None,
        }
    }

    /// Hands the header parser's outcome to the connection under `token`.
    pub fn handshake_parsed(
        &mut self,
        token: usize,
        upgrade: bool,
        headers: Vec<(String, String)>,
    ) -> (found: bool)
        requires
            old(self).wf(),
        ensures
            final(self).wf(),
            final(self).last_token() == old(self).last_token(),
            found == old(self).spec_clients().contains_key(token),
            found ==> final(self).spec_clients().dom() == old(self).spec_clients().dom()
                && final(self).spec_clients().remove(token) == old(self).spec_clients().remove(
                token,
            ) && WebSocktServer::handshake_step(
                old(self).spec_clients()[token],
                upgrade,
                crate::server::headers_view(headers@),
                final(self).spec_clients()[token],
            ),
            !found ==> *final(self) == *old(self),
    {
        if !self.clients.contains_key(&token) {
            return false;
        }
        match self.clients.remove(&token) {
            Some(mut c) => {
                assert(old(self).spec_clients().contains_key(token));
                c.handshake_parsed(upgrade, headers);
                self.clients.insert(token, c);
                assert(self.spec_clients().remove(token) =~= old(self).spec_clients().remove(token));
                assert(self.spec_clients().dom() =~= old(self).spec_clients().dom());
                assert forall|t: usize| #[trigger] self.spec_clients().contains_key(t) implies t
                    != token ==> self.spec_clients()[t] == old(self).spec_clients()[t] by {
                    assert(self.spec_clients().remove(token).contains_key(t) || t == token);
                }
                true
            },
            None => false,
        }
    }

    /// After connection `c` under `token` asked for `a`: gone from the
    /// registry when `a` is `Close`, back under its token otherwise.
    pub open spec fn settled(pre: Self, post: Self, token: usize, c: WebSocktServer, a: Action) -> bool {
        &&& a is Close ==> post.spec_clients() == pre.spec_clients().remove(token)
        &&& !(a is Close) ==> post.spec_clients() == pre.spec_clients().insert(token, c)
    }

    /// Puts a connection back under `token`, or drops it when it asked to
    /// be torn down.
    fn settle(&mut self, token: usize, c: WebSocktServer, a: &Action)
        requires
            old(self).wf(),
            !old(self).spec_clients().contains_key(token),
            SERVER_TOKEN < token <= old(self).last_token(),
            c.wf(),
        ensures
            final(self).wf(),
            final(self).last_token() == old(self).last_token(),
            a is Close ==> final(self).spec_clients() == old(self).spec_clients(),
            !(a is Close) ==> final(self).spec_clients() == old(self).spec_clients().insert(
                token,
                c,
            ),
    {
        match a {
            Action::Close => {},
            _ => {
                self.clients.insert(token, c);
            },
        }
    }

    /// Hands bytes read from the socket to the connection under `token`.
    /// A connection that asks to be torn down leaves the registry.
    pub fn read(&mut self, token: usize, data: &[u8]) -> (r: Option<Action>)
        requires
            old(self).wf(),
        ensures
            final(self).wf(),
            final(self).last_token() == old(self).last_token(),
            match r {
                None => !old(self).spec_clients().contains_key(token) && *final(self)
                    == *old(self),
                Some(a) => {
                    &&& old(self).spec_clients().contains_key(token)
                    &&& exists|c: WebSocktServer|
                        #[trigger] WebSocktServer::read_step(
                            old(self).spec_clients()[token],
                            data@, c, a,
                        ) && Self::settled(*old(self), *final(self), token, c, a)
                },
            },
    {
        if !self.clients.contains_key(&token) {
            return None;
        }
        match self.clients.remove(&token) {
            Some(mut c) => {
                assert(old(self).spec_clients().contains_key(token));
                let a = c.read(data);
                self.settle(token, c, &a);
                proof {
                    if !(a is Close) {
                        assert(old(self).spec_clients().insert(token, c) =~= self.spec_clients());
                    } else {
                        assert(old(self).spec_clients().remove(token) =~= self.spec_clients());
                    }
                    assert(WebSocktServer::read_step(old(self).spec_clients()[token], data@, c, a));
                }
                Some(a)
            },
            None => None,
        }
    }

    /// Tells the connection under `token` that its socket is writable.
    /// A connection that asks to be torn down leaves the registry.
    pub fn write(&mut self, token: usize) -> (r: Option<Action>)
        requires
            old(self).wf(),
        ensures
            final(self).wf(),
            final(self).last_token() == old(self).last_token(),
            match r {
                None => !old(self).spec_clients().contains_key(token) && *final(self)
                    == *old(self),
                Some(a) => {
                    &&& old(self).spec_clients().contains_key(token)
                    &&& exists|c: WebSocktServer|
                        #[trigger] WebSocktServer::write_step(
                            old(self).spec_clients()[token],
                            c, a,
                        ) && Self::settled(*old(self), *final(self), token, c, a)
                },
            },
    {
        if !self.clients.contains_key(&token) {
            return None;
        }
        match self.clients.remove(&token) {
            Some(mut c) => {
                assert(old(self).spec_clients().contains_key(token));
                let a = c.write();
                self.settle(token, c, &a);
                proof {
                    if !(a is Close) {
                        assert(old(self).spec_clients().insert(token, c) =~= self.spec_clients());
                    } else {
                        assert(old(self).spec_clients().remove(token) =~= self.spec_clients());
                    }
                    assert(WebSocktServer::write_step(old(self).spec_clients()[token], c, a));
                }
                Some(a)
            },
            None => None,
        }
    }
}

} // verus!
