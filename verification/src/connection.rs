//! Connection bookkeeping: which connection ids are valid, which are
//! authenticated (and since when), and which are to be dropped.
use vstd::prelude::*;
use crate::consts::connection as limits;
use crate::consts::html;
use crate::hash::{auth_token, auth_token_chars, secret_digest, secret_digest_chars};
use crate::htmlhandle::{
    after_action, http_action, page_for, with_html_path, HtmlGetAction, Request, RequestType,
    RequestView,
};
use crate::jsonhandler::{json_map, map_from_json};
use crate::text::{any_alphanumeric, spec_is_alphanumeric, trim_char, trim_char_chars, chars_eq, chars_of, is_prefix, slice_chars, split_chars, split_on, starts_with, string_from, views};

verus! {

/// What a client sends to log in.
#[derive(Clone, Debug)]
pub struct Credentials {
    pub conn_id: String,
    pub hashid_sec: String,
    pub hashpw_sec: String,
}

/// The contents of `Credentials`.
pub struct CredentialsView {
    pub conn_id: Seq<char>,
    pub hashid_sec: Seq<char>,
    pub hashpw_sec: Seq<char>,
}

impl View for Credentials {
    type V = CredentialsView;

    open spec fn view(&self) -> CredentialsView {
        CredentialsView {
            conn_id: self.conn_id@,
            hashid_sec: self.hashid_sec@,
            hashpw_sec: self.hashpw_sec@,
        }
    }
}

impl Credentials {
    /// A copy of these credentials.
    pub fn copy(&self) -> (r: Credentials)
        ensures
            r@ == self@,
    {
        Credentials {
            conn_id: self.conn_id.clone(),
            hashid_sec: self.hashid_sec.clone(),
            hashpw_sec: self.hashpw_sec.clone(),
        }
    }
}


/// Tracks the connection ids that the server knows of.
///
/// Times are readings of a monotonic clock in nanoseconds.
pub struct ConnectionHandler {
    pub validIDs: Vec<String>,
    pub authIDs: Vec<(String, u64)>,
    pub IDs_toremove: Vec<String>,
}

/// The contents of a `ConnectionHandler`: valid ids; authenticated ids with
/// the time of their authentication; ids to drop.
pub struct ConnectionState {
    pub valid: Seq<Seq<char>>,
    pub auth: Seq<(Seq<char>, u64)>,
    pub to_remove: Seq<Seq<char>>,
}

/// The texts of a list of strings.
pub open spec fn id_views(v: Seq<String>) -> Seq<Seq<char>> {
    v.map_values(|s: String| s@)
}

/// The authenticated ids with their times.
pub open spec fn auth_views(v: Seq<(String, u64)>) -> Seq<(Seq<char>, u64)> {
    v.map_values(|p: (String, u64)| (p.0@, p.1))
}

impl View for ConnectionHandler {
    type V = ConnectionState;

    open spec fn view(&self) -> ConnectionState {
        ConnectionState {
            valid: id_views(self.validIDs@),
            auth: auth_views(self.authIDs@),
            to_remove: id_views(self.IDs_toremove@),
        }
    }
}

/// Some authenticated entry has the id `id`.
pub open spec fn has_auth(auth: Seq<(Seq<char>, u64)>, id: Seq<char>) -> bool {
    exists|i: int| 0 <= i < auth.len() && (#[trigger] auth[i]).0 == id
}

/// The time since `t`, or zero when `t` is not in the past.
pub open spec fn elapsed(t: u64, now: u64) -> nat {
    if now > t {
        (now - t) as nat
    } else {
        0
    }
}

/// An authentication granted at `t` has run out at `now`: more than the
/// timeout has passed.
pub open spec fn expired(t: u64, now: u64) -> bool {
    elapsed(t, now) > limits::AUTH_TIMEOUT_NANOS
}

/// The entries of `auth` that have not run out at `now`, in order.
pub open spec fn fresh_entries(auth: Seq<(Seq<char>, u64)>, now: u64) -> Seq<(Seq<char>, u64)>
    decreases auth.len(),
{
    if auth.len() == 0 {
        Seq::empty()
    } else {
        let r = fresh_entries(auth.drop_last(), now);
        if expired(auth.last().1, now) {
            r
        } else {
            r.push(auth.last())
        }
    }
}

/// The ids of the entries of `auth` that have run out at `now`, in order.
pub open spec fn expired_ids(auth: Seq<(Seq<char>, u64)>, now: u64) -> Seq<Seq<char>>
    decreases auth.len(),
{
    if auth.len() == 0 {
        Seq::empty()
    } else {
        let r = expired_ids(auth.drop_last(), now);
        if expired(auth.last().1, now) {
            r.push(auth.last().0)
        } else {
            r
        }
    }
}

/// Whole seconds left of an authentication granted at `t`.
pub open spec fn remaining_secs(t: u64, now: u64) -> u64 {
    let secs = elapsed(t, now) / (limits::NANOS_PER_SEC as nat);
    if secs >= limits::AUTH_TIMEOUT_SECS {
        0
    } else {
        (limits::AUTH_TIMEOUT_SECS - secs) as u64
    }
}

impl ConnectionHandler {
    /// A handler that knows of no connection.
    pub fn new() -> (h: ConnectionHandler)
        ensures
            h@.valid == Seq::<Seq<char>>::empty(),
            h@.auth == Seq::<(Seq<char>, u64)>::empty(),
            h@.to_remove == Seq::<Seq<char>>::empty(),
    {
        let h = ConnectionHandler { validIDs: Vec::new(), authIDs: Vec::new(), IDs_toremove: Vec::new() };
        assert(h@.valid =~= Seq::<Seq<char>>::empty());
        assert(h@.auth =~= Seq::<(Seq<char>, u64)>::empty());
        assert(h@.to_remove =~= Seq::<Seq<char>>::empty());
        h
    }

    /// Whether `id` is authenticated.
    pub fn is_auth(&self, id: &str) -> (r: bool)
        ensures
            r == has_auth(self@.auth, id@),
    {
        let target = chars_of(id);
        let mut i: usize = 0;
        while i < self.authIDs.len()
            invariant
                i <= self.authIDs.len(),
                target@ == id@,
                forall|j: int| 0 <= j < i ==> self@.auth[j].0 != id@,
            decreases self.authIDs.len() - i,
        {
            let cur = chars_of(self.authIDs[i].0.as_str());
            assert(self@.auth[i as int] == (self.authIDs@[i as int].0@, self.authIDs@[i as int].1));
            if chars_eq(&cur, &target) {
                return true;
            }
            i = i + 1;
        }
        false
    }

    /// Drops the authentications that have run out at `now`, keeping the
    /// others in order, and returns the ids that were dropped.
    pub fn cleanup_auth_ids(&mut self, now: u64) -> (dropped: Vec<String>)
        ensures
            final(self)@.auth == fresh_entries(old(self)@.auth, now),
            final(self)@.valid == old(self)@.valid,
            final(self)@.to_remove == old(self)@.to_remove,
            id_views(dropped@) == expired_ids(old(self)@.auth, now),
    {
        let ghost auth = self@.auth;
        let mut kept: Vec<(String, u64)> = Vec::new();
        let mut dropped: Vec<String> = Vec::new();
        let mut i: usize = 0;
        assert(auth.take(0) =~= Seq::<(Seq<char>, u64)>::empty());
        while i < self.authIDs.len()
            invariant
                i <= self.authIDs.len(),
                auth == auth_views(self.authIDs@),
                auth_views(kept@) == fresh_entries(auth.take(i as int), now),
                id_views(dropped@) == expired_ids(auth.take(i as int), now),
            decreases self.authIDs.len() - i,
        {
            assert(auth.take(i + 1).drop_last() =~= auth.take(i as int));
            assert(auth[i as int] == (self.authIDs@[i as int].0@, self.authIDs@[i as int].1));
            let t = self.authIDs[i].1;
            let is_expired = now > t && now - t > limits::AUTH_TIMEOUT_NANOS;
            if is_expired {
                dropped.push(self.authIDs[i].0.clone());
                assert(id_views(dropped@) =~= expired_ids(auth.take(i + 1), now));
            } else {
                kept.push((self.authIDs[i].0.clone(), t));
                assert(auth_views(kept@) =~= fresh_entries(auth.take(i + 1), now));
            }
            i = i + 1;
        }
        assert(auth.take(auth.len() as int) =~= auth);
        self.authIDs = kept;
        dropped
    }

    /// Each authenticated id with the whole seconds it has left at `now`.
    pub fn auth_ids_remaining(&self, now: u64) -> (r: Vec<(String, u64)>)
        ensures
            r@.len() == self@.auth.len(),
            forall|i: int|
                0 <= i < r@.len() ==> (#[trigger] r@[i]).0@ == self@.auth[i].0 && r@[i].1
                    == remaining_secs(self@.auth[i].1, now),
    {
        let mut r: Vec<(String, u64)> = Vec::new();
        let mut i: usize = 0;
        while i < self.authIDs.len()
            invariant
                i <= self.authIDs.len(),
                r@.len() == i,
                forall|j: int|
                    0 <= j < i ==> (#[trigger] r@[j]).0@ == self@.auth[j].0 && r@[j].1
                        == remaining_secs(self@.auth[j].1, now),
            decreases self.authIDs.len() - i,
        {
            assert(self@.auth[i as int] == (self.authIDs@[i as int].0@, self.authIDs@[i as int].1));
            let t = self.authIDs[i].1;
            let el: u64 = if now > t {
                now - t
            } else {
                0
            };
            let secs = el / limits::NANOS_PER_SEC;
            let rem = limits::AUTH_TIMEOUT_SECS.saturating_sub(secs);
            r.push((self.authIDs[i].0.clone(), rem));
            i = i + 1;
        }
        r
    }
}


// ---------------------------------------------------------------------
// Authentication by token
// ---------------------------------------------------------------------

/// The index of the first entry at or after `i` whose id is `id`.
pub open spec fn first_key_from(auth: Seq<(Seq<char>, u64)>, id: Seq<char>, i: int) -> Option<int>
    decreases auth.len() - i,
{
    if i < 0 || i >= auth.len() {
        None
    } else if auth[i].0 == id {
        Some(i)
    } else {
        first_key_from(auth, id, i + 1)
    }
}

/// `first_key_from` gives the least index at or after `i` with key `id`.
pub proof fn lemma_first_key_from(auth: Seq<(Seq<char>, u64)>, id: Seq<char>, i: int)
    requires
        0 <= i,
    ensures
        match first_key_from(auth, id, i) {
            Some(k) => i <= k < auth.len() && auth[k].0 == id && forall|j: int|
                i <= j < k ==> auth[j].0 != id,
            None => forall|j: int| i <= j < auth.len() ==> auth[j].0 != id,
        },
    decreases auth.len() - i,
{
    if i < auth.len() && auth[i].0 != id {
        lemma_first_key_from(auth, id, i + 1);
    }
}

/// The index of the first id at or after `i` that equals `x`.
pub open spec fn first_eq_from(ids: Seq<Seq<char>>, x: Seq<char>, i: int) -> Option<int>
    decreases ids.len() - i,
{
    if i < 0 || i >= ids.len() {
        None
    } else if ids[i] == x {
        Some(i)
    } else {
        first_eq_from(ids, x, i + 1)
    }
}

/// `first_eq_from` gives the least index at or after `i` holding `x`.
pub proof fn lemma_first_eq_from(ids: Seq<Seq<char>>, x: Seq<char>, i: int)
    requires
        0 <= i,
    ensures
        match first_eq_from(ids, x, i) {
            Some(k) => i <= k < ids.len() && ids[k] == x && forall|j: int| i <= j < k ==> ids[j] != x,
            None => forall|j: int| i <= j < ids.len() ==> ids[j] != x,
        },
    decreases ids.len() - i,
{
    if i < ids.len() && ids[i] != x {
        lemma_first_eq_from(ids, x, i + 1);
    }
}

/// The index of the first string in `v` that reads `x`.
fn index_of_id(v: &Vec<String>, x: &Vec<char>) -> (r: Option<usize>)
    ensures
        match r {
            Some(k) => first_eq_from(id_views(v@), x@, 0) == Some(k as int),
            None => first_eq_from(id_views(v@), x@, 0) is None,
        },
{
    let ghost ids = id_views(v@);
    let mut i: usize = 0;
    while i < v.len()
        invariant
            i <= v.len(),
            ids == id_views(v@),
            first_eq_from(ids, x@, 0) == first_eq_from(ids, x@, i as int),
        decreases v.len() - i,
    {
        assert(ids[i as int] == v@[i as int]@);
        let cur = chars_of(v[i].as_str());
        if chars_eq(&cur, x) {
            return Some(i);
        }
        i = i + 1;
    }
    None
}

/// The `/`-separated parts of a command, after one leading `/`.
pub open spec fn command_parts(command: Seq<char>) -> Seq<Seq<char>> {
    split_on(
        if is_prefix("/"@, command) {
            command.drop_first()
        } else {
            command
        },
        '/',
    )
}

/// A command `/<id>/<token>` authenticates when `<token>` is the
/// authentication token of `<id>` and `<id>` is authenticated.
pub open spec fn authenticates(auth: Seq<(Seq<char>, u64)>, command: Seq<char>) -> bool {
    let parts = command_parts(command);
    parts.len() >= 2 && parts[1] == auth_token(parts[0]) && first_key_from(auth, parts[0], 0) is Some
}

/// The state after a token check: on success the first entry of the id is
/// consumed and the id is scheduled for removal; otherwise nothing changes.
pub open spec fn after_check_authentication(s: ConnectionState, command: Seq<char>) -> ConnectionState {
    if authenticates(s.auth, command) {
        let id = command_parts(command)[0];
        ConnectionState {
            valid: s.valid,
            auth: s.auth.remove(first_key_from(s.auth, id, 0)->0),
            to_remove: s.to_remove.push(id),
        }
    } else {
        s
    }
}

// ---------------------------------------------------------------------
// Authentication by credentials
// ---------------------------------------------------------------------

/// The credentials in a request body can be read: its map is empty or has
/// the three keys.
pub open spec fn credentials_readable(content: Seq<char>) -> bool {
    let m = json_map(content);
    m == Map::<Seq<char>, Seq<char>>::empty() || (m.dom().contains("conn_id"@) && m.dom().contains(
        "hashid_sec"@,
    ) && m.dom().contains("hashpw_sec"@))
}

/// The credentials in a request body: `0` for each field when its map is
/// empty, the values of the three keys otherwise.
pub open spec fn credentials_of(content: Seq<char>) -> CredentialsView {
    let m = json_map(content);
    if m == Map::<Seq<char>, Seq<char>>::empty() {
        CredentialsView { conn_id: "0"@, hashid_sec: "0"@, hashpw_sec: "0"@ }
    } else {
        CredentialsView {
            conn_id: m["conn_id"@],
            hashid_sec: m["hashid_sec"@],
            hashpw_sec: m["hashpw_sec"@],
        }
    }
}

/// Credentials log in when their id is a valid id and both proofs are the
/// digests of the shared secrets with that id.
pub open spec fn credentials_accepted(valid: Seq<Seq<char>>, c: CredentialsView) -> bool {
    valid.contains(c.conn_id) && c.hashid_sec == secret_digest(html::ID_HASH@, c.conn_id)
        && c.hashpw_sec == secret_digest(html::PW_HASH@, c.conn_id)
}

/// The state after a credentials check: the id they name is scheduled for
/// removal.
pub open spec fn after_check_credentials(s: ConnectionState, content: Seq<char>) -> ConnectionState {
    ConnectionState {
        valid: s.valid,
        auth: s.auth,
        to_remove: s.to_remove.push(credentials_of(content).conn_id),
    }
}

// ---------------------------------------------------------------------
// Authentication
// ---------------------------------------------------------------------

/// A request authenticates by token, or else by credentials.
pub open spec fn authenticate_outcome(s: ConnectionState, request: RequestView) -> bool {
    authenticates(s.auth, request.info.command) || credentials_accepted(
        s.valid,
        credentials_of(request.content),
    )
}

/// The state after authentication of a request on connection `id` at
/// `now`: the token check, or failing that the credentials check; on
/// success `id` is authenticated from `now` on.
pub open spec fn after_authenticate(
    s: ConnectionState,
    request: RequestView,
    id: Seq<char>,
    now: u64,
) -> ConnectionState {
    let s1 = if authenticates(s.auth, request.info.command) {
        after_check_authentication(s, request.info.command)
    } else {
        after_check_credentials(s, request.content)
    };
    if authenticate_outcome(s, request) {
        ConnectionState { valid: s1.valid, auth: s1.auth.push((id, now)), to_remove: s1.to_remove }
    } else {
        s1
    }
}

/// Authentication of a request can be decided: it passes the token check
/// or its credentials can be read.
pub open spec fn authentication_decidable(s: ConnectionState, request: RequestView) -> bool {
    authenticates(s.auth, request.info.command) || credentials_readable(request.content)
}

impl ConnectionHandler {
    /// The index of the entry that the command's token check consumes, if
    /// the check passes.
    fn token_match(&self, command: &String) -> (r: Option<usize>)
        ensures
            match r {
                Some(i) => authenticates(self@.auth, command@) && first_key_from(
                    self@.auth,
                    command_parts(command@)[0],
                    0,
                ) == Some(i as int),
                None => !authenticates(self@.auth, command@),
            },
    {
        let full = chars_of(command.as_str());
        let slash = chars_of("/");
        proof {
            reveal_strlit("/");
        }
        let c = if starts_with(&full, &slash) {
            let rest = slice_chars(&full, 1, full.len());
            assert(rest@ =~= full@.drop_first());
            rest
        } else {
            full
        };
        let parts = split_chars(&c, '/');
        if parts.len() < 2 {
            return None;
        }
        assert(views(parts@)[0] == parts@[0]@);
        assert(views(parts@)[1] == parts@[1]@);
        let id = &parts[0];
        let token = auth_token_chars(id);
        if !chars_eq(&parts[1], &token) {
            return None;
        }
        let ghost auth = self@.auth;
        let ghost cp = command_parts(command@);
        assert(cp == views(parts@));
        let mut i: usize = 0;
        while i < self.authIDs.len()
            invariant
                i <= self.authIDs.len(),
                auth == self@.auth,
                cp == command_parts(command@),
                cp.len() >= 2,
                cp[0] == id@,
                cp[1] == auth_token(cp[0]),
                first_key_from(auth, id@, 0) == first_key_from(auth, id@, i as int),
            decreases self.authIDs.len() - i,
        {
            assert(auth[i as int] == (self.authIDs@[i as int].0@, self.authIDs@[i as int].1));
            let cur = chars_of(self.authIDs[i].0.as_str());
            if chars_eq(&cur, id) {
                return Some(i);
            }
            i = i + 1;
        }
        proof {
            lemma_first_key_from(auth, id@, i as int);
        }
        None
    }

    /// Checks the token in a GET command `/<id>/<token>`; on success
    /// consumes the first authentication of `<id>` and schedules `<id>`
    /// for removal.
    pub fn check_authentication(&mut self, request: &Request) -> (r: bool)
        ensures
            r == authenticates(old(self)@.auth, request.info.command@),
            final(self)@ == after_check_authentication(old(self)@, request.info.command@),
    {
        match self.token_match(&request.info.command) {
            None => false,
            Some(i) => {
                let ghost old_auth = self.authIDs@;
                let ghost old_remove = self.IDs_toremove@;
                proof {
                    lemma_first_key_from(self@.auth, command_parts(request.info.command@)[0], 0);
                }
                assert(auth_views(old_auth)[i as int] == (old_auth[i as int].0@, old_auth[i as int].1));
                let (id, _granted) = self.authIDs.remove(i);
                let ghost idv = id@;
                assert(idv == auth_views(old_auth)[i as int].0);
                self.IDs_toremove.push(id);
                assert(auth_views(self.authIDs@) =~= auth_views(old_auth).remove(i as int));
                assert(id_views(self.IDs_toremove@) =~= id_views(old_remove).push(idv));
                true
            },
        }
    }

    /// The credentials in a request body.
    pub fn get_credentials(&self, post_request_content: String) -> (c: Credentials)
        requires
            credentials_readable(post_request_content@),
        ensures
            c@ == credentials_of(post_request_content@),
    {
        let map = map_from_json(post_request_content);
        if map.is_empty() {
            Credentials {
                conn_id: "0".to_owned(),
                hashid_sec: "0".to_owned(),
                hashpw_sec: "0".to_owned(),
            }
        } else {
            Credentials {
                conn_id: map.get("conn_id").unwrap().clone(),
                hashid_sec: map.get("hashid_sec").unwrap().clone(),
                hashpw_sec: map.get("hashpw_sec").unwrap().clone(),
            }
        }
    }

    /// The credentials in a request body, or `None` where its map is not
    /// empty and lacks one of the three keys.
    pub fn try_get_credentials(&self, post_request_content: String) -> (c: Option<Credentials>)
        ensures
            match c {
                Some(c) => credentials_readable(post_request_content@) && c@ == credentials_of(
                    post_request_content@,
                ),
                None => !credentials_readable(post_request_content@),
            },
    {
        let map = map_from_json(post_request_content.clone());
        if map.is_empty() || (map.get("conn_id").is_some() && map.get("hashid_sec").is_some()
            && map.get("hashpw_sec").is_some()) {
            Some(self.get_credentials(post_request_content))
        } else {
            None
        }
    }

    /// Checks the credentials in a POST body against the valid ids and the
    /// shared secrets; the id they name is scheduled for removal.
    pub fn check_credentials(&mut self, request: &Request) -> (r: bool)
        requires
            credentials_readable(request.content@),
        ensures
            r == credentials_accepted(old(self)@.valid, credentials_of(request.content@)),
            final(self)@ == after_check_credentials(old(self)@, request.content@),
    {
        let credentials = self.get_credentials(request.content.clone());
        let ghost old_remove = self.IDs_toremove@;
        self.IDs_toremove.push(credentials.conn_id.clone());
        assert(id_views(self.IDs_toremove@) =~= id_views(old_remove).push(credentials.conn_id@));
        let id = chars_of(credentials.conn_id.as_str());
        let ghost valid = self@.valid;
        let found = index_of_id(&self.validIDs, &id);
        proof {
            lemma_first_eq_from(valid, id@, 0);
        }
        if found.is_none() {
            assert(!valid.contains(id@));
            return false;
        }
        let id_proof = secret_digest_chars(&chars_of(html::ID_HASH), &id);
        let pw_proof = secret_digest_chars(&chars_of(html::PW_HASH), &id);
        chars_eq(&id_proof, &chars_of(credentials.hashid_sec.as_str())) && chars_eq(
            &pw_proof,
            &chars_of(credentials.hashpw_sec.as_str()),
        )
    }

    /// Authenticates a request on connection `current_stream_id` at `now`,
    /// by token or else by credentials; on success the connection is
    /// authenticated from `now` on.
    pub fn authenticate(&mut self, request: &Request, current_stream_id: String, now: u64) -> (r: bool)
        requires
            authentication_decidable(old(self)@, request@),
        ensures
            r == authenticate_outcome(old(self)@, request@),
            final(self)@ == after_authenticate(old(self)@, request@, current_stream_id@, now),
    {
        let auth = self.check_authentication(request) || self.check_credentials(request);
        if auth {
            let ghost old_auth = self.authIDs@;
            self.authIDs.push((current_stream_id, now));
            assert(auth_views(self.authIDs@) =~= auth_views(old_auth).push((current_stream_id@, now)));
        }
        auth
    }

    /// Authenticates a request, or gives `None` and changes nothing where
    /// the token check fails and the credentials cannot be read.
    pub fn try_authenticate(&mut self, request: &Request, current_stream_id: String, now: u64) -> (r: Option<bool>)
        ensures
            match r {
                Some(b) => authentication_decidable(old(self)@, request@) && b == authenticate_outcome(
                    old(self)@,
                    request@,
                ) && final(self)@ == after_authenticate(old(self)@, request@, current_stream_id@, now),
                None => !authentication_decidable(old(self)@, request@) && final(self)@ == old(self)@,
            },
    {
        let decidable = self.token_match(&request.info.command).is_some()
            || self.try_get_credentials(request.content.clone()).is_some();
        if decidable {
            Some(self.authenticate(request, current_stream_id, now))
        } else {
            None
        }
    }
}


// ---------------------------------------------------------------------
// Dropping connections
// ---------------------------------------------------------------------

/// The index of the first valid id at or after `i` that is not
/// authenticated.
pub open spec fn first_unauth_from(valid: Seq<Seq<char>>, auth: Seq<(Seq<char>, u64)>, i: int) -> Option<int>
    decreases valid.len() - i,
{
    if i < 0 || i >= valid.len() {
        None
    } else if !has_auth(auth, valid[i]) {
        Some(i)
    } else {
        first_unauth_from(valid, auth, i + 1)
    }
}

/// `first_unauth_from` gives the least index at or after `i` of an id that
/// is not authenticated.
pub proof fn lemma_first_unauth_from(valid: Seq<Seq<char>>, auth: Seq<(Seq<char>, u64)>, i: int)
    requires
        0 <= i,
    ensures
        match first_unauth_from(valid, auth, i) {
            Some(k) => i <= k < valid.len() && !has_auth(auth, valid[k]) && forall|j: int|
                i <= j < k ==> has_auth(auth, valid[j]),
            None => forall|j: int| i <= j < valid.len() ==> has_auth(auth, valid[j]),
        },
    decreases valid.len() - i,
{
    if i < valid.len() && has_auth(auth, valid[i]) {
        lemma_first_unauth_from(valid, auth, i + 1);
    }
}

/// When the valid ids are at the limit, the first one that is not
/// authenticated is dropped to make room.
pub open spec fn make_room(valid: Seq<Seq<char>>, auth: Seq<(Seq<char>, u64)>) -> Seq<Seq<char>> {
    if valid.len() == limits::MAX_ALLOWED_CONNECTIONS {
        match first_unauth_from(valid, auth, 0) {
            Some(i) => valid.remove(i),
            None => valid,
        }
    } else {
        valid
    }
}

/// `ids` without its first occurrence of `x`.
pub open spec fn without_first(ids: Seq<Seq<char>>, x: Seq<char>) -> Seq<Seq<char>> {
    match first_eq_from(ids, x, 0) {
        Some(i) => ids.remove(i),
        None => ids,
    }
}

/// `auth` without its first entry with id `x`.
pub open spec fn without_first_key(auth: Seq<(Seq<char>, u64)>, x: Seq<char>) -> Seq<(Seq<char>, u64)> {
    match first_key_from(auth, x, 0) {
        Some(i) => auth.remove(i),
        None => auth,
    }
}

/// Drops the ids of `rem`, last first: each drops its first valid id and
/// its first authentication. Gives the valid ids, the authentications, and
/// the ids whose authentication was dropped, in the order dropped.
pub open spec fn drained(
    valid: Seq<Seq<char>>,
    auth: Seq<(Seq<char>, u64)>,
    rem: Seq<Seq<char>>,
) -> (Seq<Seq<char>>, Seq<(Seq<char>, u64)>, Seq<Seq<char>>)
    decreases rem.len(),
{
    if rem.len() == 0 {
        (valid, auth, Seq::empty())
    } else {
        let x = rem.last();
        let logged = if first_key_from(auth, x, 0) is Some {
            seq![x]
        } else {
            Seq::empty()
        };
        let r = drained(without_first(valid, x), without_first_key(auth, x), rem.drop_last());
        (r.0, r.1, logged + r.2)
    }
}

/// The state after the valid ids are cleaned up: room made at the limit,
/// then every id to remove dropped; and the ids logged off.
pub open spec fn after_cleanup_valid_ids(s: ConnectionState) -> (ConnectionState, Seq<Seq<char>>) {
    let d = drained(make_room(s.valid, s.auth), s.auth, s.to_remove);
    (ConnectionState { valid: d.0, auth: d.1, to_remove: Seq::empty() }, d.2)
}

impl ConnectionHandler {
    /// The index of the first authentication of `x`.
    fn index_of_auth(&self, x: &Vec<char>) -> (r: Option<usize>)
        ensures
            match r {
                Some(k) => first_key_from(self@.auth, x@, 0) == Some(k as int),
                None => first_key_from(self@.auth, x@, 0) is None,
            },
    {
        let ghost auth = self@.auth;
        let mut i: usize = 0;
        while i < self.authIDs.len()
            invariant
                i <= self.authIDs.len(),
                auth == self@.auth,
                first_key_from(auth, x@, 0) == first_key_from(auth, x@, i as int),
            decreases self.authIDs.len() - i,
        {
            assert(auth[i as int] == (self.authIDs@[i as int].0@, self.authIDs@[i as int].1));
            let cur = chars_of(self.authIDs[i].0.as_str());
            if chars_eq(&cur, x) {
                return Some(i);
            }
            i = i + 1;
        }
        None
    }

    /// The index of the first valid id that is not authenticated.
    fn first_unauth_index(&self) -> (r: Option<usize>)
        ensures
            match r {
                Some(k) => first_unauth_from(self@.valid, self@.auth, 0) == Some(k as int),
                None => first_unauth_from(self@.valid, self@.auth, 0) is None,
            },
    {
        let ghost valid = self@.valid;
        let mut i: usize = 0;
        while i < self.validIDs.len()
            invariant
                i <= self.validIDs.len(),
                valid == self@.valid,
                first_unauth_from(valid, self@.auth, 0) == first_unauth_from(valid, self@.auth, i as int),
            decreases self.validIDs.len() - i,
        {
            assert(valid[i as int] == self.validIDs@[i as int]@);
            if !self.is_auth(self.validIDs[i].as_str()) {
                return Some(i);
            }
            i = i + 1;
        }
        None
    }

    /// At the connection limit, drops the first valid id that is not
    /// authenticated; then drops each id scheduled for removal, last first,
    /// from the valid ids and the authentications. Returns the ids whose
    /// authentication was dropped.
    pub fn cleanup_valid_ids(&mut self) -> (logged_off: Vec<String>)
        ensures
            final(self)@ == after_cleanup_valid_ids(old(self)@).0,
            id_views(logged_off@) == after_cleanup_valid_ids(old(self)@).1,
    {
        if self.validIDs.len() == limits::MAX_ALLOWED_CONNECTIONS {
            match self.first_unauth_index() {
                Some(i) => {
                    proof {
                        lemma_first_unauth_from(self@.valid, self@.auth, 0);
                    }
                    let ghost old_valid = self.validIDs@;
                    self.validIDs.remove(i);
                    assert(id_views(self.validIDs@) =~= id_views(old_valid).remove(i as int));
                },
                None => {},
            }
        }
        let ghost target = drained(self@.valid, self@.auth, self@.to_remove);
        let mut logged: Vec<String> = Vec::new();
        assert(target.2 =~= id_views(logged@) + target.2);
        while self.IDs_toremove.len() > 0
            invariant
                target.0 == drained(self@.valid, self@.auth, self@.to_remove).0,
                target.1 == drained(self@.valid, self@.auth, self@.to_remove).1,
                target.2 == id_views(logged@) + drained(self@.valid, self@.auth, self@.to_remove).2,
            decreases self.IDs_toremove.len(),
        {
            let n = self.IDs_toremove.len();
            assert(self@.to_remove.last() == self.IDs_toremove@[n - 1]@);
            let x = chars_of(self.IDs_toremove[n - 1].as_str());
            let ghost before = self@;
            match index_of_id(&self.validIDs, &x) {
                Some(i) => {
                    proof {
                        lemma_first_eq_from(self@.valid, x@, 0);
                    }
                    let ghost old_valid = self.validIDs@;
                    self.validIDs.remove(i);
                    assert(id_views(self.validIDs@) =~= id_views(old_valid).remove(i as int));
                },
                None => {},
            }
            let ghost old_logged = id_views(logged@);
            match self.index_of_auth(&x) {
                Some(j) => {
                    proof {
                        lemma_first_key_from(self@.auth, x@, 0);
                    }
                    let ghost old_auth = self.authIDs@;
                    assert(auth_views(old_auth)[j as int] == (old_auth[j as int].0@, old_auth[j as int].1));
                    let (id, _granted) = self.authIDs.remove(j);
                    assert(auth_views(self.authIDs@) =~= auth_views(old_auth).remove(j as int));
                    logged.push(id);
                    assert(id_views(logged@) =~= old_logged + seq![x@]);
                },
                None => {
                    assert(id_views(logged@) =~= old_logged + Seq::<Seq<char>>::empty());
                },
            }
            let ghost old_remove = self.IDs_toremove@;
            self.IDs_toremove.pop();
            assert(id_views(self.IDs_toremove@) =~= id_views(old_remove).drop_last());
            let ghost rest = drained(self@.valid, self@.auth, self@.to_remove);
            assert(drained(before.valid, before.auth, before.to_remove).2 == (if first_key_from(before.auth, x@, 0) is Some {
                seq![x@]
            } else {
                Seq::empty()
            }) + rest.2);
            assert(target.2 =~= id_views(logged@) + rest.2);
        }
        assert(self@.to_remove =~= Seq::<Seq<char>>::empty());
        assert(target.2 =~= id_views(logged@));
        logged
    }
}


// ---------------------------------------------------------------------
// Answering requests
// ---------------------------------------------------------------------

/// What to send back for a request.
pub enum Reply {
    /// The file named by the request's page.
    File,
    /// A plain text body.
    Text(String),
}

/// A request with another content.
pub open spec fn with_content(r: RequestView, content: Seq<char>) -> RequestView {
    RequestView { info: r.info, content: content }
}

/// The request after a GET is handled: its page chosen and, on a logout,
/// the id to log out recorded.
pub open spec fn handled_get(r: RequestView, auth: bool) -> RequestView {
    with_html_path(after_action(r), page_for(http_action(r.info.command), auth, r.info.command))
}

/// The state after a GET is handled: on a logout, the id it names is
/// scheduled for removal.
pub open spec fn after_get(s: ConnectionState, r: RequestView) -> ConnectionState {
    if http_action(r.info.command) == HtmlGetAction::Logout {
        ConnectionState {
            valid: s.valid,
            auth: s.auth,
            to_remove: s.to_remove.push(after_action(r).info.credentials.conn_id),
        }
    } else {
        s
    }
}

/// The text answer to a POST: the connection id when authenticated, and
/// `FAIL` otherwise.
pub open spec fn post_reply(auth: bool, id: Seq<char>) -> Seq<char> {
    if auth {
        id
    } else {
        "FAIL"@
    }
}

/// A POST body has nothing alphanumeric: the server reads the socket again.
pub open spec fn needs_reread(r: RequestView) -> bool {
    r.info._type == RequestType::POST && !exists|i: int|
        0 <= i < r.content.len() && spec_is_alphanumeric(#[trigger] r.content[i])
}

/// Whether a POST body has nothing alphanumeric, so that the socket is
/// read again for the body.
pub fn content_needs_reread(request: &Request) -> (r: bool)
    ensures
        r == needs_reread(request@),
{
    let is_post = request.info._type == RequestType::POST;
    let content = chars_of(request.content.as_str());
    let any = any_alphanumeric(&content);
    assert(content@ == request@.content);
    is_post && !any
}

impl ConnectionHandler {
    /// Chooses the page for a GET request; on a logout, schedules the id it
    /// names for removal.
    pub fn handle_get_request(&mut self, request: &mut Request, auth: bool) -> (action: HtmlGetAction)
        ensures
            action == http_action(old(request)@.info.command),
            final(request)@ == handled_get(old(request)@, auth),
            final(self)@ == after_get(old(self)@, old(request)@),
    {
        let action = crate::htmlhandle::handle_get_request(request, auth);
        if action == HtmlGetAction::Logout {
            let ghost old_remove = self.IDs_toremove@;
            self.IDs_toremove.push(request.info.credentials.conn_id.clone());
            assert(id_views(self.IDs_toremove@) =~= id_views(old_remove).push(
                request.info.credentials.conn_id@,
            ));
        }
        action
    }

    /// The text answer to a POST on connection `id`.
    pub fn handle_post_request(&self, id: &str, auth: bool) -> (reply: String)
        ensures
            reply@ == post_reply(auth, id@),
    {
        if auth {
            id.to_owned()
        } else {
            "FAIL".to_owned()
        }
    }

    /// Handles a parsed request on connection `id`: a GET chooses its page
    /// (a logout schedules its id for removal) and is answered with that
    /// file; a POST is answered with the id when authenticated and `FAIL`
    /// otherwise; anything else is answered with its (not-found) file. The
    /// request's content loses its leading and trailing NUL characters.
    pub fn handle_request(&mut self, request: &mut Request, id: &str, auth: bool) -> (reply: Reply)
        ensures
            match old(request)@.info._type {
                RequestType::GET => reply is File && final(request)@ == with_content(
                    handled_get(old(request)@, auth),
                    trim_char(old(request)@.content, '\0'),
                ) && final(self)@ == after_get(old(self)@, old(request)@),
                RequestType::POST => reply matches Reply::Text(t) && t@ == post_reply(auth, id@)
                    && final(request)@ == with_content(
                    old(request)@,
                    trim_char(old(request)@.content, '\0'),
                ) && final(self)@ == old(self)@,
                RequestType::INVALID => reply is File && final(request)@ == with_content(
                    old(request)@,
                    trim_char(old(request)@.content, '\0'),
                ) && final(self)@ == old(self)@,
            },
    {
        let reply = match request.info._type {
            RequestType::GET => {
                self.handle_get_request(request, auth);
                Reply::File
            },
            RequestType::POST => Reply::Text(self.handle_post_request(id, auth)),
            RequestType::INVALID => Reply::File,
        };
        let trimmed = trim_char_chars(&chars_of(request.content.as_str()), '\0');
        request.content = string_from(&trimmed);
        reply
    }
}

} // verus!
