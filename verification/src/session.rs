//! Sessions: an in-memory table from session identifiers to the user they
//! belong to and the moment they expire.
//!
//! Every operation that depends on the clock or on a fresh identifier comes
//! twice: once taking the moment and the identifier as arguments, with an exact
//! contract, and once fetching them itself.

use crate::strmap::{
    distinct, key_index, keys_of, lemma_key_index_is, lemma_to_map_at, lemma_to_map_key,
    lemma_to_map_len, lemma_upsert, to_map, upsert,
};
use crate::text::same_text;
use vstd::prelude::*;

verus! {

/// How long a session lives, in seconds: one hour.
pub const SESSION_SECONDS: i64 = 3600;

/// One session: the user it belongs to and the moment it expires, in seconds
/// since the start of 1970.
#[derive(Debug)]
pub struct Session {
    pub user_id: String,
    pub expires_at: i64,
}

/// A session as a plain value.
pub struct SessionView {
    pub user_id: Seq<char>,
    pub expires_at: int,
}

impl View for Session {
    type V = SessionView;

    open spec fn view(&self) -> SessionView {
        SessionView { user_id: self.user_id@, expires_at: self.expires_at as int }
    }
}

impl Clone for Session {
    fn clone(&self) -> (s: Session)
        ensures
            s@ == self@,
    {
        Session { user_id: self.user_id.clone(), expires_at: self.expires_at }
    }
}

/// A table of sessions by identifier.
pub type Sessions = Map<Seq<char>, SessionView>;

/// Whether the table holds `id` with an expiry later than `now`.
pub open spec fn valid_at(m: Sessions, id: Seq<char>, now: int) -> bool {
    m.contains_key(id) && m[id].expires_at > now
}

/// The table after a session for `user` was created under `id` at the moment `now`.
pub open spec fn created(m: Sessions, id: Seq<char>, user: Seq<char>, now: int) -> Sessions {
    m.insert(id, SessionView { user_id: user, expires_at: now + SESSION_SECONDS })
}

/// The table after `id` was refreshed under `new_id` at the moment `now`: where
/// `id` is known, a new session for the same user; the record of `id` stays.
/// Presence alone decides, an expired `id` is refreshed too.
pub open spec fn refreshed(m: Sessions, id: Seq<char>, new_id: Seq<char>, now: int) -> Sessions {
    if m.contains_key(id) {
        created(m, new_id, m[id].user_id, now)
    } else {
        m
    }
}

/// The table without the sessions that expire at `now` or before.
pub open spec fn cleaned(m: Sessions, now: int) -> Sessions {
    Map::new(|id: Seq<char>| valid_at(m, id, now), |id: Seq<char>| m[id])
}

/// A session created at `now` is valid at every moment before `now` plus one
/// hour, and at no moment from then on.
pub proof fn law_created_session_expires(
    m: Sessions,
    id: Seq<char>,
    user: Seq<char>,
    now: int,
    t: int,
)
    ensures
        valid_at(created(m, id, user, now), id, t) <==> t < now + SESSION_SECONDS,
        valid_at(created(m, id, user, now), id, now),
        created(m, id, user, now)[id].user_id == user,
{
}

/// Refreshing an unknown identifier changes nothing. Refreshing a known one
/// under a new identifier that differs from it adds a session for the same
/// user under the new identifier and leaves the record of the old one as it
/// was, until a cleanup removes it.
pub proof fn law_refresh_keeps_old_record(m: Sessions, id: Seq<char>, new_id: Seq<char>, now: int)
    requires
        new_id != id,
    ensures
        !m.contains_key(id) ==> refreshed(m, id, new_id, now) == m,
        m.contains_key(id) ==> {
            &&& refreshed(m, id, new_id, now).contains_key(new_id)
            &&& refreshed(m, id, new_id, now)[new_id].user_id == m[id].user_id
            &&& valid_at(refreshed(m, id, new_id, now), new_id, now)
            &&& refreshed(m, id, new_id, now).contains_key(id)
            &&& refreshed(m, id, new_id, now)[id] == m[id]
        },
{
}

/// A cleanup removes exactly the sessions that are no longer valid, and
/// changes none of the others.
pub proof fn law_cleanup_keeps_valid(m: Sessions, id: Seq<char>, now: int)
    ensures
        cleaned(m, now).contains_key(id) <==> valid_at(m, id, now),
        valid_at(m, id, now) ==> cleaned(m, now)[id] == m[id],
{
}

/// Whether `now` is a moment that the clock can give: within 2^48 seconds of
/// the start of 1970, either way.
pub open spec fn on_the_clock(now: int) -> bool {
    -0x1_0000_0000_0000 < now < 0x1_0000_0000_0000
}

/// The current moment, in seconds since the start of 1970.
///
/// Calls `chrono::Utc::now` and reads the moment it gives with
/// `chrono::DateTime::timestamp`. That function takes a day number of 32
/// bits, less the day number of the start of 1970, times the seconds of a day,
/// and adds a second of the day of 32 bits: whatever the moment, the result
/// stays within 2^48 either way. Nothing more is claimed of it.
#[verifier::external_body]
fn unix_now() -> (t: i64)
    ensures
        on_the_clock(t as int),
{
    chrono::Utc::now().timestamp()
}

/// A new random identifier.
///
/// Calls `uuid::Uuid::new_v4` and writes the identifier with `to_string`,
/// which gives the hyphenated form: 32 hexadecimal digits and 4 hyphens. Only
/// the length is claimed; which identifier comes is left open.
#[verifier::external_body]
fn fresh_id() -> (id: String)
    ensures
        id@.len() == 36,
{
    uuid::Uuid::new_v4().to_string()
}

/// The table of sessions. It holds each identifier once.
#[derive(Debug)]
pub struct SessionStorage {
    sessions: Vec<(String, Session)>,
}

impl View for SessionStorage {
    type V = Sessions;

    open spec fn view(&self) -> Sessions {
        to_map(self.records())
    }
}

impl Clone for SessionStorage {
    fn clone(&self) -> (s: SessionStorage)
        ensures
            s.records() == self.records(),
    {
        proof {
            use_type_invariant(self);
        }
        let mut sessions: Vec<(String, Session)> = Vec::new();
        let mut i: usize = 0;
        while i < self.sessions.len()
            invariant
                i <= self.sessions.len(),
                sessions@.len() == i,
                forall|j: int|
                    0 <= j < i ==> (#[trigger] sessions@[j]).0@ == self.sessions@[j].0@
                        && sessions@[j].1@ == self.sessions@[j].1@,
            decreases self.sessions.len() - i,
        {
            sessions.push((self.sessions[i].0.clone(), self.sessions[i].1.clone()));
            i += 1;
        }
        let ghost copy = Seq::new(sessions@.len(), |j: int| (sessions@[j].0@, sessions@[j].1@));
        assert(copy =~= self.records());
        SessionStorage { sessions }
    }
}

impl SessionStorage {
    /// The sessions with their identifiers, in the order in which the
    /// identifiers were first used.
    pub closed spec fn records(&self) -> Seq<(Seq<char>, SessionView)> {
        Seq::new(self.sessions@.len(), |i: int| (self.sessions@[i].0@, self.sessions@[i].1@))
    }

    #[verifier::type_invariant]
    spec fn ids_are_distinct(&self) -> bool {
        distinct(keys_of(self.records()))
    }

    /// The empty table.
    pub fn new() -> (s: SessionStorage)
        ensures
            s.records() == Seq::<(Seq<char>, SessionView)>::empty(),
            s@ == Map::<Seq<char>, SessionView>::empty(),
    {
        let s = SessionStorage { sessions: Vec::new() };
        assert(s.records() =~= Seq::<(Seq<char>, SessionView)>::empty());
        assert(s@ =~= Map::<Seq<char>, SessionView>::empty());
        s
    }

    /// How many sessions the table holds, expired ones included.
    pub fn len(&self) -> (n: usize)
        ensures
            n == self.records().len(),
            n == self@.len(),
            self@.dom().finite(),
            distinct(keys_of(self.records())),
    {
        proof {
            use_type_invariant(self);
            lemma_to_map_len(self.records());
        }
        self.sessions.len()
    }

    fn position(&self, id: &str) -> (i: usize)
        ensures
            i == key_index(keys_of(self.records()), id@),
            i <= self.records().len(),
    {
        let mut i: usize = 0;
        while i < self.sessions.len()
            invariant
                i <= self.sessions.len(),
                forall|j: int| 0 <= j < i ==> keys_of(self.records())[j] != id@,
            decreases self.sessions.len() - i,
        {
            if same_text(self.sessions[i].0.as_str(), id) {
                proof {
                    lemma_key_index_is(keys_of(self.records()), id@, i as int);
                }
                return i;
            }
            i += 1;
        }
        proof {
            lemma_key_index_is(keys_of(self.records()), id@, i as int);
        }
        i
    }

    /// Creates a session for `user_id` under `session_id` at the moment `now`:
    /// it expires one hour later. A session already held under `session_id`
    /// is replaced.
    pub fn create_session_at(&mut self, session_id: String, user_id: String, now: i64)
        requires
            now + SESSION_SECONDS <= i64::MAX,
        ensures
            final(self)@ == created(old(self)@, session_id@, user_id@, now as int),
            final(self).records() == upsert(
                old(self).records(),
                session_id@,
                (SessionView { user_id: user_id@, expires_at: now + SESSION_SECONDS }),
            ),
    {
        let session = Session { user_id, expires_at: now + SESSION_SECONDS };
        proof {
            use_type_invariant(&*self);
            lemma_upsert(self.records(), session_id@, session@);
        }
        let ghost before = self.records();
        let i = self.position(session_id.as_str());
        let mut sessions: Vec<(String, Session)> = Vec::new();
        std::mem::swap(&mut sessions, &mut self.sessions);
        if i < sessions.len() {
            sessions.set(i, (session_id, session));
        } else {
            sessions.push((session_id, session));
        }
        let ghost after = Seq::new(sessions@.len(), |j: int| (sessions@[j].0@, sessions@[j].1@));
        assert(after =~= upsert(before, session_id@, session@));
        self.sessions = sessions;
        assert(self.records() =~= after);
    }

    /// The session held under `session_id`, if there is one and it expires
    /// later than `now`. An unknown identifier and an expired session both
    /// give `None`.
    pub fn validate_session_at(&self, session_id: &str, now: i64) -> (r: Option<&Session>)
        ensures
            r is Some <==> valid_at(self@, session_id@, now as int),
            r matches Some(s) ==> s@ == self@[session_id@],
    {
        let i = self.position(session_id);
        if i < self.sessions.len() && self.sessions[i].1.expires_at > now {
            Some(&self.sessions[i].1)
        } else {
            None
        }
    }

    /// Refreshes `session_id` at the moment `now`: where the table holds it,
    /// expired or not, a session for the same user is created under `new_id`
    /// and `new_id` is returned; the record of `session_id` stays. Where it
    /// does not, nothing changes and `None` is returned.
    pub fn refresh_session_at(
        &mut self,
        session_id: &str,
        new_id: String,
        now: i64,
    ) -> (r: Option<String>)
        requires
            now + SESSION_SECONDS <= i64::MAX,
        ensures
            final(self)@ == refreshed(old(self)@, session_id@, new_id@, now as int),
            r is Some <==> old(self)@.contains_key(session_id@),
            r matches Some(id) ==> id@ == new_id@,
            r is None ==> final(self).records() == old(self).records(),
    {
        let i = self.position(session_id);
        if i < self.sessions.len() {
            let user_id = self.sessions[i].1.user_id.clone();
            let id = new_id.clone();
            self.create_session_at(new_id, user_id, now);
            Some(id)
        } else {
            None
        }
    }

    /// Removes every session that expires at `now` or before.
    pub fn cleanup_sessions_at(&mut self, now: i64)
        ensures
            final(self)@ == cleaned(old(self)@, now as int),
    {
        proof {
            use_type_invariant(&*self);
        }
        let ghost before = self.records();
        let mut kept: Vec<(String, Session)> = Vec::new();
        let ghost mut origin: Seq<int> = Seq::empty();
        let mut i: usize = 0;
        while i < self.sessions.len()
            invariant
                i <= self.sessions.len(),
                before == self.records(),
                distinct(keys_of(before)),
                origin.len() == kept@.len(),
                forall|a: int| 0 <= a < origin.len() ==> 0 <= #[trigger] origin[a] < i,
                forall|a: int, b: int| 0 <= a < b < origin.len() ==> origin[a] < origin[b],
                forall|a: int|
                    0 <= a < origin.len() ==> (#[trigger] kept@[a]).0@ == before[origin[a]].0
                        && kept@[a].1@ == before[origin[a]].1 && before[origin[a]].1.expires_at
                        > now,
                forall|j: int|
                    0 <= j < i && (#[trigger] before[j]).1.expires_at > now ==> exists|a: int|
                        0 <= a < origin.len() && origin[a] == j,
            decreases self.sessions.len() - i,
        {
            if self.sessions[i].1.expires_at > now {
                let ghost old_origin = origin;
                kept.push((self.sessions[i].0.clone(), self.sessions[i].1.clone()));
                proof {
                    origin = origin.push(i as int);
                    assert forall|j: int|
                        0 <= j < i + 1 && (#[trigger] before[j]).1.expires_at
                            > now implies exists|a: int|
                        0 <= a < origin.len() && origin[a] == j by {
                        if j < i {
                            let a = choose|a: int| 0 <= a < old_origin.len() && old_origin[a] == j;
                            assert(origin[a] == j);
                        } else {
                            assert(origin[origin.len() - 1] == j);
                        }
                    }
                }
            }
            i += 1;
        }
        let ghost after = Seq::new(kept@.len(), |j: int| (kept@[j].0@, kept@[j].1@));
        proof {
            assert forall|a: int, b: int| 0 <= a < b < after.len() implies keys_of(after)[a]
                != keys_of(after)[b] by {
                assert(keys_of(before)[origin[a]] != keys_of(before)[origin[b]]);
            }
            let target = cleaned(to_map(before), now as int);
            assert forall|id: Seq<char>| #[trigger]
                to_map(after).contains_key(id) implies target.contains_key(id) && to_map(
                after,
            )[id] == target[id] by {
                lemma_to_map_key(after, id);
                let a = key_index(keys_of(after), id);
                lemma_to_map_at(before, origin[a]);
            }
            assert forall|id: Seq<char>| #[trigger]
                target.contains_key(id) implies to_map(after).contains_key(id) by {
                lemma_to_map_key(before, id);
                let j = key_index(keys_of(before), id);
                assert(before[j].1.expires_at > now);
                let a = choose|a: int| 0 <= a < origin.len() && origin[a] == j;
                lemma_to_map_at(after, a);
            }
            assert(to_map(after) =~= cleaned(to_map(before), now as int));
        }
        self.sessions = kept;
        assert(self.records() =~= after);
    }

    /// Creates a session for `user_id` under a new random identifier, which is
    /// returned. The session expires one hour from now.
    pub fn create_session(&mut self, user_id: String) -> (session_id: String)
        ensures
            session_id@.len() == 36,
            exists|now: int|
                on_the_clock(now) && final(self)@ == #[trigger] created(
                    old(self)@,
                    session_id@,
                    user_id@,
                    now,
                ),
    {
        let session_id = fresh_id();
        let now = unix_now();
        let id = session_id.clone();
        self.create_session_at(session_id, user_id, now);
        assert(created(old(self)@, id@, user_id@, now as int) == self@);
        id
    }

    /// The session held under `session_id`, if there is one and it has not
    /// expired by now.
    pub fn validate_session(&self, session_id: &str) -> (r: Option<&Session>)
        ensures
            exists|now: int|
                on_the_clock(now) && (r is Some <==> #[trigger] valid_at(self@, session_id@, now)),
            r matches Some(s) ==> s@ == self@[session_id@],
    {
        let now = unix_now();
        let r = self.validate_session_at(session_id, now);
        assert(r is Some <==> valid_at(self@, session_id@, now as int));
        r
    }

    /// Refreshes `session_id`: where the table holds it, expired or not, a
    /// session for the same user is created under a new random identifier,
    /// which is returned, and the record of `session_id` stays. Where it does
    /// not, nothing changes and `None` is returned.
    pub fn refresh_session(&mut self, session_id: &str) -> (r: Option<String>)
        ensures
            r is Some <==> old(self)@.contains_key(session_id@),
            r is None ==> final(self).records() == old(self).records(),
            r matches Some(id) ==> id@.len() == 36,
            r matches Some(id) ==> exists|now: int|
                on_the_clock(now) && final(self)@ == #[trigger] refreshed(
                    old(self)@,
                    session_id@,
                    id@,
                    now,
                ),
    {
        let new_id = fresh_id();
        let now = unix_now();
        let r = self.refresh_session_at(session_id, new_id, now);
        assert(r matches Some(id) ==> refreshed(old(self)@, session_id@, id@, now as int)
            == self@);
        r
    }

    /// Removes every session that has expired by now.
    pub fn cleanup_sessions(&mut self)
        ensures
            exists|now: int|
                on_the_clock(now) && final(self)@ == #[trigger] cleaned(old(self)@, now),
    {
        let now = unix_now();
        self.cleanup_sessions_at(now);
        assert(cleaned(old(self)@, now as int) == self@);
    }
}

} // verus!
