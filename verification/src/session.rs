//! Sessions that are kept in memory, and the cookie that names them.

use crate::assoc;
use crate::clock;
use crate::number;
use crate::seqs;
use crate::string_map::StringMap;
use crate::text;
use vstd::prelude::*;

verus! {

/// Seconds for which a session lives without being used.
pub const SESSION_TIMEOUT_SECS: u64 = 3600;

// ---------------------------------------------------------------------------
// Model
// ---------------------------------------------------------------------------

/// A session: its data and the second of its last use.
pub struct SessionView {
    pub data: Map<Seq<char>, Seq<char>>,
    pub last_access: u64,
}

/// A session that was last used at `last_access` is over at `now`.
pub open spec fn expired(last_access: u64, now: u64) -> bool {
    clock::elapsed(now, last_access) > SESSION_TIMEOUT_SECS
}

/// The session `id` exists and is not over at `now`.
pub open spec fn is_live(
    sessions: Map<Seq<char>, SessionView>,
    id: Seq<char>,
    now: u64,
) -> bool {
    sessions.contains_key(id) && !expired(sessions[id].last_access, now)
}

/// A session as it starts.
pub open spec fn fresh_session(now: u64) -> SessionView {
    SessionView { data: Map::empty(), last_access: now }
}

/// The sessions after the session `id` was asked for: its use is noted, or it is dropped if it is
/// over.
pub open spec fn after_access(
    sessions: Map<Seq<char>, SessionView>,
    id: Seq<char>,
    now: u64,
) -> Map<Seq<char>, SessionView> {
    if is_live(sessions, id, now) {
        sessions.insert(id, SessionView { last_access: now, ..sessions[id] })
    } else {
        sessions.remove(id)
    }
}

/// The sessions after a value of the session `id` was set; of a session that does not exist
/// nothing is set.
pub open spec fn after_set(
    sessions: Map<Seq<char>, SessionView>,
    id: Seq<char>,
    key: Seq<char>,
    value: Seq<char>,
    now: u64,
) -> Map<Seq<char>, SessionView> {
    if sessions.contains_key(id) {
        sessions.insert(
            id,
            SessionView { data: sessions[id].data.insert(key, value), last_access: now },
        )
    } else {
        sessions
    }
}

/// The sessions that are not over at `now`.
pub open spec fn live_sessions(
    sessions: Map<Seq<char>, SessionView>,
    now: u64,
) -> Map<Seq<char>, SessionView> {
    sessions.restrict(Set::new(|id: Seq<char>| is_live(sessions, id, now)))
}

/// The name of a session that starts in the second `t`: two numbers of sixteen hexadecimal digits.
pub open spec fn session_id(t: u64) -> Seq<char> {
    number::padded_hex((t ^ (t << 17u64) ^ (t >> 3u64)) as nat, 16) + number::padded_hex(
        (t * 6364136223846793005 % 0x1_0000_0000_0000_0000) as nat,
        16,
    )
}

/// The session that the first of the cookies, from `i` on, that names one names.
pub open spec fn named_session(cookies: Seq<Seq<char>>, i: int) -> Option<Seq<char>>
    decreases cookies.len() - i,
{
    if i < 0 || i >= cookies.len() {
        None
    } else {
        match text::after_prefix(text::trim(cookies[i]), "session_id="@) {
            Some(value) => Some(text::trim(value)),
            None => named_session(cookies, i + 1),
        }
    }
}

/// The session that a `Cookie` header names.
pub open spec fn cookie_session(header: Seq<char>) -> Option<Seq<char>> {
    named_session(seqs::split(header, ';'), 0)
}

// ---------------------------------------------------------------------------
// Store
// ---------------------------------------------------------------------------

struct Session {
    data: StringMap,
    last_access: u64,
}

impl View for Session {
    type V = SessionView;

    closed spec fn view(&self) -> SessionView {
        SessionView { data: self.data@, last_access: self.last_access }
    }
}

/// All sessions, by their names.
pub struct SessionStore {
    sessions: Vec<(String, Session)>,
}

spec fn session_entries(v: Seq<(String, Session)>) -> Seq<(Seq<char>, SessionView)> {
    v.map_values(|e: (String, Session)| (e.0@, e.1@))
}

impl View for SessionStore {
    type V = Map<Seq<char>, SessionView>;

    closed spec fn view(&self) -> Map<Seq<char>, SessionView> {
        assoc::map_of(session_entries(self.sessions@))
    }
}

/// The place of the session `id`.
fn position(sessions: &Vec<(String, Session)>, id: &str) -> (r: Option<usize>)
    requires
        assoc::keys_unique(session_entries(sessions@)),
    ensures
        match r {
            Some(i) => i < sessions@.len() && sessions@[i as int].0@ == id@ && assoc::has_key(
                session_entries(sessions@),
                id@,
            ) && assoc::place_of(session_entries(sessions@), id@) == i,
            None => !assoc::has_key(session_entries(sessions@), id@),
        },
{
    let ghost entries = session_entries(sessions@);
    let mut i: usize = 0;
    while i < sessions.len()
        invariant
            i <= sessions@.len(),
            entries == session_entries(sessions@),
            assoc::keys_unique(entries),
            forall|j: int| 0 <= j < i ==> (#[trigger] entries[j]).0 != id@,
        decreases sessions@.len() - i,
    {
        assert(entries[i as int].0 == sessions@[i as int].0@);
        if text::same_text(sessions[i].0.as_str(), id) {
            proof {
                assoc::lemma_place(entries, i as int);
            }
            return Some(i);
        }
        i = i + 1;
    }
    None
}

impl SessionStore {
    #[verifier::type_invariant]
    spec fn unique(&self) -> bool {
        assoc::keys_unique(session_entries(self.sessions@))
    }

    /// A store without sessions.
    pub fn new() -> (r: SessionStore)
        ensures
            r@ == Map::<Seq<char>, SessionView>::empty(),
    {
        let sessions: Vec<(String, Session)> = Vec::new();
        let r = SessionStore { sessions };
        assert(r@ =~= Map::empty());
        r
    }

    /// Gives the session `id` the given state.
    fn put(&mut self, id: String, session: Session)
        ensures
            final(self)@ == old(self)@.insert(id@, session@),
    {
        proof {
            use_type_invariant(&*self);
        }
        let ghost before = session_entries(self.sessions@);
        let ghost key = id@;
        let ghost value = session@;
        proof {
            assoc::lemma_with_entry(before, key, value);
        }
        let place = position(&self.sessions, id.as_str());
        let mut sessions: Vec<(String, Session)> = Vec::new();
        std::mem::swap(&mut self.sessions, &mut sessions);
        match place {
            Some(i) => {
                sessions.set(i, (id, session));
            },
            None => {
                sessions.push((id, session));
            },
        }
        assert(session_entries(sessions@) =~= assoc::with_entry(before, key, value));
        self.sessions = sessions;
    }

    /// Takes the session `id` out of the store.
    fn take(&mut self, id: &str) -> (r: Option<Session>)
        ensures
            match r {
                Some(s) => old(self)@.contains_key(id@) && s@ == old(self)@[id@],
                None => !old(self)@.contains_key(id@),
            },
            final(self)@ == old(self)@.remove(id@),
    {
        proof {
            use_type_invariant(&*self);
        }
        let ghost before = session_entries(self.sessions@);
        match position(&self.sessions, id) {
            Some(i) => {
                let mut sessions: Vec<(String, Session)> = Vec::new();
                std::mem::swap(&mut self.sessions, &mut sessions);
                let e = sessions.remove(i);
                proof {
                    assoc::lemma_place(before, i as int);
                    assoc::lemma_without(before, i as int);
                    assert(session_entries(sessions@) =~= before.remove(i as int));
                }
                self.sessions = sessions;
                Some(e.1)
            },
            None => {
                assert(self@.remove(id@) =~= self@);
                None
            },
        }
    }

    /// Starts a session in the second `now`, and returns its name.
    pub fn create_session_at(&mut self, now: u64) -> (r: String)
        ensures
            r@ == session_id(now),
            final(self)@ == old(self)@.insert(session_id(now), fresh_session(now)),
    {
        let id = session_id_at(now);
        let session = Session { data: StringMap::new(), last_access: now };
        self.put(id.clone(), session);
        id
    }

    /// Starts a session, and returns its name.
    pub fn create_session(&mut self) -> (r: String)
        ensures
            exists|now: u64|
                r@ == #[trigger] session_id(now) && final(self)@ == old(self)@.insert(
                    session_id(now),
                    fresh_session(now),
                ),
    {
        let now: u64 = clock::now_secs();
        self.create_session_at(now)
    }

    /// The data of the session `id` in the second `now`, which becomes its last use.
    pub fn get_at(&mut self, id: &str, now: u64) -> (r: Option<&StringMap>)
        ensures
            match r {
                Some(data) => is_live(old(self)@, id@, now) && data@ == old(self)@[id@].data,
                None => !is_live(old(self)@, id@, now),
            },
            final(self)@ == after_access(old(self)@, id@, now),
    {
        match self.take(id) {
            Some(session) => {
                if clock::seconds_between(now, session.last_access) > SESSION_TIMEOUT_SECS {
                    return None;
                }
                let renewed = Session { data: session.data, last_access: now };
                let ghost value = renewed@;
                self.put(id.to_owned(), renewed);
                assert(self@ =~= after_access(old(self)@, id@, now));
                proof {
                    use_type_invariant(&*self);
                }
                match position(&self.sessions, id) {
                    Some(i) => {
                        proof {
                            assoc::lemma_place(session_entries(self.sessions@), i as int);
                            assert(self@[id@] == value);
                        }
                        Some(&self.sessions[i].1.data)
                    },
                    None => {
                        assert(self@.contains_key(id@));
                        None
                    },
                }
            },
            None => None,
        }
    }

    /// The data of the session `id`, unless it is over.
    pub fn get(&mut self, id: &str) -> (r: Option<&StringMap>)
        ensures
            exists|now: u64|
                {
                    &&& match r {
                        Some(data) => is_live(old(self)@, id@, now) && data@
                            == old(self)@[id@].data,
                        None => !is_live(old(self)@, id@, now),
                    }
                    &&& final(self)@ == #[trigger] after_access(old(self)@, id@, now)
                },
    {
        let now: u64 = clock::now_secs();
        self.get_at(id, now)
    }

    /// Sets a value of the session `id` in the second `now`, which becomes its last use.
    pub fn set_at(&mut self, id: &str, key: &str, value: &str, now: u64)
        ensures
            final(self)@ == after_set(old(self)@, id@, key@, value@, now),
    {
        match self.take(id) {
            Some(session) => {
                let mut data = session.data;
                data.insert(key.to_owned(), value.to_owned());
                self.put(id.to_owned(), Session { data, last_access: now });
                assert(self@ =~= after_set(old(self)@, id@, key@, value@, now));
            },
            None => {
                assert(self@ =~= old(self)@);
            },
        }
    }

    /// Sets a value of the session `id`.
    pub fn set(&mut self, id: &str, key: &str, value: &str)
        ensures
            exists|now: u64|
                final(self)@ == #[trigger] after_set(old(self)@, id@, key@, value@, now),
    {
        let now: u64 = clock::now_secs();
        self.set_at(id, key, value, now);
    }

    /// Ends the session `id`.
    pub fn destroy(&mut self, id: &str)
        ensures
            final(self)@ == old(self)@.remove(id@),
    {
        let _ = self.take(id);
    }

    /// Drops the sessions that are over in the second `now`.
    pub fn purge_expired_at(&mut self, now: u64)
        ensures
            final(self)@ == live_sessions(old(self)@, now),
    {
        proof {
            use_type_invariant(&*self);
        }
        let mut sessions: Vec<(String, Session)> = Vec::new();
        std::mem::swap(&mut self.sessions, &mut sessions);
        let mut i: usize = 0;
        let ghost mut map = assoc::map_of(session_entries(sessions@));
        assert(map == old(self)@);
        while i < sessions.len()
            invariant
                i <= sessions@.len(),
                assoc::keys_unique(session_entries(sessions@)),
                map == assoc::map_of(session_entries(sessions@)),
                map.submap_of(old(self)@),
                forall|j: int|
                    0 <= j < i ==> !expired(
                        (#[trigger] session_entries(sessions@)[j]).1.last_access,
                        now,
                    ),
                forall|id: Seq<char>|
                    old(self)@.contains_key(id) && !map.contains_key(id) ==> #[trigger] expired(
                        old(self)@[id].last_access,
                        now,
                    ),
            decreases sessions@.len() - i,
        {
            let ghost entries = session_entries(sessions@);
            assert(entries[i as int].1.last_access == sessions@[i as int].1.last_access);
            proof {
                assoc::lemma_place(entries, i as int);
            }
            if clock::seconds_between(now, sessions[i].1.last_access) > SESSION_TIMEOUT_SECS {
                let _ = sessions.remove(i);
                proof {
                    assoc::lemma_without(entries, i as int);
                    assert(session_entries(sessions@) =~= entries.remove(i as int));
                    map = assoc::map_of(session_entries(sessions@));
                }
            } else {
                i = i + 1;
            }
        }
        proof {
            let entries = session_entries(sessions@);
            assert forall|id: Seq<char>| map.contains_key(id) implies is_live(
                old(self)@,
                id,
                now,
            ) by {
                let p = assoc::place_of(entries, id);
                assert(entries[p].0 == id);
                assert(map[id] == entries[p].1);
                assert(!expired(entries[p].1.last_access, now));
            }
            assert(map =~= live_sessions(old(self)@, now));
        }
        self.sessions = sessions;
    }

    /// Drops the sessions that are over.
    pub fn purge_expired(&mut self)
        ensures
            exists|now: u64| final(self)@ == #[trigger] live_sessions(old(self)@, now),
    {
        let now: u64 = clock::now_secs();
        self.purge_expired_at(now);
    }
}

// ---------------------------------------------------------------------------
// Names
// ---------------------------------------------------------------------------

/// The session that a `Cookie` header names.
pub fn parse_session_id(cookie_header: &str) -> (r: Option<String>)
    ensures
        match r {
            Some(id) => cookie_session(cookie_header@) == Some(id@),
            None => cookie_session(cookie_header@) is None,
        },
{
    let header = text::chars_of(cookie_header);
    let cookies = text::split_at_char(header.as_slice(), ';');
    let ghost all = text::slices(cookies@);
    let mut i: usize = 0;
    while i < cookies.len()
        invariant
            i <= cookies@.len(),
            all == text::slices(cookies@),
            cookie_session(cookie_header@) == named_session(all, i as int),
        decreases cookies@.len() - i,
    {
        assert(all[i as int] == cookies@[i as int]@);
        if let Some(value) = text::strip_prefix(text::trimmed(cookies[i]), "session_id=") {
            return Some(text::string_of(text::trimmed(value)));
        }
        i = i + 1;
    }
    None
}

/// The name of a session that starts in the second `t`.
pub fn session_id_at(t: u64) -> (r: String)
    ensures
        r@ == session_id(t),
{
    let mixed: u64 = t ^ (t << 17u64) ^ (t >> 3u64);
    let spread: u64 = t.wrapping_mul(6364136223846793005);
    let mut id = number::to_padded_hex(mixed, 16);
    let rest = number::to_padded_hex(spread, 16);
    id.append(rest.as_str());
    id
}

/// The name of a session that starts now.
pub fn generate_session_id() -> (r: String)
    ensures
        exists|now: u64| r@ == #[trigger] session_id(now),
{
    let now: u64 = clock::now_secs();
    session_id_at(now)
}

// ---------------------------------------------------------------------------
// Laws
// ---------------------------------------------------------------------------

/// The name of a session has thirty-two hexadecimal digits.
pub proof fn law_session_id_digits(t: u64)
    ensures
        session_id(t).len() == 32,
        forall|i: int|
            0 <= i < 32 ==> '0' <= #[trigger] session_id(t)[i] <= '9' || 'a' <= session_id(t)[i]
                <= 'f',
{
    let a = (t ^ (t << 17u64) ^ (t >> 3u64)) as nat;
    let b = (t * 6364136223846793005 % 0x1_0000_0000_0000_0000) as nat;
    number::law_padded_width(a, 16);
    number::law_padded_width(b, 16);
}

/// The first of the cookies from `i` on that names a session is the one in place `k`.
proof fn lemma_named_session(cookies: Seq<Seq<char>>, i: int, k: int)
    requires
        0 <= i <= k < cookies.len(),
        "session_id="@.is_prefix_of(text::trim(cookies[k])),
        forall|j: int|
            i <= j < k ==> !"session_id="@.is_prefix_of(text::trim(#[trigger] cookies[j])),
    ensures
        named_session(cookies, i) == named_session(cookies, k),
    decreases k - i,
{
    if i < k {
        assert(!"session_id="@.is_prefix_of(text::trim(cookies[i])));
        lemma_named_session(cookies, i + 1, k);
    }
}

/// A cookie that names a session is read as that name, whatever other cookies stand before or
/// behind it, as long as none before it names a session, and with or without white space around
/// it.
pub proof fn law_cookie_read_back(t: u64, cookies: Seq<Seq<char>>, k: int)
    requires
        0 <= k < cookies.len(),
        forall|j: int| 0 <= j < cookies.len() ==> !(#[trigger] cookies[j]).contains(';'),
        text::trim(cookies[k]) == "session_id="@ + session_id(t),
        forall|j: int|
            0 <= j < k ==> !"session_id="@.is_prefix_of(text::trim(#[trigger] cookies[j])),
    ensures
        cookie_session(text::joined(cookies, seq![';'])) == Some(session_id(t)),
{
    reveal_strlit("session_id=");
    law_session_id_digits(t);
    let id = session_id(t);
    let own = "session_id="@ + id;
    assert(own.skip(11) =~= id);
    assert("session_id="@.is_prefix_of(own));
    text::lemma_trim_keeps(id);
    text::law_joined_parts_are_split(cookies, ';');
    lemma_named_session(cookies, 0, k);
}

/// A session that starts can be used for as long as it is not silent for too long.
pub proof fn law_started_session_lives(
    sessions: Map<Seq<char>, SessionView>,
    start: u64,
    now: u64,
)
    requires
        start <= now <= start + SESSION_TIMEOUT_SECS,
    ensures
        is_live(
            sessions.insert(session_id(start), fresh_session(start)),
            session_id(start),
            now,
        ),
{
}

/// A session is over once it has been silent for too long, and is then gone when it is asked for.
pub proof fn law_silent_session_ends(
    sessions: Map<Seq<char>, SessionView>,
    id: Seq<char>,
    now: u64,
)
    requires
        sessions.contains_key(id),
        now > sessions[id].last_access + SESSION_TIMEOUT_SECS,
    ensures
        !is_live(sessions, id, now),
        !after_access(sessions, id, now).contains_key(id),
        !live_sessions(sessions, now).contains_key(id),
{
}

/// A value that was set in a session is what the session holds when it is next used in time, and
/// the other values of the session and all other sessions stay as they were.
pub proof fn law_set_value_is_kept(
    sessions: Map<Seq<char>, SessionView>,
    id: Seq<char>,
    key: Seq<char>,
    value: Seq<char>,
    since: u64,
    now: u64,
)
    requires
        sessions.contains_key(id),
        since <= now <= since + SESSION_TIMEOUT_SECS,
    ensures
        ({
            let after = after_set(sessions, id, key, value, since);
            &&& is_live(after, id, now)
            &&& after[id].data.contains_key(key) && after[id].data[key] == value
            &&& forall|k: Seq<char>|
                k != key ==> (after[id].data.contains_key(k) <==> #[trigger] sessions[id].data.contains_key(
                    k,
                )) && (sessions[id].data.contains_key(k) ==> after[id].data[k]
                    == sessions[id].data[k])
            &&& forall|other: Seq<char>|
                other != id ==> (after.contains_key(other) <==> #[trigger] sessions.contains_key(
                    other,
                )) && (sessions.contains_key(other) ==> after[other] == sessions[other])
        }),
{
}

/// A session that was ended is not found again.
pub proof fn law_ended_session_is_gone(
    sessions: Map<Seq<char>, SessionView>,
    id: Seq<char>,
    now: u64,
)
    ensures
        !is_live(sessions.remove(id), id, now),
{
}

/// Dropping the sessions that are over changes nothing for anybody who asks for a session.
pub proof fn law_purge_is_unseen(
    sessions: Map<Seq<char>, SessionView>,
    id: Seq<char>,
    now: u64,
)
    ensures
        is_live(live_sessions(sessions, now), id, now) <==> is_live(sessions, id, now),
        is_live(sessions, id, now) ==> live_sessions(sessions, now)[id] == sessions[id],
{
}

/// A session lives for an hour after its last use, and no longer.
pub proof fn law_session_lifetime(
    sessions: Map<Seq<char>, SessionView>,
    id: Seq<char>,
    now: u64,
)
    requires
        sessions.contains_key(id),
        sessions[id].last_access <= now,
    ensures
        is_live(sessions, id, now) <==> now <= sessions[id].last_access + 60 * 60,
{
}

/// Asking for a live session renews it, keeps its values, and leaves the others as they are.
pub proof fn law_use_renews_session(
    sessions: Map<Seq<char>, SessionView>,
    id: Seq<char>,
    other: Seq<char>,
    now: u64,
    later: u64,
)
    requires
        is_live(sessions, id, now),
        now <= later <= now + 60 * 60,
        other != id,
    ensures
        is_live(after_access(sessions, id, now), id, later),
        after_access(sessions, id, now)[id].data == sessions[id].data,
        after_access(sessions, id, now).contains_key(other) <==> sessions.contains_key(other),
        sessions.contains_key(other) ==> after_access(sessions, id, now)[other] == sessions[other],
{
}

/// A session starts without values, and is the only one that changes.
pub proof fn law_fresh_session(now: u64)
    ensures
        fresh_session(now).data == Map::<Seq<char>, Seq<char>>::empty(),
        fresh_session(now).last_access == now,
{
}

/// The value of the first cookie of the name `session_id` is the session that a header names, as it
/// is written; white space around it and other cookies do not matter.
pub proof fn law_named_session(cookies: Seq<Seq<char>>, k: int, value: Seq<char>)
    requires
        0 <= k < cookies.len(),
        forall|j: int| 0 <= j < cookies.len() ==> !(#[trigger] cookies[j]).contains(';'),
        text::trim(cookies[k]) == "session_id="@ + value,
        text::trim(value) == value,
        forall|j: int|
            0 <= j < k ==> !"session_id="@.is_prefix_of(text::trim(#[trigger] cookies[j])),
    ensures
        cookie_session(text::joined(cookies, seq![';'])) == Some(value),
{
    let key = "session_id="@;
    let own = key + value;
    assert(own.take(key.len() as int) =~= key);
    assert(own.skip(key.len() as int) =~= value);
    text::law_joined_parts_are_split(cookies, ';');
    lemma_named_session(cookies, 0, k);
}

/// A header without such a cookie names no session.
pub proof fn law_no_session_named(cookies: Seq<Seq<char>>)
    requires
        cookies.len() > 0,
        forall|j: int| 0 <= j < cookies.len() ==> !(#[trigger] cookies[j]).contains(';'),
        forall|j: int|
            0 <= j < cookies.len() ==> !"session_id="@.is_prefix_of(
                text::trim(#[trigger] cookies[j]),
            ),
    ensures
        cookie_session(text::joined(cookies, seq![';'])) is None,
{
    text::law_joined_parts_are_split(cookies, ';');
    lemma_none_named(cookies, 0);
}

proof fn lemma_none_named(cookies: Seq<Seq<char>>, i: int)
    requires
        0 <= i <= cookies.len(),
        forall|j: int|
            0 <= j < cookies.len() ==> !"session_id="@.is_prefix_of(
                text::trim(#[trigger] cookies[j]),
            ),
    ensures
        named_session(cookies, i) is None,
    decreases cookies.len() - i,
{
    if i < cookies.len() {
        assert(!"session_id="@.is_prefix_of(text::trim(cookies[i])));
        lemma_none_named(cookies, i + 1);
    }
}

/// Sessions that start in different seconds have different names.
pub proof fn law_session_names_differ(a: u64, b: u64)
    requires
        a != b,
    ensures
        session_id(a) != session_id(b),
{
    if session_id(a) == session_id(b) {
        let x = (a * 6364136223846793005 % 0x1_0000_0000_0000_0000) as nat;
        let y = (b * 6364136223846793005 % 0x1_0000_0000_0000_0000) as nat;
        number::law_padded_width((a ^ (a << 17u64) ^ (a >> 3u64)) as nat, 16);
        number::law_padded_width((b ^ (b << 17u64) ^ (b >> 3u64)) as nat, 16);
        assert(session_id(a).skip(16) =~= number::padded_hex(x, 16));
        assert(session_id(b).skip(16) =~= number::padded_hex(y, 16));
        reveal_with_fuel(number::hex_range, 17);
        assert(number::hex_range(16) == 0x1_0000_0000_0000_0000);
        number::law_padded_numbers_differ(x, y, 16);
        lemma_spread_back(a);
        lemma_spread_back(b);
    }
}

/// The number that is spread over a name can be had back from it.
proof fn lemma_spread_back(t: u64)
    ensures
        (t * 6364136223846793005 % 0x1_0000_0000_0000_0000) * 13877824140714322085 % 0x1_0000_0000_0000_0000 == t,
{
    let m: int = 0x1_0000_0000_0000_0000;
    let x: int = t * 6364136223846793005;
    let d: int = 13877824140714322085;
    vstd::arithmetic::div_mod::lemma_mul_mod_noop_left(x, d, m);
    assert(x * d == t * (4787856489426250814 * m + 1)) by (nonlinear_arith)
        requires
            x == t * 6364136223846793005,
            d == 13877824140714322085,
            m == 0x1_0000_0000_0000_0000,
    ;
    let k: int = t * 4787856489426250814;
    assert(x * d == m * k + t) by (nonlinear_arith)
        requires
            x * d == t * (4787856489426250814 * m + 1),
            k == t * 4787856489426250814,
    ;
    vstd::arithmetic::div_mod::lemma_mod_multiples_vanish(k, t as int, m);
    vstd::arithmetic::div_mod::lemma_small_mod(t as nat, m as nat);
}

/// Nothing can be set in a session that does not exist.
pub proof fn law_set_needs_session(
    sessions: Map<Seq<char>, SessionView>,
    id: Seq<char>,
    key: Seq<char>,
    value: Seq<char>,
    now: u64,
)
    requires
        !sessions.contains_key(id),
    ensures
        after_set(sessions, id, key, value, now) == sessions,
{
}

} // verus!
