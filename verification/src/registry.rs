//! The session coordinator: a registry of session members keyed by
//! connection, and the join, bootstrap, broadcast, forward and disconnect
//! protocols over it. Methods mutate no state outside the registry and
//! return the deliveries they decide on; the caller performs the writes.
use vstd::prelude::*;

use crate::codec::{
    dec_change, dec_event, dec_login, dec_value, decode_change, decode_event, decode_login,
    decode_value, enc_change, enc_error, enc_user, enc_value, encode_change, encode_error,
    encode_user, encode_value,
};
use crate::msgs::{
    is_event, ChangeCommand, ChangeV, ErrorCommand, ErrorV, Event, LoginCommand, Member, Outbound,
    UserEvent, UserV, ValueCommand, ValueV,
};
use crate::{valid_field, MAX_STRING_LEN};

verus! {

broadcast use vstd::seq_lib::group_filter_ensures;

// ---------------------------------------------------------------------------
// Selectors over member sequences
// ---------------------------------------------------------------------------

/// The first index whose member is bound to `conn`, or `-1`.
pub open spec fn find_conn(ms: Seq<Member>, conn: u64) -> int
    decreases ms.len(),
{
    if ms.len() == 0 {
        -1
    } else if ms[0].conn == conn {
        0
    } else {
        let r = find_conn(ms.drop_first(), conn);
        if r == -1 {
            -1
        } else {
            r + 1
        }
    }
}

/// The members of one session, in join order.
pub open spec fn sel_session(ms: Seq<Member>, sid: Seq<char>) -> Seq<Member> {
    ms.filter(|m: Member| m.session_id@ == sid)
}

/// The members of one session other than `conn`, in join order.
pub open spec fn sel_others(ms: Seq<Member>, sid: Seq<char>, conn: u64) -> Seq<Member> {
    ms.filter(|m: Member| m.session_id@ == sid && m.conn != conn)
}

/// The members of one session other than `conn` whose username is `target`,
/// in join order.
pub open spec fn sel_targets(ms: Seq<Member>, sid: Seq<char>, conn: u64, target: Seq<char>) -> Seq<
    Member,
> {
    ms.filter(|m: Member| m.session_id@ == sid && m.conn != conn && m.username@ == target)
}

pub proof fn lemma_find_conn(ms: Seq<Member>, conn: u64)
    ensures
        find_conn(ms, conn) == -1 <==> (forall|t: int|
            0 <= t < ms.len() ==> (#[trigger] ms[t]).conn != conn),
        find_conn(ms, conn) != -1 ==> 0 <= find_conn(ms, conn) < ms.len() && ms[find_conn(
            ms,
            conn,
        )].conn == conn && (forall|t: int| 0 <= t < find_conn(ms, conn) ==> (#[trigger] ms[t]).conn
            != conn),
    decreases ms.len(),
{
    if ms.len() > 0 {
        lemma_find_conn(ms.drop_first(), conn);
        if ms[0].conn != conn {
            let r = find_conn(ms.drop_first(), conn);
            if r != -1 {
                assert(forall|t: int|
                    1 <= t < find_conn(ms, conn) ==> (#[trigger] ms[t]).conn == ms.drop_first()[t
                        - 1].conn);
            } else {
                assert(forall|t: int|
                    1 <= t < ms.len() ==> (#[trigger] ms[t]).conn == ms.drop_first()[t - 1].conn);
            }
        }
    }
}

pub proof fn lemma_sel_session_push(ms: Seq<Member>, x: Member, sid: Seq<char>)
    ensures
        sel_session(ms.push(x), sid) == if x.session_id@ == sid {
            sel_session(ms, sid).push(x)
        } else {
            sel_session(ms, sid)
        },
{
    reveal(Seq::filter);
    assert(ms.push(x).drop_last() =~= ms);
}

pub proof fn lemma_sel_others_push(ms: Seq<Member>, x: Member, sid: Seq<char>, conn: u64)
    ensures
        sel_others(ms.push(x), sid, conn) == if x.session_id@ == sid && x.conn != conn {
            sel_others(ms, sid, conn).push(x)
        } else {
            sel_others(ms, sid, conn)
        },
{
    reveal(Seq::filter);
    assert(ms.push(x).drop_last() =~= ms);
}

pub proof fn lemma_sel_targets_push(
    ms: Seq<Member>,
    x: Member,
    sid: Seq<char>,
    conn: u64,
    target: Seq<char>,
)
    ensures
        sel_targets(ms.push(x), sid, conn, target) == if x.session_id@ == sid && x.conn != conn
            && x.username@ == target {
            sel_targets(ms, sid, conn, target).push(x)
        } else {
            sel_targets(ms, sid, conn, target)
        },
{
    reveal(Seq::filter);
    assert(ms.push(x).drop_last() =~= ms);
}

/// Where no member is bound to `conn`, excluding `conn` excludes nothing.
pub proof fn lemma_sel_others_absent(ms: Seq<Member>, sid: Seq<char>, conn: u64)
    requires
        forall|t: int| 0 <= t < ms.len() ==> (#[trigger] ms[t]).conn != conn,
    ensures
        sel_others(ms, sid, conn) == sel_session(ms, sid),
    decreases ms.len(),
{
    reveal(Seq::filter);
    if ms.len() > 0 {
        assert(forall|t: int|
            0 <= t < ms.drop_last().len() ==> (#[trigger] ms.drop_last()[t]).conn != conn);
        lemma_sel_others_absent(ms.drop_last(), sid, conn);
        assert(ms[ms.len() - 1].conn != conn);
    }
}

// ---------------------------------------------------------------------------
// The registry
// ---------------------------------------------------------------------------

/// The shared coordinator state: every logged-in member of every session,
/// in global join order. A connection appears here exactly from the moment
/// its login succeeds until its disconnect is processed.
pub struct App {
    pub members: Vec<Member>,
}

impl App {
    /// The members of session `sid`, in join order.
    pub open spec fn members_of(self, sid: Seq<char>) -> Seq<Member> {
        sel_session(self.members@, sid)
    }

    /// The members of session `sid` other than `conn`, in join order.
    pub open spec fn others_of(self, sid: Seq<char>, conn: u64) -> Seq<Member> {
        sel_others(self.members@, sid, conn)
    }

    /// The member entry bound to `conn`, if it has completed a login.
    pub open spec fn conn_member(self, conn: u64) -> Option<Member> {
        if find_conn(self.members@, conn) == -1 {
            None
        } else {
            Some(self.members@[find_conn(self.members@, conn)])
        }
    }

    /// No two members share a connection.
    pub open spec fn inv(self) -> bool {
        forall|i: int, j: int|
            0 <= i < j < self.members@.len() ==> (#[trigger] self.members@[i]).conn != (
            #[trigger] self.members@[j]).conn
    }

    pub fn new() -> (a: App)
        ensures
            a.members@ == Seq::<Member>::empty(),
            a.inv(),
    {
        App { members: Vec::new() }
    }

    /// The index of the member bound to `conn`, if any.
    fn find_index(&self, conn: u64) -> (r: Option<usize>)
        ensures
            match r {
                Some(k) => find_conn(self.members@, conn) == k as int && k < self.members@.len()
                    && self.members@[k as int].conn == conn && self.conn_member(conn) == Some(
                    self.members@[k as int],
                ),
                None => find_conn(self.members@, conn) == -1 && self.conn_member(conn) is None,
            },
    {
        proof {
            lemma_find_conn(self.members@, conn);
        }
        let n = self.members.len();
        let mut t: usize = 0;
        while t < n
            invariant
                n == self.members@.len(),
                t <= n,
                forall|q: int| 0 <= q < t ==> (#[trigger] self.members@[q]).conn != conn,
            decreases n - t,
        {
            if self.members[t].conn == conn {
                proof {
                    lemma_find_conn(self.members@, conn);
                }
                return Some(t);
            }
            t = t + 1;
        }
        proof {
            lemma_find_conn(self.members@, conn);
        }
        None
    }

    /// The session id recorded for `conn`: what its login set, or the empty
    /// string when no login has completed.
    pub fn get_session(&self, conn: u64) -> (r: String)
        ensures
            match self.conn_member(conn) {
                Some(m) => r@ == m.session_id@,
                None => r@ == Seq::<char>::empty(),
            },
    {
        match self.find_index(conn) {
            Some(k) => self.members[k].session_id.clone(),
            None => String::new(),
        }
    }

    /// The username recorded for `conn`, or the empty string when no login
    /// has completed.
    pub fn get_username(&self, conn: u64) -> (r: String)
        ensures
            match self.conn_member(conn) {
                Some(m) => r@ == m.username@,
                None => r@ == Seq::<char>::empty(),
            },
    {
        match self.find_index(conn) {
            Some(k) => self.members[k].username.clone(),
            None => String::new(),
        }
    }

    /// All members of `session`, in join order.
    fn collect_session(&self, session: &String) -> (r: Vec<Member>)
        ensures
            r@ == sel_session(self.members@, session@),
    {
        let n = self.members.len();
        let mut r: Vec<Member> = Vec::new();
        let mut t: usize = 0;
        while t < n
            invariant
                n == self.members@.len(),
                t <= n,
                r@ == sel_session(self.members@.subrange(0, t as int), session@),
            decreases n - t,
        {
            let ghost pref = self.members@.subrange(0, t as int);
            if self.members[t].session_id == *session {
                let m = self.members[t].duplicate();
                r.push(m);
            }
            t = t + 1;
            proof {
                lemma_sel_session_push(pref, self.members@[t - 1], session@);
                assert(pref.push(self.members@[t - 1]) =~= self.members@.subrange(0, t as int));
            }
        }
        proof {
            assert(self.members@.subrange(0, n as int) =~= self.members@);
        }
        r
    }

    /// The members that share `conn`'s session, except `conn` itself, in
    /// join order; empty when `conn` has not completed a login.
    pub fn get_others(&self, conn: u64) -> (r: Vec<Member>)
        ensures
            match self.conn_member(conn) {
                Some(m) => r@ == self.others_of(m.session_id@, conn),
                None => r@ == Seq::<Member>::empty(),
            },
    {
        let k = match self.find_index(conn) {
            Some(k) => k,
            None => {
                let r: Vec<Member> = Vec::new();
                return r;
            },
        };
        let sid = self.members[k].session_id.clone();
        let n = self.members.len();
        let mut r: Vec<Member> = Vec::new();
        let mut t: usize = 0;
        while t < n
            invariant
                n == self.members@.len(),
                t <= n,
                sid@ == self.members@[k as int].session_id@,
                k < n,
                r@ == sel_others(self.members@.subrange(0, t as int), sid@, conn),
            decreases n - t,
        {
            let ghost pref = self.members@.subrange(0, t as int);
            if self.members[t].conn != conn && self.members[t].session_id == sid {
                let m = self.members[t].duplicate();
                r.push(m);
            }
            t = t + 1;
            proof {
                lemma_sel_others_push(pref, self.members@[t - 1], sid@, conn);
                assert(pref.push(self.members@[t - 1]) =~= self.members@.subrange(0, t as int));
            }
        }
        proof {
            assert(self.members@.subrange(0, n as int) =~= self.members@);
        }
        r
    }

    /// Validation failed: the error event sent back to the offending
    /// connection, and nothing else.
    pub open spec fn login_rejected(self, out: Seq<Outbound>, conn: u64, u: Seq<char>, ts: u64) -> bool {
        &&& out.len() == 1
        &&& out[0].to == conn
        &&& is_event(
            out[0].event,
            u,
            "error"@,
            enc_error(ErrorV { msg: "Values received exceed max length or empty"@ }),
            ts,
        )
    }

    /// The deliveries a successful login decides on: for every pre-existing
    /// member, one `add_user` event to it (carrying the joiner) and one to
    /// the joiner (carrying that member); then, if the session was not
    /// empty, one `send_value` petition to the earliest pre-existing member.
    pub open spec fn login_events_ok(
        out: Seq<Outbound>,
        conn: u64,
        u: Seq<char>,
        sid: Seq<char>,
        prior: Seq<Member>,
        ts: u64,
    ) -> bool {
        &&& out.len() == 2 * prior.len() + if prior.len() > 0 {
            1int
        } else {
            0int
        }
        &&& (forall|i: int|
            0 <= i < prior.len() ==> {
                let m = #[trigger] prior[i];
                &&& out[2 * i].to == m.conn
                &&& is_event(
                    out[2 * i].event,
                    u,
                    "add_user"@,
                    enc_user(UserV { username: u }),
                    ts,
                )
                &&& out[2 * i + 1].to == conn
                &&& is_event(
                    out[2 * i + 1].event,
                    u,
                    "add_user"@,
                    enc_user(UserV { username: m.username@ }),
                    ts,
                )
            })
        &&& (prior.len() > 0 ==> out.last().to == prior[0].conn && is_event(
            out.last().event,
            u,
            "send_value"@,
            Seq::empty(),
            ts,
        ))
    }

    /// What `login` does, for every starting state and input: an invalid
    /// login always draws exactly one error event back and changes nothing;
    /// a valid repeated login is a silent no-op; a valid first login
    /// appends exactly one member and decides the deliveries of
    /// `login_events_ok`.
    pub open spec fn login_post(
        pre: App,
        post: App,
        out: Seq<Outbound>,
        conn: u64,
        u: Seq<char>,
        sid: Seq<char>,
        ts: u64,
    ) -> bool {
        if !valid_field(u) || !valid_field(sid) {
            post == pre && pre.login_rejected(out, conn, u, ts)
        } else if pre.conn_member(conn) is Some {
            post == pre && out == Seq::<Outbound>::empty()
        } else {
            let m = post.members@.last();
            &&& post.members@ == pre.members@.push(m)
            &&& m.conn == conn
            &&& m.username@ == u
            &&& m.session_id@ == sid
            &&& Self::login_events_ok(out, conn, u, sid, sel_session(pre.members@, sid), ts)
        }
    }

    /// One event of one kind to every recipient, in recipient order.
    pub open spec fn fanout_events_ok(
        out: Seq<Outbound>,
        rcpts: Seq<Member>,
        u: Seq<char>,
        kind: Seq<char>,
        data: Seq<char>,
        ts: u64,
    ) -> bool {
        &&& out.len() == rcpts.len()
        &&& (forall|i: int|
            0 <= i < rcpts.len() ==> (#[trigger] out[i]).to == rcpts[i].conn && is_event(
                out[i].event,
                u,
                kind,
                data,
                ts,
            ))
    }

    /// What `remove` does: without a completed login nothing happens; with
    /// one, exactly the member bound to `conn` leaves, and every remaining
    /// member of its session is sent one `remove_user` event.
    pub open spec fn remove_post(pre: App, post: App, out: Seq<Outbound>, conn: u64, ts: u64) -> bool {
        match pre.conn_member(conn) {
            None => post == pre && out == Seq::<Outbound>::empty(),
            Some(m) => {
                &&& post.members@ == pre.members@.remove(find_conn(pre.members@, conn))
                &&& Self::fanout_events_ok(
                    out,
                    sel_session(post.members@, m.session_id@),
                    m.username@,
                    "remove_user"@,
                    enc_user(UserV { username: m.username@ }),
                    ts,
                )
            },
        }
    }

    /// Append a member for `conn` and return a snapshot of the members the
    /// session held before the append, in join order.
    pub fn add_user(&mut self, conn: u64, username: String, session: String) -> (prior: Vec<
        Member,
    >)
        ensures
            final(self).members@.len() == old(self).members@.len() + 1,
            final(self).members@.subrange(0, old(self).members@.len() as int) == old(
                self,
            ).members@,
            final(self).members@.last().conn == conn,
            final(self).members@.last().username@ == username@,
            final(self).members@.last().session_id@ == session@,
            prior@ == sel_session(old(self).members@, session@),
    {
        let prior = self.collect_session(&session);
        self.members.push(Member { username, session_id: session, conn });
        proof {
            assert(final(self).members@.subrange(0, old(self).members@.len() as int) =~= old(
                self,
            ).members@);
        }
        prior
    }

    /// Process a login command from `conn`: validate, join the session, and
    /// decide the announcements and the value petition.
    #[verifier::rlimit(50)]
    pub fn login(&mut self, conn: u64, cmd: &LoginCommand, ts: u64) -> (out: Vec<Outbound>)
        ensures
            Self::login_post(
                *old(self),
                *final(self),
                out@,
                conn,
                cmd@.username,
                cmd@.session_id,
                ts,
            ),
            old(self).inv() ==> final(self).inv(),
    {
        let u_empty = cmd.username.as_str().is_empty();
        let s_empty = cmd.session_id.as_str().is_empty();
        let ul = str_len(&cmd.username);
        let sl = str_len(&cmd.session_id);
        if u_empty || ul > MAX_STRING_LEN || s_empty || sl > MAX_STRING_LEN {
            let ev = Event {
                username: cmd.username.clone(),
                event: String::from_str("error"),
                data: encode_error(
                    &ErrorCommand {
                        msg: String::from_str("Values received exceed max length or empty"),
                    },
                ),
                ts,
            };
            let mut out: Vec<Outbound> = Vec::new();
            out.push(Outbound { to: conn, event: ev });
            return out;
        }
        if self.find_index(conn).is_some() {
            return Vec::new();
        }
        proof {
            lemma_find_conn(old(self).members@, conn);
        }
        let prior = self.add_user(conn, cmd.username.clone(), cmd.session_id.clone());
        proof {
            assert(self.members@ =~= old(self).members@.push(self.members@.last()));
            lemma_find_conn(self.members@, conn);
            assert(find_conn(self.members@, conn) != -1);
            assert(find_conn(self.members@, conn) == old(self).members@.len() as int);
        }
        let data_joiner = encode_user(&UserEvent { username: cmd.username.clone() });
        let mut out: Vec<Outbound> = Vec::new();
        let mut t: usize = 0;
        while t < prior.len()
            invariant
                t <= prior@.len(),
                out@.len() == 2 * t,
                data_joiner@ == enc_user(UserV { username: cmd@.username }),
                forall|i: int|
                    0 <= i < t ==> {
                        let m = #[trigger] prior@[i];
                        &&& out@[2 * i].to == m.conn
                        &&& is_event(
                            out@[2 * i].event,
                            cmd@.username,
                            "add_user"@,
                            enc_user(UserV { username: cmd@.username }),
                            ts,
                        )
                        &&& out@[2 * i + 1].to == conn
                        &&& is_event(
                            out@[2 * i + 1].event,
                            cmd@.username,
                            "add_user"@,
                            enc_user(UserV { username: m.username@ }),
                            ts,
                        )
                    },
            decreases prior@.len() - t,
        {
            let ghost old_out = out@;
            let to_existing = Event {
                username: cmd.username.clone(),
                event: String::from_str("add_user"),
                data: data_joiner.clone(),
                ts,
            };
            out.push(Outbound { to: prior[t].conn, event: to_existing });
            let to_joiner = Event {
                username: cmd.username.clone(),
                event: String::from_str("add_user"),
                data: encode_user(&UserEvent { username: prior[t].username.clone() }),
                ts,
            };
            out.push(Outbound { to: conn, event: to_joiner });
            t = t + 1;
            proof {
                let ghost prev = t - 1;
                assert forall|i: int| 0 <= i < t implies {
                    let m = #[trigger] prior@[i];
                    &&& out@[2 * i].to == m.conn
                    &&& is_event(
                        out@[2 * i].event,
                        cmd@.username,
                        "add_user"@,
                        enc_user(UserV { username: cmd@.username }),
                        ts,
                    )
                    &&& out@[2 * i + 1].to == conn
                    &&& is_event(
                        out@[2 * i + 1].event,
                        cmd@.username,
                        "add_user"@,
                        enc_user(UserV { username: m.username@ }),
                        ts,
                    )
                } by {
                    let m = prior@[i];
                    if i < prev {
                        assert(out@[2 * i] == old_out[2 * i]);
                        assert(out@[2 * i + 1] == old_out[2 * i + 1]);
                    } else {
                        assert(out@[2 * i] == out@[out@.len() - 2]);
                        assert(out@[2 * i + 1] == out@[out@.len() - 1]);
                    }
                }
            }
        }
        proof {
            // after the append, `conn`'s fellow members are exactly the prior
            // snapshot, so the petition goes to the earliest of them
            lemma_sel_others_push(
                old(self).members@,
                self.members@.last(),
                cmd@.session_id,
                conn,
            );
            lemma_sel_others_absent(old(self).members@, cmd@.session_id, conn);
        }
        let ghost pairs_out = out@;
        let mut pet = self.petition_for_value(conn, ts);
        let ghost petv = pet@;
        out.append(&mut pet);
        proof {
            // appending the petition leaves the announcement pairs in place
            assert forall|i: int| 0 <= i < prior@.len() implies {
                let m = #[trigger] prior@[i];
                &&& out@[2 * i].to == m.conn
                &&& is_event(
                    out@[2 * i].event,
                    cmd@.username,
                    "add_user"@,
                    enc_user(UserV { username: cmd@.username }),
                    ts,
                )
                &&& out@[2 * i + 1].to == conn
                &&& is_event(
                    out@[2 * i + 1].event,
                    cmd@.username,
                    "add_user"@,
                    enc_user(UserV { username: m.username@ }),
                    ts,
                )
            } by {
                let m = prior@[i];
                assert(out@[2 * i] == pairs_out[2 * i]);
                assert(out@[2 * i + 1] == pairs_out[2 * i + 1]);
            }
            if prior@.len() > 0 {
                assert(out@.last() == petv[0]);
            }
        }
        out
    }

    /// Ask exactly one existing member of `conn`'s session — the earliest
    /// joiner other than `conn` — to supply the current document value.
    pub fn petition_for_value(&self, conn: u64, ts: u64) -> (out: Vec<Outbound>)
        ensures
            match self.conn_member(conn) {
                None => out@ == Seq::<Outbound>::empty(),
                Some(m) => {
                    let others = self.others_of(m.session_id@, conn);
                    &&& out@.len() == if others.len() > 0 {
                        1int
                    } else {
                        0int
                    }
                    &&& (others.len() > 0 ==> out@[0].to == others[0].conn && is_event(
                        out@[0].event,
                        m.username@,
                        "send_value"@,
                        Seq::empty(),
                        ts,
                    ))
                },
            },
    {
        let k = match self.find_index(conn) {
            Some(k) => k,
            None => {
                return Vec::new();
            },
        };
        let u = self.members[k].username.clone();
        let others = self.get_others(conn);
        let mut out: Vec<Outbound> = Vec::new();
        if others.len() > 0 {
            let ev = Event {
                username: u,
                event: String::from_str("send_value"),
                data: String::new(),
                ts,
            };
            out.push(Outbound { to: others[0].conn, event: ev });
        }
        out
    }

    /// Broadcast a change command from `conn` to every other member of its
    /// session, never back to `conn`.
    pub fn change(&self, conn: u64, cmd: &ChangeCommand, ts: u64) -> (out: Vec<Outbound>)
        ensures
            self.change_post(out@, conn, cmd@, ts),
    {
        let k = match self.find_index(conn) {
            Some(k) => k,
            None => {
                return Vec::new();
            },
        };
        let u = self.members[k].username.clone();
        let others = self.get_others(conn);
        let data = encode_change(cmd);
        let out = fanout(&others, &u, "change", &data, ts);
        proof {
            let ghost m = self.conn_member(conn).unwrap();
            assert forall|i: int| 0 <= i < out@.len() implies (#[trigger] out@[i]).to != conn by {
                assert(out@[i].to == self.others_of(m.session_id@, conn)[i].conn);
            }
        }
        out
    }

    /// Forward a document value from `conn` to every other member of its
    /// session whose username equals the command's target; no match means
    /// nothing is sent.
    pub fn forward_value(&self, conn: u64, cmd: &ValueCommand, ts: u64) -> (out: Vec<Outbound>)
        ensures
            self.forward_post(out@, conn, cmd@, ts),
    {
        let k = match self.find_index(conn) {
            Some(k) => k,
            None => {
                return Vec::new();
            },
        };
        let u = self.members[k].username.clone();
        let sid = self.members[k].session_id.clone();
        let n = self.members.len();
        let mut rcpts: Vec<Member> = Vec::new();
        let mut t: usize = 0;
        while t < n
            invariant
                n == self.members@.len(),
                t <= n,
                sid@ == self.members@[k as int].session_id@,
                k < n,
                rcpts@ == sel_targets(
                    self.members@.subrange(0, t as int),
                    sid@,
                    conn,
                    cmd@.target,
                ),
            decreases n - t,
        {
            let ghost pref = self.members@.subrange(0, t as int);
            if self.members[t].conn != conn && self.members[t].session_id == sid
                && self.members[t].username == cmd.target {
                let m = self.members[t].duplicate();
                rcpts.push(m);
            }
            t = t + 1;
            proof {
                lemma_sel_targets_push(pref, self.members@[t - 1], sid@, conn, cmd@.target);
                assert(pref.push(self.members@[t - 1]) =~= self.members@.subrange(0, t as int));
            }
        }
        proof {
            assert(self.members@.subrange(0, n as int) =~= self.members@);
        }
        let data = encode_value(&ValueCommand { target: u.clone(), text: cmd.text.clone() });
        fanout(&rcpts, &u, "set_value", &data, ts)
    }

    /// What `change` does: no completed login means nothing is sent;
    /// otherwise one `change` event per fellow member, never back to `conn`.
    pub open spec fn change_post(self, out: Seq<Outbound>, conn: u64, cv: ChangeV, ts: u64) -> bool {
        match self.conn_member(conn) {
            None => out == Seq::<Outbound>::empty(),
            Some(m) => {
                &&& Self::fanout_events_ok(
                    out,
                    self.others_of(m.session_id@, conn),
                    m.username@,
                    "change"@,
                    enc_change(cv),
                    ts,
                )
                &&& (forall|i: int| 0 <= i < out.len() ==> (#[trigger] out[i]).to != conn)
            },
        }
    }

    /// What `forward_value` does: one `set_value` event to every fellow
    /// member whose username equals the target, carrying the text and
    /// attributed to the sender; no match means nothing is sent.
    pub open spec fn forward_post(self, out: Seq<Outbound>, conn: u64, vv: ValueV, ts: u64) -> bool {
        match self.conn_member(conn) {
            None => out == Seq::<Outbound>::empty(),
            Some(m) => Self::fanout_events_ok(
                out,
                sel_targets(self.members@, m.session_id@, conn, vv.target),
                m.username@,
                "set_value"@,
                enc_value(ValueV { target: m.username@, text: vv.text }),
                ts,
            ),
        }
    }

    /// Process the disconnect of `conn`: drop its member entry, if any, and
    /// announce the departure to the remaining members of its session. A
    /// connection that never completed a login, or was already removed,
    /// changes nothing.
    pub fn remove(&mut self, conn: u64, ts: u64) -> (out: Vec<Outbound>)
        ensures
            Self::remove_post(*old(self), *final(self), out@, conn, ts),
            old(self).inv() ==> final(self).inv(),
    {
        let k = match self.find_index(conn) {
            Some(k) => k,
            None => {
                return Vec::new();
            },
        };
        let u = self.members[k].username.clone();
        let sid = self.members[k].session_id.clone();
        self.members.remove(k);
        proof {
            old(self).members@.remove_ensures(k as int);
        }
        let remaining = self.collect_session(&sid);
        let data = encode_user(&UserEvent { username: u.clone() });
        fanout(&remaining, &u, "remove_user", &data, ts)
    }
}

impl App {
    /// A recognized event whose payload would not decode: the error event
    /// sent back to the offending connection, and nothing else.
    pub open spec fn payload_rejected(out: Seq<Outbound>, conn: u64, u: Seq<char>, ts: u64) -> bool {
        &&& out.len() == 1
        &&& out[0].to == conn
        &&& is_event(
            out[0].event,
            u,
            "error"@,
            enc_error(ErrorV { msg: "Malformed command payload"@ }),
            ts,
        )
    }

    /// What `handle_text` does with one inbound frame: an envelope that does
    /// not decode is absorbed silently; a recognized command whose payload
    /// does not decode draws an error event back to the sender; `login`,
    /// `change` and `set_value` commands act as their protocol says; any
    /// other event kind is ignored.
    pub open spec fn handle_post(
        pre: App,
        post: App,
        out: Seq<Outbound>,
        conn: u64,
        s: Seq<char>,
        ts: u64,
    ) -> bool {
        match dec_event(s) {
            None => post == pre && out == Seq::<Outbound>::empty(),
            Some(ev) => if ev.event == "login"@ {
                match dec_login(ev.data) {
                    Some(l) => Self::login_post(pre, post, out, conn, l.username, l.session_id, ts),
                    None => post == pre && Self::payload_rejected(out, conn, ev.username, ts),
                }
            } else if ev.event == "change"@ {
                post == pre && match dec_change(ev.data) {
                    Some(cv) => pre.change_post(out, conn, cv, ts),
                    None => Self::payload_rejected(out, conn, ev.username, ts),
                }
            } else if ev.event == "set_value"@ {
                post == pre && match dec_value(ev.data) {
                    Some(vv) => pre.forward_post(out, conn, vv, ts),
                    None => Self::payload_rejected(out, conn, ev.username, ts),
                }
            } else {
                post == pre && out == Seq::<Outbound>::empty()
            },
        }
    }

    /// Decode one inbound text frame from `conn` and run the command it
    /// carries.
    pub fn handle_text(&mut self, conn: u64, text: &str, ts: u64) -> (out: Vec<Outbound>)
        ensures
            Self::handle_post(*old(self), *final(self), out@, conn, text@, ts),
            old(self).inv() ==> final(self).inv(),
    {
        let ev = match decode_event(text) {
            Some(e) => e,
            None => {
                return Vec::new();
            },
        };
        if ev.event == String::from_str("login") {
            match decode_login(ev.data.as_str()) {
                Some(cmd) => self.login(conn, &cmd, ts),
                None => payload_error(conn, &ev.username, ts),
            }
        } else if ev.event == String::from_str("change") {
            match decode_change(ev.data.as_str()) {
                Some(cmd) => self.change(conn, &cmd, ts),
                None => payload_error(conn, &ev.username, ts),
            }
        } else if ev.event == String::from_str("set_value") {
            match decode_value(ev.data.as_str()) {
                Some(cmd) => self.forward_value(conn, &cmd, ts),
                None => payload_error(conn, &ev.username, ts),
            }
        } else {
            Vec::new()
        }
    }
}

/// The length of a string's UTF-8 encoding, in code units (what login
/// validation bounds).
fn str_len(s: &String) -> (r: usize)
    ensures
        r == vstd::utf8::encode_utf8(s@).len() as usize,
{
    let sl = s.as_str();
    proof {
        assert(vstd::string::StringSliceAdditionalSpecFns::spec_bytes(sl)
            == vstd::utf8::encode_utf8(s@));
    }
    sl.len()
}

/// The error event drawn by a recognized command whose payload would not
/// decode.
fn payload_error(conn: u64, username: &String, ts: u64) -> (out: Vec<Outbound>)
    ensures
        App::payload_rejected(out@, conn, username@, ts),
{
    let ev = Event {
        username: username.clone(),
        event: String::from_str("error"),
        data: encode_error(&ErrorCommand { msg: String::from_str("Malformed command payload") }),
        ts,
    };
    let mut out: Vec<Outbound> = Vec::new();
    out.push(Outbound { to: conn, event: ev });
    out
}

/// One `kind` event, attributed to `username` and carrying `data`, for each
/// recipient in order.
fn fanout(rcpts: &Vec<Member>, username: &String, kind: &str, data: &String, ts: u64) -> (out: Vec<
    Outbound,
>)
    ensures
        App::fanout_events_ok(out@, rcpts@, username@, kind@, data@, ts),
{
    let mut out: Vec<Outbound> = Vec::new();
    let mut t: usize = 0;
    while t < rcpts.len()
        invariant
            t <= rcpts@.len(),
            out@.len() == t as int,
            forall|i: int|
                0 <= i < t ==> (#[trigger] out@[i]).to == rcpts@[i].conn && is_event(
                    out@[i].event,
                    username@,
                    kind@,
                    data@,
                    ts,
                ),
        decreases rcpts@.len() - t,
    {
        let ev = Event {
            username: username.clone(),
            event: String::from_str(kind),
            data: data.clone(),
            ts,
        };
        out.push(Outbound { to: rcpts[t].conn, event: ev });
        t = t + 1;
    }
    out
}

} // verus!
