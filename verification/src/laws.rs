//! Laws of the coordinator, proved against the protocol predicates that the
//! registry's methods ensure: how one session's member list evolves, that a
//! connection without a completed login stands in no session, that a login
//! petitions exactly one existing member, and what forwarding a value
//! delivers.
use vstd::prelude::*;

use crate::codec::{dec_value, lemma_value_round_trip};
use crate::msgs::{Member, Outbound, ValueV};
use crate::registry::{
    find_conn, lemma_find_conn, lemma_sel_session_push, sel_session, sel_targets, App,
};

verus! {

// ---------------------------------------------------------------------------
// Membership of filtered views
// ---------------------------------------------------------------------------

/// Every member of a session view stands in the registry.
pub proof fn lemma_sel_session_conns(ms: Seq<Member>, sid: Seq<char>)
    ensures
        forall|t: int|
            0 <= t < sel_session(ms, sid).len() ==> exists|q: int|
                0 <= q < ms.len() && ms[q] == #[trigger] sel_session(ms, sid)[t],
    decreases ms.len(),
{
    if ms.len() == 0 {
        reveal(Seq::filter);
    } else {
        let d = ms.drop_last();
        let x = ms.last();
        assert(ms =~= d.push(x));
        lemma_sel_session_push(d, x, sid);
        lemma_sel_session_conns(d, sid);
        assert forall|t: int| 0 <= t < sel_session(ms, sid).len() implies exists|q: int|
            0 <= q < ms.len() && ms[q] == #[trigger] sel_session(ms, sid)[t] by {
            if t < sel_session(d, sid).len() {
                assert(sel_session(ms, sid)[t] == sel_session(d, sid)[t]);
                let q = choose|q: int| 0 <= q < d.len() && d[q] == sel_session(d, sid)[t];
                assert(ms[q] == sel_session(ms, sid)[t]);
            } else {
                assert(sel_session(ms, sid)[t] == x);
                assert(ms[ms.len() - 1] == sel_session(ms, sid)[t]);
            }
        }
    }
}

/// A connection that has not completed a login appears in no session:
/// before its first login, and again after its disconnect, no session view
/// holds it.
pub proof fn lemma_unlogged_in_no_session(app: App, conn: u64)
    requires
        app.conn_member(conn) is None,
    ensures
        forall|sid: Seq<char>, t: int|
            0 <= t < app.members_of(sid).len() ==> (#[trigger] app.members_of(sid)[t]).conn
                != conn,
{
    lemma_find_conn(app.members@, conn);
    assert forall|sid: Seq<char>, t: int|
        0 <= t < app.members_of(sid).len() implies (#[trigger] app.members_of(sid)[t]).conn
        != conn by {
        lemma_sel_session_conns(app.members@, sid);
        let q = choose|q: int|
            0 <= q < app.members@.len() && app.members@[q] == sel_session(app.members@, sid)[t];
        assert(app.members@[q].conn != conn);
    }
}

// ---------------------------------------------------------------------------
// The petition goes to exactly one member
// ---------------------------------------------------------------------------

/// How many of the decided deliveries carry events of one kind.
pub open spec fn count_kind(out: Seq<Outbound>, kind: Seq<char>) -> int
    decreases out.len(),
{
    if out.len() == 0 {
        0
    } else {
        (if out.last().event.event@ == kind {
            1int
        } else {
            0int
        }) + count_kind(out.drop_last(), kind)
    }
}

proof fn lemma_count_kind_none(out: Seq<Outbound>, kind: Seq<char>)
    requires
        forall|i: int| 0 <= i < out.len() ==> (#[trigger] out[i]).event.event@ != kind,
    ensures
        count_kind(out, kind) == 0,
    decreases out.len(),
{
    if out.len() > 0 {
        lemma_count_kind_none(out.drop_last(), kind);
    }
}

/// A successful login sends exactly one value petition when the session
/// already had members — to the earliest of them — and none when it was
/// empty.
pub proof fn lemma_petition_exactly_one(
    out: Seq<Outbound>,
    conn: u64,
    u: Seq<char>,
    sid: Seq<char>,
    prior: Seq<Member>,
    ts: u64,
)
    requires
        App::login_events_ok(out, conn, u, sid, prior, ts),
    ensures
        count_kind(out, "send_value"@) == if prior.len() > 0 {
            1int
        } else {
            0int
        },
        prior.len() > 0 ==> out.last().to == prior[0].conn,
{
    reveal_strlit("send_value");
    reveal_strlit("add_user");
    assert("add_user"@ != "send_value"@) by {
        assert("add_user"@.len() != "send_value"@.len());
    }
    if prior.len() == 0 {
        lemma_count_kind_none(out, "send_value"@);
    } else {
        let body = out.drop_last();
        assert forall|i: int| 0 <= i < body.len() implies (#[trigger] body[i]).event.event@
            != "send_value"@ by {
            let k = i / 2;
            vstd::arithmetic::div_mod::lemma_fundamental_div_mod(i, 2);
            vstd::arithmetic::div_mod::lemma_mod_bound(i, 2);
            assert(0 <= k < prior.len());
            let mk = prior[k];
            assert(body[i] == out[i]);
            if i % 2 == 0 {
                assert(i == 2 * k);
                assert(out[2 * k].event.event@ == "add_user"@);
            } else {
                assert(i == 2 * k + 1);
                assert(out[2 * k + 1].event.event@ == "add_user"@);
            }
        }
        lemma_count_kind_none(body, "send_value"@);
        assert(out.last().event.event@ == "send_value"@);
    }
}

// ---------------------------------------------------------------------------
// Forwarding a value
// ---------------------------------------------------------------------------

/// Forwarding a value to a target that matches no fellow member sends
/// nothing; to a target that matches exactly one, it sends that member one
/// `set_value` event whose payload decodes back to the forwarded text,
/// attributed to the sender.
pub proof fn lemma_forward_value_delivery(
    app: App,
    out: Seq<Outbound>,
    conn: u64,
    m: Member,
    target: Seq<char>,
    text: Seq<char>,
    ts: u64,
)
    requires
        app.conn_member(conn) == Some(m),
        app.forward_post(out, conn, ValueV { target, text }, ts),
    ensures
        sel_targets(app.members@, m.session_id@, conn, target).len() == 0 ==> out.len() == 0,
        sel_targets(app.members@, m.session_id@, conn, target).len() == 1 ==> {
            &&& out.len() == 1
            &&& out[0].to == sel_targets(app.members@, m.session_id@, conn, target)[0].conn
            &&& out[0].event.event@ == "set_value"@
            &&& out[0].event.username@ == m.username@
            &&& dec_value(out[0].event.data@) == Some(ValueV { target: m.username@, text })
        },
{
    let rcpts = sel_targets(app.members@, m.session_id@, conn, target);
    if rcpts.len() == 1 {
        lemma_value_round_trip(ValueV { target: m.username@, text });
    }
}

// ---------------------------------------------------------------------------
// How one session's member list evolves
// ---------------------------------------------------------------------------

/// A successful login appends the new member to its session's view and
/// leaves every other session's view unchanged.
pub proof fn lemma_members_of_login(pre: App, post: App, m: Member)
    requires
        post.members@ == pre.members@.push(m),
    ensures
        post.members_of(m.session_id@) == pre.members_of(m.session_id@).push(m),
        forall|sid2: Seq<char>|
            sid2 != m.session_id@ ==> #[trigger] post.members_of(sid2) == pre.members_of(sid2),
{
    assert forall|sid2: Seq<char>| true implies #[trigger] sel_session(post.members@, sid2) == (
        if m.session_id@ == sid2 {
            sel_session(pre.members@, sid2).push(m)
        } else {
            sel_session(pre.members@, sid2)
        }) by {
        lemma_sel_session_push(pre.members@, m, sid2);
    }
}

/// The members not bound to `conn`, in order: what one disconnect leaves of
/// a member list.
pub open spec fn sel_not_conn(ms: Seq<Member>, conn: u64) -> Seq<Member> {
    ms.filter(|x: Member| x.conn != conn)
}

pub proof fn lemma_sel_not_conn_push(ms: Seq<Member>, x: Member, conn: u64)
    ensures
        sel_not_conn(ms.push(x), conn) == if x.conn != conn {
            sel_not_conn(ms, conn).push(x)
        } else {
            sel_not_conn(ms, conn)
        },
{
    reveal(Seq::filter);
    assert(ms.push(x).drop_last() =~= ms);
}

/// Removing a connection that is not there removes nothing.
pub proof fn lemma_sel_not_conn_noop(ms: Seq<Member>, conn: u64)
    requires
        forall|t: int| 0 <= t < ms.len() ==> (#[trigger] ms[t]).conn != conn,
    ensures
        sel_not_conn(ms, conn) == ms,
    decreases ms.len(),
{
    reveal(Seq::filter);
    if ms.len() > 0 {
        let d = ms.drop_last();
        assert(forall|t: int| 0 <= t < d.len() ==> (#[trigger] d[t]).conn != conn);
        lemma_sel_not_conn_noop(d, conn);
        assert(ms[ms.len() - 1].conn != conn);
        assert(sel_not_conn(ms, conn) =~= ms);
    }
}

proof fn lemma_sel_session_add(a: Seq<Member>, b: Seq<Member>, sid: Seq<char>)
    ensures
        sel_session(a + b, sid) == sel_session(a, sid) + sel_session(b, sid),
    decreases b.len(),
{
    reveal(Seq::filter);
    if b.len() == 0 {
        assert(a + b =~= a);
        assert(sel_session(a, sid) + sel_session(b, sid) =~= sel_session(a, sid));
    } else {
        let d = b.drop_last();
        let x = b.last();
        assert(a + b =~= (a + d).push(x));
        lemma_sel_session_add(a, d, sid);
        lemma_sel_session_push(a + d, x, sid);
        lemma_sel_session_push(d, x, sid);
        assert(b =~= d.push(x));
        if x.session_id@ == sid {
            assert(sel_session(a, sid) + sel_session(b, sid) =~= (sel_session(a, sid)
                + sel_session(d, sid)).push(x));
        } else {
            assert(sel_session(b, sid) == sel_session(d, sid));
        }
    }
}

proof fn lemma_sel_not_conn_add(a: Seq<Member>, b: Seq<Member>, conn: u64)
    ensures
        sel_not_conn(a + b, conn) == sel_not_conn(a, conn) + sel_not_conn(b, conn),
    decreases b.len(),
{
    reveal(Seq::filter);
    if b.len() == 0 {
        assert(a + b =~= a);
        assert(sel_not_conn(a, conn) + sel_not_conn(b, conn) =~= sel_not_conn(a, conn));
    } else {
        let d = b.drop_last();
        let x = b.last();
        assert(a + b =~= (a + d).push(x));
        lemma_sel_not_conn_add(a, d, conn);
        lemma_sel_not_conn_push(a + d, x, conn);
        lemma_sel_not_conn_push(d, x, conn);
        assert(b =~= d.push(x));
        if x.conn != conn {
            assert(sel_not_conn(a, conn) + sel_not_conn(b, conn) =~= (sel_not_conn(a, conn)
                + sel_not_conn(d, conn)).push(x));
        } else {
            assert(sel_not_conn(b, conn) == sel_not_conn(d, conn));
        }
    }
}

/// A disconnect removes the leaving connection from its session's view —
/// exactly it — and leaves every other session's view unchanged (stated
/// uniformly: on other sessions the removal filter removes nothing).
pub proof fn lemma_members_of_remove(pre: App, post: App, conn: u64)
    requires
        pre.inv(),
        pre.conn_member(conn) is Some,
        post.members@ == pre.members@.remove(find_conn(pre.members@, conn)),
    ensures
        forall|sid2: Seq<char>| #[trigger]
            post.members_of(sid2) == sel_not_conn(pre.members_of(sid2), conn),
{
    let ms = pre.members@;
    let k = find_conn(ms, conn);
    lemma_find_conn(ms, conn);
    assert(0 <= k < ms.len() && ms[k].conn == conn);
    assert(forall|t: int| 0 <= t < ms.len() && t != k ==> (#[trigger] ms[t]).conn != conn);
    let a = ms.subrange(0, k);
    let mid = seq![ms[k]];
    let b = ms.subrange(k + 1, ms.len() as int);
    assert(ms =~= a + mid + b);
    ms.remove_ensures(k);
    assert(post.members@ =~= a + b);
    assert forall|sid2: Seq<char>| #[trigger]
        post.members_of(sid2) == sel_not_conn(pre.members_of(sid2), conn) by {
        lemma_sel_session_add(a, b, sid2);
        lemma_sel_session_add(a + mid, b, sid2);
        lemma_sel_session_add(a, mid, sid2);
        // the removal filter, distributed over the three parts
        lemma_sel_not_conn_add(sel_session(a, sid2) + sel_session(mid, sid2), sel_session(b, sid2), conn);
        lemma_sel_not_conn_add(sel_session(a, sid2), sel_session(mid, sid2), conn);
        // the parts before and after `k` hold no member bound to `conn`
        assert forall|t: int| 0 <= t < sel_session(a, sid2).len() implies (
        #[trigger] sel_session(a, sid2)[t]).conn != conn by {
            lemma_sel_session_conns(a, sid2);
            let q = choose|q: int| 0 <= q < a.len() && a[q] == sel_session(a, sid2)[t];
            assert(a[q] == ms[q]);
        }
        lemma_sel_not_conn_noop(sel_session(a, sid2), conn);
        assert forall|t: int| 0 <= t < sel_session(b, sid2).len() implies (
        #[trigger] sel_session(b, sid2)[t]).conn != conn by {
            lemma_sel_session_conns(b, sid2);
            let q = choose|q: int| 0 <= q < b.len() && b[q] == sel_session(b, sid2)[t];
            assert(b[q] == ms[k + 1 + q]);
        }
        lemma_sel_not_conn_noop(sel_session(b, sid2), conn);
        // the member at `k` itself is removed by the filter
        assert(sel_not_conn(sel_session(mid, sid2), conn) =~= Seq::<Member>::empty()) by {
            reveal(Seq::filter);
            let sm = sel_session(mid, sid2);
            assert(mid.len() == 1);
            assert(mid.drop_last() =~= Seq::<Member>::empty());
            assert(mid.last() == ms[k]);
            if ms[k].session_id@ == sid2 {
                assert(sm == sel_session(mid.drop_last(), sid2).push(ms[k]));
                assert(sm.len() == 1);
                assert(sm.drop_last() =~= Seq::<Member>::empty());
                assert(sm.last() == ms[k]);
                assert(ms[k].conn == conn);
                assert(sel_not_conn(sm, conn) == sel_not_conn(sm.drop_last(), conn));
            } else {
                assert(sm == sel_session(mid.drop_last(), sid2));
            }
        }
        assert(pre.members_of(sid2) == sel_session(a, sid2) + sel_session(mid, sid2)
            + sel_session(b, sid2)) by {
            assert(pre.members_of(sid2) == sel_session((a + mid) + b, sid2));
            assert(sel_session((a + mid) + b, sid2) == sel_session(a + mid, sid2) + sel_session(
                b,
                sid2,
            ));
        }
        assert(sel_not_conn(pre.members_of(sid2), conn) =~= sel_session(a, sid2) + sel_session(
            b,
            sid2,
        ));
    }
}

// ---------------------------------------------------------------------------
// The member-list evolution law
// ---------------------------------------------------------------------------

/// One step in the life of a session's member list: a successful login
/// appends a member (`lemma_members_of_login`); a completed disconnect
/// removes the leaving connection (`lemma_members_of_remove`).
pub enum SessionOp {
    Join(Member),
    Leave(u64),
}

/// What one operation does to a session's member list.
pub open spec fn apply_op(ms: Seq<Member>, op: SessionOp) -> Seq<Member> {
    match op {
        SessionOp::Join(m) => ms.push(m),
        SessionOp::Leave(c) => sel_not_conn(ms, c),
    }
}

/// A member list after a sequence of operations.
pub open spec fn apply_ops(ms: Seq<Member>, ops: Seq<SessionOp>) -> Seq<Member>
    decreases ops.len(),
{
    if ops.len() == 0 {
        ms
    } else {
        apply_ops(apply_op(ms, ops[0]), ops.drop_first())
    }
}

/// A valid history: every join brings a fresh connection (a duplicate login
/// is a no-op, so it never reaches the list), and every leave is the
/// completed disconnect of a present member.
pub open spec fn ok_ops(ms: Seq<Member>, ops: Seq<SessionOp>) -> bool
    decreases ops.len(),
{
    if ops.len() == 0 {
        true
    } else {
        let ok = match ops[0] {
            SessionOp::Join(m) => find_conn(ms, m.conn) == -1,
            SessionOp::Leave(c) => find_conn(ms, c) != -1,
        };
        ok && ok_ops(apply_op(ms, ops[0]), ops.drop_first())
    }
}

pub open spec fn count_joins(ops: Seq<SessionOp>) -> int
    decreases ops.len(),
{
    if ops.len() == 0 {
        0
    } else {
        (if ops[0] is Join {
            1int
        } else {
            0int
        }) + count_joins(ops.drop_first())
    }
}

pub open spec fn count_leaves(ops: Seq<SessionOp>) -> int
    decreases ops.len(),
{
    if ops.len() == 0 {
        0
    } else {
        (if ops[0] is Leave {
            1int
        } else {
            0int
        }) + count_leaves(ops.drop_first())
    }
}

/// The members joined by a history, in join order.
pub open spec fn joined(ops: Seq<SessionOp>) -> Seq<Member>
    decreases ops.len(),
{
    if ops.len() == 0 {
        Seq::empty()
    } else {
        match ops[0] {
            SessionOp::Join(m) => seq![m] + joined(ops.drop_first()),
            SessionOp::Leave(_) => joined(ops.drop_first()),
        }
    }
}

/// No two members of the list share a connection.
pub open spec fn distinct_conns(ms: Seq<Member>) -> bool {
    forall|i: int, j: int|
        0 <= i < j < ms.len() ==> (#[trigger] ms[i]).conn != (#[trigger] ms[j]).conn
}

/// `a` appears inside `b`, in order.
pub open spec fn is_subseq(a: Seq<Member>, b: Seq<Member>) -> bool
    decreases b.len(),
{
    if a.len() == 0 {
        true
    } else if b.len() == 0 {
        false
    } else if a[0] == b[0] {
        is_subseq(a.drop_first(), b.drop_first())
    } else {
        is_subseq(a, b.drop_first())
    }
}

proof fn lemma_subseq_widen(x: Seq<Member>, b: Seq<Member>)
    requires
        b.len() >= 1,
        is_subseq(x, b.drop_first()),
    ensures
        is_subseq(x, b),
    decreases b.len(), 0int,
{
    if x.len() > 0 {
        if x[0] == b[0] {
            lemma_subseq_drop_left(x, b.drop_first());
        }
    }
}

proof fn lemma_subseq_drop_left(x: Seq<Member>, y: Seq<Member>)
    requires
        x.len() >= 1,
        is_subseq(x, y),
    ensures
        is_subseq(x.drop_first(), y),
    decreases y.len(), 1int,
{
    if y.len() > 0 {
        if x[0] == y[0] {
            if x.len() > 1 {
                lemma_subseq_drop_left(x.drop_first(), y.drop_first());
                lemma_subseq_widen(x.drop_first(), y);
            } else {
                assert(x.drop_first().len() == 0);
            }
        } else {
            lemma_subseq_drop_left(x, y.drop_first());
            lemma_subseq_widen(x.drop_first(), y);
        }
    }
}

proof fn lemma_subseq_push(a: Seq<Member>, b: Seq<Member>, m: Member)
    requires
        is_subseq(a, b),
    ensures
        is_subseq(a.push(m), b.push(m)),
    decreases b.len(),
{
    if a.len() == 0 {
        lemma_subseq_push_single(m, b);
        assert(a.push(m) =~= seq![m]);
    } else {
        assert(a.push(m)[0] == a[0]);
        assert(b.push(m)[0] == b[0]);
        if a[0] == b[0] {
            lemma_subseq_push(a.drop_first(), b.drop_first(), m);
            assert(a.push(m).drop_first() =~= a.drop_first().push(m));
            assert(b.push(m).drop_first() =~= b.drop_first().push(m));
            assert(is_subseq(a.push(m).drop_first(), b.push(m).drop_first()));
        } else {
            lemma_subseq_push(a, b.drop_first(), m);
            assert(b.push(m).drop_first() =~= b.drop_first().push(m));
            assert(is_subseq(a.push(m), b.push(m).drop_first()));
        }
    }
}

proof fn lemma_subseq_push_single(m: Member, b: Seq<Member>)
    ensures
        is_subseq(seq![m], b.push(m)),
    decreases b.len(),
{
    let s = seq![m];
    assert(s[0] == m);
    if b.len() == 0 {
        assert(b.push(m)[0] == m);
        assert(s.drop_first().len() == 0);
        assert(is_subseq(s.drop_first(), b.push(m).drop_first()));
    } else {
        assert(b.push(m)[0] == b[0]);
        if m == b[0] {
            assert(s.drop_first().len() == 0);
            assert(is_subseq(s.drop_first(), b.push(m).drop_first()));
        } else {
            lemma_subseq_push_single(m, b.drop_first());
            assert(b.push(m).drop_first() =~= b.drop_first().push(m));
            assert(is_subseq(s, b.push(m).drop_first()));
        }
    }
}

/// A disconnect keeps the list a subsequence of anything it was a
/// subsequence of.
proof fn lemma_subseq_filter(a: Seq<Member>, b: Seq<Member>, c: u64)
    requires
        is_subseq(a, b),
    ensures
        is_subseq(sel_not_conn(a, c), b),
    decreases b.len(),
{
    if a.len() == 0 {
        reveal(Seq::filter);
    } else if b.len() > 0 {
        lemma_sel_not_conn_first(a, c);
        if a[0] == b[0] {
            lemma_subseq_filter(a.drop_first(), b.drop_first(), c);
            if a[0].conn != c {
                assert(sel_not_conn(a, c)[0] == a[0]);
                assert(sel_not_conn(a, c).drop_first() =~= sel_not_conn(a.drop_first(), c));
            } else {
                lemma_subseq_widen(sel_not_conn(a.drop_first(), c), b);
            }
        } else {
            lemma_subseq_filter(a, b.drop_first(), c);
            lemma_subseq_widen(sel_not_conn(a, c), b);
        }
    }
}

/// The removal filter, unfolded from the front.
proof fn lemma_sel_not_conn_first(ms: Seq<Member>, c: u64)
    requires
        ms.len() >= 1,
    ensures
        sel_not_conn(ms, c) == if ms[0].conn != c {
            seq![ms[0]] + sel_not_conn(ms.drop_first(), c)
        } else {
            sel_not_conn(ms.drop_first(), c)
        },
    decreases ms.len(),
{
    reveal(Seq::filter);
    if ms.len() == 1 {
        assert(ms.drop_last() =~= Seq::<Member>::empty());
        assert(ms.drop_first() =~= Seq::<Member>::empty());
        if ms[0].conn != c {
            assert(seq![ms[0]] + sel_not_conn(ms.drop_first(), c) =~= Seq::<Member>::empty().push(
                ms[0],
            ));
        }
    } else {
        let d = ms.drop_last();
        let x = ms.last();
        lemma_sel_not_conn_first(d, c);
        assert(ms.drop_first() =~= d.drop_first().push(x));
        lemma_sel_not_conn_push(d, x, c);
        lemma_sel_not_conn_push(d.drop_first(), x, c);
        assert(ms =~= d.push(x));
        assert(ms[0] == d[0]);
        if ms[0].conn != c {
            if x.conn != c {
                assert(seq![ms[0]] + sel_not_conn(ms.drop_first(), c) =~= (seq![ms[0]]
                    + sel_not_conn(d.drop_first(), c)).push(x));
            }
        }
    }
}

/// Every member a disconnect keeps was in the list, at its connection.
proof fn lemma_sel_not_conn_conns(ms: Seq<Member>, c: u64)
    ensures
        forall|t: int|
            0 <= t < sel_not_conn(ms, c).len() ==> exists|q: int|
                0 <= q < ms.len() && ms[q] == #[trigger] sel_not_conn(ms, c)[t],
    decreases ms.len(),
{
    if ms.len() == 0 {
        reveal(Seq::filter);
    } else {
        let d = ms.drop_last();
        let x = ms.last();
        assert(ms =~= d.push(x));
        lemma_sel_not_conn_push(d, x, c);
        lemma_sel_not_conn_conns(d, c);
        assert forall|t: int| 0 <= t < sel_not_conn(ms, c).len() implies exists|q: int|
            0 <= q < ms.len() && ms[q] == #[trigger] sel_not_conn(ms, c)[t] by {
            if t < sel_not_conn(d, c).len() {
                assert(sel_not_conn(ms, c)[t] == sel_not_conn(d, c)[t]);
                let q = choose|q: int| 0 <= q < d.len() && d[q] == sel_not_conn(d, c)[t];
                assert(ms[q] == sel_not_conn(ms, c)[t]);
            } else {
                assert(sel_not_conn(ms, c)[t] == x);
                assert(ms[ms.len() - 1] == sel_not_conn(ms, c)[t]);
            }
        }
    }
}

/// A disconnect keeps distinct connections distinct.
proof fn lemma_sel_not_conn_distinct(ms: Seq<Member>, c: u64)
    requires
        distinct_conns(ms),
    ensures
        distinct_conns(sel_not_conn(ms, c)),
    decreases ms.len(),
{
    if ms.len() == 0 {
        reveal(Seq::filter);
    } else {
        let d = ms.drop_last();
        let x = ms.last();
        assert(ms =~= d.push(x));
        assert(distinct_conns(d));
        lemma_sel_not_conn_push(d, x, c);
        lemma_sel_not_conn_distinct(d, c);
        if x.conn != c {
            lemma_sel_not_conn_conns(d, c);
            assert forall|t: int| 0 <= t < sel_not_conn(d, c).len() implies (
            #[trigger] sel_not_conn(d, c)[t]).conn != x.conn by {
                let q = choose|q: int| 0 <= q < d.len() && d[q] == sel_not_conn(d, c)[t];
                assert(ms[q].conn != ms[ms.len() - 1].conn);
            }
            let out = sel_not_conn(ms, c);
            assert forall|i: int, j: int| 0 <= i < j < out.len() implies (
            #[trigger] out[i]).conn != (#[trigger] out[j]).conn by {
                if j < out.len() - 1 {
                    assert(out[i] == sel_not_conn(d, c)[i]);
                    assert(out[j] == sel_not_conn(d, c)[j]);
                } else {
                    assert(out[i] == sel_not_conn(d, c)[i]);
                    assert(out[j] == x);
                }
            }
        }
    }
}

/// A disconnect of a present member, under distinct connections, shortens
/// the list by exactly one.
proof fn lemma_sel_not_conn_len(ms: Seq<Member>, c: u64)
    requires
        distinct_conns(ms),
        find_conn(ms, c) != -1,
    ensures
        sel_not_conn(ms, c).len() == ms.len() - 1,
    decreases ms.len(),
{
    lemma_find_conn(ms, c);
    let d = ms.drop_last();
    let x = ms.last();
    assert(ms =~= d.push(x));
    lemma_sel_not_conn_push(d, x, c);
    let k = find_conn(ms, c);
    if x.conn == c {
        // the last member is the one leaving, and no earlier one matches
        assert forall|t: int| 0 <= t < d.len() implies (#[trigger] d[t]).conn != c by {
            assert(ms[t].conn != ms[ms.len() - 1].conn);
        }
        lemma_sel_not_conn_noop(d, c);
    } else {
        assert(k < ms.len() - 1);
        assert(d[k].conn == c);
        lemma_find_conn(d, c);
        assert(find_conn(d, c) != -1);
        lemma_sel_not_conn_len(d, c);
    }
}

/// How a session's member list evolves over any valid history, starting
/// from `ms`: its length moves by one per join and per completed
/// disconnect, connections stay distinct, and the list stays a
/// subsequence of the join order.
proof fn lemma_session_evolution_from(ms: Seq<Member>, ops: Seq<SessionOp>, js: Seq<Member>)
    requires
        distinct_conns(ms),
        ok_ops(ms, ops),
        is_subseq(ms, js),
    ensures
        apply_ops(ms, ops).len() == ms.len() + count_joins(ops) - count_leaves(ops),
        distinct_conns(apply_ops(ms, ops)),
        is_subseq(apply_ops(ms, ops), js + joined(ops)),
    decreases ops.len(),
{
    if ops.len() == 0 {
        assert(js + joined(ops) =~= js);
    } else {
        let rest = ops.drop_first();
        match ops[0] {
            SessionOp::Join(m) => {
                let ms2 = ms.push(m);
                lemma_find_conn(ms, m.conn);
                assert(distinct_conns(ms2)) by {
                    assert(forall|t: int|
                        0 <= t < ms.len() ==> (#[trigger] ms2[t]).conn == ms[t].conn);
                }
                lemma_subseq_push(ms, js, m);
                lemma_session_evolution_from(ms2, rest, js.push(m));
                assert(js.push(m) + joined(rest) =~= js + joined(ops));
            },
            SessionOp::Leave(c) => {
                let ms2 = sel_not_conn(ms, c);
                lemma_sel_not_conn_distinct(ms, c);
                lemma_sel_not_conn_len(ms, c);
                lemma_subseq_filter(ms, js, c);
                lemma_session_evolution_from(ms2, rest, js);
                assert(joined(ops) == joined(rest));
            },
        }
    }
}

/// The member-list evolution law: over any valid history from an empty
/// session, the member list's length equals the number of successful,
/// non-duplicate logins minus the number of completed disconnects; no
/// connection appears twice; and the surviving members stand in join order.
pub proof fn lemma_session_evolution(ops: Seq<SessionOp>)
    requires
        ok_ops(Seq::empty(), ops),
    ensures
        apply_ops(Seq::empty(), ops).len() == count_joins(ops) - count_leaves(ops),
        distinct_conns(apply_ops(Seq::empty(), ops)),
        is_subseq(apply_ops(Seq::empty(), ops), joined(ops)),
{
    let e: Seq<Member> = Seq::empty();
    lemma_session_evolution_from(e, ops, e);
    assert(e + joined(ops) =~= joined(ops));
}

} // verus!
