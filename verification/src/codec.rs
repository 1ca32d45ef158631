//! The wire codec: JSON encoders and decoders for the five payload shapes
//! (login, change, value, user, error) and the outer event envelope, with
//! proofs that decoding inverts encoding.
use vstd::prelude::*;

use crate::json::{
    chars_to_string, dec_u64, enc_str, is_digit, is_ws, lemma_assoc, lemma_lit_round,
    lemma_sp_val_string_bounds, lemma_sp_val_u64_bounds, lemma_sp_ws_bounds, lemma_str_rec_bounds,
    lemma_string_round, lemma_u64_round, p_lit, p_string, p_u64, p_val_string, p_val_u64, p_ws,
    push_lit, push_str_enc, push_u64_enc, sp_lit, sp_string, sp_u64, sp_val_string, sp_val_u64,
    sp_ws, str_chars,
};
use crate::msgs::{
    ChangeCommand, ChangeV, ErrorCommand, ErrorV, Event, EventV, LoginCommand, LoginV, Pos,
    UserEvent, UserV, ValueCommand, ValueV,
};

verus! {

// ---------------------------------------------------------------------------
// Login
// ---------------------------------------------------------------------------

/// Canonical encoding of a login payload.
pub open spec fn enc_login(v: LoginV) -> Seq<char> {
    "{\"username\":"@ + enc_str(v.username) + ",\"session_id\":"@ + enc_str(v.session_id) + "}"@
}

/// The view of an optional decoded string.
pub open spec fn ov(o: Option<Vec<char>>) -> Option<Seq<char>> {
    match o {
        Some(x) => Some(x@),
        None => None,
    }
}

/// One field of a login object at a key position: a not-yet-seen key and
/// its string value; fills the matching slot.
pub open spec fn dec_login_field(
    s: Seq<char>,
    i: int,
    u: Option<Seq<char>>,
    sid: Option<Seq<char>>,
) -> Option<((Option<Seq<char>>, Option<Seq<char>>), int)> {
    if u is None && sp_lit(s, i, "\"username\""@) is Some {
        match sp_val_string(s, sp_lit(s, i, "\"username\""@).unwrap()) {
            Some((x, j)) => Some(((Some(x), sid), j)),
            None => None,
        }
    } else if sid is None && sp_lit(s, i, "\"session_id\""@) is Some {
        match sp_val_string(s, sp_lit(s, i, "\"session_id\""@).unwrap()) {
            Some((x, j)) => Some(((u, Some(x)), j)),
            None => None,
        }
    } else {
        None
    }
}

pub proof fn lemma_dec_login_field_bounds(
    s: Seq<char>,
    i: int,
    u: Option<Seq<char>>,
    sid: Option<Seq<char>>,
)
    requires
        0 <= i <= s.len(),
    ensures
        dec_login_field(s, i, u, sid) matches Some(p) ==> i < p.1 <= s.len(),
{
    if u is None && sp_lit(s, i, "\"username\""@) is Some {
        lemma_sp_val_string_bounds(s, sp_lit(s, i, "\"username\""@).unwrap());
    } else if sid is None && sp_lit(s, i, "\"session_id\""@) is Some {
        lemma_sp_val_string_bounds(s, sp_lit(s, i, "\"session_id\""@).unwrap());
    }
}

/// The fields of a login object from a key position, in any order, each at
/// most once, until the closing brace.
pub open spec fn dec_login_obj(
    s: Seq<char>,
    i: int,
    u: Option<Seq<char>>,
    sid: Option<Seq<char>>,
) -> Option<(LoginV, int)>
    decreases s.len() - i,
{
    if i < 0 || i > s.len() {
        None
    } else {
        match dec_login_field(s, i, u, sid) {
            Some((slots, j)) => {
                let j1 = sp_ws(s, j);
                if 0 <= j1 < s.len() && s[j1] == ',' {
                    proof {
                        lemma_dec_login_field_bounds(s, i, u, sid);
                        lemma_sp_ws_bounds(s, j);
                        lemma_sp_ws_bounds(s, j1 + 1);
                    }
                    dec_login_obj(s, sp_ws(s, j1 + 1), slots.0, slots.1)
                } else if 0 <= j1 < s.len() && s[j1] == '}' {
                    match slots {
                        (Some(a), Some(b)) => Some(
                            (LoginV { username: a, session_id: b }, j1 + 1),
                        ),
                        _ => None,
                    }
                } else {
                    None
                }
            },
            None => None,
        }
    }
}

/// Parse a login payload: a JSON object with exactly the fields `username`
/// and `session_id`, in either order, with optional whitespace.
pub open spec fn dec_login(s: Seq<char>) -> Option<LoginV> {
    let i0 = sp_ws(s, 0);
    if 0 <= i0 < s.len() && s[i0] == '{' {
        match dec_login_obj(s, sp_ws(s, i0 + 1), None, None) {
            Some((v, j)) => if sp_ws(s, j) == s.len() {
                Some(v)
            } else {
                None
            },
            None => None,
        }
    } else {
        None
    }
}

pub fn encode_login(c: &LoginCommand) -> (r: String)
    ensures
        r@ == enc_login(c@),
{
    let mut out: Vec<char> = Vec::new();
    push_lit(&mut out, "{\"username\":");
    push_str_enc(&mut out, self_str(&c.username));
    push_lit(&mut out, ",\"session_id\":");
    push_str_enc(&mut out, self_str(&c.session_id));
    push_lit(&mut out, "}");
    proof {
        assert(out@ =~= enc_login(c@));
    }
    chars_to_string(&out)
}

pub fn decode_login(s: &str) -> (r: Option<LoginCommand>)
    ensures
        match r {
            Some(c) => dec_login(s@) == Some(c@),
            None => dec_login(s@) is None,
        },
{
    let v = str_chars(s);
    let i0 = p_ws(&v, 0);
    if i0 >= v.len() || v[i0] != '{' {
        return None;
    }
    let mut k = p_ws(&v, i0 + 1);
    let mut u: Option<Vec<char>> = None;
    let mut sid: Option<Vec<char>> = None;
    loop
        invariant
            v@ == s@,
            k <= v@.len(),
            dec_login(v@) == (match dec_login_obj(v@, k as int, ov(u), ov(sid)) {
                Some((lv, j)) => if sp_ws(v@, j) == v@.len() {
                    Some(lv)
                } else {
                    None
                },
                None => None,
            }),
        decreases v@.len() - k,
    {
        let ghost k0 = k as int;
        let ghost u0 = ov(u);
        let ghost sid0 = ov(sid);
        let j2: usize;
        let lit_u = if u.is_none() {
            p_lit(&v, k, "\"username\"")
        } else {
            None
        };
        let lit_s = if sid.is_none() {
            p_lit(&v, k, "\"session_id\"")
        } else {
            None
        };
        if lit_u.is_some() {
            match p_val_string(&v, lit_u.unwrap()) {
                Some((x, jj)) => {
                    u = Some(x);
                    j2 = jj;
                },
                None => {
                    return None;
                },
            }
        } else if lit_s.is_some() {
            match p_val_string(&v, lit_s.unwrap()) {
                Some((x, jj)) => {
                    sid = Some(x);
                    j2 = jj;
                },
                None => {
                    return None;
                },
            }
        } else {
            return None;
        }
        proof {
            assert(dec_login_field(v@, k0, u0, sid0) == Some(((ov(u), ov(sid)), j2 as int)));
        }
        let j1 = p_ws(&v, j2);
        if j1 < v.len() && v[j1] == ',' {
            k = p_ws(&v, j1 + 1);
            proof {
                assert(dec_login_obj(v@, k0, u0, sid0) == dec_login_obj(
                    v@,
                    k as int,
                    ov(u),
                    ov(sid),
                ));
            }
        } else if j1 < v.len() && v[j1] == '}' {
            if u.is_some() && sid.is_some() {
                let e = p_ws(&v, j1 + 1);
                if e != v.len() {
                    return None;
                }
                let uu = u.unwrap();
                let ss = sid.unwrap();
                proof {
                    assert(dec_login_obj(v@, k0, u0, sid0) == Some(
                        (LoginV { username: uu@, session_id: ss@ }, j1 + 1 as int),
                    ));
                }
                return Some(
                    LoginCommand {
                        username: chars_to_string(&uu),
                        session_id: chars_to_string(&ss),
                    },
                );
            } else {
                proof {
                    assert(dec_login_obj(v@, k0, u0, sid0) is None);
                }
                return None;
            }
        } else {
            proof {
                assert(dec_login_obj(v@, k0, u0, sid0) is None);
            }
            return None;
        }
    }
}

/// Round trip: decoding an encoded login payload yields the original value.
#[verifier::rlimit(50)]
pub proof fn lemma_login_round_trip(v: LoginV)
    ensures
        dec_login(enc_login(v)) == Some(v),
{
    let l1 = "{\"username\":"@;
    let l2 = ",\"session_id\":"@;
    let l3 = "}"@;
    let ku = "\"username\""@;
    let ks = "\"session_id\""@;
    let eu = enc_str(v.username);
    let es = enc_str(v.session_id);
    let s = enc_login(v);
    reveal_strlit("{\"username\":");
    reveal_strlit(",\"session_id\":");
    reveal_strlit("}");
    reveal_strlit("\"username\"");
    reveal_strlit("\"session_id\"");
    let p1 = l1;
    let p2 = p1 + eu;
    let p3 = p2 + l2;
    let p4 = p3 + es;
    let i2 = p2.len() as int;
    let k2 = i2 + 1;
    let i3 = p3.len() as int;
    let i4 = p4.len() as int;

    assert(s =~= p1 + (eu + (l2 + (es + l3))));
    lemma_assoc(p1, eu, l2 + (es + l3));
    lemma_assoc(p2, l2, es + l3);
    lemma_assoc(p3, es, l3);

    // the characters at the seams
    assert(s[0] == '{' && s[1] == '"' && s[11] == ':');
    assert(s[12] == eu[0] && eu[0] == '"');
    assert(s[i2] == l2[0] && l2[0] == ',');
    assert(s[i2 + 1] == l2[1] && l2[1] == '"');
    assert(s[i2 + 12] == l2[12]);
    assert(s[i2 + 13] == l2[13] && l2[13] == ':');
    assert(s[i3] == es[0] && es[0] == '"');
    assert(s[i4] == l3[0] && l3[0] == '}');

    // the username field
    assert(sp_lit(s, 1, ku) == Some(11int)) by {
        assert(s.subrange(1, 11) =~= ku);
    }
    assert(sp_string(s, 12) == Some((v.username, i2))) by {
        lemma_string_round(p1, v.username, l2 + (es + l3));
    }
    assert(sp_val_string(s, 11) == Some((v.username, i2))) by {
        assert(sp_ws(s, 11) == 11);
        assert(sp_ws(s, 12) == 12);
    }
    assert(dec_login_field(s, 1, None, None) == Some(
        ((Some(v.username), None::<Seq<char>>), i2),
    ));

    // the session_id field
    assert(sp_lit(s, k2, ks) == Some(k2 + 12)) by {
        assert(s.subrange(k2, k2 + 12) =~= ks);
    }
    assert(sp_string(s, i3) == Some((v.session_id, i4))) by {
        lemma_string_round(p3, v.session_id, l3);
    }
    assert(sp_val_string(s, k2 + 12) == Some((v.session_id, i4))) by {
        assert(sp_ws(s, k2 + 12) == k2 + 12);
        assert(sp_ws(s, k2 + 13) == k2 + 13);
        assert(k2 + 13 == i3);
    }
    assert(dec_login_field(s, k2, Some(v.username), None) == Some(
        ((Some(v.username), Some(v.session_id)), i4),
    ));

    // the object walk
    assert(dec_login_obj(s, k2, Some(v.username), None) == Some(
        (LoginV { username: v.username, session_id: v.session_id }, i4 + 1),
    )) by {
        assert(sp_ws(s, i4) == i4);
    }
    assert(dec_login_obj(s, 1, None, None) == Some(
        (LoginV { username: v.username, session_id: v.session_id }, i4 + 1),
    )) by {
        assert(sp_ws(s, i2) == i2);
        assert(sp_ws(s, i2 + 1) == i2 + 1);
    }
    assert(sp_ws(s, 0) == 0);
    assert(sp_ws(s, 1) == 1);
    assert(i4 + 1 == s.len());
    assert(sp_ws(s, i4 + 1) == s.len());
    assert(LoginV { username: v.username, session_id: v.session_id } == v);
}

// ---------------------------------------------------------------------------
// Value
// ---------------------------------------------------------------------------

/// Canonical encoding of a value payload.
pub open spec fn enc_value(v: ValueV) -> Seq<char> {
    "{\"target\":"@ + enc_str(v.target) + ",\"text\":"@ + enc_str(v.text) + "}"@
}

/// One field of a value object at a key position.
pub open spec fn dec_value_field(
    s: Seq<char>,
    i: int,
    tg: Option<Seq<char>>,
    tx: Option<Seq<char>>,
) -> Option<((Option<Seq<char>>, Option<Seq<char>>), int)> {
    if tg is None && sp_lit(s, i, "\"target\""@) is Some {
        match sp_val_string(s, sp_lit(s, i, "\"target\""@).unwrap()) {
            Some((x, j)) => Some(((Some(x), tx), j)),
            None => None,
        }
    } else if tx is None && sp_lit(s, i, "\"text\""@) is Some {
        match sp_val_string(s, sp_lit(s, i, "\"text\""@).unwrap()) {
            Some((x, j)) => Some(((tg, Some(x)), j)),
            None => None,
        }
    } else {
        None
    }
}

pub proof fn lemma_dec_value_field_bounds(
    s: Seq<char>,
    i: int,
    tg: Option<Seq<char>>,
    tx: Option<Seq<char>>,
)
    requires
        0 <= i <= s.len(),
    ensures
        dec_value_field(s, i, tg, tx) matches Some(p) ==> i < p.1 <= s.len(),
{
    if tg is None && sp_lit(s, i, "\"target\""@) is Some {
        lemma_sp_val_string_bounds(s, sp_lit(s, i, "\"target\""@).unwrap());
    } else if tx is None && sp_lit(s, i, "\"text\""@) is Some {
        lemma_sp_val_string_bounds(s, sp_lit(s, i, "\"text\""@).unwrap());
    }
}

/// The fields of a value object from a key position, in any order.
pub open spec fn dec_value_obj(
    s: Seq<char>,
    i: int,
    tg: Option<Seq<char>>,
    tx: Option<Seq<char>>,
) -> Option<(ValueV, int)>
    decreases s.len() - i,
{
    if i < 0 || i > s.len() {
        None
    } else {
        match dec_value_field(s, i, tg, tx) {
            Some((slots, j)) => {
                let j1 = sp_ws(s, j);
                if 0 <= j1 < s.len() && s[j1] == ',' {
                    proof {
                        lemma_dec_value_field_bounds(s, i, tg, tx);
                        lemma_sp_ws_bounds(s, j);
                        lemma_sp_ws_bounds(s, j1 + 1);
                    }
                    dec_value_obj(s, sp_ws(s, j1 + 1), slots.0, slots.1)
                } else if 0 <= j1 < s.len() && s[j1] == '}' {
                    match slots {
                        (Some(a), Some(b)) => Some((ValueV { target: a, text: b }, j1 + 1)),
                        _ => None,
                    }
                } else {
                    None
                }
            },
            None => None,
        }
    }
}

/// Parse a value payload: a JSON object with exactly the fields `target`
/// and `text`, in either order, with optional whitespace.
pub open spec fn dec_value(s: Seq<char>) -> Option<ValueV> {
    let i0 = sp_ws(s, 0);
    if 0 <= i0 < s.len() && s[i0] == '{' {
        match dec_value_obj(s, sp_ws(s, i0 + 1), None, None) {
            Some((v, j)) => if sp_ws(s, j) == s.len() {
                Some(v)
            } else {
                None
            },
            None => None,
        }
    } else {
        None
    }
}

pub fn encode_value(c: &ValueCommand) -> (r: String)
    ensures
        r@ == enc_value(c@),
{
    let mut out: Vec<char> = Vec::new();
    push_lit(&mut out, "{\"target\":");
    push_str_enc(&mut out, self_str(&c.target));
    push_lit(&mut out, ",\"text\":");
    push_str_enc(&mut out, self_str(&c.text));
    push_lit(&mut out, "}");
    proof {
        assert(out@ =~= enc_value(c@));
    }
    chars_to_string(&out)
}

pub fn decode_value(s: &str) -> (r: Option<ValueCommand>)
    ensures
        match r {
            Some(c) => dec_value(s@) == Some(c@),
            None => dec_value(s@) is None,
        },
{
    let v = str_chars(s);
    let i0 = p_ws(&v, 0);
    if i0 >= v.len() || v[i0] != '{' {
        return None;
    }
    let mut k = p_ws(&v, i0 + 1);
    let mut tg: Option<Vec<char>> = None;
    let mut tx: Option<Vec<char>> = None;
    loop
        invariant
            v@ == s@,
            k <= v@.len(),
            dec_value(v@) == (match dec_value_obj(v@, k as int, ov(tg), ov(tx)) {
                Some((vv, j)) => if sp_ws(v@, j) == v@.len() {
                    Some(vv)
                } else {
                    None
                },
                None => None,
            }),
        decreases v@.len() - k,
    {
        let ghost k0 = k as int;
        let ghost tg0 = ov(tg);
        let ghost tx0 = ov(tx);
        let j2: usize;
        let lit_t = if tg.is_none() {
            p_lit(&v, k, "\"target\"")
        } else {
            None
        };
        let lit_x = if tx.is_none() {
            p_lit(&v, k, "\"text\"")
        } else {
            None
        };
        if lit_t.is_some() {
            match p_val_string(&v, lit_t.unwrap()) {
                Some((x, jj)) => {
                    tg = Some(x);
                    j2 = jj;
                },
                None => {
                    return None;
                },
            }
        } else if lit_x.is_some() {
            match p_val_string(&v, lit_x.unwrap()) {
                Some((x, jj)) => {
                    tx = Some(x);
                    j2 = jj;
                },
                None => {
                    return None;
                },
            }
        } else {
            return None;
        }
        proof {
            assert(dec_value_field(v@, k0, tg0, tx0) == Some(((ov(tg), ov(tx)), j2 as int)));
        }
        let j1 = p_ws(&v, j2);
        if j1 < v.len() && v[j1] == ',' {
            k = p_ws(&v, j1 + 1);
            proof {
                assert(dec_value_obj(v@, k0, tg0, tx0) == dec_value_obj(
                    v@,
                    k as int,
                    ov(tg),
                    ov(tx),
                ));
            }
        } else if j1 < v.len() && v[j1] == '}' {
            if tg.is_some() && tx.is_some() {
                let e = p_ws(&v, j1 + 1);
                if e != v.len() {
                    return None;
                }
                let a = tg.unwrap();
                let b = tx.unwrap();
                proof {
                    assert(dec_value_obj(v@, k0, tg0, tx0) == Some(
                        (ValueV { target: a@, text: b@ }, j1 + 1 as int),
                    ));
                }
                return Some(
                    ValueCommand { target: chars_to_string(&a), text: chars_to_string(&b) },
                );
            } else {
                proof {
                    assert(dec_value_obj(v@, k0, tg0, tx0) is None);
                }
                return None;
            }
        } else {
            proof {
                assert(dec_value_obj(v@, k0, tg0, tx0) is None);
            }
            return None;
        }
    }
}

/// Round trip: decoding an encoded value payload yields the original value.
#[verifier::rlimit(50)]
pub proof fn lemma_value_round_trip(v: ValueV)
    ensures
        dec_value(enc_value(v)) == Some(v),
{
    let l1 = "{\"target\":"@;
    let l2 = ",\"text\":"@;
    let l3 = "}"@;
    let kt = "\"target\""@;
    let kx = "\"text\""@;
    let et = enc_str(v.target);
    let ex = enc_str(v.text);
    let s = enc_value(v);
    reveal_strlit("{\"target\":");
    reveal_strlit(",\"text\":");
    reveal_strlit("}");
    reveal_strlit("\"target\"");
    reveal_strlit("\"text\"");
    let p1 = l1;
    let p2 = p1 + et;
    let p3 = p2 + l2;
    let p4 = p3 + ex;
    let i2 = p2.len() as int;
    let k2 = i2 + 1;
    let i3 = p3.len() as int;
    let i4 = p4.len() as int;

    assert(s =~= p1 + (et + (l2 + (ex + l3))));
    lemma_assoc(p1, et, l2 + (ex + l3));
    lemma_assoc(p2, l2, ex + l3);
    lemma_assoc(p3, ex, l3);

    // the characters at the seams
    assert(s[0] == '{' && s[1] == '"' && s[9] == ':');
    assert(s[10] == et[0] && et[0] == '"');
    assert(s[i2] == l2[0] && l2[0] == ',');
    assert(s[i2 + 1] == l2[1] && l2[1] == '"');
    assert(s[i2 + 7] == l2[7] && l2[7] == ':');
    assert(s[i3] == ex[0] && ex[0] == '"');
    assert(s[i4] == l3[0] && l3[0] == '}');

    // the target field
    assert(sp_lit(s, 1, kt) == Some(9int)) by {
        assert(s.subrange(1, 9) =~= kt);
    }
    assert(sp_string(s, 10) == Some((v.target, i2))) by {
        lemma_string_round(p1, v.target, l2 + (ex + l3));
    }
    assert(sp_val_string(s, 9) == Some((v.target, i2))) by {
        assert(sp_ws(s, 9) == 9);
        assert(sp_ws(s, 10) == 10);
    }
    assert(dec_value_field(s, 1, None, None) == Some(
        ((Some(v.target), None::<Seq<char>>), i2),
    ));

    // the text field
    assert(sp_lit(s, k2, kx) == Some(k2 + 6)) by {
        assert(s.subrange(k2, k2 + 6) =~= kx);
    }
    assert(sp_string(s, i3) == Some((v.text, i4))) by {
        lemma_string_round(p3, v.text, l3);
    }
    assert(sp_val_string(s, k2 + 6) == Some((v.text, i4))) by {
        assert(sp_ws(s, k2 + 6) == k2 + 6);
        assert(sp_ws(s, k2 + 7) == k2 + 7);
        assert(k2 + 7 == i3);
    }
    assert(dec_value_field(s, k2, Some(v.target), None) == Some(
        ((Some(v.target), Some(v.text)), i4),
    ));

    // the object walk
    assert(dec_value_obj(s, k2, Some(v.target), None) == Some(
        (ValueV { target: v.target, text: v.text }, i4 + 1),
    )) by {
        assert(sp_ws(s, i4) == i4);
    }
    assert(dec_value_obj(s, 1, None, None) == Some(
        (ValueV { target: v.target, text: v.text }, i4 + 1),
    )) by {
        assert(sp_ws(s, i2) == i2);
        assert(sp_ws(s, i2 + 1) == i2 + 1);
    }
    assert(sp_ws(s, 0) == 0);
    assert(sp_ws(s, 1) == 1);
    assert(i4 + 1 == s.len());
    assert(sp_ws(s, i4 + 1) == s.len());
    assert(ValueV { target: v.target, text: v.text } == v);
}

// ---------------------------------------------------------------------------
// User
// ---------------------------------------------------------------------------

/// Canonical encoding of a user payload.
pub open spec fn enc_user(v: UserV) -> Seq<char> {
    "{\"username\":"@ + enc_str(v.username) + "}"@
}

/// The single field of a user object at a key position.
pub open spec fn dec_user_field(s: Seq<char>, i: int, u: Option<Seq<char>>) -> Option<
    (Option<Seq<char>>, int),
> {
    if u is None && sp_lit(s, i, "\"username\""@) is Some {
        match sp_val_string(s, sp_lit(s, i, "\"username\""@).unwrap()) {
            Some((x, j)) => Some((Some(x), j)),
            None => None,
        }
    } else {
        None
    }
}

pub proof fn lemma_dec_user_field_bounds(s: Seq<char>, i: int, u: Option<Seq<char>>)
    requires
        0 <= i <= s.len(),
    ensures
        dec_user_field(s, i, u) matches Some(p) ==> i < p.1 <= s.len(),
{
    if u is None && sp_lit(s, i, "\"username\""@) is Some {
        lemma_sp_val_string_bounds(s, sp_lit(s, i, "\"username\""@).unwrap());
    }
}

/// The fields of a user object from a key position.
pub open spec fn dec_user_obj(s: Seq<char>, i: int, u: Option<Seq<char>>) -> Option<
    (UserV, int),
>
    decreases s.len() - i,
{
    if i < 0 || i > s.len() {
        None
    } else {
        match dec_user_field(s, i, u) {
            Some((slot, j)) => {
                let j1 = sp_ws(s, j);
                if 0 <= j1 < s.len() && s[j1] == ',' {
                    proof {
                        lemma_dec_user_field_bounds(s, i, u);
                        lemma_sp_ws_bounds(s, j);
                        lemma_sp_ws_bounds(s, j1 + 1);
                    }
                    dec_user_obj(s, sp_ws(s, j1 + 1), slot)
                } else if 0 <= j1 < s.len() && s[j1] == '}' {
                    match slot {
                        Some(a) => Some((UserV { username: a }, j1 + 1)),
                        _ => None,
                    }
                } else {
                    None
                }
            },
            None => None,
        }
    }
}

/// Parse a user payload: a JSON object with exactly the field
/// `username`, with optional whitespace.
pub open spec fn dec_user(s: Seq<char>) -> Option<UserV> {
    let i0 = sp_ws(s, 0);
    if 0 <= i0 < s.len() && s[i0] == '{' {
        match dec_user_obj(s, sp_ws(s, i0 + 1), None) {
            Some((v, j)) => if sp_ws(s, j) == s.len() {
                Some(v)
            } else {
                None
            },
            None => None,
        }
    } else {
        None
    }
}

pub fn encode_user(c: &UserEvent) -> (r: String)
    ensures
        r@ == enc_user(c@),
{
    let mut out: Vec<char> = Vec::new();
    push_lit(&mut out, "{\"username\":");
    push_str_enc(&mut out, self_str(&c.username));
    push_lit(&mut out, "}");
    proof {
        assert(out@ =~= enc_user(c@));
    }
    chars_to_string(&out)
}

pub fn decode_user(s: &str) -> (r: Option<UserEvent>)
    ensures
        match r {
            Some(c) => dec_user(s@) == Some(c@),
            None => dec_user(s@) is None,
        },
{
    let v = str_chars(s);
    let i0 = p_ws(&v, 0);
    if i0 >= v.len() || v[i0] != '{' {
        return None;
    }
    let mut k = p_ws(&v, i0 + 1);
    let mut u: Option<Vec<char>> = None;
    loop
        invariant
            v@ == s@,
            k <= v@.len(),
            dec_user(v@) == (match dec_user_obj(v@, k as int, ov(u)) {
                Some((vv, j)) => if sp_ws(v@, j) == v@.len() {
                    Some(vv)
                } else {
                    None
                },
                None => None,
            }),
        decreases v@.len() - k,
    {
        let ghost k0 = k as int;
        let ghost u0 = ov(u);
        let j2: usize;
        let lit_u = if u.is_none() {
            p_lit(&v, k, "\"username\"")
        } else {
            None
        };
        if lit_u.is_some() {
            match p_val_string(&v, lit_u.unwrap()) {
                Some((x, jj)) => {
                    u = Some(x);
                    j2 = jj;
                },
                None => {
                    return None;
                },
            }
        } else {
            return None;
        }
        proof {
            assert(dec_user_field(v@, k0, u0) == Some((ov(u), j2 as int)));
        }
        let j1 = p_ws(&v, j2);
        if j1 < v.len() && v[j1] == ',' {
            k = p_ws(&v, j1 + 1);
            proof {
                assert(dec_user_obj(v@, k0, u0) == dec_user_obj(v@, k as int, ov(u)));
            }
        } else if j1 < v.len() && v[j1] == '}' {
            let e = p_ws(&v, j1 + 1);
            if e != v.len() {
                return None;
            }
            let a = u.unwrap();
            proof {
                assert(dec_user_obj(v@, k0, u0) == Some(
                    (UserV { username: a@ }, j1 + 1 as int),
                ));
            }
            return Some(UserEvent { username: chars_to_string(&a) });
        } else {
            proof {
                assert(dec_user_obj(v@, k0, u0) is None);
            }
            return None;
        }
    }
}

/// Round trip: decoding an encoded user payload yields the original value.
#[verifier::rlimit(50)]
pub proof fn lemma_user_round_trip(v: UserV)
    ensures
        dec_user(enc_user(v)) == Some(v),
{
    let l1 = "{\"username\":"@;
    let l3 = "}"@;
    let ku = "\"username\""@;
    let eu = enc_str(v.username);
    let s = enc_user(v);
    reveal_strlit("{\"username\":");
    reveal_strlit("}");
    reveal_strlit("\"username\"");
    let p1 = l1;
    let p2 = p1 + eu;
    let i4 = p2.len() as int;

    assert(s =~= p1 + (eu + l3));
    lemma_assoc(p1, eu, l3);

    assert(s[0] == '{' && s[1] == '"' && s[12 - 1] == ':');
    assert(s[12] == eu[0] && eu[0] == '"');
    assert(s[i4] == l3[0] && l3[0] == '}');

    assert(sp_lit(s, 1, ku) == Some(11int)) by {
        assert(s.subrange(1, 11) =~= ku);
    }
    assert(sp_string(s, 12) == Some((v.username, i4))) by {
        lemma_string_round(p1, v.username, l3);
    }
    assert(sp_val_string(s, 11) == Some((v.username, i4))) by {
        assert(sp_ws(s, 11) == 11);
        assert(sp_ws(s, 12) == 12);
    }
    assert(dec_user_field(s, 1, None) == Some((Some(v.username), i4)));

    assert(dec_user_obj(s, 1, None) == Some((UserV { username: v.username }, i4 + 1))) by {
        assert(sp_ws(s, i4) == i4);
    }
    assert(sp_ws(s, 0) == 0);
    assert(sp_ws(s, 1) == 1);
    assert(i4 + 1 == s.len());
    assert(sp_ws(s, i4 + 1) == s.len());
    assert(UserV { username: v.username } == v);
}

// ---------------------------------------------------------------------------
// Error
// ---------------------------------------------------------------------------

/// Canonical encoding of an error payload.
pub open spec fn enc_error(v: ErrorV) -> Seq<char> {
    "{\"msg\":"@ + enc_str(v.msg) + "}"@
}

/// The single field of a error object at a key position.
pub open spec fn dec_error_field(s: Seq<char>, i: int, u: Option<Seq<char>>) -> Option<
    (Option<Seq<char>>, int),
> {
    if u is None && sp_lit(s, i, "\"msg\""@) is Some {
        match sp_val_string(s, sp_lit(s, i, "\"msg\""@).unwrap()) {
            Some((x, j)) => Some((Some(x), j)),
            None => None,
        }
    } else {
        None
    }
}

pub proof fn lemma_dec_error_field_bounds(s: Seq<char>, i: int, u: Option<Seq<char>>)
    requires
        0 <= i <= s.len(),
    ensures
        dec_error_field(s, i, u) matches Some(p) ==> i < p.1 <= s.len(),
{
    if u is None && sp_lit(s, i, "\"msg\""@) is Some {
        lemma_sp_val_string_bounds(s, sp_lit(s, i, "\"msg\""@).unwrap());
    }
}

/// The fields of a error object from a key position.
pub open spec fn dec_error_obj(s: Seq<char>, i: int, u: Option<Seq<char>>) -> Option<
    (ErrorV, int),
>
    decreases s.len() - i,
{
    if i < 0 || i > s.len() {
        None
    } else {
        match dec_error_field(s, i, u) {
            Some((slot, j)) => {
                let j1 = sp_ws(s, j);
                if 0 <= j1 < s.len() && s[j1] == ',' {
                    proof {
                        lemma_dec_error_field_bounds(s, i, u);
                        lemma_sp_ws_bounds(s, j);
                        lemma_sp_ws_bounds(s, j1 + 1);
                    }
                    dec_error_obj(s, sp_ws(s, j1 + 1), slot)
                } else if 0 <= j1 < s.len() && s[j1] == '}' {
                    match slot {
                        Some(a) => Some((ErrorV { msg: a }, j1 + 1)),
                        _ => None,
                    }
                } else {
                    None
                }
            },
            None => None,
        }
    }
}

/// Parse a error payload: a JSON object with exactly the field
/// `msg`, with optional whitespace.
pub open spec fn dec_error(s: Seq<char>) -> Option<ErrorV> {
    let i0 = sp_ws(s, 0);
    if 0 <= i0 < s.len() && s[i0] == '{' {
        match dec_error_obj(s, sp_ws(s, i0 + 1), None) {
            Some((v, j)) => if sp_ws(s, j) == s.len() {
                Some(v)
            } else {
                None
            },
            None => None,
        }
    } else {
        None
    }
}

pub fn encode_error(c: &ErrorCommand) -> (r: String)
    ensures
        r@ == enc_error(c@),
{
    let mut out: Vec<char> = Vec::new();
    push_lit(&mut out, "{\"msg\":");
    push_str_enc(&mut out, self_str(&c.msg));
    push_lit(&mut out, "}");
    proof {
        assert(out@ =~= enc_error(c@));
    }
    chars_to_string(&out)
}

pub fn decode_error(s: &str) -> (r: Option<ErrorCommand>)
    ensures
        match r {
            Some(c) => dec_error(s@) == Some(c@),
            None => dec_error(s@) is None,
        },
{
    let v = str_chars(s);
    let i0 = p_ws(&v, 0);
    if i0 >= v.len() || v[i0] != '{' {
        return None;
    }
    let mut k = p_ws(&v, i0 + 1);
    let mut u: Option<Vec<char>> = None;
    loop
        invariant
            v@ == s@,
            k <= v@.len(),
            dec_error(v@) == (match dec_error_obj(v@, k as int, ov(u)) {
                Some((vv, j)) => if sp_ws(v@, j) == v@.len() {
                    Some(vv)
                } else {
                    None
                },
                None => None,
            }),
        decreases v@.len() - k,
    {
        let ghost k0 = k as int;
        let ghost u0 = ov(u);
        let j2: usize;
        let lit_u = if u.is_none() {
            p_lit(&v, k, "\"msg\"")
        } else {
            None
        };
        if lit_u.is_some() {
            match p_val_string(&v, lit_u.unwrap()) {
                Some((x, jj)) => {
                    u = Some(x);
                    j2 = jj;
                },
                None => {
                    return None;
                },
            }
        } else {
            return None;
        }
        proof {
            assert(dec_error_field(v@, k0, u0) == Some((ov(u), j2 as int)));
        }
        let j1 = p_ws(&v, j2);
        if j1 < v.len() && v[j1] == ',' {
            k = p_ws(&v, j1 + 1);
            proof {
                assert(dec_error_obj(v@, k0, u0) == dec_error_obj(v@, k as int, ov(u)));
            }
        } else if j1 < v.len() && v[j1] == '}' {
            let e = p_ws(&v, j1 + 1);
            if e != v.len() {
                return None;
            }
            let a = u.unwrap();
            proof {
                assert(dec_error_obj(v@, k0, u0) == Some(
                    (ErrorV { msg: a@ }, j1 + 1 as int),
                ));
            }
            return Some(ErrorCommand { msg: chars_to_string(&a) });
        } else {
            proof {
                assert(dec_error_obj(v@, k0, u0) is None);
            }
            return None;
        }
    }
}

/// Round trip: decoding an encoded error payload yields the original value.
#[verifier::rlimit(50)]
pub proof fn lemma_error_round_trip(v: ErrorV)
    ensures
        dec_error(enc_error(v)) == Some(v),
{
    let l1 = "{\"msg\":"@;
    let l3 = "}"@;
    let ku = "\"msg\""@;
    let eu = enc_str(v.msg);
    let s = enc_error(v);
    reveal_strlit("{\"msg\":");
    reveal_strlit("}");
    reveal_strlit("\"msg\"");
    let p1 = l1;
    let p2 = p1 + eu;
    let i4 = p2.len() as int;

    assert(s =~= p1 + (eu + l3));
    lemma_assoc(p1, eu, l3);

    assert(s[0] == '{' && s[1] == '"' && s[7 - 1] == ':');
    assert(s[7] == eu[0] && eu[0] == '"');
    assert(s[i4] == l3[0] && l3[0] == '}');

    assert(sp_lit(s, 1, ku) == Some(6int)) by {
        assert(s.subrange(1, 6) =~= ku);
    }
    assert(sp_string(s, 7) == Some((v.msg, i4))) by {
        lemma_string_round(p1, v.msg, l3);
    }
    assert(sp_val_string(s, 6) == Some((v.msg, i4))) by {
        assert(sp_ws(s, 6) == 6);
        assert(sp_ws(s, 7) == 7);
    }
    assert(dec_error_field(s, 1, None) == Some((Some(v.msg), i4)));

    assert(dec_error_obj(s, 1, None) == Some((ErrorV { msg: v.msg }, i4 + 1))) by {
        assert(sp_ws(s, i4) == i4);
    }
    assert(sp_ws(s, 0) == 0);
    assert(sp_ws(s, 1) == 1);
    assert(i4 + 1 == s.len());
    assert(sp_ws(s, i4 + 1) == s.len());
    assert(ErrorV { msg: v.msg } == v);
}

// ---------------------------------------------------------------------------
// Envelope
// ---------------------------------------------------------------------------

/// Canonical encoding of the outer event envelope.
pub open spec fn enc_event(v: EventV) -> Seq<char> {
    "{\"username\":"@ + enc_str(v.username) + ",\"event\":"@ + enc_str(v.event) + ",\"data\":"@
        + enc_str(v.data) + ",\"ts\":"@ + dec_u64(v.ts as nat) + "}"@
}

/// One field of an event envelope at a key position.
pub open spec fn dec_event_field(
    s: Seq<char>,
    i: int,
    u: Option<Seq<char>>,
    k: Option<Seq<char>>,
    d: Option<Seq<char>>,
    ts: Option<u64>,
) -> Option<((Option<Seq<char>>, Option<Seq<char>>, Option<Seq<char>>, Option<u64>), int)> {
    if u is None && sp_lit(s, i, "\"username\""@) is Some {
        match sp_val_string(s, sp_lit(s, i, "\"username\""@).unwrap()) {
            Some((x, j)) => Some(((Some(x), k, d, ts), j)),
            None => None,
        }
    } else if k is None && sp_lit(s, i, "\"event\""@) is Some {
        match sp_val_string(s, sp_lit(s, i, "\"event\""@).unwrap()) {
            Some((x, j)) => Some(((u, Some(x), d, ts), j)),
            None => None,
        }
    } else if d is None && sp_lit(s, i, "\"data\""@) is Some {
        match sp_val_string(s, sp_lit(s, i, "\"data\""@).unwrap()) {
            Some((x, j)) => Some(((u, k, Some(x), ts), j)),
            None => None,
        }
    } else if ts is None && sp_lit(s, i, "\"ts\""@) is Some {
        match sp_val_u64(s, sp_lit(s, i, "\"ts\""@).unwrap()) {
            Some((x, j)) => Some(((u, k, d, Some(x)), j)),
            None => None,
        }
    } else {
        None
    }
}

pub proof fn lemma_dec_event_field_bounds(
    s: Seq<char>,
    i: int,
    u: Option<Seq<char>>,
    k: Option<Seq<char>>,
    d: Option<Seq<char>>,
    ts: Option<u64>,
)
    requires
        0 <= i <= s.len(),
    ensures
        dec_event_field(s, i, u, k, d, ts) matches Some(p) ==> i < p.1 <= s.len(),
{
    if u is None && sp_lit(s, i, "\"username\""@) is Some {
        lemma_sp_val_string_bounds(s, sp_lit(s, i, "\"username\""@).unwrap());
    } else if k is None && sp_lit(s, i, "\"event\""@) is Some {
        lemma_sp_val_string_bounds(s, sp_lit(s, i, "\"event\""@).unwrap());
    } else if d is None && sp_lit(s, i, "\"data\""@) is Some {
        lemma_sp_val_string_bounds(s, sp_lit(s, i, "\"data\""@).unwrap());
    } else if ts is None && sp_lit(s, i, "\"ts\""@) is Some {
        lemma_sp_val_u64_bounds(s, sp_lit(s, i, "\"ts\""@).unwrap());
    }
}

/// The fields of an event envelope from a key position, in any order.
pub open spec fn dec_event_obj(
    s: Seq<char>,
    i: int,
    u: Option<Seq<char>>,
    k: Option<Seq<char>>,
    d: Option<Seq<char>>,
    ts: Option<u64>,
) -> Option<(EventV, int)>
    decreases s.len() - i,
{
    if i < 0 || i > s.len() {
        None
    } else {
        match dec_event_field(s, i, u, k, d, ts) {
            Some((slots, j)) => {
                let j1 = sp_ws(s, j);
                if 0 <= j1 < s.len() && s[j1] == ',' {
                    proof {
                        lemma_dec_event_field_bounds(s, i, u, k, d, ts);
                        lemma_sp_ws_bounds(s, j);
                        lemma_sp_ws_bounds(s, j1 + 1);
                    }
                    dec_event_obj(s, sp_ws(s, j1 + 1), slots.0, slots.1, slots.2, slots.3)
                } else if 0 <= j1 < s.len() && s[j1] == '}' {
                    match slots {
                        (Some(a), Some(b), Some(c), Some(n)) => Some(
                            (EventV { username: a, event: b, data: c, ts: n }, j1 + 1),
                        ),
                        _ => None,
                    }
                } else {
                    None
                }
            },
            None => None,
        }
    }
}

/// Parse an event envelope: a JSON object with exactly the fields
/// `username`, `event`, `data` and `ts`, in any order, with optional
/// whitespace.
pub open spec fn dec_event(s: Seq<char>) -> Option<EventV> {
    let i0 = sp_ws(s, 0);
    if 0 <= i0 < s.len() && s[i0] == '{' {
        match dec_event_obj(s, sp_ws(s, i0 + 1), None, None, None, None) {
            Some((v, j)) => if sp_ws(s, j) == s.len() {
                Some(v)
            } else {
                None
            },
            None => None,
        }
    } else {
        None
    }
}

pub fn encode_event(c: &Event) -> (r: String)
    ensures
        r@ == enc_event(c@),
{
    let mut out: Vec<char> = Vec::new();
    push_lit(&mut out, "{\"username\":");
    push_str_enc(&mut out, self_str(&c.username));
    push_lit(&mut out, ",\"event\":");
    push_str_enc(&mut out, self_str(&c.event));
    push_lit(&mut out, ",\"data\":");
    push_str_enc(&mut out, self_str(&c.data));
    push_lit(&mut out, ",\"ts\":");
    push_u64_enc(&mut out, c.ts);
    push_lit(&mut out, "}");
    proof {
        assert(out@ =~= enc_event(c@));
    }
    chars_to_string(&out)
}

pub fn decode_event(s: &str) -> (r: Option<Event>)
    ensures
        match r {
            Some(c) => dec_event(s@) == Some(c@),
            None => dec_event(s@) is None,
        },
{
    let v = str_chars(s);
    let i0 = p_ws(&v, 0);
    if i0 >= v.len() || v[i0] != '{' {
        return None;
    }
    let mut pos = p_ws(&v, i0 + 1);
    let mut u: Option<Vec<char>> = None;
    let mut kd: Option<Vec<char>> = None;
    let mut dt: Option<Vec<char>> = None;
    let mut ts: Option<u64> = None;
    loop
        invariant
            v@ == s@,
            pos <= v@.len(),
            dec_event(v@) == (match dec_event_obj(v@, pos as int, ov(u), ov(kd), ov(dt), ts) {
                Some((ev, j)) => if sp_ws(v@, j) == v@.len() {
                    Some(ev)
                } else {
                    None
                },
                None => None,
            }),
        decreases v@.len() - pos,
    {
        let ghost k0 = pos as int;
        let ghost u0 = ov(u);
        let ghost kd0 = ov(kd);
        let ghost dt0 = ov(dt);
        let ghost ts0 = ts;
        let j2: usize;
        let lit_u = if u.is_none() {
            p_lit(&v, pos, "\"username\"")
        } else {
            None
        };
        let lit_k = if kd.is_none() {
            p_lit(&v, pos, "\"event\"")
        } else {
            None
        };
        let lit_d = if dt.is_none() {
            p_lit(&v, pos, "\"data\"")
        } else {
            None
        };
        let lit_t = if ts.is_none() {
            p_lit(&v, pos, "\"ts\"")
        } else {
            None
        };
        if lit_u.is_some() {
            match p_val_string(&v, lit_u.unwrap()) {
                Some((x, jj)) => {
                    u = Some(x);
                    j2 = jj;
                },
                None => {
                    return None;
                },
            }
        } else if lit_k.is_some() {
            match p_val_string(&v, lit_k.unwrap()) {
                Some((x, jj)) => {
                    kd = Some(x);
                    j2 = jj;
                },
                None => {
                    return None;
                },
            }
        } else if lit_d.is_some() {
            match p_val_string(&v, lit_d.unwrap()) {
                Some((x, jj)) => {
                    dt = Some(x);
                    j2 = jj;
                },
                None => {
                    return None;
                },
            }
        } else if lit_t.is_some() {
            match p_val_u64(&v, lit_t.unwrap()) {
                Some((x, jj)) => {
                    ts = Some(x);
                    j2 = jj;
                },
                None => {
                    return None;
                },
            }
        } else {
            return None;
        }
        proof {
            assert(dec_event_field(v@, k0, u0, kd0, dt0, ts0) == Some(
                ((ov(u), ov(kd), ov(dt), ts), j2 as int),
            ));
        }
        let j1 = p_ws(&v, j2);
        if j1 < v.len() && v[j1] == ',' {
            pos = p_ws(&v, j1 + 1);
            proof {
                assert(dec_event_obj(v@, k0, u0, kd0, dt0, ts0) == dec_event_obj(
                    v@,
                    pos as int,
                    ov(u),
                    ov(kd),
                    ov(dt),
                    ts,
                ));
            }
        } else if j1 < v.len() && v[j1] == '}' {
            if u.is_some() && kd.is_some() && dt.is_some() && ts.is_some() {
                let a = u.unwrap();
                let b = kd.unwrap();
                let c = dt.unwrap();
                let n = ts.unwrap();
                proof {
                    assert(dec_event_obj(v@, k0, u0, kd0, dt0, ts0) == Some(
                        (EventV { username: a@, event: b@, data: c@, ts: n }, j1 + 1 as int),
                    ));
                }
                let e2 = p_ws(&v, j1 + 1);
                if e2 != v.len() {
                    return None;
                }
                return Some(
                    Event {
                        username: chars_to_string(&a),
                        event: chars_to_string(&b),
                        data: chars_to_string(&c),
                        ts: n,
                    },
                );
            } else {
                proof {
                    assert(dec_event_obj(v@, k0, u0, kd0, dt0, ts0) is None);
                }
                return None;
            }
        } else {
            proof {
                assert(dec_event_obj(v@, k0, u0, kd0, dt0, ts0) is None);
            }
            return None;
        }
    }
}

/// The positions of the components of a canonically encoded envelope.
pub open spec fn evt_i2(v: EventV) -> int {
    "{\"username\":"@.len() + enc_str(v.username).len() as int
}

pub open spec fn evt_i4(v: EventV) -> int {
    evt_i2(v) + ",\"event\":"@.len() + enc_str(v.event).len() as int
}

pub open spec fn evt_i6(v: EventV) -> int {
    evt_i4(v) + ",\"data\":"@.len() + enc_str(v.data).len() as int
}

pub open spec fn evt_i8(v: EventV) -> int {
    evt_i6(v) + ",\"ts\":"@.len() + dec_u64(v.ts as nat).len() as int
}

#[verifier::rlimit(100)]
proof fn lemma_event_f1(v: EventV)
    ensures
        ({
            let s = enc_event(v);
            &&& sp_ws(s, 0) == 0 && s[0] == '{' && sp_ws(s, 1) == 1
            &&& dec_event_field(s, 1, None, None, None, None) == Some(
                ((Some(v.username), None::<Seq<char>>, None::<Seq<char>>, None::<u64>), evt_i2(v)),
            )
            &&& sp_ws(s, evt_i2(v)) == evt_i2(v) && s[evt_i2(v)] == ',' && sp_ws(s, evt_i2(v) + 1)
                == evt_i2(v) + 1
        }),
{
    let l1 = "{\"username\":"@;
    let l2 = ",\"event\":"@;
    let l3 = ",\"data\":"@;
    let l4 = ",\"ts\":"@;
    let l5 = "}"@;
    let eu = enc_str(v.username);
    let ek = enc_str(v.event);
    let ed = enc_str(v.data);
    let en = dec_u64(v.ts as nat);
    let s = enc_event(v);
    let p1 = l1;
    let p2 = p1 + eu;
    let p3 = p2 + l2;
    let p4 = p3 + ek;
    let p5 = p4 + l3;
    let p6 = p5 + ed;
    let p7 = p6 + l4;
    let p8 = p7 + en;
    let i2 = p2.len() as int;
    let i4 = p4.len() as int;
    let i6 = p6.len() as int;
    let i8 = p8.len() as int;
    assert(s == p8 + l5);
    lemma_assoc(p7, en, l5);
    lemma_assoc(p6, l4, en + l5);
    lemma_assoc(p5, ed, l4 + (en + l5));
    lemma_assoc(p4, l3, ed + (l4 + (en + l5)));
    lemma_assoc(p3, ek, l3 + (ed + (l4 + (en + l5))));
    lemma_assoc(p2, l2, ek + (l3 + (ed + (l4 + (en + l5)))));
    lemma_assoc(p1, eu, l2 + (ek + (l3 + (ed + (l4 + (en + l5))))));
    let ku = "\"username\""@;
    assert(s[0] == '{' && s[1] == '"' && s[11] == ':' && s[12] == eu[0]) by {
        reveal_strlit("{\"username\":");
    }
    assert(eu[0] == '"');
    assert(s[i2] == l2[0] && l2[0] == ',' && s[i2 + 1] == l2[1] && l2[1] == '"') by {
        reveal_strlit(",\"event\":");
    }
    assert(sp_lit(s, 1, ku) == Some(11int)) by {
        reveal_strlit("{\"username\":");
        reveal_strlit("\"username\"");
        assert(s.subrange(1, 11) =~= ku);
    }
    assert(sp_string(s, 12) == Some((v.username, i2))) by {
        reveal_strlit("{\"username\":");
        lemma_string_round(p1, v.username, l2 + (ek + (l3 + (ed + (l4 + (en + l5))))));
    }
    assert(sp_val_string(s, 11) == Some((v.username, i2))) by {
        assert(sp_ws(s, 11) == 11);
        assert(sp_ws(s, 12) == 12);
    }
    assert(i2 == evt_i2(v)) by {
        reveal_strlit("{\"username\":");
    }
}

#[verifier::rlimit(100)]
proof fn lemma_event_f2(v: EventV)
    ensures
        ({
            let s = enc_event(v);
            &&& dec_event_field(s, evt_i2(v) + 1, Some(v.username), None, None, None) == Some(
                ((Some(v.username), Some(v.event), None::<Seq<char>>, None::<u64>), evt_i4(v)),
            )
            &&& sp_ws(s, evt_i4(v)) == evt_i4(v) && s[evt_i4(v)] == ',' && sp_ws(s, evt_i4(v) + 1)
                == evt_i4(v) + 1
        }),
{
    let l1 = "{\"username\":"@;
    let l2 = ",\"event\":"@;
    let l3 = ",\"data\":"@;
    let l4 = ",\"ts\":"@;
    let l5 = "}"@;
    let eu = enc_str(v.username);
    let ek = enc_str(v.event);
    let ed = enc_str(v.data);
    let en = dec_u64(v.ts as nat);
    let s = enc_event(v);
    let p1 = l1;
    let p2 = p1 + eu;
    let p3 = p2 + l2;
    let p4 = p3 + ek;
    let p5 = p4 + l3;
    let p6 = p5 + ed;
    let p7 = p6 + l4;
    let p8 = p7 + en;
    let i2 = p2.len() as int;
    let i4 = p4.len() as int;
    let i6 = p6.len() as int;
    let i8 = p8.len() as int;
    assert(s == p8 + l5);
    lemma_assoc(p7, en, l5);
    lemma_assoc(p6, l4, en + l5);
    lemma_assoc(p5, ed, l4 + (en + l5));
    lemma_assoc(p4, l3, ed + (l4 + (en + l5)));
    lemma_assoc(p3, ek, l3 + (ed + (l4 + (en + l5))));
    lemma_assoc(p2, l2, ek + (l3 + (ed + (l4 + (en + l5)))));
    let kev = "\"event\""@;
    let k2 = i2 + 1;
    assert(s[i2 + 1] == l2[1] && l2[1] == '"' && s[i2 + 8] == l2[8] && l2[8] == ':') by {
        reveal_strlit(",\"event\":");
    }
    assert(s[i2 + 9] == ek[0] && ek[0] == '"') by {
        reveal_strlit(",\"event\":");
    }
    assert(s[i4] == l3[0] && l3[0] == ',' && s[i4 + 1] == l3[1] && l3[1] == '"') by {
        reveal_strlit(",\"data\":");
    }
    assert(sp_lit(s, k2, kev) == Some(k2 + 7)) by {
        reveal_strlit(",\"event\":");
        reveal_strlit("\"event\"");
        assert(s.subrange(k2, k2 + 7) =~= kev);
    }
    assert(sp_string(s, i2 + 9) == Some((v.event, i4))) by {
        reveal_strlit(",\"event\":");
        lemma_string_round(p3, v.event, l3 + (ed + (l4 + (en + l5))));
    }
    assert(sp_val_string(s, k2 + 7) == Some((v.event, i4))) by {
        assert(sp_ws(s, i2 + 8) == i2 + 8);
        assert(sp_ws(s, i2 + 9) == i2 + 9);
        assert(k2 + 7 == i2 + 8);
    }
    assert(i2 == evt_i2(v) && i4 == evt_i4(v)) by {
        reveal_strlit("{\"username\":");
        reveal_strlit(",\"event\":");
    }
}

#[verifier::rlimit(100)]
proof fn lemma_event_f3(v: EventV)
    ensures
        ({
            let s = enc_event(v);
            &&& dec_event_field(s, evt_i4(v) + 1, Some(v.username), Some(v.event), None, None)
                == Some(
                ((Some(v.username), Some(v.event), Some(v.data), None::<u64>), evt_i6(v)),
            )
            &&& sp_ws(s, evt_i6(v)) == evt_i6(v) && s[evt_i6(v)] == ',' && sp_ws(s, evt_i6(v) + 1)
                == evt_i6(v) + 1
        }),
{
    let l1 = "{\"username\":"@;
    let l2 = ",\"event\":"@;
    let l3 = ",\"data\":"@;
    let l4 = ",\"ts\":"@;
    let l5 = "}"@;
    let eu = enc_str(v.username);
    let ek = enc_str(v.event);
    let ed = enc_str(v.data);
    let en = dec_u64(v.ts as nat);
    let s = enc_event(v);
    let p1 = l1;
    let p2 = p1 + eu;
    let p3 = p2 + l2;
    let p4 = p3 + ek;
    let p5 = p4 + l3;
    let p6 = p5 + ed;
    let p7 = p6 + l4;
    let p8 = p7 + en;
    let i2 = p2.len() as int;
    let i4 = p4.len() as int;
    let i6 = p6.len() as int;
    let i8 = p8.len() as int;
    assert(s == p8 + l5);
    lemma_assoc(p7, en, l5);
    lemma_assoc(p6, l4, en + l5);
    lemma_assoc(p5, ed, l4 + (en + l5));
    lemma_assoc(p4, l3, ed + (l4 + (en + l5)));
    let kd = "\"data\""@;
    let k3 = i4 + 1;
    assert(s[i4 + 1] == l3[1] && l3[1] == '"' && s[i4 + 7] == l3[7] && l3[7] == ':') by {
        reveal_strlit(",\"data\":");
    }
    assert(s[i4 + 8] == ed[0] && ed[0] == '"') by {
        reveal_strlit(",\"data\":");
    }
    assert(s[i6] == l4[0] && l4[0] == ',' && s[i6 + 1] == l4[1] && l4[1] == '"') by {
        reveal_strlit(",\"ts\":");
    }
    assert(sp_lit(s, k3, kd) == Some(k3 + 6)) by {
        reveal_strlit(",\"data\":");
        reveal_strlit("\"data\"");
        assert(s.subrange(k3, k3 + 6) =~= kd);
    }
    assert(sp_string(s, i4 + 8) == Some((v.data, i6))) by {
        reveal_strlit(",\"data\":");
        lemma_string_round(p5, v.data, l4 + (en + l5));
    }
    assert(sp_val_string(s, k3 + 6) == Some((v.data, i6))) by {
        assert(sp_ws(s, i4 + 7) == i4 + 7);
        assert(sp_ws(s, i4 + 8) == i4 + 8);
        assert(k3 + 6 == i4 + 7);
    }
    assert(i4 == evt_i4(v) && i6 == evt_i6(v)) by {
        reveal_strlit("{\"username\":");
        reveal_strlit(",\"event\":");
        reveal_strlit(",\"data\":");
    }
}

#[verifier::rlimit(100)]
proof fn lemma_event_f4(v: EventV)
    ensures
        ({
            let s = enc_event(v);
            &&& dec_event_field(
                s,
                evt_i6(v) + 1,
                Some(v.username),
                Some(v.event),
                Some(v.data),
                None,
            ) == Some(
                ((Some(v.username), Some(v.event), Some(v.data), Some(v.ts)), evt_i8(v)),
            )
            &&& sp_ws(s, evt_i8(v)) == evt_i8(v) && s[evt_i8(v)] == '}'
            &&& evt_i8(v) + 1 == s.len()
        }),
{
    let l1 = "{\"username\":"@;
    let l2 = ",\"event\":"@;
    let l3 = ",\"data\":"@;
    let l4 = ",\"ts\":"@;
    let l5 = "}"@;
    let eu = enc_str(v.username);
    let ek = enc_str(v.event);
    let ed = enc_str(v.data);
    let en = dec_u64(v.ts as nat);
    let s = enc_event(v);
    let p1 = l1;
    let p2 = p1 + eu;
    let p3 = p2 + l2;
    let p4 = p3 + ek;
    let p5 = p4 + l3;
    let p6 = p5 + ed;
    let p7 = p6 + l4;
    let p8 = p7 + en;
    let i2 = p2.len() as int;
    let i4 = p4.len() as int;
    let i6 = p6.len() as int;
    let i8 = p8.len() as int;
    assert(s == p8 + l5);
    lemma_assoc(p7, en, l5);
    lemma_assoc(p6, l4, en + l5);
    crate::json::lemma_dec_u64_digits(v.ts as nat);
    let kt = "\"ts\""@;
    let k4 = i6 + 1;
    assert(s[i6 + 1] == l4[1] && l4[1] == '"' && s[i6 + 5] == l4[5] && l4[5] == ':') by {
        reveal_strlit(",\"ts\":");
    }
    assert(s[i6 + 6] == en[0] && is_digit(en[0]) && !is_ws(en[0])) by {
        reveal_strlit(",\"ts\":");
    }
    assert(s[i8] == l5[0] && l5[0] == '}') by {
        reveal_strlit("}");
    }
    assert(sp_lit(s, k4, kt) == Some(k4 + 4)) by {
        reveal_strlit(",\"ts\":");
        reveal_strlit("\"ts\"");
        assert(s.subrange(k4, k4 + 4) =~= kt);
    }
    assert(sp_u64(s, i6 + 6) == Some((v.ts, i8))) by {
        reveal_strlit(",\"ts\":");
        reveal_strlit("}");
        assert(l5[0] == '}');
        assert(!is_digit('}'));
        lemma_u64_round(p7, v.ts, l5);
    }
    assert(sp_val_u64(s, k4 + 4) == Some((v.ts, i8))) by {
        assert(sp_ws(s, i6 + 5) == i6 + 5);
        assert(sp_ws(s, i6 + 6) == i6 + 6);
        assert(k4 + 4 == i6 + 5);
    }
    assert(i6 == evt_i6(v) && i8 == evt_i8(v)) by {
        reveal_strlit("{\"username\":");
        reveal_strlit(",\"event\":");
        reveal_strlit(",\"data\":");
        reveal_strlit(",\"ts\":");
    }
    assert(i8 + 1 == s.len()) by {
        reveal_strlit("}");
    }
}

/// Round trip: decoding an encoded envelope yields the original value.
pub proof fn lemma_event_round_trip(v: EventV)
    ensures
        dec_event(enc_event(v)) == Some(v),
{
    let s = enc_event(v);
    lemma_event_f1(v);
    lemma_event_f2(v);
    lemma_event_f3(v);
    lemma_event_f4(v);
    let i2 = evt_i2(v);
    let i4 = evt_i4(v);
    let i6 = evt_i6(v);
    let i8 = evt_i8(v);
    let ev = EventV { username: v.username, event: v.event, data: v.data, ts: v.ts };
    assert(dec_event_obj(s, i6 + 1, Some(v.username), Some(v.event), Some(v.data), None) == Some(
        (ev, i8 + 1),
    ));
    assert(dec_event_obj(s, i4 + 1, Some(v.username), Some(v.event), None, None) == Some(
        (ev, i8 + 1),
    ));
    assert(dec_event_obj(s, i2 + 1, Some(v.username), None, None, None) == Some((ev, i8 + 1)));
    assert(dec_event_obj(s, 1, None, None, None, None) == Some((ev, i8 + 1)));
    assert(sp_ws(s, i8 + 1) == s.len());
    assert(ev == v);
}


// ---------------------------------------------------------------------------
// Change: positions, optional id, line arrays
// ---------------------------------------------------------------------------

/// Canonical encoding of a document position.
pub open spec fn enc_pos(p: Pos) -> Seq<char> {
    "{\"row\":"@ + dec_u64(p.row as nat) + ",\"column\":"@ + dec_u64(p.column as nat) + "}"@
}

/// One field of a position object at a key position.
pub open spec fn dec_pos_field(s: Seq<char>, i: int, r: Option<u64>, c: Option<u64>) -> Option<
    ((Option<u64>, Option<u64>), int),
> {
    if r is None && sp_lit(s, i, "\"row\""@) is Some {
        match sp_val_u64(s, sp_lit(s, i, "\"row\""@).unwrap()) {
            Some((x, j)) => Some(((Some(x), c), j)),
            None => None,
        }
    } else if c is None && sp_lit(s, i, "\"column\""@) is Some {
        match sp_val_u64(s, sp_lit(s, i, "\"column\""@).unwrap()) {
            Some((x, j)) => Some(((r, Some(x)), j)),
            None => None,
        }
    } else {
        None
    }
}

pub proof fn lemma_dec_pos_field_bounds(s: Seq<char>, i: int, r: Option<u64>, c: Option<u64>)
    requires
        0 <= i <= s.len(),
    ensures
        dec_pos_field(s, i, r, c) matches Some(p) ==> i < p.1 <= s.len(),
{
    if r is None && sp_lit(s, i, "\"row\""@) is Some {
        lemma_sp_val_u64_bounds(s, sp_lit(s, i, "\"row\""@).unwrap());
    } else if c is None && sp_lit(s, i, "\"column\""@) is Some {
        lemma_sp_val_u64_bounds(s, sp_lit(s, i, "\"column\""@).unwrap());
    }
}

/// The fields of a position object from a key position, in any order.
pub open spec fn dec_pos_obj(s: Seq<char>, i: int, r: Option<u64>, c: Option<u64>) -> Option<
    (Pos, int),
>
    decreases s.len() - i,
{
    if i < 0 || i > s.len() {
        None
    } else {
        match dec_pos_field(s, i, r, c) {
            Some((slots, j)) => {
                let j1 = sp_ws(s, j);
                if 0 <= j1 < s.len() && s[j1] == ',' {
                    proof {
                        lemma_dec_pos_field_bounds(s, i, r, c);
                        lemma_sp_ws_bounds(s, j);
                        lemma_sp_ws_bounds(s, j1 + 1);
                    }
                    dec_pos_obj(s, sp_ws(s, j1 + 1), slots.0, slots.1)
                } else if 0 <= j1 < s.len() && s[j1] == '}' {
                    match slots {
                        (Some(a), Some(b)) => Some((Pos { row: a, column: b }, j1 + 1)),
                        _ => None,
                    }
                } else {
                    None
                }
            },
            None => None,
        }
    }
}

pub proof fn lemma_dec_pos_obj_bounds(s: Seq<char>, i: int, r: Option<u64>, c: Option<u64>)
    ensures
        dec_pos_obj(s, i, r, c) matches Some(p) ==> i < p.1 <= s.len(),
    decreases s.len() - i,
{
    if 0 <= i <= s.len() {
        match dec_pos_field(s, i, r, c) {
            Some((slots, j)) => {
                lemma_dec_pos_field_bounds(s, i, r, c);
                lemma_sp_ws_bounds(s, j);
                let j1 = sp_ws(s, j);
                if 0 <= j1 < s.len() && s[j1] == ',' {
                    lemma_sp_ws_bounds(s, j1 + 1);
                    lemma_dec_pos_obj_bounds(s, sp_ws(s, j1 + 1), slots.0, slots.1);
                }
            },
            None => {},
        }
    }
}

/// Parse a document position: a JSON object with exactly the fields `row`
/// and `column`, in either order, with optional whitespace.
pub open spec fn sp_pos(s: Seq<char>, i: int) -> Option<(Pos, int)> {
    if 0 <= i < s.len() && s[i] == '{' {
        dec_pos_obj(s, sp_ws(s, i + 1), None, None)
    } else {
        None
    }
}

pub proof fn lemma_sp_pos_bounds(s: Seq<char>, i: int)
    ensures
        sp_pos(s, i) matches Some(p) ==> i < p.1 <= s.len(),
{
    if 0 <= i < s.len() && s[i] == '{' {
        lemma_sp_ws_bounds(s, i + 1);
        lemma_dec_pos_obj_bounds(s, sp_ws(s, i + 1), None, None);
    }
}

/// Canonical encoding of an optional operation id.
pub open spec fn enc_id(id: Option<u64>) -> Seq<char> {
    match id {
        None => "null"@,
        Some(n) => dec_u64(n as nat),
    }
}

/// Parse an optional operation id: `null` or a decimal number.
pub open spec fn sp_id(s: Seq<char>, i: int) -> Option<(Option<u64>, int)> {
    match sp_lit(s, i, "null"@) {
        Some(j) => Some((None, j)),
        None => match sp_u64(s, i) {
            Some((n, j)) => Some((Some(n), j)),
            None => None,
        },
    }
}

/// After a key: colon and whitespace, then an optional operation id.
pub open spec fn sp_val_id(s: Seq<char>, i: int) -> Option<(Option<u64>, int)> {
    let j = sp_ws(s, i);
    if 0 <= j < s.len() && s[j] == ':' {
        sp_id(s, sp_ws(s, j + 1))
    } else {
        None
    }
}

pub proof fn lemma_sp_val_id_bounds(s: Seq<char>, i: int)
    requires
        0 <= i <= s.len(),
    ensures
        sp_val_id(s, i) matches Some(p) ==> i < p.1 <= s.len(),
{
    lemma_sp_ws_bounds(s, i);
    let j = sp_ws(s, i);
    if 0 <= j < s.len() && s[j] == ':' {
        lemma_sp_ws_bounds(s, j + 1);
        let k = sp_ws(s, j + 1);
        if sp_lit(s, k, "null"@) is None {
            if 0 <= k < s.len() && is_digit(s[k]) {
                crate::json::lemma_u64_rec_bounds(s, k, 0);
            }
        }
    }
}

/// After a key: colon and whitespace, then a position object.
pub open spec fn sp_val_pos(s: Seq<char>, i: int) -> Option<(Pos, int)> {
    let j = sp_ws(s, i);
    if 0 <= j < s.len() && s[j] == ':' {
        sp_pos(s, sp_ws(s, j + 1))
    } else {
        None
    }
}

pub proof fn lemma_sp_val_pos_bounds(s: Seq<char>, i: int)
    requires
        0 <= i <= s.len(),
    ensures
        sp_val_pos(s, i) matches Some(p) ==> i < p.1 <= s.len(),
{
    lemma_sp_ws_bounds(s, i);
    let j = sp_ws(s, i);
    if 0 <= j < s.len() && s[j] == ':' {
        lemma_sp_ws_bounds(s, j + 1);
        lemma_sp_pos_bounds(s, sp_ws(s, j + 1));
    }
}

fn p_val_id(v: &Vec<char>, i: usize) -> (r: Option<(Option<u64>, usize)>)
    requires
        i <= v@.len(),
    ensures
        match r {
            Some(p) => sp_val_id(v@, i as int) == Some((p.0, p.1 as int)) && i < p.1 <= v@.len(),
            None => sp_val_id(v@, i as int) is None,
        },
{
    let j = p_ws(v, i);
    if j >= v.len() || v[j] != ':' {
        return None;
    }
    let k = p_ws(v, j + 1);
    p_id(v, k)
}

fn p_val_pos(v: &Vec<char>, i: usize) -> (r: Option<(Pos, usize)>)
    requires
        i <= v@.len(),
    ensures
        match r {
            Some(p) => sp_val_pos(v@, i as int) == Some((p.0, p.1 as int)) && i < p.1 <= v@.len(),
            None => sp_val_pos(v@, i as int) is None,
        },
{
    let j = p_ws(v, i);
    if j >= v.len() || v[j] != ':' {
        return None;
    }
    let k = p_ws(v, j + 1);
    p_pos(v, k)
}

/// The encoding of every line after the first, each preceded by a comma.
pub open spec fn enc_lines_tail(ls: Seq<Seq<char>>) -> Seq<char>
    decreases ls.len(),
{
    if ls.len() == 0 {
        Seq::empty()
    } else {
        seq![','] + enc_str(ls[0]) + enc_lines_tail(ls.drop_first())
    }
}

/// Canonical encoding of an array of lines.
pub open spec fn enc_lines(ls: Seq<Seq<char>>) -> Seq<char> {
    if ls.len() == 0 {
        seq!['['] + seq![']']
    } else {
        seq!['['] + enc_str(ls[0]) + enc_lines_tail(ls.drop_first()) + seq![']']
    }
}

/// Parse the rest of a line array after one element: whitespace, then
/// either a closing bracket or a comma followed by the next string.
pub open spec fn sp_lines_rec(s: Seq<char>, i: int, acc: Seq<Seq<char>>) -> Option<
    (Seq<Seq<char>>, int),
>
    decreases s.len() - i,
{
    if i < 0 || i > s.len() {
        None
    } else {
        let j = sp_ws(s, i);
        if 0 <= j < s.len() && s[j] == ']' {
            Some((acc, j + 1))
        } else if 0 <= j < s.len() && s[j] == ',' {
            match sp_string(s, sp_ws(s, j + 1)) {
                Some((x, k)) => {
                    proof {
                        lemma_sp_ws_bounds(s, i);
                        lemma_sp_ws_bounds(s, j + 1);
                        lemma_str_rec_bounds(s, sp_ws(s, j + 1) + 1, Seq::empty());
                    }
                    sp_lines_rec(s, k, acc.push(x))
                },
                None => None,
            }
        } else {
            None
        }
    }
}

pub proof fn lemma_sp_lines_rec_bounds(s: Seq<char>, i: int, acc: Seq<Seq<char>>)
    ensures
        sp_lines_rec(s, i, acc) matches Some(p) ==> i < p.1 <= s.len(),
    decreases s.len() - i,
{
    if 0 <= i <= s.len() {
        lemma_sp_ws_bounds(s, i);
        let j = sp_ws(s, i);
        if 0 <= j < s.len() && s[j] == ']' {
        } else if 0 <= j < s.len() && s[j] == ',' {
            lemma_sp_ws_bounds(s, j + 1);
            match sp_string(s, sp_ws(s, j + 1)) {
                Some((x, k)) => {
                    lemma_str_rec_bounds(s, sp_ws(s, j + 1) + 1, Seq::empty());
                    lemma_sp_lines_rec_bounds(s, k, acc.push(x));
                },
                None => {},
            }
        }
    }
}

/// Parse a line array whose opening bracket stands at `i`, with optional
/// whitespace around elements.
pub open spec fn sp_lines(s: Seq<char>, i: int) -> Option<(Seq<Seq<char>>, int)> {
    if !(0 <= i < s.len() && s[i] == '[') {
        None
    } else {
        let j = sp_ws(s, i + 1);
        if 0 <= j < s.len() && s[j] == ']' {
            Some((Seq::empty(), j + 1))
        } else {
            match sp_string(s, j) {
                Some((x, k)) => sp_lines_rec(s, k, seq![x]),
                None => None,
            }
        }
    }
}

pub proof fn lemma_sp_lines_bounds(s: Seq<char>, i: int)
    ensures
        sp_lines(s, i) matches Some(p) ==> i < p.1 <= s.len(),
{
    if 0 <= i < s.len() && s[i] == '[' {
        lemma_sp_ws_bounds(s, i + 1);
        let j = sp_ws(s, i + 1);
        if 0 <= j < s.len() && s[j] == ']' {
        } else {
            match sp_string(s, j) {
                Some((x, k)) => {
                    lemma_str_rec_bounds(s, j + 1, Seq::empty());
                    lemma_sp_lines_rec_bounds(s, k, seq![x]);
                },
                None => {},
            }
        }
    }
}

/// After a key: colon and whitespace, then a line array.
pub open spec fn sp_val_lines(s: Seq<char>, i: int) -> Option<(Seq<Seq<char>>, int)> {
    let j = sp_ws(s, i);
    if 0 <= j < s.len() && s[j] == ':' {
        sp_lines(s, sp_ws(s, j + 1))
    } else {
        None
    }
}

pub proof fn lemma_sp_val_lines_bounds(s: Seq<char>, i: int)
    requires
        0 <= i <= s.len(),
    ensures
        sp_val_lines(s, i) matches Some(p) ==> i < p.1 <= s.len(),
{
    lemma_sp_ws_bounds(s, i);
    let j = sp_ws(s, i);
    if 0 <= j < s.len() && s[j] == ':' {
        lemma_sp_ws_bounds(s, j + 1);
        lemma_sp_lines_bounds(s, sp_ws(s, j + 1));
    }
}

/// Canonical encoding of a change payload./// Canonical encoding of a change payload.
pub open spec fn enc_change(v: ChangeV) -> Seq<char> {
    "{\"id\":"@ + enc_id(v.id) + ",\"action\":"@ + enc_str(v.action) + ",\"start\":"@ + enc_pos(
        v.start,
    ) + ",\"end\":"@ + enc_pos(v.end) + ",\"lines\":"@ + enc_lines(v.lines) + "}"@
}

/// One field of a change object at a key position.
pub open spec fn dec_change_field(
    s: Seq<char>,
    i: int,
    id: Option<Option<u64>>,
    ac: Option<Seq<char>>,
    st: Option<Pos>,
    en: Option<Pos>,
    ln: Option<Seq<Seq<char>>>,
) -> Option<
    ((Option<Option<u64>>, Option<Seq<char>>, Option<Pos>, Option<Pos>, Option<Seq<Seq<char>>>), int),
> {
    if id is None && sp_lit(s, i, "\"id\""@) is Some {
        match sp_val_id(s, sp_lit(s, i, "\"id\""@).unwrap()) {
            Some((x, j)) => Some(((Some(x), ac, st, en, ln), j)),
            None => None,
        }
    } else if ac is None && sp_lit(s, i, "\"action\""@) is Some {
        match sp_val_string(s, sp_lit(s, i, "\"action\""@).unwrap()) {
            Some((x, j)) => Some(((id, Some(x), st, en, ln), j)),
            None => None,
        }
    } else if st is None && sp_lit(s, i, "\"start\""@) is Some {
        match sp_val_pos(s, sp_lit(s, i, "\"start\""@).unwrap()) {
            Some((x, j)) => Some(((id, ac, Some(x), en, ln), j)),
            None => None,
        }
    } else if en is None && sp_lit(s, i, "\"end\""@) is Some {
        match sp_val_pos(s, sp_lit(s, i, "\"end\""@).unwrap()) {
            Some((x, j)) => Some(((id, ac, st, Some(x), ln), j)),
            None => None,
        }
    } else if ln is None && sp_lit(s, i, "\"lines\""@) is Some {
        match sp_val_lines(s, sp_lit(s, i, "\"lines\""@).unwrap()) {
            Some((x, j)) => Some(((id, ac, st, en, Some(x)), j)),
            None => None,
        }
    } else {
        None
    }
}

pub proof fn lemma_dec_change_field_bounds(
    s: Seq<char>,
    i: int,
    id: Option<Option<u64>>,
    ac: Option<Seq<char>>,
    st: Option<Pos>,
    en: Option<Pos>,
    ln: Option<Seq<Seq<char>>>,
)
    requires
        0 <= i <= s.len(),
    ensures
        dec_change_field(s, i, id, ac, st, en, ln) matches Some(p) ==> i < p.1 <= s.len(),
{
    if id is None && sp_lit(s, i, "\"id\""@) is Some {
        lemma_sp_val_id_bounds(s, sp_lit(s, i, "\"id\""@).unwrap());
    } else if ac is None && sp_lit(s, i, "\"action\""@) is Some {
        lemma_sp_val_string_bounds(s, sp_lit(s, i, "\"action\""@).unwrap());
    } else if st is None && sp_lit(s, i, "\"start\""@) is Some {
        lemma_sp_val_pos_bounds(s, sp_lit(s, i, "\"start\""@).unwrap());
    } else if en is None && sp_lit(s, i, "\"end\""@) is Some {
        lemma_sp_val_pos_bounds(s, sp_lit(s, i, "\"end\""@).unwrap());
    } else if ln is None && sp_lit(s, i, "\"lines\""@) is Some {
        lemma_sp_val_lines_bounds(s, sp_lit(s, i, "\"lines\""@).unwrap());
    }
}

/// The fields of a change object from a key position, in any order.
pub open spec fn dec_change_obj(
    s: Seq<char>,
    i: int,
    id: Option<Option<u64>>,
    ac: Option<Seq<char>>,
    st: Option<Pos>,
    en: Option<Pos>,
    ln: Option<Seq<Seq<char>>>,
) -> Option<(ChangeV, int)>
    decreases s.len() - i,
{
    if i < 0 || i > s.len() {
        None
    } else {
        match dec_change_field(s, i, id, ac, st, en, ln) {
            Some((slots, j)) => {
                let j1 = sp_ws(s, j);
                if 0 <= j1 < s.len() && s[j1] == ',' {
                    proof {
                        lemma_dec_change_field_bounds(s, i, id, ac, st, en, ln);
                        lemma_sp_ws_bounds(s, j);
                        lemma_sp_ws_bounds(s, j1 + 1);
                    }
                    dec_change_obj(s, sp_ws(s, j1 + 1), slots.0, slots.1, slots.2, slots.3, slots.4)
                } else if 0 <= j1 < s.len() && s[j1] == '}' {
                    match slots {
                        (Some(a), Some(b), Some(c), Some(d), Some(e)) => Some(
                            (ChangeV { id: a, action: b, start: c, end: d, lines: e }, j1 + 1),
                        ),
                        _ => None,
                    }
                } else {
                    None
                }
            },
            None => None,
        }
    }
}

/// Parse a change payload: a JSON object with exactly the fields `id`,
/// `action`, `start`, `end` and `lines`, in any order, with optional
/// whitespace.
pub open spec fn dec_change(s: Seq<char>) -> Option<ChangeV> {
    let i0 = sp_ws(s, 0);
    if 0 <= i0 < s.len() && s[i0] == '{' {
        match dec_change_obj(s, sp_ws(s, i0 + 1), None, None, None, None, None) {
            Some((v, j)) => if sp_ws(s, j) == s.len() {
                Some(v)
            } else {
                None
            },
            None => None,
        }
    } else {
        None
    }
}

fn push_id(out: &mut Vec<char>, id: &Option<u64>)
    ensures
        final(out)@ == old(out)@ + enc_id(*id),
{
    match id {
        None => push_lit(out, "null"),
        Some(n) => push_u64_enc(out, *n),
    }
}

fn push_pos(out: &mut Vec<char>, p: Pos)
    ensures
        final(out)@ == old(out)@ + enc_pos(p),
{
    push_lit(out, "{\"row\":");
    push_u64_enc(out, p.row);
    push_lit(out, ",\"column\":");
    push_u64_enc(out, p.column);
    push_lit(out, "}");
    proof {
        assert(out@ =~= old(out)@ + enc_pos(p));
    }
}

proof fn lemma_lines_tail_push(q: Seq<Seq<char>>, x: Seq<char>)
    ensures
        enc_lines_tail(q.push(x)) == enc_lines_tail(q) + (seq![','] + enc_str(x)),
    decreases q.len(),
{
    let u = q.push(x);
    assert(u.len() == q.len() + 1);
    if q.len() == 0 {
        assert(u[0] == x);
        assert(u.drop_first() =~= Seq::<Seq<char>>::empty());
        assert(enc_lines_tail(u) == seq![','] + enc_str(x) + enc_lines_tail(u.drop_first()));
        assert(enc_lines_tail(u.drop_first()) == Seq::<char>::empty());
        assert(enc_lines_tail(q) == Seq::<char>::empty());
        assert(seq![','] + enc_str(x) + Seq::<char>::empty() =~= enc_lines_tail(q) + (seq![',']
            + enc_str(x)));
    } else {
        assert(u[0] == q[0]);
        assert(u.drop_first() =~= q.drop_first().push(x));
        lemma_lines_tail_push(q.drop_first(), x);
        assert(enc_lines_tail(u) == seq![','] + enc_str(q[0]) + enc_lines_tail(u.drop_first()));
        assert(enc_lines_tail(u.drop_first()) == enc_lines_tail(q.drop_first()) + (seq![',']
            + enc_str(x)));
        assert(enc_lines_tail(q) == seq![','] + enc_str(q[0]) + enc_lines_tail(q.drop_first()));
        assert(seq![','] + enc_str(q[0]) + (enc_lines_tail(q.drop_first()) + (seq![','] + enc_str(
            x,
        ))) =~= (seq![','] + enc_str(q[0]) + enc_lines_tail(q.drop_first())) + (seq![','] + enc_str(
            x,
        )));
    }
}

fn push_lines(out: &mut Vec<char>, ls: &Vec<String>)
    ensures
        final(out)@ == old(out)@ + enc_lines(ls.deep_view()),
{
    out.push('[');
    if ls.len() > 0 {
        push_str_enc(out, self_str(&ls[0]));
        let mut t: usize = 1;
        while t < ls.len()
            invariant
                1 <= t <= ls@.len(),
                out@ == old(out)@ + seq!['['] + enc_str(ls.deep_view()[0]) + enc_lines_tail(
                    ls.deep_view().subrange(1, t as int),
                ),
            decreases ls@.len() - t,
        {
            let ghost pref = ls.deep_view().subrange(1, t as int);
            push_lit(out, ",");
            push_str_enc(out, self_str(&ls[t]));
            t = t + 1;
            proof {
                reveal_strlit(",");
                assert(","@ =~= seq![',']);
                lemma_lines_tail_push(pref, ls.deep_view()[t - 1]);
                assert(pref.push(ls.deep_view()[t - 1]) =~= ls.deep_view().subrange(1, t as int));
                assert(out@ =~= old(out)@ + seq!['['] + enc_str(ls.deep_view()[0])
                    + enc_lines_tail(ls.deep_view().subrange(1, t as int)));
            }
        }
        out.push(']');
        proof {
            assert(ls.deep_view().subrange(1, ls.deep_view().len() as int) =~= ls.deep_view().drop_first());
            assert(out@ =~= old(out)@ + enc_lines(ls.deep_view()));
        }
    } else {
        out.push(']');
        proof {
            assert(out@ =~= old(out)@ + enc_lines(ls.deep_view()));
        }
    }
}

pub fn encode_change(c: &ChangeCommand) -> (r: String)
    ensures
        r@ == enc_change(c@),
{
    let mut out: Vec<char> = Vec::new();
    push_lit(&mut out, "{\"id\":");
    push_id(&mut out, &c.id);
    push_lit(&mut out, ",\"action\":");
    push_str_enc(&mut out, self_str(&c.action));
    push_lit(&mut out, ",\"start\":");
    push_pos(&mut out, c.start);
    push_lit(&mut out, ",\"end\":");
    push_pos(&mut out, c.end);
    push_lit(&mut out, ",\"lines\":");
    push_lines(&mut out, &c.lines);
    push_lit(&mut out, "}");
    proof {
        assert(out@ =~= enc_change(c@));
    }
    chars_to_string(&out)
}

fn p_pos(v: &Vec<char>, i: usize) -> (r: Option<(Pos, usize)>)
    requires
        i <= v@.len(),
    ensures
        match r {
            Some(p) => sp_pos(v@, i as int) == Some((p.0, p.1 as int)) && i < p.1 <= v@.len(),
            None => sp_pos(v@, i as int) is None,
        },
{
    if i >= v.len() || v[i] != '{' {
        return None;
    }
    let mut k = p_ws(v, i + 1);
    let mut row: Option<u64> = None;
    let mut col: Option<u64> = None;
    loop
        invariant
            i < k <= v@.len(),
            sp_pos(v@, i as int) == dec_pos_obj(v@, k as int, row, col),
        decreases v@.len() - k,
    {
        let ghost k0 = k as int;
        let ghost r0 = row;
        let ghost c0 = col;
        let j2: usize;
        let lit_r = if row.is_none() {
            p_lit(v, k, "\"row\"")
        } else {
            None
        };
        let lit_c = if col.is_none() {
            p_lit(v, k, "\"column\"")
        } else {
            None
        };
        if lit_r.is_some() {
            match p_val_u64(v, lit_r.unwrap()) {
                Some((x, jj)) => {
                    row = Some(x);
                    j2 = jj;
                },
                None => {
                    return None;
                },
            }
        } else if lit_c.is_some() {
            match p_val_u64(v, lit_c.unwrap()) {
                Some((x, jj)) => {
                    col = Some(x);
                    j2 = jj;
                },
                None => {
                    return None;
                },
            }
        } else {
            return None;
        }
        proof {
            assert(dec_pos_field(v@, k0, r0, c0) == Some(((row, col), j2 as int)));
        }
        let j1 = p_ws(v, j2);
        if j1 < v.len() && v[j1] == ',' {
            k = p_ws(v, j1 + 1);
            proof {
                assert(dec_pos_obj(v@, k0, r0, c0) == dec_pos_obj(v@, k as int, row, col));
            }
        } else if j1 < v.len() && v[j1] == '}' {
            if row.is_some() && col.is_some() {
                let a = row.unwrap();
                let b = col.unwrap();
                proof {
                    assert(dec_pos_obj(v@, k0, r0, c0) == Some(
                        (Pos { row: a, column: b }, j1 + 1 as int),
                    ));
                }
                return Some((Pos { row: a, column: b }, j1 + 1));
            } else {
                proof {
                    assert(dec_pos_obj(v@, k0, r0, c0) is None);
                }
                return None;
            }
        } else {
            proof {
                assert(dec_pos_obj(v@, k0, r0, c0) is None);
            }
            return None;
        }
    }
}

fn p_id(v: &Vec<char>, i: usize) -> (r: Option<(Option<u64>, usize)>)
    ensures
        match r {
            Some(p) => sp_id(v@, i as int) == Some((p.0, p.1 as int)) && i <= p.1 <= v@.len(),
            None => sp_id(v@, i as int) is None,
        },
{
    match p_lit(v, i, "null") {
        Some(j) => Some((None, j)),
        None => {
            match p_u64(v, i) {
                Some((n, j)) => Some((Some(n), j)),
                None => None,
            }
        },
    }
}

fn p_lines(v: &Vec<char>, i: usize) -> (r: Option<(Vec<String>, usize)>)
    requires
        i <= v@.len(),
    ensures
        match r {
            Some(p) => sp_lines(v@, i as int) == Some((p.0.deep_view(), p.1 as int)) && i < p.1
                <= v@.len(),
            None => sp_lines(v@, i as int) is None,
        },
{
    if i >= v.len() || v[i] != '[' {
        return None;
    }
    let j = p_ws(v, i + 1);
    if j < v.len() && v[j] == ']' {
        let empty: Vec<String> = Vec::new();
        proof {
            assert(empty.deep_view() =~= Seq::<Seq<char>>::empty());
        }
        return Some((empty, j + 1));
    }
    let (x0, j0) = match p_string(v, j) {
        Some(p) => p,
        None => {
            return None;
        },
    };
    let mut acc: Vec<String> = Vec::new();
    acc.push(chars_to_string(&x0));
    proof {
        assert(acc.deep_view() =~= seq![x0@]);
    }
    let mut k: usize = j0;
    loop
        invariant
            i < k <= v@.len(),
            sp_lines(v@, i as int) == sp_lines_rec(v@, k as int, acc.deep_view()),
        decreases v@.len() - k,
    {
        let ghost k0 = k as int;
        let ghost acc0 = acc.deep_view();
        let j1 = p_ws(v, k);
        if j1 < v.len() && v[j1] == ']' {
            return Some((acc, j1 + 1));
        }
        if j1 < v.len() && v[j1] == ',' {
            let j3 = p_ws(v, j1 + 1);
            match p_string(v, j3) {
                Some((x, j4)) => {
                    acc.push(chars_to_string(&x));
                    proof {
                        assert(acc.deep_view() =~= acc0.push(x@));
                    }
                    k = j4;
                    proof {
                        assert(sp_lines_rec(v@, k0, acc0) == sp_lines_rec(
                            v@,
                            k as int,
                            acc.deep_view(),
                        ));
                    }
                },
                None => {
                    return None;
                },
            }
        } else {
            return None;
        }
    }
}

pub fn decode_change(s: &str) -> (r: Option<ChangeCommand>)
    ensures
        match r {
            Some(c) => dec_change(s@) == Some(c@),
            None => dec_change(s@) is None,
        },
{
    let v = str_chars(s);
    let i0 = p_ws(&v, 0);
    if i0 >= v.len() || v[i0] != '{' {
        return None;
    }
    let mut k = p_ws(&v, i0 + 1);
    let mut id: Option<Option<u64>> = None;
    let mut ac: Option<Vec<char>> = None;
    let mut st: Option<Pos> = None;
    let mut en: Option<Pos> = None;
    let mut ln: Option<Vec<String>> = None;
    loop
        invariant
            v@ == s@,
            k <= v@.len(),
            dec_change(v@) == (match dec_change_obj(
                v@,
                k as int,
                id,
                ov(ac),
                st,
                en,
                ovl(ln),
            ) {
                Some((cv, j)) => if sp_ws(v@, j) == v@.len() {
                    Some(cv)
                } else {
                    None
                },
                None => None,
            }),
        decreases v@.len() - k,
    {
        let ghost k0 = k as int;
        let ghost id0 = id;
        let ghost ac0 = ov(ac);
        let ghost st0 = st;
        let ghost en0 = en;
        let ghost ln0 = ovl(ln);
        let j2: usize;
        let lit_i = if id.is_none() {
            p_lit(&v, k, "\"id\"")
        } else {
            None
        };
        let lit_a = if ac.is_none() {
            p_lit(&v, k, "\"action\"")
        } else {
            None
        };
        let lit_s = if st.is_none() {
            p_lit(&v, k, "\"start\"")
        } else {
            None
        };
        let lit_e = if en.is_none() {
            p_lit(&v, k, "\"end\"")
        } else {
            None
        };
        let lit_l = if ln.is_none() {
            p_lit(&v, k, "\"lines\"")
        } else {
            None
        };
        if lit_i.is_some() {
            match p_val_id(&v, lit_i.unwrap()) {
                Some((x, jj)) => {
                    id = Some(x);
                    j2 = jj;
                },
                None => {
                    return None;
                },
            }
        } else if lit_a.is_some() {
            match p_val_string(&v, lit_a.unwrap()) {
                Some((x, jj)) => {
                    ac = Some(x);
                    j2 = jj;
                },
                None => {
                    return None;
                },
            }
        } else if lit_s.is_some() {
            match p_val_pos(&v, lit_s.unwrap()) {
                Some((x, jj)) => {
                    st = Some(x);
                    j2 = jj;
                },
                None => {
                    return None;
                },
            }
        } else if lit_e.is_some() {
            match p_val_pos(&v, lit_e.unwrap()) {
                Some((x, jj)) => {
                    en = Some(x);
                    j2 = jj;
                },
                None => {
                    return None;
                },
            }
        } else if lit_l.is_some() {
            match p_val_lines(&v, lit_l.unwrap()) {
                Some((x, jj)) => {
                    ln = Some(x);
                    j2 = jj;
                },
                None => {
                    return None;
                },
            }
        } else {
            return None;
        }
        proof {
            assert(dec_change_field(v@, k0, id0, ac0, st0, en0, ln0) == Some(
                ((id, ov(ac), st, en, ovl(ln)), j2 as int),
            ));
        }
        let j1 = p_ws(&v, j2);
        if j1 < v.len() && v[j1] == ',' {
            k = p_ws(&v, j1 + 1);
            proof {
                assert(dec_change_obj(v@, k0, id0, ac0, st0, en0, ln0) == dec_change_obj(
                    v@,
                    k as int,
                    id,
                    ov(ac),
                    st,
                    en,
                    ovl(ln),
                ));
            }
        } else if j1 < v.len() && v[j1] == '}' {
            if id.is_some() && ac.is_some() && st.is_some() && en.is_some() && ln.is_some() {
                let a = id.unwrap();
                let b = ac.unwrap();
                let c = st.unwrap();
                let d = en.unwrap();
                let e = ln.unwrap();
                proof {
                    assert(dec_change_obj(v@, k0, id0, ac0, st0, en0, ln0) == Some(
                        (
                            ChangeV {
                                id: a,
                                action: b@,
                                start: c,
                                end: d,
                                lines: e.deep_view(),
                            },
                            j1 + 1 as int,
                        ),
                    ));
                }
                let e2 = p_ws(&v, j1 + 1);
                if e2 != v.len() {
                    return None;
                }
                return Some(
                    ChangeCommand {
                        id: a,
                        action: chars_to_string(&b),
                        start: c,
                        end: d,
                        lines: e,
                    },
                );
            } else {
                proof {
                    assert(dec_change_obj(v@, k0, id0, ac0, st0, en0, ln0) is None);
                }
                return None;
            }
        } else {
            proof {
                assert(dec_change_obj(v@, k0, id0, ac0, st0, en0, ln0) is None);
            }
            return None;
        }
    }
}

/// The deep view of an optional decoded line vector.
pub open spec fn ovl(o: Option<Vec<String>>) -> Option<Seq<Seq<char>>> {
    match o {
        Some(x) => Some(x.deep_view()),
        None => None,
    }
}

fn p_val_lines(v: &Vec<char>, i: usize) -> (r: Option<(Vec<String>, usize)>)
    requires
        i <= v@.len(),
    ensures
        match r {
            Some(p) => sp_val_lines(v@, i as int) == Some((p.0.deep_view(), p.1 as int)) && i < p.1
                <= v@.len(),
            None => sp_val_lines(v@, i as int) is None,
        },
{
    let j = p_ws(v, i);
    if j >= v.len() || v[j] != ':' {
        return None;
    }
    let k = p_ws(v, j + 1);
    p_lines(v, k)
}

#[verifier::rlimit(50)]
proof fn lemma_pos_round(pre: Seq<char>, p: Pos, rest: Seq<char>)
    ensures
        sp_pos(pre + enc_pos(p) + rest, pre.len() as int) == Some(
            (p, (pre.len() + enc_pos(p).len()) as int),
        ),
{
    let l1 = "{\"row\":"@;
    let l2 = ",\"column\":"@;
    let l3 = "}"@;
    let kr = "\"row\""@;
    let kc = "\"column\""@;
    let er = dec_u64(p.row as nat);
    let ec = dec_u64(p.column as nat);
    let s = pre + enc_pos(p) + rest;
    reveal_strlit("{\"row\":");
    reveal_strlit(",\"column\":");
    reveal_strlit("}");
    reveal_strlit("\"row\"");
    reveal_strlit("\"column\"");
    let i = pre.len() as int;
    let p1 = pre + l1;
    let p2 = p1 + er;
    let p3 = p2 + l2;
    let p4 = p3 + ec;
    let i2 = p2.len() as int;
    let k2 = i2 + 1;
    let i4 = p4.len() as int;

    assert(s =~= pre + (l1 + (er + (l2 + (ec + (l3 + rest))))));
    lemma_assoc(pre, l1, er + (l2 + (ec + (l3 + rest))));
    lemma_assoc(p1, er, l2 + (ec + (l3 + rest)));
    lemma_assoc(p2, l2, ec + (l3 + rest));
    lemma_assoc(p3, ec, l3 + rest);
    crate::json::lemma_dec_u64_digits(p.row as nat);
    crate::json::lemma_dec_u64_digits(p.column as nat);

    // the characters at the seams
    assert(s[i] == '{' && s[i + 1] == '"' && s[i + 6] == ':');
    assert(s[i + 7] == er[0] && is_digit(er[0]) && !is_ws(er[0]));
    assert(s[i2] == l2[0] && l2[0] == ',');
    assert(s[i2 + 1] == l2[1] && l2[1] == '"');
    assert(s[i2 + 9] == l2[9] && l2[9] == ':');
    assert(s[i2 + 10] == ec[0] && is_digit(ec[0]) && !is_ws(ec[0]));
    assert(s[i4] == l3[0] && l3[0] == '}');

    // the row field
    assert(sp_lit(s, i + 1, kr) == Some(i + 6)) by {
        assert(s.subrange(i + 1, i + 6) =~= kr);
    }
    assert(sp_u64(s, i + 7) == Some((p.row, i2))) by {
        assert((l2 + (ec + (l3 + rest)))[0] == ',');
        assert(!is_digit(','));
        lemma_u64_round(p1, p.row, l2 + (ec + (l3 + rest)));
    }
    assert(sp_val_u64(s, i + 6) == Some((p.row, i2))) by {
        assert(sp_ws(s, i + 6) == i + 6);
        assert(sp_ws(s, i + 7) == i + 7);
    }
    assert(dec_pos_field(s, i + 1, None, None) == Some(((Some(p.row), None::<u64>), i2)));

    // the column field
    assert(sp_lit(s, k2, kc) == Some(k2 + 8)) by {
        assert(s.subrange(k2, k2 + 8) =~= kc);
    }
    assert(sp_u64(s, i2 + 10) == Some((p.column, i4))) by {
        assert((l3 + rest)[0] == '}');
        assert(!is_digit('}'));
        lemma_u64_round(p3, p.column, l3 + rest);
    }
    assert(sp_val_u64(s, k2 + 8) == Some((p.column, i4))) by {
        assert(sp_ws(s, i2 + 9) == i2 + 9);
        assert(sp_ws(s, i2 + 10) == i2 + 10);
        assert(k2 + 8 == i2 + 9);
    }
    assert(dec_pos_field(s, k2, Some(p.row), None) == Some(((Some(p.row), Some(p.column)), i4)));

    // the object walk
    assert(dec_pos_obj(s, k2, Some(p.row), None) == Some(
        (Pos { row: p.row, column: p.column }, i4 + 1),
    )) by {
        assert(sp_ws(s, i4) == i4);
    }
    assert(dec_pos_obj(s, i + 1, None, None) == Some(
        (Pos { row: p.row, column: p.column }, i4 + 1),
    )) by {
        assert(sp_ws(s, i2) == i2);
        assert(sp_ws(s, i2 + 1) == i2 + 1);
    }
    assert(sp_ws(s, i + 1) == i + 1);
    assert(i4 + 1 == pre.len() + enc_pos(p).len());
    assert(Pos { row: p.row, column: p.column } == p);
}

proof fn lemma_id_round(pre: Seq<char>, id: Option<u64>, rest: Seq<char>)
    requires
        rest.len() > 0,
        !is_digit(rest[0]),
        rest[0] != 'l',
    ensures
        sp_id(pre + enc_id(id) + rest, pre.len() as int) == Some(
            (id, (pre.len() + enc_id(id).len()) as int),
        ),
{
    let s = pre + enc_id(id) + rest;
    let i = pre.len() as int;
    match id {
        None => {
            assert(s =~= pre + "null"@ + rest);
            lemma_lit_round(pre, "null"@, rest);
        },
        Some(n) => {
            let en = dec_u64(n as nat);
            // a digit run cannot begin the literal `null`
            assert(sp_lit(s, i, "null"@) is None) by {
                reveal_strlit("null");
                crate::json::lemma_dec_u64_digits(n as nat);
                assert(s[i] == en[0]);
                assert(is_digit(s[i]));
                assert(s[i] != 'n');
                if i + 4 <= s.len() {
                    assert(s.subrange(i, i + 4)[0] == s[i]);
                    assert(s.subrange(i, i + 4) != "null"@);
                }
            }
            lemma_u64_round(pre, n, rest);
        },
    }
}

proof fn lemma_lines_rec_round(pre: Seq<char>, ls: Seq<Seq<char>>, rest: Seq<char>, acc: Seq<
    Seq<char>,
>)
    ensures
        sp_lines_rec(pre + enc_lines_tail(ls) + seq![']'] + rest, pre.len() as int, acc) == Some(
            (acc + ls, (pre.len() + enc_lines_tail(ls).len() + 1) as int),
        ),
    decreases ls.len(),
{
    let s = pre + enc_lines_tail(ls) + seq![']'] + rest;
    let i = pre.len() as int;
    if ls.len() == 0 {
        assert(enc_lines_tail(ls) == Seq::<char>::empty());
        assert(s[i] == ']');
        assert(acc + ls =~= acc);
    } else {
        let x = ls[0];
        let lt = ls.drop_first();
        assert(enc_lines_tail(ls) == seq![','] + enc_str(x) + enc_lines_tail(lt));
        assert(s[i] == ',');
        assert(sp_string(s, i + 1) == Some(
            (x, (pre.len() + 1 + enc_str(x).len()) as int),
        )) by {
            assert(s =~= (pre + seq![',']) + enc_str(x) + (enc_lines_tail(lt) + seq![']'] + rest));
            lemma_string_round(pre + seq![','], x, enc_lines_tail(lt) + seq![']'] + rest);
        }
        let pre2 = pre + seq![','] + enc_str(x);
        assert(s =~= pre2 + enc_lines_tail(lt) + seq![']'] + rest);
        lemma_lines_rec_round(pre2, lt, rest, acc.push(x));
        assert(acc.push(x) + lt =~= acc + ls);
        assert(pre2.len() + enc_lines_tail(lt).len() + 1 == pre.len() + enc_lines_tail(ls).len()
            + 1);
    }
}

proof fn lemma_lines_round(pre: Seq<char>, ls: Seq<Seq<char>>, rest: Seq<char>)
    ensures
        sp_lines(pre + enc_lines(ls) + rest, pre.len() as int) == Some(
            (ls, (pre.len() + enc_lines(ls).len()) as int),
        ),
{
    let s = pre + enc_lines(ls) + rest;
    let i = pre.len() as int;
    assert(s[i] == '[');
    if ls.len() == 0 {
        assert(s[i + 1] == ']');
    } else {
        let x = ls[0];
        let lt = ls.drop_first();
        assert(enc_lines(ls) == seq!['['] + enc_str(x) + enc_lines_tail(lt) + seq![']']);
        assert(s[i + 1] == enc_str(x)[0]);
        assert(enc_str(x)[0] == '"');
        assert(s[i + 1] != ']');
        assert(sp_string(s, i + 1) == Some(
            (x, (pre.len() + 1 + enc_str(x).len()) as int),
        )) by {
            assert(s =~= (pre + seq!['[']) + enc_str(x) + (enc_lines_tail(lt) + seq![']'] + rest));
            lemma_string_round(pre + seq!['['], x, enc_lines_tail(lt) + seq![']'] + rest);
        }
        let pre2 = pre + seq!['['] + enc_str(x);
        assert(s =~= pre2 + enc_lines_tail(lt) + seq![']'] + rest);
        lemma_lines_rec_round(pre2, lt, rest, seq![x]);
        assert(seq![x] + lt =~= ls);
        assert(pre2.len() + enc_lines_tail(lt).len() + 1 == pre.len() + enc_lines(ls).len());
    }
}

/// The positions of the components of a canonically encoded change payload.
pub open spec fn chg_i2(v: ChangeV) -> int {
    "{\"id\":"@.len() + enc_id(v.id).len() as int
}

pub open spec fn chg_i4(v: ChangeV) -> int {
    chg_i2(v) + ",\"action\":"@.len() + enc_str(v.action).len() as int
}

pub open spec fn chg_i6(v: ChangeV) -> int {
    chg_i4(v) + ",\"start\":"@.len() + enc_pos(v.start).len() as int
}

pub open spec fn chg_i8(v: ChangeV) -> int {
    chg_i6(v) + ",\"end\":"@.len() + enc_pos(v.end).len() as int
}

pub open spec fn chg_i10(v: ChangeV) -> int {
    chg_i8(v) + ",\"lines\":"@.len() + enc_lines(v.lines).len() as int
}

#[verifier::rlimit(100)]
proof fn lemma_change_f1(v: ChangeV)
    ensures
        ({
            let s = enc_change(v);
            &&& sp_ws(s, 0) == 0 && s[0] == '{' && sp_ws(s, 1) == 1
            &&& dec_change_field(s, 1, None, None, None, None, None) == Some(
                (
                    (
                        Some(v.id),
                        None::<Seq<char>>,
                        None::<Pos>,
                        None::<Pos>,
                        None::<Seq<Seq<char>>>,
                    ),
                    chg_i2(v),
                ),
            )
            &&& sp_ws(s, chg_i2(v)) == chg_i2(v) && s[chg_i2(v)] == ',' && sp_ws(s, chg_i2(v) + 1)
                == chg_i2(v) + 1
        }),
{
    let l1 = "{\"id\":"@;
    let l2 = ",\"action\":"@;
    let ei = enc_id(v.id);
    let s = enc_change(v);
    let p1 = l1;
    let p2 = p1 + ei;
    let i2 = p2.len() as int;
    let ki = "\"id\""@;
    assert(ei.len() >= 1 && (ei[0] == 'n' || is_digit(ei[0]))) by {
        reveal_strlit("null");
        if v.id is Some {
            crate::json::lemma_dec_u64_digits(v.id.unwrap() as nat);
        }
    }
    assert(s[0] == '{' && s[1] == '"' && s[5] == ':' && s[6] == ei[0]) by {
        reveal_strlit("{\"id\":");
    }
    assert(!is_ws(s[6]));
    assert(s[i2] == l2[0] && l2[0] == ',' && s[i2 + 1] == l2[1] && l2[1] == '"') by {
        reveal_strlit(",\"action\":");
    }
    let r = s.subrange(i2, s.len() as int);
    assert(s =~= p2 + r);
    assert(sp_lit(s, 1, ki) == Some(5int)) by {
        reveal_strlit("{\"id\":");
        reveal_strlit("\"id\"");
        assert(s.subrange(1, 5) =~= ki);
    }
    assert(sp_id(s, 6) == Some((v.id, i2))) by {
        reveal_strlit("{\"id\":");
        assert(r[0] == ',');
        assert(!is_digit(',') && ',' != 'l');
        lemma_id_round(p1, v.id, r);
    }
    assert(sp_val_id(s, 5) == Some((v.id, i2))) by {
        assert(sp_ws(s, 5) == 5);
        assert(sp_ws(s, 6) == 6);
    }
    assert(i2 == chg_i2(v)) by {
        reveal_strlit("{\"id\":");
    }
}

#[verifier::rlimit(50)]
proof fn lemma_change_f2(v: ChangeV)
    ensures
        ({
            let s = enc_change(v);
            &&& dec_change_field(s, chg_i2(v) + 1, Some(v.id), None, None, None, None) == Some(
                (
                    (Some(v.id), Some(v.action), None::<Pos>, None::<Pos>, None::<Seq<Seq<char>>>),
                    chg_i4(v),
                ),
            )
            &&& sp_ws(s, chg_i4(v)) == chg_i4(v) && s[chg_i4(v)] == ',' && sp_ws(s, chg_i4(v) + 1)
                == chg_i4(v) + 1
        }),
{
    let l1 = "{\"id\":"@;
    let l2 = ",\"action\":"@;
    let l3 = ",\"start\":"@;
    let l4 = ",\"end\":"@;
    let l5 = ",\"lines\":"@;
    let l6 = "}"@;
    let ei = enc_id(v.id);
    let ea = enc_str(v.action);
    let es = enc_pos(v.start);
    let ee = enc_pos(v.end);
    let el = enc_lines(v.lines);
    let s = enc_change(v);
    let p1 = l1;
    let p2 = p1 + ei;
    let p3 = p2 + l2;
    let p4 = p3 + ea;
    let p5 = p4 + l3;
    let p6 = p5 + es;
    let p7 = p6 + l4;
    let p8 = p7 + ee;
    let p9 = p8 + l5;
    let p10 = p9 + el;
    let i2 = p2.len() as int;
    let i4 = p4.len() as int;
    let i6 = p6.len() as int;
    let i8 = p8.len() as int;
    let i10 = p10.len() as int;
    assert(s == p10 + l6);
    lemma_assoc(p1, ei, l2 + (ea + (l3 + (es + (l4 + (ee + (l5 + (el + l6))))))));
    lemma_assoc(p2, l2, ea + (l3 + (es + (l4 + (ee + (l5 + (el + l6)))))));
    lemma_assoc(p3, ea, l3 + (es + (l4 + (ee + (l5 + (el + l6))))));
    lemma_assoc(p4, l3, es + (l4 + (ee + (l5 + (el + l6)))));
    lemma_assoc(p5, es, l4 + (ee + (l5 + (el + l6))));
    lemma_assoc(p6, l4, ee + (l5 + (el + l6)));
    lemma_assoc(p7, ee, l5 + (el + l6));
    lemma_assoc(p8, l5, el + l6);
    lemma_assoc(p9, el, l6);
    reveal_strlit(",\"action\":");
    reveal_strlit(",\"start\":");
    reveal_strlit("\"action\"");
    let ka = "\"action\""@;
    let k2 = i2 + 1;
    assert(s[i2 + 1] == l2[1] && l2[1] == '"');
    assert(s[i2 + 9] == l2[9] && l2[9] == ':');
    assert(s[i2 + 10] == ea[0] && ea[0] == '"');
    assert(s[i4] == l3[0] && l3[0] == ',' && s[i4 + 1] == l3[1] && l3[1] == '"');
    assert(sp_lit(s, k2, ka) == Some(k2 + 8)) by {
        assert(s.subrange(k2, k2 + 8) =~= ka);
    }
    assert(sp_string(s, i2 + 10) == Some((v.action, i4))) by {
        lemma_string_round(p3, v.action, l3 + (es + (l4 + (ee + (l5 + (el + l6))))));
    }
    assert(sp_val_string(s, k2 + 8) == Some((v.action, i4))) by {
        assert(sp_ws(s, i2 + 9) == i2 + 9);
        assert(sp_ws(s, i2 + 10) == i2 + 10);
        assert(k2 + 8 == i2 + 9);
    }
    assert(i2 == chg_i2(v) && i4 == chg_i4(v));
}

#[verifier::rlimit(100)]
proof fn lemma_change_f3(v: ChangeV)
    ensures
        ({
            let s = enc_change(v);
            &&& dec_change_field(s, chg_i4(v) + 1, Some(v.id), Some(v.action), None, None, None)
                == Some(
                (
                    (
                        Some(v.id),
                        Some(v.action),
                        Some(v.start),
                        None::<Pos>,
                        None::<Seq<Seq<char>>>,
                    ),
                    chg_i6(v),
                ),
            )
            &&& sp_ws(s, chg_i6(v)) == chg_i6(v) && s[chg_i6(v)] == ',' && sp_ws(s, chg_i6(v) + 1)
                == chg_i6(v) + 1
        }),
{
    let l1 = "{\"id\":"@;
    let l2 = ",\"action\":"@;
    let l3 = ",\"start\":"@;
    let l4 = ",\"end\":"@;
    let l5 = ",\"lines\":"@;
    let l6 = "}"@;
    let ei = enc_id(v.id);
    let ea = enc_str(v.action);
    let es = enc_pos(v.start);
    let ee = enc_pos(v.end);
    let el = enc_lines(v.lines);
    let s = enc_change(v);
    let p1 = l1;
    let p2 = p1 + ei;
    let p3 = p2 + l2;
    let p4 = p3 + ea;
    let p5 = p4 + l3;
    let p6 = p5 + es;
    let p7 = p6 + l4;
    let p8 = p7 + ee;
    let p9 = p8 + l5;
    let p10 = p9 + el;
    let i2 = p2.len() as int;
    let i4 = p4.len() as int;
    let i6 = p6.len() as int;
    let i8 = p8.len() as int;
    let i10 = p10.len() as int;
    assert(s == p10 + l6);
    lemma_assoc(p9, el, l6);
    lemma_assoc(p8, l5, el + l6);
    lemma_assoc(p7, ee, l5 + (el + l6));
    lemma_assoc(p6, l4, ee + (l5 + (el + l6)));
    lemma_assoc(p5, es, l4 + (ee + (l5 + (el + l6))));
    lemma_assoc(p4, l3, es + (l4 + (ee + (l5 + (el + l6)))));
    let ks = "\"start\""@;
    let k3 = i4 + 1;
    assert(s[i4 + 1] == l3[1] && l3[1] == '"' && s[i4 + 8] == l3[8] && l3[8] == ':') by {
        reveal_strlit(",\"start\":");
    }
    assert(s[i4 + 9] == es[0] && es[0] == '{') by {
        reveal_strlit(",\"start\":");
        reveal_strlit("{\"row\":");
    }
    assert(s[i6] == l4[0] && l4[0] == ',' && s[i6 + 1] == l4[1] && l4[1] == '"') by {
        reveal_strlit(",\"end\":");
    }
    assert(sp_lit(s, k3, ks) == Some(k3 + 7)) by {
        reveal_strlit(",\"start\":");
        reveal_strlit("\"start\"");
        assert(s.subrange(k3, k3 + 7) =~= ks);
    }
    assert(sp_pos(s, i4 + 9) == Some((v.start, i6))) by {
        reveal_strlit(",\"start\":");
        lemma_pos_round(p5, v.start, l4 + (ee + (l5 + (el + l6))));
    }
    assert(sp_val_pos(s, k3 + 7) == Some((v.start, i6))) by {
        assert(sp_ws(s, i4 + 8) == i4 + 8);
        assert(sp_ws(s, i4 + 9) == i4 + 9);
        assert(k3 + 7 == i4 + 8);
    }
    assert(i4 == chg_i4(v) && i6 == chg_i6(v));
}

#[verifier::rlimit(100)]
proof fn lemma_change_f4(v: ChangeV)
    ensures
        ({
            let s = enc_change(v);
            &&& dec_change_field(
                s,
                chg_i6(v) + 1,
                Some(v.id),
                Some(v.action),
                Some(v.start),
                None,
                None,
            ) == Some(
                (
                    (
                        Some(v.id),
                        Some(v.action),
                        Some(v.start),
                        Some(v.end),
                        None::<Seq<Seq<char>>>,
                    ),
                    chg_i8(v),
                ),
            )
            &&& sp_ws(s, chg_i8(v)) == chg_i8(v) && s[chg_i8(v)] == ',' && sp_ws(s, chg_i8(v) + 1)
                == chg_i8(v) + 1
        }),
{
    let l1 = "{\"id\":"@;
    let l2 = ",\"action\":"@;
    let l3 = ",\"start\":"@;
    let l4 = ",\"end\":"@;
    let l5 = ",\"lines\":"@;
    let l6 = "}"@;
    let ei = enc_id(v.id);
    let ea = enc_str(v.action);
    let es = enc_pos(v.start);
    let ee = enc_pos(v.end);
    let el = enc_lines(v.lines);
    let s = enc_change(v);
    let p1 = l1;
    let p2 = p1 + ei;
    let p3 = p2 + l2;
    let p4 = p3 + ea;
    let p5 = p4 + l3;
    let p6 = p5 + es;
    let p7 = p6 + l4;
    let p8 = p7 + ee;
    let p9 = p8 + l5;
    let p10 = p9 + el;
    let i2 = p2.len() as int;
    let i4 = p4.len() as int;
    let i6 = p6.len() as int;
    let i8 = p8.len() as int;
    let i10 = p10.len() as int;
    assert(s == p10 + l6);
    lemma_assoc(p9, el, l6);
    lemma_assoc(p8, l5, el + l6);
    lemma_assoc(p7, ee, l5 + (el + l6));
    lemma_assoc(p6, l4, ee + (l5 + (el + l6)));
    let ke = "\"end\""@;
    let k4 = i6 + 1;
    assert(s[i6 + 1] == l4[1] && l4[1] == '"' && s[i6 + 6] == l4[6] && l4[6] == ':') by {
        reveal_strlit(",\"end\":");
    }
    assert(s[i6 + 7] == ee[0] && ee[0] == '{') by {
        reveal_strlit(",\"end\":");
        reveal_strlit("{\"row\":");
    }
    assert(s[i8] == l5[0] && l5[0] == ',' && s[i8 + 1] == l5[1] && l5[1] == '"') by {
        reveal_strlit(",\"lines\":");
    }
    assert(sp_lit(s, k4, ke) == Some(k4 + 5)) by {
        reveal_strlit(",\"end\":");
        reveal_strlit("\"end\"");
        assert(s.subrange(k4, k4 + 5) =~= ke);
    }
    assert(sp_pos(s, i6 + 7) == Some((v.end, i8))) by {
        reveal_strlit(",\"end\":");
        lemma_pos_round(p7, v.end, l5 + (el + l6));
    }
    assert(sp_val_pos(s, k4 + 5) == Some((v.end, i8))) by {
        assert(sp_ws(s, i6 + 6) == i6 + 6);
        assert(sp_ws(s, i6 + 7) == i6 + 7);
        assert(k4 + 5 == i6 + 6);
    }
    assert(i6 == chg_i6(v) && i8 == chg_i8(v));
}

#[verifier::rlimit(100)]
proof fn lemma_change_f5(v: ChangeV)
    ensures
        ({
            let s = enc_change(v);
            &&& dec_change_field(
                s,
                chg_i8(v) + 1,
                Some(v.id),
                Some(v.action),
                Some(v.start),
                Some(v.end),
                None,
            ) == Some(
                ((Some(v.id), Some(v.action), Some(v.start), Some(v.end), Some(v.lines)), chg_i10(v)),
            )
            &&& sp_ws(s, chg_i10(v)) == chg_i10(v) && s[chg_i10(v)] == '}'
            &&& chg_i10(v) + 1 == s.len()
        }),
{
    let l1 = "{\"id\":"@;
    let l2 = ",\"action\":"@;
    let l3 = ",\"start\":"@;
    let l4 = ",\"end\":"@;
    let l5 = ",\"lines\":"@;
    let l6 = "}"@;
    let ei = enc_id(v.id);
    let ea = enc_str(v.action);
    let es = enc_pos(v.start);
    let ee = enc_pos(v.end);
    let el = enc_lines(v.lines);
    let s = enc_change(v);
    let p1 = l1;
    let p2 = p1 + ei;
    let p3 = p2 + l2;
    let p4 = p3 + ea;
    let p5 = p4 + l3;
    let p6 = p5 + es;
    let p7 = p6 + l4;
    let p8 = p7 + ee;
    let p9 = p8 + l5;
    let p10 = p9 + el;
    let i2 = p2.len() as int;
    let i4 = p4.len() as int;
    let i6 = p6.len() as int;
    let i8 = p8.len() as int;
    let i10 = p10.len() as int;
    assert(s == p10 + l6);
    lemma_assoc(p9, el, l6);
    lemma_assoc(p8, l5, el + l6);
    let kl = "\"lines\""@;
    let k5 = i8 + 1;
    assert(s[i8 + 1] == l5[1] && l5[1] == '"' && s[i8 + 8] == l5[8] && l5[8] == ':') by {
        reveal_strlit(",\"lines\":");
    }
    assert(s[i8 + 9] == el[0] && el[0] == '[') by {
        reveal_strlit(",\"lines\":");
    }
    assert(s[i10] == l6[0] && l6[0] == '}') by {
        reveal_strlit("}");
    }
    assert(sp_lit(s, k5, kl) == Some(k5 + 7)) by {
        reveal_strlit(",\"lines\":");
        reveal_strlit("\"lines\"");
        assert(s.subrange(k5, k5 + 7) =~= kl);
    }
    assert(sp_lines(s, i8 + 9) == Some((v.lines, i10))) by {
        reveal_strlit(",\"lines\":");
        lemma_lines_round(p9, v.lines, l6);
    }
    assert(sp_val_lines(s, k5 + 7) == Some((v.lines, i10))) by {
        assert(sp_ws(s, i8 + 8) == i8 + 8);
        assert(sp_ws(s, i8 + 9) == i8 + 9);
        assert(k5 + 7 == i8 + 8);
    }
    assert(sp_ws(s, i10) == i10);
    assert(i8 == chg_i8(v) && i10 == chg_i10(v));
    assert(i10 + 1 == s.len()) by {
        reveal_strlit("}");
    }
}

/// Round trip: decoding an encoded change payload yields the original value.
pub proof fn lemma_change_round_trip(v: ChangeV)
    ensures
        dec_change(enc_change(v)) == Some(v),
{
    let s = enc_change(v);
    lemma_change_f1(v);
    lemma_change_f2(v);
    lemma_change_f3(v);
    lemma_change_f4(v);
    lemma_change_f5(v);
    let i2 = chg_i2(v);
    let i4 = chg_i4(v);
    let i6 = chg_i6(v);
    let i8 = chg_i8(v);
    let i10 = chg_i10(v);
    let cv = ChangeV {
        id: v.id,
        action: v.action,
        start: v.start,
        end: v.end,
        lines: v.lines,
    };
    assert(dec_change_obj(s, i8 + 1, Some(v.id), Some(v.action), Some(v.start), Some(v.end), None)
        == Some((cv, i10 + 1)));
    assert(dec_change_obj(s, i6 + 1, Some(v.id), Some(v.action), Some(v.start), None, None)
        == Some((cv, i10 + 1)));
    assert(dec_change_obj(s, i4 + 1, Some(v.id), Some(v.action), None, None, None) == Some(
        (cv, i10 + 1),
    ));
    assert(dec_change_obj(s, i2 + 1, Some(v.id), None, None, None, None) == Some((cv, i10 + 1)));
    assert(dec_change_obj(s, 1, None, None, None, None, None) == Some((cv, i10 + 1)));
    assert(sp_ws(s, i10 + 1) == s.len());
    assert(cv == v);
}

// ---------------------------------------------------------------------------
// Small helpers
// ---------------------------------------------------------------------------

/// A `&str` view of a `String` (kept as a named helper so encoder bodies
/// read uniformly).
fn self_str(s: &String) -> (r: &str)
    ensures
        r@ == s@,
{
    s.as_str()
}

} // verus!
