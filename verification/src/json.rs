//! Verified building blocks of the JSON wire format: string escaping, string
//! literals, decimal numbers, and their parsers, each with a specification-level
//! model and a proof that parsing inverts encoding.
use vstd::prelude::*;

verus! {

// ---------------------------------------------------------------------------
// Characters and digits
// ---------------------------------------------------------------------------

/// Decimal digit characters `'0'` through `'9'`.
pub open spec fn is_digit(c: char) -> bool {
    48 <= c as u32 && c as u32 <= 57
}

/// The character for a single decimal digit.
pub open spec fn dchar(d: nat) -> char {
    if d == 0 {
        '0'
    } else if d == 1 {
        '1'
    } else if d == 2 {
        '2'
    } else if d == 3 {
        '3'
    } else if d == 4 {
        '4'
    } else if d == 5 {
        '5'
    } else if d == 6 {
        '6'
    } else if d == 7 {
        '7'
    } else if d == 8 {
        '8'
    } else {
        '9'
    }
}

/// The numeric value of a digit character.
pub open spec fn dval(c: char) -> nat {
    (c as u32 - 48) as nat
}

pub proof fn lemma_dchar_val(d: nat)
    requires
        d < 10,
    ensures
        is_digit(dchar(d)),
        dval(dchar(d)) == d,
{
}

fn is_digit_exec(c: char) -> (r: bool)
    ensures
        r == is_digit(c),
{
    let u = c as u32;
    48 <= u && u <= 57
}

fn dval_exec(c: char) -> (r: u64)
    requires
        is_digit(c),
    ensures
        r as nat == dval(c),
        r <= 9,
{
    (c as u32 - 48) as u64
}

fn dchar_exec(d: u64) -> (r: char)
    requires
        d < 10,
    ensures
        r == dchar(d as nat),
{
    if d == 0 {
        '0'
    } else if d == 1 {
        '1'
    } else if d == 2 {
        '2'
    } else if d == 3 {
        '3'
    } else if d == 4 {
        '4'
    } else if d == 5 {
        '5'
    } else if d == 6 {
        '6'
    } else if d == 7 {
        '7'
    } else if d == 8 {
        '8'
    } else {
        '9'
    }
}

// ---------------------------------------------------------------------------
// String conversion helpers
// ---------------------------------------------------------------------------

/// The characters of a string slice, in order.
pub fn str_chars(s: &str) -> (v: Vec<char>)
    ensures
        v@ == s@,
{
    let n = s.unicode_len();
    let mut v: Vec<char> = Vec::new();
    let mut i: usize = 0;
    while i < n
        invariant
            n == s@.len(),
            i <= n,
            v@ == s@.subrange(0, i as int),
        decreases n - i,
    {
        let c = s.get_char(i);
        v.push(c);
        i = i + 1;
        proof {
            assert(v@ =~= s@.subrange(0, i as int));
        }
    }
    proof {
        assert(v@ =~= s@);
    }
    v
}

/// Relies on `String`'s `FromIterator<char>` implementation (through
/// `Iterator::collect`): the collected string consists of exactly the
/// iterated characters, in order.
#[verifier::external_body]
pub fn chars_to_string(v: &Vec<char>) -> (r: String)
    ensures
        r@ == v@,
{
    v.iter().collect()
}

// ---------------------------------------------------------------------------
// JSON string escaping
// ---------------------------------------------------------------------------

/// How one character appears inside a JSON string: the quote, the backslash
/// and the common control characters are escaped, every other character
/// stands for itself.
pub open spec fn esc_char(c: char) -> Seq<char> {
    if c == '"' {
        seq!['\\', '"']
    } else if c == '\\' {
        seq!['\\', '\\']
    } else if c == '\n' {
        seq!['\\', 'n']
    } else if c == '\r' {
        seq!['\\', 'r']
    } else if c == '\t' {
        seq!['\\', 't']
    } else {
        seq![c]
    }
}

/// The escaped body of a JSON string.
pub open spec fn esc(s: Seq<char>) -> Seq<char>
    decreases s.len(),
{
    if s.len() == 0 {
        Seq::empty()
    } else {
        esc_char(s[0]) + esc(s.drop_first())
    }
}

/// A whole JSON string: quote, escaped body, quote.
pub open spec fn enc_str(s: Seq<char>) -> Seq<char> {
    seq!['"'] + esc(s) + seq!['"']
}

/// The character denoted by an escape sequence `\c`.
pub open spec fn unesc_char(c: char) -> Option<char> {
    if c == '"' {
        Some('"')
    } else if c == '\\' {
        Some('\\')
    } else if c == '/' {
        Some('/')
    } else if c == 'n' {
        Some('\n')
    } else if c == 'r' {
        Some('\r')
    } else if c == 't' {
        Some('\t')
    } else {
        None
    }
}

pub proof fn lemma_esc_push(t: Seq<char>, c: char)
    ensures
        esc(t.push(c)) == esc(t) + esc_char(c),
    decreases t.len(),
{
    let u = t.push(c);
    assert(u.len() == t.len() + 1);
    if t.len() == 0 {
        assert(u[0] == c);
        assert(u.drop_first() =~= Seq::<char>::empty());
        assert(esc(u) == esc_char(c) + esc(Seq::<char>::empty()));
        assert(esc_char(c) + esc(Seq::<char>::empty()) =~= esc_char(c));
        assert(esc(t) + esc_char(c) =~= esc_char(c));
    } else {
        assert(u[0] == t[0]);
        assert(u.drop_first() =~= t.drop_first().push(c));
        lemma_esc_push(t.drop_first(), c);
        assert(esc(u) == esc_char(t[0]) + (esc(t.drop_first()) + esc_char(c)));
        assert(esc_char(t[0]) + (esc(t.drop_first()) + esc_char(c)) =~= (esc_char(t[0]) + esc(
            t.drop_first(),
        )) + esc_char(c));
    }
}

// ---------------------------------------------------------------------------
// Specification-level parsers
// ---------------------------------------------------------------------------

/// Parse the body of a JSON string starting at `i` (just after the opening
/// quote), with `acc` the characters read so far; yields the decoded string
/// and the position just past the closing quote.
pub open spec fn sp_str_rec(s: Seq<char>, i: int, acc: Seq<char>) -> Option<(Seq<char>, int)>
    decreases s.len() - i,
{
    if i < 0 || i >= s.len() {
        None
    } else if s[i] == '"' {
        Some((acc, i + 1))
    } else if s[i] == '\\' {
        if i + 1 >= s.len() {
            None
        } else {
            match unesc_char(s[i + 1]) {
                Some(u) => sp_str_rec(s, i + 2, acc.push(u)),
                None => None,
            }
        }
    } else {
        sp_str_rec(s, i + 1, acc.push(s[i]))
    }
}

/// Parse a JSON string whose opening quote stands at `i`.
pub open spec fn sp_string(s: Seq<char>, i: int) -> Option<(Seq<char>, int)> {
    if 0 <= i < s.len() && s[i] == '"' {
        sp_str_rec(s, i + 1, Seq::empty())
    } else {
        None
    }
}

/// Expect the exact character sequence `p` at position `i`.
pub open spec fn sp_lit(s: Seq<char>, i: int, p: Seq<char>) -> Option<int> {
    if 0 <= i && i + p.len() <= s.len() && s.subrange(i, i + p.len()) == p {
        Some(i + p.len())
    } else {
        None
    }
}

// ---------------------------------------------------------------------------
// Decimal numbers
// ---------------------------------------------------------------------------

/// Powers of ten.
pub open spec fn p10(k: nat) -> nat
    decreases k,
{
    if k == 0 {
        1
    } else {
        10 * p10((k - 1) as nat)
    }
}

/// The decimal digits of `n`, most significant first.
pub open spec fn dec_u64(n: nat) -> Seq<char>
    decreases n,
{
    if n < 10 {
        seq![dchar(n)]
    } else {
        dec_u64(n / 10).push(dchar(n % 10))
    }
}

/// Parse a run of decimal digits starting at `i` with accumulated value
/// `acc`; stops at the first non-digit, fails if the value would not fit
/// in a `u64`.
pub open spec fn sp_u64_rec(s: Seq<char>, i: int, acc: u64) -> Option<(u64, int)>
    decreases s.len() - i,
{
    if i < 0 {
        None
    } else if i >= s.len() || !is_digit(s[i]) {
        Some((acc, i))
    } else {
        let d = dval(s[i]);
        if acc * 10 + d > u64::MAX {
            None
        } else {
            sp_u64_rec(s, i + 1, (acc * 10 + d) as u64)
        }
    }
}

/// Parse a decimal `u64` whose first digit stands at `i`.
pub open spec fn sp_u64(s: Seq<char>, i: int) -> Option<(u64, int)> {
    if 0 <= i < s.len() && is_digit(s[i]) {
        sp_u64_rec(s, i, 0)
    } else {
        None
    }
}

// ---------------------------------------------------------------------------
// Executable encoders
// ---------------------------------------------------------------------------

/// Append the characters of `pat` to `out`.
pub fn push_lit(out: &mut Vec<char>, pat: &str)
    ensures
        final(out)@ == old(out)@ + pat@,
{
    let mut pc = str_chars(pat);
    out.append(&mut pc);
}

/// Append the JSON string encoding of `s` to `out`.
pub fn push_str_enc(out: &mut Vec<char>, s: &str)
    ensures
        final(out)@ == old(out)@ + enc_str(s@),
{
    out.push('"');
    let sc = str_chars(s);
    let mut k: usize = 0;
    while k < sc.len()
        invariant
            k <= sc@.len(),
            sc@ == s@,
            out@ == old(out)@ + seq!['"'] + esc(s@.subrange(0, k as int)),
        decreases sc@.len() - k,
    {
        let ghost pref = s@.subrange(0, k as int);
        let c = sc[k];
        if c == '"' {
            out.push('\\');
            out.push('"');
        } else if c == '\\' {
            out.push('\\');
            out.push('\\');
        } else if c == '\n' {
            out.push('\\');
            out.push('n');
        } else if c == '\r' {
            out.push('\\');
            out.push('r');
        } else if c == '\t' {
            out.push('\\');
            out.push('t');
        } else {
            out.push(c);
        }
        k = k + 1;
        proof {
            lemma_esc_push(pref, s@[k - 1]);
            assert(pref.push(s@[k - 1]) =~= s@.subrange(0, k as int));
            assert(out@ =~= old(out)@ + seq!['"'] + esc(s@.subrange(0, k as int)));
        }
    }
    out.push('"');
    proof {
        assert(s@.subrange(0, s@.len() as int) =~= s@);
        assert(out@ =~= old(out)@ + enc_str(s@));
    }
}

/// Append the decimal digits of `n` to `out`.
pub fn push_u64_enc(out: &mut Vec<char>, n: u64)
    ensures
        final(out)@ == old(out)@ + dec_u64(n as nat),
    decreases n,
{
    if n < 10 {
        out.push(dchar_exec(n));
        proof {
            assert(out@ =~= old(out)@ + dec_u64(n as nat));
        }
    } else {
        push_u64_enc(out, n / 10);
        out.push(dchar_exec(n % 10));
        proof {
            assert(out@ =~= old(out)@ + dec_u64(n as nat));
        }
    }
}

// ---------------------------------------------------------------------------
// Executable parsers
// ---------------------------------------------------------------------------

fn unesc_exec(c: char) -> (r: Option<char>)
    ensures
        r == unesc_char(c),
{
    if c == '"' {
        Some('"')
    } else if c == '\\' {
        Some('\\')
    } else if c == '/' {
        Some('/')
    } else if c == 'n' {
        Some('\n')
    } else if c == 'r' {
        Some('\r')
    } else if c == 't' {
        Some('\t')
    } else {
        None
    }
}

/// Match the characters of `pat` at position `i`.
pub fn p_lit(v: &Vec<char>, i: usize, pat: &str) -> (r: Option<usize>)
    ensures
        match r {
            Some(j) => sp_lit(v@, i as int, pat@) == Some(j as int) && i <= j <= v@.len(),
            None => sp_lit(v@, i as int, pat@) is None,
        },
{
    let pc = str_chars(pat);
    let n = v.len();
    if pc.len() > n || i > n - pc.len() {
        return None;
    }
    let mut k: usize = 0;
    while k < pc.len()
        invariant
            pc@ == pat@,
            n == v@.len(),
            i + pc@.len() <= n,
            k <= pc@.len(),
            forall|t: int| 0 <= t < k ==> v@[i + t] == pc@[t],
        decreases pc@.len() - k,
    {
        if v[i + k] != pc[k] {
            proof {
                assert(v@.subrange(i as int, i + pat@.len())[k as int] != pat@[k as int]);
            }
            return None;
        }
        k = k + 1;
    }
    proof {
        assert(v@.subrange(i as int, i + pat@.len()) =~= pat@);
    }
    Some(i + pc.len())
}

/// Parse a JSON string whose opening quote stands at `i`.
pub fn p_string(v: &Vec<char>, i: usize) -> (r: Option<(Vec<char>, usize)>)
    ensures
        match r {
            Some(p) => sp_string(v@, i as int) == Some((p.0@, p.1 as int)) && i < p.1 <= v@.len(),
            None => sp_string(v@, i as int) is None,
        },
{
    if i >= v.len() || v[i] != '"' {
        return None;
    }
    let mut k: usize = i + 1;
    let mut acc: Vec<char> = Vec::new();
    loop
        invariant
            i + 1 <= k <= v@.len(),
            sp_string(v@, i as int) == sp_str_rec(v@, k as int, acc@),
        decreases v@.len() - k,
    {
        if k >= v.len() {
            return None;
        }
        let c = v[k];
        if c == '"' {
            return Some((acc, k + 1));
        }
        if c == '\\' {
            if k + 1 >= v.len() {
                return None;
            }
            match unesc_exec(v[k + 1]) {
                None => {
                    return None;
                },
                Some(u) => {
                    acc.push(u);
                    k = k + 2;
                },
            }
        } else {
            acc.push(c);
            k = k + 1;
        }
    }
}

proof fn lemma_overflow_check(acc: u64, d: u64)
    requires
        d <= 9,
    ensures
        acc > (u64::MAX - d) / 10 <==> acc * 10 + d > u64::MAX,
{
    let m = (u64::MAX - d) as int;
    vstd::arithmetic::div_mod::lemma_fundamental_div_mod(m, 10);
    vstd::arithmetic::div_mod::lemma_mod_bound(m, 10);
    let q = m / 10;
    let r = m % 10;
    assert(m == 10 * q + r);
    if acc <= q {
        assert(acc * 10 <= q * 10) by (nonlinear_arith)
            requires
                acc <= q,
        ;
        assert(acc * 10 + d <= u64::MAX);
    } else {
        assert(acc * 10 >= (q + 1) * 10) by (nonlinear_arith)
            requires
                acc >= q + 1,
        ;
        assert(acc * 10 + d > u64::MAX);
    }
}

/// Parse a decimal `u64` whose first digit stands at `i`.
pub fn p_u64(v: &Vec<char>, i: usize) -> (r: Option<(u64, usize)>)
    ensures
        match r {
            Some(p) => sp_u64(v@, i as int) == Some((p.0, p.1 as int)) && i < p.1 <= v@.len(),
            None => sp_u64(v@, i as int) is None,
        },
{
    if i >= v.len() || !is_digit_exec(v[i]) {
        return None;
    }
    let mut k: usize = i;
    let mut acc: u64 = 0;
    loop
        invariant
            i <= k <= v@.len(),
            sp_u64(v@, i as int) == sp_u64_rec(v@, k as int, acc),
            i < v@.len() && is_digit(v@[i as int]),
        decreases v@.len() - k,
    {
        if k >= v.len() {
            if k == i {
                assert(false);
            }
            return Some((acc, k));
        }
        let c = v[k];
        if !is_digit_exec(c) {
            if k == i {
                assert(false);
            }
            return Some((acc, k));
        }
        let d = dval_exec(c);
        if acc > (u64::MAX - d) / 10 {
            proof {
                lemma_overflow_check(acc, d);
            }
            return None;
        }
        proof {
            lemma_overflow_check(acc, d);
        }
        acc = acc * 10 + d;
        k = k + 1;
    }
}

// ---------------------------------------------------------------------------
// Whitespace and key-value plumbing
// ---------------------------------------------------------------------------

/// JSON insignificant whitespace.
pub open spec fn is_ws(c: char) -> bool {
    c == ' ' || c == '\n' || c == '\t' || c == '\r'
}

/// The first position at or after `i` that does not hold whitespace.
pub open spec fn sp_ws(s: Seq<char>, i: int) -> int
    decreases s.len() - i,
{
    if 0 <= i && i < s.len() && is_ws(s[i]) {
        sp_ws(s, i + 1)
    } else {
        i
    }
}

pub proof fn lemma_sp_ws_bounds(s: Seq<char>, i: int)
    requires
        0 <= i <= s.len(),
    ensures
        i <= sp_ws(s, i) <= s.len(),
    decreases s.len() - i,
{
    if i < s.len() && is_ws(s[i]) {
        lemma_sp_ws_bounds(s, i + 1);
    }
}

/// Skip whitespace.
pub fn p_ws(v: &Vec<char>, i: usize) -> (j: usize)
    requires
        i <= v@.len(),
    ensures
        j as int == sp_ws(v@, i as int),
        i <= j <= v@.len(),
{
    let mut k = i;
    loop
        invariant
            i <= k <= v@.len(),
            sp_ws(v@, i as int) == sp_ws(v@, k as int),
        decreases v@.len() - k,
    {
        if k >= v.len() {
            return k;
        }
        let c = v[k];
        if c == ' ' || c == '\n' || c == '\t' || c == '\r' {
            k = k + 1;
        } else {
            return k;
        }
    }
}

/// After a key: optional whitespace, a colon, optional whitespace, then a
/// string value.
pub open spec fn sp_val_string(s: Seq<char>, i: int) -> Option<(Seq<char>, int)> {
    let j = sp_ws(s, i);
    if 0 <= j < s.len() && s[j] == ':' {
        sp_string(s, sp_ws(s, j + 1))
    } else {
        None
    }
}

/// After a key: optional whitespace, a colon, optional whitespace, then a
/// decimal value.
pub open spec fn sp_val_u64(s: Seq<char>, i: int) -> Option<(u64, int)> {
    let j = sp_ws(s, i);
    if 0 <= j < s.len() && s[j] == ':' {
        sp_u64(s, sp_ws(s, j + 1))
    } else {
        None
    }
}

pub proof fn lemma_sp_val_string_bounds(s: Seq<char>, i: int)
    requires
        0 <= i <= s.len(),
    ensures
        sp_val_string(s, i) matches Some(p) ==> i < p.1 <= s.len(),
{
    lemma_sp_ws_bounds(s, i);
    let j = sp_ws(s, i);
    if 0 <= j < s.len() && s[j] == ':' {
        lemma_sp_ws_bounds(s, j + 1);
        let k = sp_ws(s, j + 1);
        if 0 <= k < s.len() && s[k] == '"' {
            lemma_str_rec_bounds(s, k + 1, Seq::empty());
        }
    }
}

pub proof fn lemma_sp_val_u64_bounds(s: Seq<char>, i: int)
    requires
        0 <= i <= s.len(),
    ensures
        sp_val_u64(s, i) matches Some(p) ==> i < p.1 <= s.len(),
{
    lemma_sp_ws_bounds(s, i);
    let j = sp_ws(s, i);
    if 0 <= j < s.len() && s[j] == ':' {
        lemma_sp_ws_bounds(s, j + 1);
        let k = sp_ws(s, j + 1);
        if 0 <= k < s.len() && is_digit(s[k]) {
            lemma_u64_rec_bounds(s, k, 0);
        }
    }
}

pub proof fn lemma_u64_rec_bounds(s: Seq<char>, i: int, acc: u64)
    requires
        i <= s.len(),
    ensures
        sp_u64_rec(s, i, acc) matches Some(p) ==> i <= p.1 <= s.len(),
    decreases s.len() - i,
{
    if 0 <= i < s.len() && is_digit(s[i]) {
        let d = dval(s[i]);
        if !(acc * 10 + d > u64::MAX) {
            lemma_u64_rec_bounds(s, i + 1, (acc * 10 + d) as u64);
        }
    }
}

pub fn p_val_string(v: &Vec<char>, i: usize) -> (r: Option<(Vec<char>, usize)>)
    requires
        i <= v@.len(),
    ensures
        match r {
            Some(p) => sp_val_string(v@, i as int) == Some((p.0@, p.1 as int)) && i < p.1
                <= v@.len(),
            None => sp_val_string(v@, i as int) is None,
        },
{
    let j = p_ws(v, i);
    if j >= v.len() || v[j] != ':' {
        return None;
    }
    let k = p_ws(v, j + 1);
    p_string(v, k)
}

pub fn p_val_u64(v: &Vec<char>, i: usize) -> (r: Option<(u64, usize)>)
    requires
        i <= v@.len(),
    ensures
        match r {
            Some(p) => sp_val_u64(v@, i as int) == Some((p.0, p.1 as int)) && i < p.1 <= v@.len(),
            None => sp_val_u64(v@, i as int) is None,
        },
{
    let j = p_ws(v, i);
    if j >= v.len() || v[j] != ':' {
        return None;
    }
    let k = p_ws(v, j + 1);
    p_u64(v, k)
}

pub proof fn lemma_str_rec_bounds(s: Seq<char>, i: int, acc: Seq<char>)
    ensures
        sp_str_rec(s, i, acc) matches Some(p) ==> i < p.1 <= s.len(),
    decreases s.len() - i,
{
    if 0 <= i < s.len() {
        if s[i] == '"' {
        } else if s[i] == '\\' {
            if i + 1 < s.len() {
                if unesc_char(s[i + 1]) is Some {
                    lemma_str_rec_bounds(s, i + 2, acc.push(unesc_char(s[i + 1]).unwrap()));
                }
            }
        } else {
            lemma_str_rec_bounds(s, i + 1, acc.push(s[i]));
        }
    }
}

// ---------------------------------------------------------------------------
// Round trips: parsing inverts encoding
// ---------------------------------------------------------------------------

pub proof fn lemma_assoc(a: Seq<char>, b: Seq<char>, c: Seq<char>)
    ensures
        (a + b) + c == a + (b + c),
{
    assert((a + b) + c =~= a + (b + c));
}

pub proof fn lemma_lit_round(pre: Seq<char>, p: Seq<char>, rest: Seq<char>)
    ensures
        sp_lit(pre + p + rest, pre.len() as int, p) == Some((pre.len() + p.len()) as int),
{
    let s = pre + p + rest;
    assert(s.subrange(pre.len() as int, (pre.len() + p.len()) as int) =~= p);
}

pub proof fn lemma_str_rec_round(pre: Seq<char>, x: Seq<char>, rest: Seq<char>, acc: Seq<char>)
    ensures
        sp_str_rec(pre + esc(x) + seq!['"'] + rest, pre.len() as int, acc) == Some(
            (acc + x, (pre.len() + esc(x).len() + 1) as int),
        ),
    decreases x.len(),
{
    let s = pre + esc(x) + seq!['"'] + rest;
    let i = pre.len() as int;
    if x.len() == 0 {
        assert(esc(x) == Seq::<char>::empty());
        assert(s[i] == '"');
        assert(acc + x =~= acc);
        assert(sp_str_rec(s, i, acc) == Some((acc, i + 1)));
    } else {
        let c = x[0];
        let xt = x.drop_first();
        assert(esc(x) == esc_char(c) + esc(xt));
        let ec = esc_char(c);
        let pre2 = pre + ec;
        assert(s =~= pre2 + esc(xt) + seq!['"'] + rest);
        lemma_str_rec_round(pre2, xt, rest, acc.push(c));
        assert(acc.push(c) + xt =~= acc + x);
        assert(pre2.len() + esc(xt).len() + 1 == pre.len() + esc(x).len() + 1);
        if c == '"' || c == '\\' || c == '\n' || c == '\r' || c == '\t' {
            assert(ec.len() == 2);
            assert(ec[0] == '\\');
            assert(s[i] == '\\');
            assert(s[i + 1] == ec[1]);
            assert(unesc_char(ec[1]) == Some(c));
            assert(i + 1 < s.len());
            assert(sp_str_rec(s, i, acc) == sp_str_rec(s, i + 2, acc.push(c)));
        } else {
            assert(ec =~= seq![c]);
            assert(s[i] == c);
            assert(c != '"' && c != '\\');
            assert(sp_str_rec(s, i, acc) == sp_str_rec(s, i + 1, acc.push(c)));
        }
    }
}

pub proof fn lemma_string_round(pre: Seq<char>, x: Seq<char>, rest: Seq<char>)
    ensures
        sp_string(pre + enc_str(x) + rest, pre.len() as int) == Some(
            (x, (pre.len() + enc_str(x).len()) as int),
        ),
{
    let s = pre + enc_str(x) + rest;
    let i = pre.len() as int;
    assert(s[i] == '"');
    let pre2 = pre + seq!['"'];
    assert(s =~= pre2 + esc(x) + seq!['"'] + rest);
    lemma_str_rec_round(pre2, x, rest, Seq::empty());
    assert(Seq::<char>::empty() + x =~= x);
    assert(enc_str(x).len() == esc(x).len() + 2);
}

pub proof fn lemma_dec_u64_digits(n: nat)
    ensures
        dec_u64(n).len() >= 1,
        forall|k: int| 0 <= k < dec_u64(n).len() ==> is_digit(#[trigger] dec_u64(n)[k]),
    decreases n,
{
    if n < 10 {
        lemma_dchar_val(n);
    } else {
        lemma_dec_u64_digits(n / 10);
        lemma_dchar_val(n % 10);
    }
}

proof fn lemma_u64_transport(pre: Seq<char>, m: nat, rest: Seq<char>, acc: u64)
    requires
        acc * p10(dec_u64(m).len()) + m <= u64::MAX,
    ensures
        sp_u64_rec(pre + dec_u64(m) + rest, pre.len() as int, acc) == sp_u64_rec(
            pre + dec_u64(m) + rest,
            (pre.len() + dec_u64(m).len()) as int,
            (acc * p10(dec_u64(m).len()) + m) as u64,
        ),
    decreases m,
{
    let s = pre + dec_u64(m) + rest;
    let i = pre.len() as int;
    let len = dec_u64(m).len();
    if m < 10 {
        assert(len == 1);
        assert(p10(0) == 1);
        assert(p10(1) == 10);
        assert(s[i] == dchar(m));
        lemma_dchar_val(m);
        assert(is_digit(s[i]));
        assert(dval(s[i]) == m);
        assert(acc * 10 + m <= u64::MAX);
        assert(sp_u64_rec(s, i, acc) == sp_u64_rec(s, i + 1, (acc * 10 + m) as u64));
    } else {
        let mh = m / 10;
        let ml = m % 10;
        vstd::arithmetic::div_mod::lemma_fundamental_div_mod(m as int, 10);
        let dh = dec_u64(mh);
        assert(dec_u64(m) == dh.push(dchar(ml)));
        let lh = dh.len();
        assert(len == lh + 1);
        assert(p10(len) == 10 * p10(lh));
        let rest2 = seq![dchar(ml)] + rest;
        assert(s =~= pre + dh + rest2);
        // the accumulated value after the leading digits
        let a2 = acc * p10(lh) + mh;
        assert(a2 * 10 + ml == acc * p10(len) + m) by (nonlinear_arith)
            requires
                a2 == acc * p10(lh) + mh,
                p10(len) == 10 * p10(lh),
                m == 10 * mh + ml,
        ;
        assert(a2 <= a2 * 10) by (nonlinear_arith)
            requires
                a2 >= 0,
        ;
        assert(a2 <= u64::MAX);
        lemma_u64_transport(pre, mh, rest2, acc);
        assert(sp_u64_rec(s, i, acc) == sp_u64_rec(s, i + lh, a2 as u64));
        // one more step over the final digit
        let j = i + lh;
        assert(s[j] == dchar(ml));
        lemma_dchar_val(ml);
        assert(is_digit(s[j]));
        assert(dval(s[j]) == ml);
        assert(sp_u64_rec(s, j, a2 as u64) == sp_u64_rec(s, j + 1, (a2 * 10 + ml) as u64));
    }
}

pub proof fn lemma_u64_round(pre: Seq<char>, n: u64, rest: Seq<char>)
    requires
        rest.len() == 0 || !is_digit(rest[0]),
    ensures
        sp_u64(pre + dec_u64(n as nat) + rest, pre.len() as int) == Some(
            (n, (pre.len() + dec_u64(n as nat).len()) as int),
        ),
{
    let s = pre + dec_u64(n as nat) + rest;
    let i = pre.len() as int;
    let len = dec_u64(n as nat).len();
    lemma_dec_u64_digits(n as nat);
    assert(s[i] == dec_u64(n as nat)[0]);
    assert(is_digit(s[i]));
    assert(p10(len) >= 1) by {
        lemma_p10_pos(len);
    }
    assert(0 * p10(len) + n as nat <= u64::MAX);
    lemma_u64_transport(pre, n as nat, rest, 0);
    assert(sp_u64(s, i) == sp_u64_rec(s, i + len, n));
    // the character after the digits, if any, is not a digit
    let j = i + len;
    if j < s.len() {
        assert(s[j] == rest[0]);
        assert(!is_digit(s[j]));
    }
    assert(sp_u64_rec(s, j, n) == Some((n, j)));
}

pub proof fn lemma_p10_pos(k: nat)
    ensures
        p10(k) >= 1,
    decreases k,
{
    if k > 0 {
        lemma_p10_pos((k - 1) as nat);
    }
}

} // verus!
