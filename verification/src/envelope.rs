//! The message envelope of the enriched protocol variant.
//!
//! On the wire an enriched message is a UTF-8 JSON object of exactly the
//! shape `{"name": <string>, "message": <string>, "uid": <integer>|null}`,
//! the `uid` member optional. The server parses every inbound text frame
//! against this grammar, overwrites `uid` with the sending connection's
//! identifier, and re-serializes before broadcasting; a frame that does
//! not fit the grammar is dropped, never relayed.
//!
//! The grammar accepted here is deliberately narrow and fully spelled out
//! by the specification functions below: members in the order `name`,
//! `message`, `uid`; strings without escape sequences, made of bytes
//! `0x20` and above other than `"` and `\`; `uid` a run of at most 19
//! decimal digits (so its value always fits in a `u64`) or the word
//! `null`; whitespace allowed between tokens.

use vstd::prelude::*;
use crate::UID_LIMIT;

verus! {

pub const QUOTE: u8 = 34;

pub const COMMA: u8 = 44;

pub const COLON: u8 = 58;

pub const LBRACE: u8 = 123;

pub const RBRACE: u8 = 125;

/// JSON inter-token whitespace: space, tab, line feed, carriage return.
pub open spec fn is_ws(b: u8) -> bool {
    b == 32 || b == 9 || b == 10 || b == 13
}

/// An ASCII decimal digit.
pub open spec fn is_digit(b: u8) -> bool {
    48 <= b <= 57
}

/// A byte allowed inside a string literal: `0x20` and above, excluding
/// the quote and the backslash (no escape sequences).
pub open spec fn is_str_byte(b: u8) -> bool {
    b >= 32 && b != QUOTE && b != 92
}

/// Every byte of `s` may stand inside a string literal.
pub open spec fn str_ok(s: Seq<u8>) -> bool {
    forall|i: int| 0 <= i < s.len() ==> is_str_byte(#[trigger] s[i])
}

/// The first position at or after `i` that does not hold whitespace.
pub open spec fn ws_run(s: Seq<u8>, i: int) -> int
    decreases s.len() - i,
{
    if i < s.len() && is_ws(s[i]) {
        ws_run(s, i + 1)
    } else {
        i
    }
}

/// The first position at or after `i` that does not hold a digit.
pub open spec fn digits_end(s: Seq<u8>, i: int) -> int
    decreases s.len() - i,
{
    if i < s.len() && is_digit(s[i]) {
        digits_end(s, i + 1)
    } else {
        i
    }
}

/// The body of a string literal starting at `i` (just past the opening
/// quote): its contents and the position just past the closing quote.
pub open spec fn str_body(s: Seq<u8>, i: int) -> Option<(Seq<u8>, int)>
    decreases s.len() - i,
{
    if i < s.len() {
        if s[i] == QUOTE {
            Some((Seq::empty(), i + 1))
        } else if is_str_byte(s[i]) {
            match str_body(s, i + 1) {
                Some(p) => Some((seq![s[i]] + p.0, p.1)),
                None => None,
            }
        } else {
            None
        }
    } else {
        None
    }
}

/// A whole string literal at `i`: opening quote, body, closing quote.
pub open spec fn string_at(s: Seq<u8>, i: int) -> Option<(Seq<u8>, int)> {
    if i < s.len() && s[i] == QUOTE {
        str_body(s, i + 1)
    } else {
        None
    }
}

/// The number a digit string denotes, most significant digit first.
pub open spec fn val_of(ds: Seq<u8>) -> int
    decreases ds.len(),
{
    if ds.len() == 0 {
        0
    } else {
        val_of(ds.drop_last()) * 10 + (ds.last() - 48)
    }
}

/// Ten to the `n`th power: the bound on `n`-digit numerals.
pub open spec fn pow10(n: nat) -> int
    decreases n,
{
    if n == 0 {
        1
    } else {
        10 * pow10((n - 1) as nat)
    }
}

/// An unsigned decimal numeral at `i`: its value and the position just
/// past its digits. A run longer than 19 digits is rejected, so the value
/// is always below `UID_LIMIT` and fits in a `u64`.
pub open spec fn uint_at(s: Seq<u8>, i: int) -> Option<(u64, int)> {
    let j = digits_end(s, i);
    if j == i || j - i > 19 {
        None
    } else {
        Some(((val_of(s.subrange(i, j)) as u64), j))
    }
}

/// The word `null` at `i`.
pub open spec fn null_at(s: Seq<u8>, i: int) -> bool {
    i + 4 <= s.len() && s[i] == 110 && s[i + 1] == 117 && s[i + 2] == 108 && s[i + 3] == 108
}

/// The value of the `uid` member at `i`: `null` or a numeral.
pub open spec fn uid_at(s: Seq<u8>, i: int) -> Option<(Option<u64>, int)> {
    if null_at(s, i) {
        Some((None, i + 4))
    } else {
        match uint_at(s, i) {
            Some(p) => Some((Some(p.0), p.1)),
            None => None,
        }
    }
}

/// The bytes of `name`.
pub open spec fn key_name() -> Seq<u8> {
    seq![110u8, 97u8, 109u8, 101u8]
}

/// The bytes of `message`.
pub open spec fn key_message() -> Seq<u8> {
    seq![109u8, 101u8, 115u8, 115u8, 97u8, 103u8, 101u8]
}

/// The bytes of `uid`.
pub open spec fn key_uid() -> Seq<u8> {
    seq![117u8, 105u8, 100u8]
}

/// The envelope the byte string `s` denotes, if it fits the grammar:
/// the `name` contents, the `message` contents, and the `uid` value
/// (`None` both for an absent member and for `null`).
pub open spec fn envelope_of(s: Seq<u8>) -> Option<(Seq<u8>, Seq<u8>, Option<u64>)> {
    let i0 = ws_run(s, 0);
    if !(i0 < s.len() && s[i0] == LBRACE) {
        None
    } else {
        match string_at(s, ws_run(s, i0 + 1)) {
            None => None,
            Some(k1) => {
                if k1.0 != key_name() {
                    None
                } else {
                    let i3 = ws_run(s, k1.1);
                    if !(i3 < s.len() && s[i3] == COLON) {
                        None
                    } else {
                        match string_at(s, ws_run(s, i3 + 1)) {
                            None => None,
                            Some(nm) => {
                                let i6 = ws_run(s, nm.1);
                                if !(i6 < s.len() && s[i6] == COMMA) {
                                    None
                                } else {
                                    match string_at(s, ws_run(s, i6 + 1)) {
                                        None => None,
                                        Some(k2) => {
                                            if k2.0 != key_message() {
                                                None
                                            } else {
                                                let i9 = ws_run(s, k2.1);
                                                if !(i9 < s.len() && s[i9] == COLON) {
                                                    None
                                                } else {
                                                    match string_at(s, ws_run(s, i9 + 1)) {
                                                        None => None,
                                                        Some(ms) => envelope_tail(
                                                            s,
                                                            nm.0,
                                                            ms.0,
                                                            ms.1,
                                                        ),
                                                    }
                                                }
                                            }
                                        },
                                    }
                                }
                            },
                        }
                    }
                }
            },
        }
    }
}

/// What may follow the `message` member: either the closing brace, or a
/// `uid` member and the closing brace, with nothing but whitespace after.
pub open spec fn envelope_tail(s: Seq<u8>, name: Seq<u8>, msg: Seq<u8>, i: int) -> Option<
    (Seq<u8>, Seq<u8>, Option<u64>),
> {
    let j = ws_run(s, i);
    if j < s.len() && s[j] == RBRACE {
        if ws_run(s, j + 1) == s.len() {
            Some((name, msg, None))
        } else {
            None
        }
    } else if j < s.len() && s[j] == COMMA {
        match string_at(s, ws_run(s, j + 1)) {
            None => None,
            Some(k3) => {
                if k3.0 != key_uid() {
                    None
                } else {
                    let m = ws_run(s, k3.1);
                    if !(m < s.len() && s[m] == COLON) {
                        None
                    } else {
                        match uid_at(s, ws_run(s, m + 1)) {
                            None => None,
                            Some(u) => {
                                let e = ws_run(s, u.1);
                                if e < s.len() && s[e] == RBRACE && ws_run(s, e + 1) == s.len() {
                                    Some((name, msg, u.0))
                                } else {
                                    None
                                }
                            },
                        }
                    }
                }
            },
        }
    } else {
        None
    }
}

/// Prefix a scanned string body with bytes already collected.
spec fn prepend_body(pre: Seq<u8>, r: Option<(Seq<u8>, int)>) -> Option<(Seq<u8>, int)> {
    match r {
        None => None,
        Some(p) => Some((pre + p.0, p.1)),
    }
}

proof fn lemma_pow10_pos(n: nat)
    ensures
        pow10(n) >= 1,
    decreases n,
{
    if n > 0 {
        lemma_pow10_pos((n - 1) as nat);
    }
}

proof fn lemma_pow10_mono(a: nat, b: nat)
    requires
        a <= b,
    ensures
        pow10(a) <= pow10(b),
    decreases b,
{
    if a < b {
        lemma_pow10_mono(a, (b - 1) as nat);
        lemma_pow10_pos((b - 1) as nat);
    }
}

proof fn lemma_pow10_19()
    ensures
        pow10(19) == UID_LIMIT,
{
    reveal_with_fuel(pow10, 20);
}

/// Everything between `i` and the end of the digit run is a digit, and
/// the run stays within the sequence.
proof fn lemma_digit_run(s: Seq<u8>, i: int)
    requires
        0 <= i <= s.len(),
    ensures
        i <= digits_end(s, i) <= s.len(),
        forall|t: int| i <= t < digits_end(s, i) ==> is_digit(#[trigger] s[t]),
    decreases s.len() - i,
{
    if i < s.len() && is_digit(s[i]) {
        lemma_digit_run(s, i + 1);
    }
}

/// Skip whitespace: the executable twin of `ws_run`.
fn skip_ws(s: &Vec<u8>, i: usize) -> (r: usize)
    requires
        i <= s@.len(),
    ensures
        r as int == ws_run(s@, i as int),
        i <= r <= s@.len(),
{
    let n = s.len();
    let mut j: usize = i;
    while j < n
        invariant
            i <= j <= n,
            n == s@.len(),
            ws_run(s@, i as int) == ws_run(s@, j as int),
        decreases n - j,
    {
        let b = s[j];
        if !(b == 32 || b == 9 || b == 10 || b == 13) {
            proof {
                assert(!is_ws(s@[j as int]));
            }
            return j;
        }
        proof {
            assert(ws_run(s@, j as int) == ws_run(s@, j as int + 1));
        }
        j += 1;
    }
    j
}

/// Find the end of the digit run: the executable twin of `digits_end`.
fn digits_stop(s: &Vec<u8>, i: usize) -> (r: usize)
    requires
        i <= s@.len(),
    ensures
        r as int == digits_end(s@, i as int),
        i <= r <= s@.len(),
{
    let n = s.len();
    let mut j: usize = i;
    while j < n
        invariant
            i <= j <= n,
            n == s@.len(),
            digits_end(s@, i as int) == digits_end(s@, j as int),
        decreases n - j,
    {
        let b = s[j];
        if !(48 <= b && b <= 57) {
            proof {
                assert(!is_digit(s@[j as int]));
            }
            return j;
        }
        proof {
            assert(digits_end(s@, j as int) == digits_end(s@, j as int + 1));
        }
        j += 1;
    }
    j
}

/// Scan one string literal: the executable twin of `string_at`.
fn read_string(s: &Vec<u8>, i: usize) -> (r: Option<(Vec<u8>, usize)>)
    requires
        i <= s@.len(),
    ensures
        r is None ==> string_at(s@, i as int) is None,
        r matches Some(p) ==> (string_at(s@, i as int) matches Some(q) && p.0@ == q.0 && p.1
            as int == q.1 && i < p.1 <= s@.len()),
{
    let n = s.len();
    if i >= n {
        return None;
    }
    if s[i] != QUOTE {
        return None;
    }
    let mut out: Vec<u8> = Vec::new();
    let mut j: usize = i + 1;
    proof {
        let sb = str_body(s@, i as int + 1);
        if sb is Some {
            assert(Seq::<u8>::empty() + (sb->0).0 =~= (sb->0).0);
        }
    }
    while j < n
        invariant
            i + 1 <= j <= n,
            n == s@.len(),
            s@[i as int] == QUOTE,
            str_body(s@, i as int + 1) == prepend_body(out@, str_body(s@, j as int)),
        decreases n - j,
    {
        let b = s[j];
        if b == QUOTE {
            proof {
                assert(str_body(s@, j as int) == Some((Seq::<u8>::empty(), j as int + 1)));
                assert(out@ + Seq::<u8>::empty() =~= out@);
            }
            return Some((out, j + 1));
        }
        if !(b >= 32 && b != 92) {
            proof {
                assert(!is_str_byte(s@[j as int]));
                assert(str_body(s@, j as int) is None);
            }
            return None;
        }
        proof {
            assert(is_str_byte(s@[j as int]));
            let sb = str_body(s@, j as int + 1);
            if sb is Some {
                assert(out@ + (seq![s@[j as int]] + (sb->0).0) =~= (out@ + seq![s@[j as int]])
                    + (sb->0).0);
            }
            assert(out@.push(s@[j as int]) =~= out@ + seq![s@[j as int]]);
        }
        out.push(b);
        j += 1;
    }
    None
}

/// Scan one decimal numeral: the executable twin of `uint_at`.
fn read_uint(s: &Vec<u8>, i: usize) -> (r: Option<(u64, usize)>)
    requires
        i <= s@.len(),
    ensures
        r is None ==> uint_at(s@, i as int) is None,
        r matches Some(p) ==> (uint_at(s@, i as int) matches Some(q) && p.0 == q.0 && p.1
            as int == q.1 && i < p.1 <= s@.len()),
{
    let e = digits_stop(s, i);
    if e == i {
        return None;
    }
    if e - i > 19 {
        return None;
    }
    proof {
        lemma_digit_run(s@, i as int);
        lemma_pow10_19();
        assert(s@.subrange(i as int, i as int) =~= Seq::<u8>::empty());
    }
    let mut val: u64 = 0;
    let mut k: usize = i;
    while k < e
        invariant
            i <= k <= e <= s@.len(),
            e as int == digits_end(s@, i as int),
            e - i <= 19,
            forall|t: int| i <= t < e ==> is_digit(#[trigger] s@[t]),
            val as int == val_of(s@.subrange(i as int, k as int)),
            (val as int) < pow10((k - i) as nat),
            pow10(19) == UID_LIMIT,
        decreases e - k,
    {
        let b = s[k];
        proof {
            assert(is_digit(s@[k as int]));
            lemma_pow10_mono((k - i + 1) as nat, 19);
            assert(pow10((k - i + 1) as nat) == 10 * pow10((k - i) as nat));
        }
        val = val * 10 + ((b - 48) as u64);
        proof {
            assert(s@.subrange(i as int, k as int + 1).drop_last() =~= s@.subrange(
                i as int,
                k as int,
            ));
            assert(s@.subrange(i as int, k as int + 1).last() == s@[k as int]);
        }
        k += 1;
    }
    proof {
        assert(val as int == val_of(s@.subrange(i as int, e as int)));
    }
    Some((val, e))
}

/// Scan the value of the `uid` member: the executable twin of `uid_at`.
fn read_uid(s: &Vec<u8>, i: usize) -> (r: Option<(Option<u64>, usize)>)
    requires
        i <= s@.len(),
    ensures
        r is None ==> uid_at(s@, i as int) is None,
        r matches Some(p) ==> (uid_at(s@, i as int) matches Some(q) && p.0 == q.0 && p.1
            as int == q.1 && i < p.1 <= s@.len()),
{
    let n = s.len();
    if n - i >= 4 && s[i] == 110 && s[i + 1] == 117 && s[i + 2] == 108 && s[i + 3] == 108 {
        proof {
            assert(null_at(s@, i as int));
        }
        return Some((None, i + 4));
    }
    proof {
        assert(!null_at(s@, i as int));
    }
    match read_uint(s, i) {
        Some(p) => Some((Some(p.0), p.1)),
        None => None,
    }
}

/// A parsed message envelope.
pub struct Envelope {
    /// Contents of the `name` member.
    pub name: Vec<u8>,
    /// Contents of the `message` member.
    pub message: Vec<u8>,
    /// Value of the `uid` member; `None` for an absent member and for
    /// `null` alike. Ignored on input: the relay overwrites it.
    pub uid: Option<u64>,
}

fn is_key_name(v: &Vec<u8>) -> (r: bool)
    ensures
        r == (v@ == key_name()),
{
    if v.len() == 4 && v[0] == 110 && v[1] == 97 && v[2] == 109 && v[3] == 101 {
        proof {
            assert(v@ =~= key_name());
        }
        true
    } else {
        proof {
            if v@ == key_name() {
                assert(v@.len() == 4);
                assert(v@[0] == 110 && v@[1] == 97 && v@[2] == 109 && v@[3] == 101);
            }
        }
        false
    }
}

fn is_key_message(v: &Vec<u8>) -> (r: bool)
    ensures
        r == (v@ == key_message()),
{
    if v.len() == 7 && v[0] == 109 && v[1] == 101 && v[2] == 115 && v[3] == 115 && v[4] == 97
        && v[5] == 103 && v[6] == 101 {
        proof {
            assert(v@ =~= key_message());
        }
        true
    } else {
        proof {
            if v@ == key_message() {
                assert(v@.len() == 7);
                assert(v@[0] == 109 && v@[1] == 101 && v@[2] == 115 && v@[3] == 115 && v@[4]
                    == 97 && v@[5] == 103 && v@[6] == 101);
            }
        }
        false
    }
}

fn is_key_uid(v: &Vec<u8>) -> (r: bool)
    ensures
        r == (v@ == key_uid()),
{
    if v.len() == 3 && v[0] == 117 && v[1] == 105 && v[2] == 100 {
        proof {
            assert(v@ =~= key_uid());
        }
        true
    } else {
        proof {
            if v@ == key_uid() {
                assert(v@.len() == 3);
                assert(v@[0] == 117 && v@[1] == 105 && v@[2] == 100);
            }
        }
        false
    }
}

/// Parse one text frame against the envelope grammar. Returns the parsed
/// envelope exactly when `envelope_of` accepts the bytes, and nothing —
/// the frame is to be dropped — otherwise.
pub fn parse_envelope(s: &Vec<u8>) -> (r: Option<Envelope>)
    ensures
        r is Some <==> envelope_of(s@) is Some,
        r matches Some(e) ==> (envelope_of(s@) matches Some(t) && e.name@ == t.0 && e.message@
            == t.1 && e.uid == t.2),
{
    let n = s.len();
    let i0 = skip_ws(s, 0);
    if i0 >= n {
        return None;
    }
    if s[i0] != LBRACE {
        return None;
    }
    let k1 = match read_string(s, skip_ws(s, i0 + 1)) {
        None => {
            return None;
        },
        Some(p) => p,
    };
    if !is_key_name(&k1.0) {
        return None;
    }
    let i3 = skip_ws(s, k1.1);
    if i3 >= n {
        return None;
    }
    if s[i3] != COLON {
        return None;
    }
    let nm = match read_string(s, skip_ws(s, i3 + 1)) {
        None => {
            return None;
        },
        Some(p) => p,
    };
    let i6 = skip_ws(s, nm.1);
    if i6 >= n {
        return None;
    }
    if s[i6] != COMMA {
        return None;
    }
    let k2 = match read_string(s, skip_ws(s, i6 + 1)) {
        None => {
            return None;
        },
        Some(p) => p,
    };
    if !is_key_message(&k2.0) {
        return None;
    }
    let i9 = skip_ws(s, k2.1);
    if i9 >= n {
        return None;
    }
    if s[i9] != COLON {
        return None;
    }
    let ms = match read_string(s, skip_ws(s, i9 + 1)) {
        None => {
            return None;
        },
        Some(p) => p,
    };
    let ghost name_g = nm.0@;
    let ghost msg_g = ms.0@;
    let j = skip_ws(s, ms.1);
    if j < n && s[j] == RBRACE {
        if skip_ws(s, j + 1) == n {
            proof {
                assert(envelope_of(s@) == Some((name_g, msg_g, None::<u64>)));
            }
            return Some(Envelope { name: nm.0, message: ms.0, uid: None });
        }
        return None;
    }
    if !(j < n && s[j] == COMMA) {
        return None;
    }
    let k3 = match read_string(s, skip_ws(s, j + 1)) {
        None => {
            return None;
        },
        Some(p) => p,
    };
    if !is_key_uid(&k3.0) {
        return None;
    }
    let m = skip_ws(s, k3.1);
    if m >= n {
        return None;
    }
    if s[m] != COLON {
        return None;
    }
    let u = match read_uid(s, skip_ws(s, m + 1)) {
        None => {
            return None;
        },
        Some(p) => p,
    };
    let e = skip_ws(s, u.1);
    if e < n && s[e] == RBRACE {
        if skip_ws(s, e + 1) == n {
            proof {
                assert(envelope_of(s@) == Some((name_g, msg_g, u.0)));
            }
            return Some(Envelope { name: nm.0, message: ms.0, uid: u.0 });
        }
        return None;
    }
    None
}

/// The canonical decimal numeral of `n`: no leading zeros, most
/// significant digit first.
pub open spec fn dec_rep(n: u64) -> Seq<u8>
    decreases n,
{
    if n < 10 {
        seq![(48 + n) as u8]
    } else {
        dec_rep(n / 10).push((48 + n % 10) as u8)
    }
}

/// The serialized envelope: the members in canonical order, no
/// whitespace, `uid` always present and numeric.
pub open spec fn ser_envelope(name: Seq<u8>, msg: Seq<u8>, uid: u64) -> Seq<u8> {
    lit_open() + name + lit_mid() + msg + lit_uid() + dec_rep(uid) + seq![RBRACE]
}

/// The bytes `{"name":"`.
pub open spec fn lit_open() -> Seq<u8> {
    seq![123u8, 34u8, 110u8, 97u8, 109u8, 101u8, 34u8, 58u8, 34u8]
}

/// The bytes `","message":"`.
pub open spec fn lit_mid() -> Seq<u8> {
    seq![34u8, 44u8, 34u8, 109u8, 101u8, 115u8, 115u8, 97u8, 103u8, 101u8, 34u8, 58u8, 34u8]
}

/// The bytes `","uid":`.
pub open spec fn lit_uid() -> Seq<u8> {
    seq![34u8, 44u8, 34u8, 117u8, 105u8, 100u8, 34u8, 58u8]
}

/// What the relay broadcasts for the inbound text frame `s` sent by
/// connection `id`: the same envelope with `uid` replaced by `id`, or
/// nothing when `s` does not fit the grammar.
pub open spec fn enriched(s: Seq<u8>, id: u64) -> Option<Seq<u8>> {
    match envelope_of(s) {
        None => None,
        Some(t) => Some(ser_envelope(t.0, t.1, id)),
    }
}

/// Append the decimal numeral of `n`.
fn push_dec(n: u64, out: &mut Vec<u8>)
    ensures
        final(out)@ == old(out)@ + dec_rep(n),
    decreases n,
{
    if n < 10 {
        out.push(48 + (n as u8));
        proof {
            assert(out@ =~= old(out)@ + dec_rep(n));
        }
    } else {
        push_dec(n / 10, out);
        out.push(48 + ((n % 10) as u8));
        proof {
            assert(out@ =~= old(out)@ + dec_rep(n));
        }
    }
}

/// Append a copy of `src`.
fn push_bytes(out: &mut Vec<u8>, src: &Vec<u8>)
    ensures
        final(out)@ == old(out)@ + src@,
{
    let n = src.len();
    let mut i: usize = 0;
    proof {
        assert(out@ =~= old(out)@ + src@.subrange(0, 0));
    }
    while i < n
        invariant
            i <= n,
            n == src@.len(),
            out@ == old(out)@ + src@.subrange(0, i as int),
        decreases n - i,
    {
        out.push(src[i]);
        proof {
            assert(out@ =~= old(out)@ + src@.subrange(0, i + 1));
        }
        i += 1;
    }
    proof {
        assert(src@.subrange(0, n as int) =~= src@);
    }
}

/// Serialize an envelope with the given `uid`, in canonical form.
pub fn serialize_envelope(name: &Vec<u8>, msg: &Vec<u8>, uid: u64) -> (r: Vec<u8>)
    ensures
        r@ == ser_envelope(name@, msg@, uid),
{
    let mut out: Vec<u8> = Vec::new();
    out.push(123);
    out.push(34);
    out.push(110);
    out.push(97);
    out.push(109);
    out.push(101);
    out.push(34);
    out.push(58);
    out.push(34);
    proof {
        assert(out@ =~= Seq::<u8>::empty() + lit_open());
        assert(Seq::<u8>::empty() + lit_open() =~= lit_open());
    }
    push_bytes(&mut out, name);
    let ghost c1 = out@;
    out.push(34);
    out.push(44);
    out.push(34);
    out.push(109);
    out.push(101);
    out.push(115);
    out.push(115);
    out.push(97);
    out.push(103);
    out.push(101);
    out.push(34);
    out.push(58);
    out.push(34);
    proof {
        assert(out@ =~= c1 + lit_mid());
    }
    push_bytes(&mut out, msg);
    let ghost c2 = out@;
    out.push(34);
    out.push(44);
    out.push(34);
    out.push(117);
    out.push(105);
    out.push(100);
    out.push(34);
    out.push(58);
    proof {
        assert(out@ =~= c2 + lit_uid());
    }
    push_dec(uid, &mut out);
    out.push(125);
    proof {
        assert(out@ =~= ser_envelope(name@, msg@, uid));
    }
    out
}

/// Enrich one inbound text frame: parse it, stamp the sender's
/// identifier into `uid`, and re-serialize. Returns nothing — and the
/// frame is dropped — exactly when the frame does not fit the grammar.
pub fn enrich(s: &Vec<u8>, id: u64) -> (r: Option<Vec<u8>>)
    ensures
        r is Some <==> envelope_of(s@) is Some,
        r matches Some(v) ==> Some(v@) == enriched(s@, id),
{
    match parse_envelope(s) {
        None => None,
        Some(env) => Some(serialize_envelope(&env.name, &env.message, id)),
    }
}

proof fn lemma_ws_run_bounds(s: Seq<u8>, i: int)
    requires
        0 <= i <= s.len(),
    ensures
        i <= ws_run(s, i) <= s.len(),
    decreases s.len() - i,
{
    if i < s.len() && is_ws(s[i]) {
        lemma_ws_run_bounds(s, i + 1);
    }
}

/// A scanned string body is within bounds and made of string bytes.
proof fn lemma_str_body_ok(s: Seq<u8>, i: int)
    requires
        0 <= i <= s.len(),
    ensures
        str_body(s, i) matches Some(p) ==> (str_ok(p.0) && i < p.1 <= s.len()),
    decreases s.len() - i,
{
    if i < s.len() && s[i] != QUOTE && is_str_byte(s[i]) {
        lemma_str_body_ok(s, i + 1);
        let sb = str_body(s, i + 1);
        if sb is Some {
            let t = seq![s[i]] + (sb->0).0;
            assert forall|k: int| 0 <= k < t.len() implies is_str_byte(#[trigger] t[k]) by {
                if k > 0 {
                    assert(t[k] == (sb->0).0[k - 1]);
                }
            }
        }
    }
}

/// Scanning a string body over known contents followed by a quote yields
/// exactly those contents.
proof fn lemma_str_body_exact(s: Seq<u8>, i: int, content: Seq<u8>)
    requires
        0 <= i,
        i + content.len() < s.len(),
        s.subrange(i, i + content.len()) == content,
        str_ok(content),
        s[i + content.len()] == QUOTE,
    ensures
        str_body(s, i) == Some((content, i + content.len() + 1)),
    decreases content.len(),
{
    if content.len() == 0 {
        assert(s[i] == QUOTE);
        assert(content =~= Seq::<u8>::empty());
    } else {
        assert(content[0] == s.subrange(i, i + content.len())[0]);
        assert(is_str_byte(s[i]));
        assert(s[i] != QUOTE);
        assert(s.subrange(i + 1, i + content.len()) =~= content.drop_first());
        assert forall|k: int| 0 <= k < content.drop_first().len() implies is_str_byte(
            #[trigger] content.drop_first()[k],
        ) by {
            assert(content.drop_first()[k] == content[k + 1]);
        }
        lemma_str_body_exact(s, i + 1, content.drop_first());
        assert(seq![s[i]] + content.drop_first() =~= content);
    }
}

/// A digit run over known digits, stopped by a non-digit, ends exactly
/// after them.
proof fn lemma_digits_end_exact(s: Seq<u8>, i: int, e: int)
    requires
        0 <= i <= e <= s.len(),
        forall|t: int| i <= t < e ==> is_digit(#[trigger] s[t]),
        e == s.len() || !is_digit(s[e]),
    ensures
        digits_end(s, i) == e,
    decreases e - i,
{
    if i < e {
        lemma_digits_end_exact(s, i + 1, e);
    }
}

/// Decimal numerals are nonempty digit runs.
proof fn lemma_dec_rep_digits(n: u64)
    ensures
        dec_rep(n).len() >= 1,
        forall|k: int| 0 <= k < dec_rep(n).len() ==> is_digit(#[trigger] dec_rep(n)[k]),
    decreases n,
{
    if n >= 10 {
        lemma_dec_rep_digits(n / 10);
        assert forall|k: int| 0 <= k < dec_rep(n).len() implies is_digit(
            #[trigger] dec_rep(n)[k],
        ) by {
            if k < dec_rep(n).len() - 1 {
                assert(dec_rep(n)[k] == dec_rep(n / 10)[k]);
            }
        }
    }
}

/// A value below `pow10(k)` needs at most `k` digits.
proof fn lemma_dec_rep_len(n: u64, k: nat)
    requires
        k >= 1,
        n < pow10(k),
    ensures
        dec_rep(n).len() <= k,
    decreases n,
{
    if n >= 10 {
        if k == 1 {
            reveal_with_fuel(pow10, 3);
            assert(pow10(1) == 10);
        }
        assert(pow10(k) == 10 * pow10((k - 1) as nat));
        lemma_pow10_pos((k - 1) as nat);
        assert(n / 10 < pow10((k - 1) as nat)) by (nonlinear_arith)
            requires
                n < 10 * pow10((k - 1) as nat),
                pow10((k - 1) as nat) >= 1,
        ;
        lemma_dec_rep_len(n / 10, (k - 1) as nat);
    }
}

/// The numeral of `n` denotes `n`.
proof fn lemma_dec_rep_val(n: u64)
    ensures
        val_of(dec_rep(n)) == n,
    decreases n,
{
    reveal_with_fuel(val_of, 2);
    if n < 10 {
        assert(dec_rep(n).drop_last() =~= Seq::<u8>::empty());
    } else {
        lemma_dec_rep_val(n / 10);
        assert(dec_rep(n).drop_last() =~= dec_rep(n / 10));
        assert(dec_rep(n).last() == (48 + n % 10) as u8);
    }
}

/// Parsing a serialized envelope gives back its members, the stamped
/// identifier in place of `uid`: the serializer writes nothing but the
/// canonical form of what it was given.
#[verifier::rlimit(100)]
pub proof fn lemma_parse_of_serialized(name: Seq<u8>, msg: Seq<u8>, id: u64)
    requires
        str_ok(name),
        str_ok(msg),
        id < UID_LIMIT,
    ensures
        envelope_of(ser_envelope(name, msg, id)) == Some((name, msg, Some(id))),
{
    let s = ser_envelope(name, msg, id);
    let nl = name.len() as int;
    let ml = msg.len() as int;
    let d = dec_rep(id);
    let dl = d.len() as int;
    lemma_dec_rep_digits(id);
    lemma_pow10_19();
    lemma_dec_rep_len(id, 19);
    lemma_dec_rep_val(id);
    assert(s.len() == 31 + nl + ml + dl);
    assert(s.subrange(0, 9) =~= lit_open());
    assert(s.subrange(9, 9 + nl) =~= name);
    assert(s.subrange(9 + nl, 22 + nl) =~= lit_mid());
    assert(s.subrange(22 + nl, 22 + nl + ml) =~= msg);
    assert(s.subrange(22 + nl + ml, 30 + nl + ml) =~= lit_uid());
    assert(s.subrange(30 + nl + ml, 30 + nl + ml + dl) =~= d);
    assert(s[30 + nl + ml + dl] == RBRACE);
    // The opening brace and the name member.
    assert(s[0] == 123 && s[1] == 34 && s[6] == 34 && s[7] == 58 && s[8] == 34);
    assert(ws_run(s, 0) == 0);
    assert(s.subrange(2, 6) =~= key_name());
    assert(str_ok(key_name()));
    assert(ws_run(s, 1) == 1);
    lemma_str_body_exact(s, 2, key_name());
    assert(string_at(s, 1) == Some((key_name(), 7int)));
    assert(ws_run(s, 7) == 7);
    assert(ws_run(s, 8) == 8);
    assert(s[9 + nl] == 34);
    lemma_str_body_exact(s, 9, name);
    assert(string_at(s, 8) == Some((name, 10 + nl)));
    // The comma and the message member.
    assert(s[10 + nl] == 44 && s[11 + nl] == 34);
    assert(ws_run(s, 10 + nl) == 10 + nl);
    assert(ws_run(s, 11 + nl) == 11 + nl);
    assert(s.subrange(12 + nl, 19 + nl) =~= key_message());
    assert(str_ok(key_message()));
    assert(s[19 + nl] == 34);
    lemma_str_body_exact(s, 12 + nl, key_message());
    assert(string_at(s, 11 + nl) == Some((key_message(), 20 + nl)));
    assert(s[20 + nl] == 58 && s[21 + nl] == 34);
    assert(ws_run(s, 20 + nl) == 20 + nl);
    assert(ws_run(s, 21 + nl) == 21 + nl);
    assert(s[22 + nl + ml] == 34);
    lemma_str_body_exact(s, 22 + nl, msg);
    assert(string_at(s, 21 + nl) == Some((msg, 23 + nl + ml)));
    // The comma and the uid member.
    assert(s[23 + nl + ml] == 44 && s[24 + nl + ml] == 34);
    assert(ws_run(s, 23 + nl + ml) == 23 + nl + ml);
    assert(ws_run(s, 24 + nl + ml) == 24 + nl + ml);
    assert(s.subrange(25 + nl + ml, 28 + nl + ml) =~= key_uid());
    assert(str_ok(key_uid()));
    assert(s[28 + nl + ml] == 34);
    lemma_str_body_exact(s, 25 + nl + ml, key_uid());
    assert(string_at(s, 24 + nl + ml) == Some((key_uid(), 29 + nl + ml)));
    assert(s[29 + nl + ml] == 58);
    assert(ws_run(s, 29 + nl + ml) == 29 + nl + ml);
    // The numeral.
    let p = 30 + nl + ml;
    assert(is_digit(s[p]));
    assert(ws_run(s, p) == p);
    assert(!null_at(s, p));
    assert forall|t: int| p <= t < p + dl implies is_digit(#[trigger] s[t]) by {
        assert(s[t] == d[t - p]);
    }
    lemma_digits_end_exact(s, p, p + dl);
    assert(s.subrange(p, p + dl) == d);
    assert(1 <= dl <= 19);
    assert(val_of(s.subrange(p, p + dl)) == id);
    assert(uint_at(s, p) == Some((id, p + dl)));
    assert(uid_at(s, p) == Some((Some(id), p + dl)));
    // The closing brace and the end.
    assert(ws_run(s, p + dl) == p + dl);
    assert(ws_run(s, p + dl + 1) == s.len());
    assert(envelope_tail(s, name, msg, 23 + nl + ml) == Some((name, msg, Some(id))));
    assert(envelope_of(s) == Some((name, msg, Some(id))));
}

/// The members of any envelope the grammar accepts are made of string
/// bytes, so they can be re-serialized verbatim.
pub proof fn lemma_envelope_strings_ok(s: Seq<u8>)
    ensures
        envelope_of(s) matches Some(t) ==> (str_ok(t.0) && str_ok(t.1)),
{
    if envelope_of(s) is Some {
        let i0 = ws_run(s, 0);
        lemma_ws_run_bounds(s, 0);
        let w1 = ws_run(s, i0 + 1);
        lemma_ws_run_bounds(s, i0 + 1);
        lemma_str_body_ok(s, w1 + 1);
        let k1 = string_at(s, w1)->0;
        let i3 = ws_run(s, k1.1);
        lemma_ws_run_bounds(s, k1.1);
        let w2 = ws_run(s, i3 + 1);
        lemma_ws_run_bounds(s, i3 + 1);
        lemma_str_body_ok(s, w2 + 1);
        let nm = string_at(s, w2)->0;
        let i6 = ws_run(s, nm.1);
        lemma_ws_run_bounds(s, nm.1);
        let w3 = ws_run(s, i6 + 1);
        lemma_ws_run_bounds(s, i6 + 1);
        lemma_str_body_ok(s, w3 + 1);
        let k2 = string_at(s, w3)->0;
        let i9 = ws_run(s, k2.1);
        lemma_ws_run_bounds(s, k2.1);
        let w4 = ws_run(s, i9 + 1);
        lemma_ws_run_bounds(s, i9 + 1);
        lemma_str_body_ok(s, w4 + 1);
    }
}

/// Whatever `uid` a client supplies, the relayed envelope carries the
/// sender's own identifier: parsing what `enriched` produces yields the
/// original `name` and `message` and exactly `uid == id`.
pub proof fn lemma_enriched_uid(s: Seq<u8>, id: u64)
    requires
        id < UID_LIMIT,
        envelope_of(s) is Some,
    ensures
        enriched(s, id) matches Some(w) && envelope_of(w) == Some(
            ((envelope_of(s)->0).0, (envelope_of(s)->0).1, Some(id)),
        ),
{
    lemma_envelope_strings_ok(s);
    lemma_parse_of_serialized((envelope_of(s)->0).0, (envelope_of(s)->0).1, id);
}

} // verus!
