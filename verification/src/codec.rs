//! The chat wire protocol: one JSON-shaped envelope per text frame.
//!
//! An envelope is one of three kinds: `register` (client -> server, carries a
//! display name), `users` (server -> client, carries the roster snapshot) and
//! `message` (carries chat text; a server-originated one carries an encoded
//! metadata object). Frames are byte sequences; the encoder produces a
//! canonical form and the decoder accepts exactly that form, rejecting
//! anything else as malformed.
use vstd::prelude::*;

verus! {

/// One wire message exchanged over a connection.
#[derive(Debug, PartialEq, Eq)]
pub enum Envelope {
    Register { name: Vec<u8> },
    Users { names: Vec<Vec<u8>> },
    Message { payload: Vec<u8> },
}

/// The mathematical model of an `Envelope`: byte sequences in place of vectors.
pub enum EnvModel {
    Register { name: Seq<u8> },
    Users { names: Seq<Seq<u8>> },
    Message { payload: Seq<u8> },
}

/// Metadata the server wraps around a re-broadcast chat message.
#[derive(Debug, PartialEq, Eq)]
pub struct MessageMeta {
    pub from: Vec<u8>,
    pub message: Vec<u8>,
    pub time: u64,
}

/// The mathematical model of a `MessageMeta`.
pub struct MetaModel {
    pub from: Seq<u8>,
    pub message: Seq<u8>,
    pub time: u64,
}

/// The sequence of views of a vector of byte vectors.
pub open spec fn deep(s: Seq<Vec<u8>>) -> Seq<Seq<u8>> {
    Seq::new(s.len(), |i: int| s[i]@)
}

impl Envelope {
    pub open spec fn model(&self) -> EnvModel {
        match self {
            Envelope::Register { name } => EnvModel::Register { name: name@ },
            Envelope::Users { names } => EnvModel::Users { names: deep(names@) },
            Envelope::Message { payload } => EnvModel::Message { payload: payload@ },
        }
    }
}

impl MessageMeta {
    pub open spec fn model(&self) -> MetaModel {
        MetaModel { from: self.from@, message: self.message@, time: self.time }
    }
}

// ---------------------------------------------------------------------------
// Fixed byte sequences of the wire form (ASCII).
// ---------------------------------------------------------------------------

/// `{"messageType":"register","data":"`
pub open spec fn reg_head() -> Seq<u8> {
    seq![123u8, 34, 109, 101, 115, 115, 97, 103, 101, 84, 121, 112, 101, 34, 58, 34, 114, 101, 103, 105, 115, 116, 101, 114, 34, 44, 34, 100, 97, 116, 97, 34, 58, 34]
}

/// `{"messageType":"message","data":"`
pub open spec fn msg_head() -> Seq<u8> {
    seq![123u8, 34, 109, 101, 115, 115, 97, 103, 101, 84, 121, 112, 101, 34, 58, 34, 109, 101, 115, 115, 97, 103, 101, 34, 44, 34, 100, 97, 116, 97, 34, 58, 34]
}

/// `{"messageType":"users","data":null,"dataArray":`
pub open spec fn users_head() -> Seq<u8> {
    seq![123u8, 34, 109, 101, 115, 115, 97, 103, 101, 84, 121, 112, 101, 34, 58, 34, 117, 115, 101, 114, 115, 34, 44, 34, 100, 97, 116, 97, 34, 58, 110, 117, 108, 108, 44, 34, 100, 97, 116, 97, 65, 114, 114, 97, 121, 34, 58]
}

/// `,"dataArray":null}`
pub open spec fn data_tail() -> Seq<u8> {
    seq![44u8, 34, 100, 97, 116, 97, 65, 114, 114, 97, 121, 34, 58, 110, 117, 108, 108, 125]
}

/// `{"from":"`
pub open spec fn meta_head() -> Seq<u8> {
    seq![123u8, 34, 102, 114, 111, 109, 34, 58, 34]
}

/// `,"message":"`
pub open spec fn meta_mid() -> Seq<u8> {
    seq![44u8, 34, 109, 101, 115, 115, 97, 103, 101, 34, 58, 34]
}

/// `,"time":`
pub open spec fn meta_time() -> Seq<u8> {
    seq![44u8, 34, 116, 105, 109, 101, 34, 58]
}

// ---------------------------------------------------------------------------
// Specification of encoding.
// ---------------------------------------------------------------------------

/// JSON escaping of one byte: quote and backslash get a backslash prefix.
pub open spec fn esc_byte(b: u8) -> Seq<u8> {
    if b == 34 || b == 92 {
        seq![92u8, b]
    } else {
        seq![b]
    }
}

/// JSON escaping of a byte string.
pub open spec fn esc(s: Seq<u8>) -> Seq<u8>
    decreases s.len(),
{
    if s.len() == 0 {
        Seq::empty()
    } else {
        esc_byte(s[0]) + esc(s.drop_first())
    }
}

/// Decimal digits of `n`, most significant first.
pub open spec fn dec_digits(n: u64) -> Seq<u8>
    decreases n,
{
    if n < 10 {
        seq![(48 + n) as u8]
    } else {
        dec_digits((n / 10) as u64) + seq![(48 + n % 10) as u8]
    }
}

/// Encoding of a non-empty roster list, items quoted and comma-separated,
/// closed by `]`.
pub open spec fn enc_items(ns: Seq<Seq<u8>>) -> Seq<u8>
    decreases ns.len(),
{
    if ns.len() == 0 {
        Seq::empty()
    } else {
        seq![34u8] + esc(ns[0]) + seq![34u8] + (if ns.len() == 1 {
            seq![93u8]
        } else {
            seq![44u8] + enc_items(ns.drop_first())
        })
    }
}

/// Encoding of a roster list, `[` through `]`.
pub open spec fn enc_list(ns: Seq<Seq<u8>>) -> Seq<u8> {
    if ns.len() == 0 {
        seq![91u8, 93u8]
    } else {
        seq![91u8] + enc_items(ns)
    }
}

/// The canonical wire form of an envelope.
pub open spec fn spec_encode(m: EnvModel) -> Seq<u8> {
    match m {
        EnvModel::Register { name } => reg_head() + esc(name) + seq![34u8] + data_tail(),
        EnvModel::Users { names } => users_head() + enc_list(names) + seq![125u8],
        EnvModel::Message { payload } => msg_head() + esc(payload) + seq![34u8] + data_tail(),
    }
}

/// The canonical wire form of a metadata object.
pub open spec fn spec_encode_meta(m: MetaModel) -> Seq<u8> {
    meta_head() + esc(m.from) + seq![34u8] + meta_mid() + esc(m.message) + seq![34u8]
        + meta_time() + dec_digits(m.time) + seq![125u8]
}

// ---------------------------------------------------------------------------
// Specification of decoding.
// ---------------------------------------------------------------------------

pub open spec fn starts_with(s: Seq<u8>, p: Seq<u8>) -> bool {
    s.len() >= p.len() && s.take(p.len() as int) == p
}

/// Parses a JSON string body (after the opening quote) up to and including
/// the closing quote; yields the unescaped content and the remainder.
pub open spec fn parse_str_body(s: Seq<u8>) -> Option<(Seq<u8>, Seq<u8>)>
    decreases s.len(),
{
    if s.len() == 0 {
        None
    } else if s[0] == 34 {
        Some((Seq::empty(), s.drop_first()))
    } else if s[0] == 92 {
        if s.len() >= 2 && (s[1] == 34 || s[1] == 92) {
            match parse_str_body(s.skip(2)) {
                Some((c, r)) => Some((seq![s[1]] + c, r)),
                None => None,
            }
        } else {
            None
        }
    } else {
        match parse_str_body(s.drop_first()) {
            Some((c, r)) => Some((seq![s[0]] + c, r)),
            None => None,
        }
    }
}

pub open spec fn is_digit(b: u8) -> bool {
    48 <= b && b <= 57
}

/// Parses a run of decimal digits into `acc`, stopping at the first
/// non-digit; fails on `u64` overflow.
pub open spec fn parse_num_rec(acc: u64, s: Seq<u8>) -> Option<(u64, Seq<u8>)>
    decreases s.len(),
{
    if s.len() > 0 && is_digit(s[0]) {
        let v: int = acc * 10 + (s[0] - 48);
        if v <= u64::MAX {
            parse_num_rec(v as u64, s.drop_first())
        } else {
            None
        }
    } else {
        Some((acc, s))
    }
}

/// Parses a decimal number of at least one digit.
pub open spec fn parse_num(s: Seq<u8>) -> Option<(u64, Seq<u8>)> {
    if s.len() > 0 && is_digit(s[0]) {
        parse_num_rec(0, s)
    } else {
        None
    }
}

/// Parses the items of a non-empty list: quoted strings separated by commas,
/// closed by `]`.
pub open spec fn parse_items(s: Seq<u8>) -> Option<(Seq<Seq<u8>>, Seq<u8>)>
    decreases s.len(),
{
    if s.len() > 0 && s[0] == 34 {
        match parse_str_body(s.drop_first()) {
            Some((item, r)) => {
                if r.len() > 0 && r[0] == 44 {
                    if r.len() < s.len() {
                        match parse_items(r.drop_first()) {
                            Some((items, rr)) => Some((seq![item] + items, rr)),
                            None => None,
                        }
                    } else {
                        None
                    }
                } else if r.len() > 0 && r[0] == 93 {
                    Some((seq![item], r.drop_first()))
                } else {
                    None
                }
            },
            None => None,
        }
    } else {
        None
    }
}

/// Parses a list of quoted strings, `[` through `]`.
pub open spec fn parse_list(s: Seq<u8>) -> Option<(Seq<Seq<u8>>, Seq<u8>)> {
    if s.len() >= 2 && s[0] == 91 && s[1] == 93 {
        Some((Seq::<Seq<u8>>::empty(), s.skip(2)))
    } else if s.len() >= 1 && s[0] == 91 {
        parse_items(s.drop_first())
    } else {
        None
    }
}

/// Total decoding function over byte sequences: the model of what `decode`
/// returns on every input.
pub open spec fn spec_decode(s: Seq<u8>) -> Option<EnvModel> {
    if starts_with(s, reg_head()) {
        match parse_str_body(s.skip(reg_head().len() as int)) {
            Some((name, r)) => if r == data_tail() {
                Some(EnvModel::Register { name })
            } else {
                None
            },
            None => None,
        }
    } else if starts_with(s, users_head()) {
        match parse_list(s.skip(users_head().len() as int)) {
            Some((names, r)) => if r == seq![125u8] {
                Some(EnvModel::Users { names })
            } else {
                None
            },
            None => None,
        }
    } else if starts_with(s, msg_head()) {
        match parse_str_body(s.skip(msg_head().len() as int)) {
            Some((payload, r)) => if r == data_tail() {
                Some(EnvModel::Message { payload })
            } else {
                None
            },
            None => None,
        }
    } else {
        None
    }
}

/// Total decoding function for metadata objects.
pub open spec fn spec_decode_meta(s: Seq<u8>) -> Option<MetaModel> {
    if starts_with(s, meta_head()) {
        match parse_str_body(s.skip(meta_head().len() as int)) {
            Some((from, r1)) => if starts_with(r1, meta_mid()) {
                match parse_str_body(r1.skip(meta_mid().len() as int)) {
                    Some((message, r2)) => if starts_with(r2, meta_time()) {
                        match parse_num(r2.skip(meta_time().len() as int)) {
                            Some((time, r3)) => if r3 == seq![125u8] {
                                Some(MetaModel { from, message, time })
                            } else {
                                None
                            },
                            None => None,
                        }
                    } else {
                        None
                    },
                    None => None,
                }
            } else {
                None
            },
            None => None,
        }
    } else {
        None
    }
}

// ---------------------------------------------------------------------------
// Round-trip: decoding an encoded value gives the value back.
// ---------------------------------------------------------------------------

/// Escaping distributes over concatenation.
pub proof fn lemma_esc_append(a: Seq<u8>, b: Seq<u8>)
    ensures
        esc(a + b) == esc(a) + esc(b),
    decreases a.len(),
{
    if a.len() == 0 {
        assert(a + b =~= b);
        assert(esc(a) + esc(b) =~= esc(b));
    } else {
        assert((a + b).drop_first() =~= a.drop_first() + b);
        lemma_esc_append(a.drop_first(), b);
        assert(esc(a + b) =~= esc(a) + esc(b));
    }
}

/// Parsing the escaped form of `x`, its closing quote, then `r`, yields
/// exactly `x` with `r` left over.
pub proof fn lemma_parse_esc(x: Seq<u8>, r: Seq<u8>)
    ensures
        parse_str_body(esc(x) + seq![34u8] + r) == Some((x, r)),
    decreases x.len(),
{
    let s = esc(x) + seq![34u8] + r;
    if x.len() == 0 {
        assert(s =~= seq![34u8] + r);
        assert(s[0] == 34);
        assert(s.drop_first() =~= r);
        assert(x =~= Seq::<u8>::empty());
    } else {
        let x0 = x[0];
        let xrest = x.drop_first();
        let s1 = esc(xrest) + seq![34u8] + r;
        lemma_parse_esc(xrest, r);
        if x0 == 34 || x0 == 92 {
            assert(esc(x) =~= seq![92u8, x0] + esc(xrest));
            assert(s =~= seq![92u8, x0] + s1);
            assert(s[0] == 92 && s[1] == x0);
            assert(s.skip(2) =~= s1);
            assert(seq![x0] + xrest =~= x);
        } else {
            assert(esc(x) =~= seq![x0] + esc(xrest));
            assert(s =~= seq![x0] + s1);
            assert(s[0] == x0);
            assert(s.drop_first() =~= s1);
            assert(seq![x0] + xrest =~= x);
        }
    }
}

/// A concatenation starts with its first part, and skipping it leaves the rest.
pub proof fn lemma_prefix(h: Seq<u8>, t: Seq<u8>)
    ensures
        starts_with(h + t, h),
        (h + t).skip(h.len() as int) == t,
{
    assert((h + t).take(h.len() as int) =~= h);
    assert((h + t).skip(h.len() as int) =~= t);
}

/// Parsing the encoding of a non-empty list of items yields the items.
pub proof fn lemma_parse_items_enc(ns: Seq<Seq<u8>>, r: Seq<u8>)
    requires
        ns.len() > 0,
    ensures
        parse_items(enc_items(ns) + r) == Some((ns, r)),
    decreases ns.len(),
{
    let s = enc_items(ns) + r;
    let n0 = ns[0];
    if ns.len() == 1 {
        let rr = seq![93u8] + r;
        assert(enc_items(ns) =~= seq![34u8] + esc(n0) + seq![34u8] + seq![93u8]);
        assert(s.drop_first() =~= esc(n0) + seq![34u8] + rr);
        assert(s[0] == 34);
        lemma_parse_esc(n0, rr);
        assert(rr[0] == 93);
        assert(rr.drop_first() =~= r);
        assert(seq![n0] =~= ns);
    } else {
        let nrest = ns.drop_first();
        let rr = seq![44u8] + (enc_items(nrest) + r);
        assert(enc_items(ns) =~= seq![34u8] + esc(n0) + seq![34u8] + (seq![44u8] + enc_items(nrest)));
        assert(s.drop_first() =~= esc(n0) + seq![34u8] + rr);
        assert(s[0] == 34);
        lemma_parse_esc(n0, rr);
        assert(rr[0] == 44);
        assert(rr.len() < s.len());
        assert(rr.drop_first() =~= enc_items(nrest) + r);
        lemma_parse_items_enc(nrest, r);
        assert(seq![n0] + nrest =~= ns);
    }
}

/// Parsing the encoding of a list yields the list.
pub proof fn lemma_parse_list_enc(ns: Seq<Seq<u8>>, r: Seq<u8>)
    ensures
        parse_list(enc_list(ns) + r) == Some((ns, r)),
{
    let s = enc_list(ns) + r;
    if ns.len() == 0 {
        assert(s =~= seq![91u8, 93u8] + r);
        assert(s[0] == 91 && s[1] == 93);
        assert(s.skip(2) =~= r);
        assert(ns =~= Seq::<Seq<u8>>::empty());
    } else {
        assert(s =~= seq![91u8] + (enc_items(ns) + r));
        assert(s[0] == 91);
        assert(enc_items(ns)[0] == 34);
        assert(s[1] == 34);
        assert(s.drop_first() =~= enc_items(ns) + r);
        lemma_parse_items_enc(ns, r);
    }
}

/// Powers of ten.
pub open spec fn pow10(k: nat) -> int
    decreases k,
{
    if k == 0 {
        1
    } else {
        10 * pow10((k - 1) as nat)
    }
}

/// The number of decimal digits of `n`.
pub open spec fn num_digits(n: u64) -> nat
    decreases n,
{
    if n < 10 {
        1
    } else {
        1 + num_digits((n / 10) as u64)
    }
}

/// Every byte of the decimal form is a digit.
pub proof fn lemma_dec_digits_digits(n: u64)
    ensures
        dec_digits(n).len() == num_digits(n),
        forall|i: int| 0 <= i < dec_digits(n).len() ==> is_digit(#[trigger] dec_digits(n)[i]),
    decreases n,
{
    if n < 10 {
    } else {
        lemma_dec_digits_digits((n / 10) as u64);
    }
}

/// Accumulating parse over the decimal form of `n` multiplies the
/// accumulator by the right power of ten and adds `n`.
pub proof fn lemma_parse_dec_rec(a: u64, n: u64, r: Seq<u8>)
    requires
        a * pow10(num_digits(n)) + n <= u64::MAX,
    ensures
        parse_num_rec(a, dec_digits(n) + r)
            == parse_num_rec((a * pow10(num_digits(n)) + n) as u64, r),
    decreases n,
{
    if n < 10 {
        let s = dec_digits(n) + r;
        assert(s =~= seq![(48 + n) as u8] + r);
        assert(s[0] == 48 + n);
        assert(is_digit(s[0]));
        assert(pow10(0) == 1);
        assert(pow10(1) == 10);
        assert(a * 10 + n <= u64::MAX);
        assert(s.drop_first() =~= r);
    } else {
        lemma_pow10_pos(num_digits((n / 10) as u64));
        let p: int = pow10(num_digits((n / 10) as u64));
        let d: u8 = (48 + n % 10) as u8;
        assert(dec_digits(n) + r =~= dec_digits((n / 10) as u64) + (seq![d] + r));
        assert(num_digits(n) == 1 + num_digits((n / 10) as u64));
        assert(pow10(num_digits(n)) == 10 * p);
        let nd: int = (n / 10) as int;
        let nm: int = (n % 10) as int;
        let b: int = a * p + nd;
        assert(b * 10 + nm == a * (10 * p) + nd * 10 + nm) by (nonlinear_arith)
            requires
                b == a * p + nd,
        ;
        assert(nd * 10 + nm == n);
        assert(b * 10 + nm == a * pow10(num_digits(n)) + n);
        assert(b >= 0) by (nonlinear_arith)
            requires
                b == a * p + nd && p >= 1 && a >= 0 && nd >= 0,
        ;
        assert(b <= b * 10 + nm) by (nonlinear_arith)
            requires
                b >= 0 && nm >= 0,
        ;
        lemma_parse_dec_rec(a, (n / 10) as u64, seq![d] + r);
        let s2 = seq![d] + r;
        assert(s2[0] == d);
        assert(is_digit(d));
        assert(s2.drop_first() =~= r);
        assert(b * 10 + (d - 48) <= u64::MAX);
    }
}

/// `pow10` is at least one.
pub proof fn lemma_pow10_pos(k: nat)
    ensures
        pow10(k) >= 1,
    decreases k,
{
    if k > 0 {
        lemma_pow10_pos((k - 1) as nat);
    }
}

/// Parsing the decimal form of `n` followed by a non-digit yields `n`.
pub proof fn lemma_parse_dec(n: u64, r: Seq<u8>)
    requires
        r.len() == 0 || !is_digit(r[0]),
    ensures
        parse_num(dec_digits(n) + r) == Some((n, r)),
{
    lemma_dec_digits_digits(n);
    lemma_parse_dec_rec(0, n, r);
    let s = dec_digits(n) + r;
    assert(s[0] == dec_digits(n)[0]);
    assert(is_digit(s[0]));
    assert(0 * pow10(num_digits(n)) + n == n) by (nonlinear_arith);
    assert(parse_num_rec(n, r) == Some((n, r)));
}

/// Index sixteen tells the three envelope heads apart.
proof fn lemma_heads_distinct()
    ensures
        reg_head()[16] == 114,
        msg_head()[16] == 109,
        users_head()[16] == 117,
        reg_head().len() == 34,
        msg_head().len() == 33,
        users_head().len() == 47,
{
}

/// A sequence beginning with the `users` head does not begin with the other
/// heads.
proof fn lemma_users_not_others(s: Seq<u8>)
    requires
        starts_with(s, users_head()),
    ensures
        !starts_with(s, reg_head()),
        !starts_with(s, msg_head()),
{
    lemma_heads_distinct();
    assert(s.take(users_head().len() as int)[16] == s[16]);
    assert(s[16] == 117);
    if starts_with(s, reg_head()) {
        assert(s.take(reg_head().len() as int)[16] == s[16]);
    }
    if starts_with(s, msg_head()) {
        assert(s.take(msg_head().len() as int)[16] == s[16]);
    }
}

/// A sequence beginning with the `message` head does not begin with the
/// other heads.
proof fn lemma_msg_not_others(s: Seq<u8>)
    requires
        starts_with(s, msg_head()),
    ensures
        !starts_with(s, reg_head()),
        !starts_with(s, users_head()),
{
    lemma_heads_distinct();
    assert(s.take(msg_head().len() as int)[16] == s[16]);
    assert(s[16] == 109);
    if starts_with(s, reg_head()) {
        assert(s.take(reg_head().len() as int)[16] == s[16]);
    }
    if starts_with(s, users_head()) {
        assert(s.take(users_head().len() as int)[16] == s[16]);
    }
}

/// Round trip: decoding the encoding of any envelope gives the envelope back.
pub proof fn lemma_round_trip(m: EnvModel)
    ensures
        spec_decode(spec_encode(m)) == Some(m),
{
    match m {
        EnvModel::Register { name } => {
            let rest = esc(name) + seq![34u8] + data_tail();
            let s = spec_encode(m);
            assert(s =~= reg_head() + rest);
            lemma_prefix(reg_head(), rest);
            lemma_parse_esc(name, data_tail());
        },
        EnvModel::Users { names } => {
            let rest = enc_list(names) + seq![125u8];
            let s = spec_encode(m);
            assert(s =~= users_head() + rest);
            lemma_prefix(users_head(), rest);
            lemma_users_not_others(s);
            lemma_parse_list_enc(names, seq![125u8]);
        },
        EnvModel::Message { payload } => {
            let rest = esc(payload) + seq![34u8] + data_tail();
            let s = spec_encode(m);
            assert(s =~= msg_head() + rest);
            lemma_prefix(msg_head(), rest);
            lemma_msg_not_others(s);
            lemma_parse_esc(payload, data_tail());
        },
    }
}

/// Round trip for metadata: decoding the encoding gives the value back.
pub proof fn lemma_meta_round_trip(m: MetaModel)
    ensures
        spec_decode_meta(spec_encode_meta(m)) == Some(m),
{
    let s = spec_encode_meta(m);
    let tail_n = dec_digits(m.time) + seq![125u8];
    let r3 = meta_time() + tail_n;
    let r2in = esc(m.message) + seq![34u8] + r3;
    let r1 = meta_mid() + r2in;
    let r0 = esc(m.from) + seq![34u8] + r1;
    assert(s =~= meta_head() + r0);
    lemma_prefix(meta_head(), r0);
    lemma_parse_esc(m.from, r1);
    lemma_prefix(meta_mid(), r2in);
    lemma_parse_esc(m.message, r3);
    lemma_prefix(meta_time(), tail_n);
    assert(tail_n =~= dec_digits(m.time) + seq![125u8]);
    lemma_parse_dec(m.time, seq![125u8]);
}

/// Builds the `reg_head` byte sequence.
fn reg_head_bytes() -> (v: Vec<u8>)
    ensures
        v@ == reg_head(),
{
    let mut v: Vec<u8> = Vec::new();
    v.push(123u8);
    v.push(34u8);
    v.push(109u8);
    v.push(101u8);
    v.push(115u8);
    v.push(115u8);
    v.push(97u8);
    v.push(103u8);
    v.push(101u8);
    v.push(84u8);
    v.push(121u8);
    v.push(112u8);
    v.push(101u8);
    v.push(34u8);
    v.push(58u8);
    v.push(34u8);
    v.push(114u8);
    v.push(101u8);
    v.push(103u8);
    v.push(105u8);
    v.push(115u8);
    v.push(116u8);
    v.push(101u8);
    v.push(114u8);
    v.push(34u8);
    v.push(44u8);
    v.push(34u8);
    v.push(100u8);
    v.push(97u8);
    v.push(116u8);
    v.push(97u8);
    v.push(34u8);
    v.push(58u8);
    v.push(34u8);
    proof { assert(v@ =~= reg_head()); }
    v
}

/// Builds the `msg_head` byte sequence.
fn msg_head_bytes() -> (v: Vec<u8>)
    ensures
        v@ == msg_head(),
{
    let mut v: Vec<u8> = Vec::new();
    v.push(123u8);
    v.push(34u8);
    v.push(109u8);
    v.push(101u8);
    v.push(115u8);
    v.push(115u8);
    v.push(97u8);
    v.push(103u8);
    v.push(101u8);
    v.push(84u8);
    v.push(121u8);
    v.push(112u8);
    v.push(101u8);
    v.push(34u8);
    v.push(58u8);
    v.push(34u8);
    v.push(109u8);
    v.push(101u8);
    v.push(115u8);
    v.push(115u8);
    v.push(97u8);
    v.push(103u8);
    v.push(101u8);
    v.push(34u8);
    v.push(44u8);
    v.push(34u8);
    v.push(100u8);
    v.push(97u8);
    v.push(116u8);
    v.push(97u8);
    v.push(34u8);
    v.push(58u8);
    v.push(34u8);
    proof { assert(v@ =~= msg_head()); }
    v
}

/// Builds the `users_head` byte sequence.
fn users_head_bytes() -> (v: Vec<u8>)
    ensures
        v@ == users_head(),
{
    let mut v: Vec<u8> = Vec::new();
    v.push(123u8);
    v.push(34u8);
    v.push(109u8);
    v.push(101u8);
    v.push(115u8);
    v.push(115u8);
    v.push(97u8);
    v.push(103u8);
    v.push(101u8);
    v.push(84u8);
    v.push(121u8);
    v.push(112u8);
    v.push(101u8);
    v.push(34u8);
    v.push(58u8);
    v.push(34u8);
    v.push(117u8);
    v.push(115u8);
    v.push(101u8);
    v.push(114u8);
    v.push(115u8);
    v.push(34u8);
    v.push(44u8);
    v.push(34u8);
    v.push(100u8);
    v.push(97u8);
    v.push(116u8);
    v.push(97u8);
    v.push(34u8);
    v.push(58u8);
    v.push(110u8);
    v.push(117u8);
    v.push(108u8);
    v.push(108u8);
    v.push(44u8);
    v.push(34u8);
    v.push(100u8);
    v.push(97u8);
    v.push(116u8);
    v.push(97u8);
    v.push(65u8);
    v.push(114u8);
    v.push(114u8);
    v.push(97u8);
    v.push(121u8);
    v.push(34u8);
    v.push(58u8);
    proof { assert(v@ =~= users_head()); }
    v
}

/// Builds the `data_tail` byte sequence.
fn data_tail_bytes() -> (v: Vec<u8>)
    ensures
        v@ == data_tail(),
{
    let mut v: Vec<u8> = Vec::new();
    v.push(44u8);
    v.push(34u8);
    v.push(100u8);
    v.push(97u8);
    v.push(116u8);
    v.push(97u8);
    v.push(65u8);
    v.push(114u8);
    v.push(114u8);
    v.push(97u8);
    v.push(121u8);
    v.push(34u8);
    v.push(58u8);
    v.push(110u8);
    v.push(117u8);
    v.push(108u8);
    v.push(108u8);
    v.push(125u8);
    proof { assert(v@ =~= data_tail()); }
    v
}

/// Builds the `meta_head` byte sequence.
fn meta_head_bytes() -> (v: Vec<u8>)
    ensures
        v@ == meta_head(),
{
    let mut v: Vec<u8> = Vec::new();
    v.push(123u8);
    v.push(34u8);
    v.push(102u8);
    v.push(114u8);
    v.push(111u8);
    v.push(109u8);
    v.push(34u8);
    v.push(58u8);
    v.push(34u8);
    proof { assert(v@ =~= meta_head()); }
    v
}

/// Builds the `meta_mid` byte sequence.
fn meta_mid_bytes() -> (v: Vec<u8>)
    ensures
        v@ == meta_mid(),
{
    let mut v: Vec<u8> = Vec::new();
    v.push(44u8);
    v.push(34u8);
    v.push(109u8);
    v.push(101u8);
    v.push(115u8);
    v.push(115u8);
    v.push(97u8);
    v.push(103u8);
    v.push(101u8);
    v.push(34u8);
    v.push(58u8);
    v.push(34u8);
    proof { assert(v@ =~= meta_mid()); }
    v
}

/// Builds the `meta_time` byte sequence.
fn meta_time_bytes() -> (v: Vec<u8>)
    ensures
        v@ == meta_time(),
{
    let mut v: Vec<u8> = Vec::new();
    v.push(44u8);
    v.push(34u8);
    v.push(116u8);
    v.push(105u8);
    v.push(109u8);
    v.push(101u8);
    v.push(34u8);
    v.push(58u8);
    proof { assert(v@ =~= meta_time()); }
    v
}

// ---------------------------------------------------------------------------
// Executable encoding.
// ---------------------------------------------------------------------------

/// Appends the escaped form of `s` to `out`.
fn push_escaped(out: &mut Vec<u8>, s: &Vec<u8>)
    ensures
        final(out)@ == old(out)@ + esc(s@),
{
    let mut i: usize = 0;
    while i < s.len()
        invariant
            i <= s@.len(),
            out@ == old(out)@ + esc(s@.take(i as int)),
        decreases s@.len() - i,
    {
        let b = s[i];
        if b == 34 || b == 92 {
            out.push(92);
            out.push(b);
        } else {
            out.push(b);
        }
        proof {
            let x = s@[i as int];
            assert(s@.take(i + 1) =~= s@.take(i as int) + seq![x]);
            lemma_esc_append(s@.take(i as int), seq![x]);
            assert(esc(Seq::<u8>::empty()) == Seq::<u8>::empty());
            assert(seq![x].drop_first() =~= Seq::<u8>::empty());
            assert(esc(seq![x]) =~= esc_byte(x));
            assert(out@ =~= old(out)@ + esc(s@.take(i + 1)));
        }
        i = i + 1;
    }
    proof {
        assert(s@.take(s@.len() as int) =~= s@);
    }
}

/// Appends the decimal digits of `n` to `out`.
pub(crate) fn push_dec(out: &mut Vec<u8>, n: u64)
    ensures
        final(out)@ == old(out)@ + dec_digits(n),
    decreases n,
{
    if n < 10 {
        out.push(48 + n as u8);
        proof {
            assert(out@ =~= old(out)@ + dec_digits(n));
        }
    } else {
        push_dec(out, n / 10);
        out.push(48 + (n % 10) as u8);
        proof {
            assert(out@ =~= old(out)@ + dec_digits(n));
        }
    }
}

/// Appends the encoding of `names[k..]` (a non-empty suffix) to `out`.
fn push_items(out: &mut Vec<u8>, names: &Vec<Vec<u8>>, k: usize)
    requires
        k < names@.len(),
    ensures
        final(out)@ == old(out)@ + enc_items(deep(names@).skip(k as int)),
    decreases names@.len() - k,
{
    let n = names.len();
    out.push(34);
    push_escaped(out, &names[k]);
    out.push(34);
    if k + 1 == n {
        out.push(93);
        proof {
            let part = deep(names@).skip(k as int);
            assert(part.len() == 1);
            assert(part[0] == names@[k as int]@);
            assert(enc_items(part) =~= seq![34u8] + esc(names@[k as int]@) + seq![34u8] + seq![93u8]);
            assert(out@ =~= old(out)@ + enc_items(part));
        }
    } else {
        out.push(44);
        push_items(out, names, k + 1);
        proof {
            let part = deep(names@).skip(k as int);
            assert(part.len() > 1);
            assert(part[0] == names@[k as int]@);
            assert(part.drop_first() =~= deep(names@).skip(k + 1));
            assert(enc_items(part) =~= seq![34u8] + esc(names@[k as int]@) + seq![34u8] + (
                seq![44u8] + enc_items(deep(names@).skip(k + 1))));
            assert(out@ =~= old(out)@ + enc_items(part));
        }
    }
}

/// Encodes an envelope into its canonical wire form. Never fails.
pub fn encode(e: &Envelope) -> (r: Vec<u8>)
    ensures
        r@ == spec_encode(e.model()),
{
    match e {
        Envelope::Register { name } => {
            let mut out = reg_head_bytes();
            push_escaped(&mut out, name);
            out.push(34);
            let mut t = data_tail_bytes();
            out.append(&mut t);
            proof {
                assert(out@ =~= spec_encode(e.model()));
            }
            out
        },
        Envelope::Message { payload } => {
            let mut out = msg_head_bytes();
            push_escaped(&mut out, payload);
            out.push(34);
            let mut t = data_tail_bytes();
            out.append(&mut t);
            proof {
                assert(out@ =~= spec_encode(e.model()));
            }
            out
        },
        Envelope::Users { names } => {
            let mut out = users_head_bytes();
            if names.len() == 0 {
                out.push(91);
                out.push(93);
                proof {
                    assert(deep(names@).len() == 0);
                    assert(enc_list(deep(names@)) =~= seq![91u8, 93u8]);
                }
            } else {
                out.push(91);
                push_items(&mut out, names, 0);
                proof {
                    assert(deep(names@).skip(0) =~= deep(names@));
                }
            }
            out.push(125);
            proof {
                assert(out@ =~= spec_encode(e.model()));
            }
            out
        },
    }
}

/// Encodes a metadata object into its canonical wire form. Never fails.
pub fn encode_meta(m: &MessageMeta) -> (r: Vec<u8>)
    ensures
        r@ == spec_encode_meta(m.model()),
{
    let mut out = meta_head_bytes();
    push_escaped(&mut out, &m.from);
    out.push(34);
    let mut t = meta_mid_bytes();
    out.append(&mut t);
    push_escaped(&mut out, &m.message);
    out.push(34);
    let mut t2 = meta_time_bytes();
    out.append(&mut t2);
    push_dec(&mut out, m.time);
    out.push(125);
    proof {
        assert(out@ =~= spec_encode_meta(m.model()));
    }
    out
}

// ---------------------------------------------------------------------------
// Executable decoding.
// ---------------------------------------------------------------------------

/// Does `s`, from position `i` on, start with `lit`?
fn matches_at(s: &Vec<u8>, i: usize, lit: &Vec<u8>) -> (b: bool)
    requires
        i <= s@.len(),
    ensures
        b == starts_with(s@.skip(i as int), lit@),
{
    if s.len() - i < lit.len() {
        return false;
    }
    let end: usize = i + lit.len();
    let mut j: usize = 0;
    while j < lit.len()
        invariant
            j <= lit@.len(),
            end == i + lit@.len(),
            i + lit@.len() <= s@.len(),
            forall|k: int| 0 <= k < j ==> s@[i + k] == lit@[k],
        decreases lit@.len() - j,
    {
        if s[i + j] != lit[j] {
            proof {
                assert(s@.skip(i as int).take(lit@.len() as int)[j as int] != lit@[j as int]);
            }
            return false;
        }
        j = j + 1;
    }
    proof {
        assert(s@.skip(i as int).take(lit@.len() as int) =~= lit@);
    }
    true
}

/// Is the remainder of `s` from position `j` exactly `lit`?
fn matches_rest(s: &Vec<u8>, j: usize, lit: &Vec<u8>) -> (b: bool)
    requires
        j <= s@.len(),
    ensures
        b == (s@.skip(j as int) == lit@),
{
    if s.len() - j != lit.len() {
        proof {
            assert(s@.skip(j as int).len() != lit@.len());
        }
        return false;
    }
    let b = matches_at(s, j, lit);
    proof {
        if b {
            assert(s@.skip(j as int).take(lit@.len() as int) =~= s@.skip(j as int));
        } else {
            if s@.skip(j as int) == lit@ {
                assert(s@.skip(j as int).take(lit@.len() as int) =~= lit@);
            }
        }
    }
    b
}

/// Parses a string body starting at `i`; on success returns the unescaped
/// content and the position after the closing quote.
fn parse_str_body_at(s: &Vec<u8>, i: usize) -> (r: Option<(Vec<u8>, usize)>)
    requires
        i <= s@.len(),
    ensures
        match r {
            Some((c, j)) => i <= j <= s@.len() && parse_str_body(s@.skip(i as int)) == Some(
                (c@, s@.skip(j as int)),
            ),
            None => parse_str_body(s@.skip(i as int)) is None,
        },
    decreases s@.len() - i,
{
    proof {
        assert(s@.skip(i as int).len() == s@.len() - i);
    }
    if i == s.len() {
        return None;
    }
    let b = s[i];
    proof {
        assert(s@.skip(i as int)[0] == s@[i as int]);
    }
    if b == 34 {
        proof {
            assert(s@.skip(i as int).drop_first() =~= s@.skip(i + 1));
        }
        Some((Vec::new(), i + 1))
    } else if b == 92 {
        if i + 1 < s.len() {
            let b2 = s[i + 1];
            proof {
                assert(s@.skip(i as int)[1] == s@[i + 1]);
            }
            if b2 == 34 || b2 == 92 {
                proof {
                    assert(s@.skip(i as int).skip(2) =~= s@.skip(i + 2));
                }
                match parse_str_body_at(s, i + 2) {
                    Some((c, j)) => {
                        let mut c2 = c;
                        c2.insert(0, b2);
                        proof {
                            assert(c2@ =~= seq![b2] + c2@.drop_first());
                        }
                        Some((c2, j))
                    },
                    None => None,
                }
            } else {
                None
            }
        } else {
            proof {
                assert(s@.skip(i as int).len() < 2);
            }
            None
        }
    } else {
        proof {
            assert(s@.skip(i as int).drop_first() =~= s@.skip(i + 1));
        }
        match parse_str_body_at(s, i + 1) {
            Some((c, j)) => {
                let mut c2 = c;
                c2.insert(0, b);
                proof {
                    assert(c2@ =~= seq![b] + c2@.drop_first());
                }
                Some((c2, j))
            },
            None => None,
        }
    }
}

/// Parses a digit run starting at `i` with accumulator `acc`.
fn parse_num_rec_at(s: &Vec<u8>, i: usize, acc: u64) -> (r: Option<(u64, usize)>)
    requires
        i <= s@.len(),
    ensures
        match r {
            Some((n, j)) => i <= j <= s@.len() && parse_num_rec(acc, s@.skip(i as int)) == Some(
                (n, s@.skip(j as int)),
            ),
            None => parse_num_rec(acc, s@.skip(i as int)) is None,
        },
    decreases s@.len() - i,
{
    proof {
        assert(s@.skip(i as int).len() == s@.len() - i);
    }
    if i == s.len() {
        return Some((acc, i));
    }
    let b = s[i];
    proof {
        assert(s@.skip(i as int)[0] == s@[i as int]);
    }
    if 48 <= b && b <= 57 {
        let d = (b - 48) as u64;
        let safe = acc < 1844674407370955161u64 || (acc == 1844674407370955161u64 && d <= 5);
        if safe {
            proof {
                assert(s@.skip(i as int).drop_first() =~= s@.skip(i + 1));
            }
            parse_num_rec_at(s, i + 1, acc * 10 + d)
        } else {
            None
        }
    } else {
        Some((acc, i))
    }
}

/// Parses a number of at least one digit starting at `i`.
fn parse_num_at(s: &Vec<u8>, i: usize) -> (r: Option<(u64, usize)>)
    requires
        i <= s@.len(),
    ensures
        match r {
            Some((n, j)) => i <= j <= s@.len() && parse_num(s@.skip(i as int)) == Some(
                (n, s@.skip(j as int)),
            ),
            None => parse_num(s@.skip(i as int)) is None,
        },
{
    proof {
        assert(s@.skip(i as int).len() == s@.len() - i);
    }
    if i < s.len() {
        let b = s[i];
        proof {
            assert(s@.skip(i as int)[0] == s@[i as int]);
        }
        if 48 <= b && b <= 57 {
            return parse_num_rec_at(s, i, 0);
        }
    }
    None
}

/// Parses list items starting at `i` (first quoted string of a non-empty
/// list).
fn parse_items_at(s: &Vec<u8>, i: usize) -> (r: Option<(Vec<Vec<u8>>, usize)>)
    requires
        i <= s@.len(),
    ensures
        match r {
            Some((items, j)) => i <= j <= s@.len() && parse_items(s@.skip(i as int)) == Some(
                (deep(items@), s@.skip(j as int)),
            ),
            None => parse_items(s@.skip(i as int)) is None,
        },
    decreases s@.len() - i,
{
    proof {
        assert(s@.skip(i as int).len() == s@.len() - i);
    }
    if i == s.len() {
        return None;
    }
    let b = s[i];
    proof {
        assert(s@.skip(i as int)[0] == s@[i as int]);
    }
    if b != 34 {
        return None;
    }
    proof {
        assert(s@.skip(i as int).drop_first() =~= s@.skip(i + 1));
    }
    match parse_str_body_at(s, i + 1) {
        Some((item, j)) => {
            if j < s.len() && s[j] == 44 {
                proof {
                    assert(s@.skip(j as int)[0] == s@[j as int]);
                }
                if j > i {
                    proof {
                        assert(s@.skip(j as int).drop_first() =~= s@.skip(j + 1));
                    }
                    match parse_items_at(s, j + 1) {
                        Some((items, jj)) => {
                            let mut items2 = items;
                            items2.insert(0, item);
                            proof {
                                assert(deep(items2@) =~= seq![items2@[0]@] + deep(
                                    items2@.drop_first(),
                                ));
                            }
                            Some((items2, jj))
                        },
                        None => None,
                    }
                } else {
                    None
                }
            } else if j < s.len() && s[j] == 93 {
                proof {
                    assert(s@.skip(j as int)[0] == s@[j as int]);
                    assert(s@.skip(j as int).drop_first() =~= s@.skip(j + 1));
                }
                let mut items: Vec<Vec<u8>> = Vec::new();
                items.push(item);
                proof {
                    assert(deep(items@) =~= seq![items@[0]@]);
                }
                Some((items, j + 1))
            } else {
                proof {
                    if s@.skip(j as int).len() > 0 {
                        assert(s@.skip(j as int)[0] == s@[j as int]);
                    }
                }
                None
            }
        },
        None => None,
    }
}

/// Decodes a frame into an envelope; `None` on anything malformed. The
/// result is exactly `spec_decode` of the frame.
pub fn decode(frame: &Vec<u8>) -> (r: Option<Envelope>)
    ensures
        match r {
            Some(e) => spec_decode(frame@) == Some(e.model()),
            None => spec_decode(frame@) is None,
        },
{
    proof {
        assert(frame@.skip(0) =~= frame@);
    }
    let rh = reg_head_bytes();
    let uh = users_head_bytes();
    let mh = msg_head_bytes();
    let dt = data_tail_bytes();
    let mut close_brace: Vec<u8> = Vec::new();
    close_brace.push(125);
    proof {
        assert(close_brace@ =~= seq![125u8]);
    }
    if matches_at(frame, 0, &rh) {
        match parse_str_body_at(frame, rh.len()) {
            Some((name, j)) => {
                if matches_rest(frame, j, &dt) {
                    Some(Envelope::Register { name })
                } else {
                    None
                }
            },
            None => None,
        }
    } else if matches_at(frame, 0, &uh) {
        let i0 = uh.len();
        if i0 + 2 <= frame.len() && frame[i0] == 91 && frame[i0 + 1] == 93 {
            proof {
                let t = frame@.skip(i0 as int);
                assert(t[0] == frame@[i0 as int] && t[1] == frame@[i0 + 1]);
                assert(t.skip(2) =~= frame@.skip(i0 + 2));
            }
            let names: Vec<Vec<u8>> = Vec::new();
            if matches_rest(frame, i0 + 2, &close_brace) {
                proof {
                    assert(deep(names@) =~= Seq::<Seq<u8>>::empty());
                }
                Some(Envelope::Users { names })
            } else {
                None
            }
        } else if i0 < frame.len() && frame[i0] == 91 {
            proof {
                let t = frame@.skip(i0 as int);
                assert(t[0] == frame@[i0 as int]);
                assert(t.drop_first() =~= frame@.skip(i0 + 1));
                if t.len() >= 2 {
                    assert(t[1] == frame@[i0 + 1]);
                }
            }
            match parse_items_at(frame, i0 + 1) {
                Some((names, j)) => {
                    if matches_rest(frame, j, &close_brace) {
                        Some(Envelope::Users { names })
                    } else {
                        None
                    }
                },
                None => None,
            }
        } else {
            proof {
                let t = frame@.skip(i0 as int);
                if t.len() >= 1 {
                    assert(t[0] == frame@[i0 as int]);
                }
            }
            None
        }
    } else if matches_at(frame, 0, &mh) {
        match parse_str_body_at(frame, mh.len()) {
            Some((payload, j)) => {
                if matches_rest(frame, j, &dt) {
                    Some(Envelope::Message { payload })
                } else {
                    None
                }
            },
            None => None,
        }
    } else {
        None
    }
}

/// Decodes a metadata object; `None` on anything malformed. The result is
/// exactly `spec_decode_meta` of the bytes.
pub fn decode_meta(bytes: &Vec<u8>) -> (r: Option<MessageMeta>)
    ensures
        match r {
            Some(m) => spec_decode_meta(bytes@) == Some(m.model()),
            None => spec_decode_meta(bytes@) is None,
        },
{
    proof {
        assert(bytes@.skip(0) =~= bytes@);
    }
    let hh = meta_head_bytes();
    let mm = meta_mid_bytes();
    let mt = meta_time_bytes();
    let mut close_brace: Vec<u8> = Vec::new();
    close_brace.push(125);
    proof {
        assert(close_brace@ =~= seq![125u8]);
    }
    let blen: usize = bytes.len();
    if !matches_at(bytes, 0, &hh) {
        return None;
    }
    match parse_str_body_at(bytes, hh.len()) {
        Some((from, j1)) => {
            if !matches_at(bytes, j1, &mm) {
                return None;
            }
            proof {
                assert(j1 + mm@.len() <= blen);
                assert(bytes@.skip(j1 as int).skip(mm@.len() as int) =~= bytes@.skip(
                    j1 + mm@.len(),
                ));
            }
            match parse_str_body_at(bytes, j1 + mm.len()) {
                Some((message, j2)) => {
                    if !matches_at(bytes, j2, &mt) {
                        return None;
                    }
                    proof {
                        assert(j2 + mt@.len() <= blen);
                        assert(bytes@.skip(j2 as int).skip(mt@.len() as int) =~= bytes@.skip(
                            j2 + mt@.len(),
                        ));
                    }
                    match parse_num_at(bytes, j2 + mt.len()) {
                        Some((time, j3)) => {
                            if matches_rest(bytes, j3, &close_brace) {
                                Some(MessageMeta { from, message, time })
                            } else {
                                None
                            }
                        },
                        None => None,
                    }
                },
                None => None,
            }
        },
        None => None,
    }
}

} // verus!
