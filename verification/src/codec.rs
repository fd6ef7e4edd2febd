//! Wire codec for the gossip protocol.
//!
//! An envelope travels as a JSON-shaped byte string
//! `{"mtype":"ShareAddr","data":"...","timestamp":0}` with the message kind,
//! a payload string and a (currently always-zero) timestamp.  The codec is
//! written directly over bytes: `spec_enc_envelope` is the mathematical
//! encoding, `sp_envelope` the mathematical parse, and the executable
//! `encode_envelope` / `decode_envelope` are proved to match them.  The
//! round-trip law `lemma_envelope_round_trip` ties the two together.
//!
//! Inside a string field the bytes `"` and `\` are escaped with a leading
//! backslash; every other byte is carried as itself.

use vstd::prelude::*;

verus! {

/// The kind tag of a wire envelope.
#[derive(Clone, Copy, Debug, PartialEq, Eq, Structural)]
pub enum MessageType {
    /// Announces the sender's own reachable address.
    ShareAddr,
    /// Carries a serialized peer-address table back to the sender.
    ReturnNodeAddrs,
}

/// A decoded wire message.
#[derive(Debug)]
pub struct Envelope {
    pub mtype: MessageType,
    /// For `ShareAddr` a single peer address; for `ReturnNodeAddrs` a
    /// serialized peer-address table.
    pub data: Vec<u8>,
    /// Carried on the wire but currently always zero.
    pub timestamp: u64,
}

/// Why a payload was rejected.
#[derive(Clone, Copy, Debug, PartialEq, Eq, Structural)]
pub enum DecodeError {
    /// The bytes do not spell a well-formed message.
    Malformed,
    /// A serialized table names the same address twice.
    DuplicateAddr,
}

// ---------------------------------------------------------------------------
// Specification-level encoding
// ---------------------------------------------------------------------------

/// How one byte of a string field appears on the wire.
pub open spec fn esc_byte(c: u8) -> Seq<u8> {
    if c == 34 || c == 92 {
        seq![92u8, c]
    } else {
        seq![c]
    }
}

/// How a whole string field appears on the wire.
pub open spec fn esc(s: Seq<u8>) -> Seq<u8>
    decreases s.len(),
{
    if s.len() == 0 {
        Seq::empty()
    } else {
        esc_byte(s[0]) + esc(s.skip(1))
    }
}

/// The decimal digits of `n`, most significant first.
pub open spec fn dec_digits(n: nat) -> Seq<u8>
    decreases n,
{
    if n < 10 {
        seq![(n + 48) as u8]
    } else {
        dec_digits(n / 10) + seq![(n % 10 + 48) as u8]
    }
}

/// The bytes of `{"mtype":"`.
pub open spec fn lit_head() -> Seq<u8> {
    seq![123u8, 34u8, 109u8, 116u8, 121u8, 112u8, 101u8, 34u8, 58u8, 34u8]
}

/// The bytes of `ShareAddr","data":"`.
pub open spec fn lit_share() -> Seq<u8> {
    seq![
        83u8, 104u8, 97u8, 114u8, 101u8, 65u8, 100u8, 100u8, 114u8,
        34u8, 44u8, 34u8, 100u8, 97u8, 116u8, 97u8, 34u8, 58u8, 34u8,
    ]
}

/// The bytes of `ReturnNodeAddrs","data":"`.
pub open spec fn lit_return() -> Seq<u8> {
    seq![
        82u8, 101u8, 116u8, 117u8, 114u8, 110u8, 78u8, 111u8, 100u8, 101u8,
        65u8, 100u8, 100u8, 114u8, 115u8,
        34u8, 44u8, 34u8, 100u8, 97u8, 116u8, 97u8, 34u8, 58u8, 34u8,
    ]
}

/// The bytes of `,"timestamp":`.
pub open spec fn lit_ts() -> Seq<u8> {
    seq![44u8, 34u8, 116u8, 105u8, 109u8, 101u8, 115u8, 116u8, 97u8, 109u8, 112u8, 34u8, 58u8]
}

/// The wire literal that follows the opening brace for each message kind.
pub open spec fn lit_mtype(mt: MessageType) -> Seq<u8> {
    match mt {
        MessageType::ShareAddr => lit_share(),
        MessageType::ReturnNodeAddrs => lit_return(),
    }
}

/// The full wire encoding of an envelope.
pub open spec fn spec_enc_envelope(mt: MessageType, data: Seq<u8>, ts: u64) -> Seq<u8> {
    lit_head() + lit_mtype(mt) + esc(data) + seq![34u8] + lit_ts() + dec_digits(ts as nat)
        + seq![125u8]
}

// ---------------------------------------------------------------------------
// Specification-level parsing
// ---------------------------------------------------------------------------

/// Strips `lit` off the front of `b`, or fails.
pub open spec fn sp_lit(b: Seq<u8>, lit: Seq<u8>) -> Option<Seq<u8>> {
    if lit.len() <= b.len() && b.take(lit.len() as int) == lit {
        Some(b.skip(lit.len() as int))
    } else {
        None
    }
}

/// Reads an escaped string field up to and including its closing quote;
/// yields the unescaped bytes and the rest of the input.
pub open spec fn sp_str(b: Seq<u8>) -> Option<(Seq<u8>, Seq<u8>)>
    decreases b.len(),
{
    if b.len() == 0 {
        None
    } else if b[0] == 34 {
        Some((Seq::empty(), b.skip(1)))
    } else if b[0] == 92 {
        if b.len() < 2 {
            None
        } else {
            match sp_str(b.skip(2)) {
                Some(p) => Some((seq![b[1]] + p.0, p.1)),
                None => None,
            }
        }
    } else {
        match sp_str(b.skip(1)) {
            Some(p) => Some((seq![b[0]] + p.0, p.1)),
            None => None,
        }
    }
}

/// Whether a byte is an ASCII decimal digit.
pub open spec fn is_digit(c: u8) -> bool {
    48 <= c <= 57
}

/// Folds leading digits of `b` into `acc`; yields the value and the rest.
pub open spec fn sp_digits(b: Seq<u8>, acc: nat) -> (nat, Seq<u8>)
    decreases b.len(),
{
    if b.len() > 0 && is_digit(b[0]) {
        sp_digits(b.skip(1), (acc * 10 + b[0] - 48) as nat)
    } else {
        (acc, b)
    }
}

/// Parses everything after the message-kind literal: the data string, the
/// timestamp literal, the digits and the closing brace.
pub open spec fn sp_env_rest(mt: MessageType, b: Seq<u8>) -> Option<(MessageType, Seq<u8>, u64)> {
    match sp_str(b) {
        None => None,
        Some(p) => match sp_lit(p.1, lit_ts()) {
            None => None,
            Some(b4) => if b4.len() > 0 && is_digit(b4[0]) {
                let (v, b5) = sp_digits(b4, 0);
                if v <= u64::MAX && b5 == seq![125u8] {
                    Some((mt, p.0, v as u64))
                } else {
                    None
                }
            } else {
                None
            },
        },
    }
}

/// The mathematical parse of a whole envelope.
pub open spec fn sp_envelope(b: Seq<u8>) -> Option<(MessageType, Seq<u8>, u64)> {
    match sp_lit(b, lit_head()) {
        None => None,
        Some(b1) => match sp_lit(b1, lit_share()) {
            Some(b2) => sp_env_rest(MessageType::ShareAddr, b2),
            None => match sp_lit(b1, lit_return()) {
                Some(b2) => sp_env_rest(MessageType::ReturnNodeAddrs, b2),
                None => None,
            },
        },
    }
}

// ---------------------------------------------------------------------------
// Round-trip lemmas
// ---------------------------------------------------------------------------

/// Skipping twice is skipping once by the sum.
pub proof fn lemma_skip_skip(b: Seq<u8>, i: int, j: int)
    requires
        0 <= i,
        0 <= j,
        i + j <= b.len(),
    ensures
        b.skip(i).skip(j) == b.skip(i + j),
{
    assert(b.skip(i).skip(j) =~= b.skip(i + j));
}

/// A literal strips off the front of its own concatenation.
pub proof fn lemma_sp_lit_prefix(lit: Seq<u8>, rest: Seq<u8>)
    ensures
        sp_lit(lit + rest, lit) == Some(rest),
{
    let b = lit + rest;
    assert(b.take(lit.len() as int) =~= lit);
    assert(b.skip(lit.len() as int) =~= rest);
}

/// Parsing an escaped string followed by its closing quote yields the
/// original string and the rest of the input.
pub proof fn lemma_sp_str_esc(s: Seq<u8>, rest: Seq<u8>)
    ensures
        sp_str(esc(s) + seq![34u8] + rest) == Some((s, rest)),
    decreases s.len(),
{
    let b = esc(s) + seq![34u8] + rest;
    if s.len() == 0 {
        assert(esc(s) =~= Seq::<u8>::empty());
        assert(b =~= seq![34u8] + rest);
        assert(b[0] == 34);
        assert(b.skip(1) =~= rest);
        assert(s =~= Seq::<u8>::empty());
        assert(sp_str(b) == Some((s, rest)));
    } else {
        let c = s[0];
        let tl = s.skip(1);
        lemma_sp_str_esc(tl, rest);
        let b_tl = esc(tl) + seq![34u8] + rest;
        if c == 34 || c == 92 {
            assert(esc_byte(c) =~= seq![92u8, c]);
            assert(b =~= seq![92u8, c] + b_tl);
            assert(b[0] == 92);
            assert(b.len() >= 2);
            assert(b[1] == c);
            assert(b.skip(2) =~= b_tl);
            assert(sp_str(b.skip(2)) == Some((tl, rest)));
            assert(seq![b[1]] + tl =~= s);
            assert(sp_str(b) == Some((s, rest)));
        } else {
            assert(esc_byte(c) =~= seq![c]);
            assert(b =~= seq![c] + b_tl);
            assert(b[0] == c);
            assert(b.skip(1) =~= b_tl);
            assert(sp_str(b.skip(1)) == Some((tl, rest)));
            assert(seq![b[0]] + tl =~= s);
            assert(sp_str(b) == Some((s, rest)));
        }
    }
}

/// Ten to the `k`.
pub open spec fn pow10(k: nat) -> nat
    decreases k,
{
    if k == 0 {
        1
    } else {
        10 * pow10((k - 1) as nat)
    }
}

/// Every byte of a decimal rendering is a digit, and there is at least one.
pub proof fn lemma_dec_digits_are_digits(n: nat)
    ensures
        dec_digits(n).len() >= 1,
        forall|i: int| 0 <= i < dec_digits(n).len() ==> is_digit(#[trigger] dec_digits(n)[i]),
    decreases n,
{
    if n < 10 {
    } else {
        lemma_dec_digits_are_digits(n / 10);
    }
}

/// Folding the decimal rendering of `n` into an accumulator shifts the
/// accumulator past `n`'s digits and adds `n`.
pub proof fn lemma_sp_digits_dec(n: nat, rest: Seq<u8>, acc: nat)
    ensures
        sp_digits(dec_digits(n) + rest, acc)
            == sp_digits(rest, acc * pow10(dec_digits(n).len()) + n),
    decreases n,
{
    let b = dec_digits(n) + rest;
    if n < 10 {
        assert(dec_digits(n) =~= seq![(n + 48) as u8]);
        assert(b[0] == n + 48);
        assert(is_digit(b[0]));
        assert(b.skip(1) =~= rest);
        assert(acc * 10 + b[0] - 48 == acc * 10 + n);
        assert(pow10(1) == 10 * pow10(0));
        assert(acc * pow10(1) == acc * 10) by (nonlinear_arith)
            requires pow10(1) == 10,
        ;
    } else {
        let hi = n / 10;
        let lo = n % 10;
        let last = (lo + 48) as u8;
        let mid = seq![last] + rest;
        assert(dec_digits(n) =~= dec_digits(hi) + seq![last]);
        assert(b =~= dec_digits(hi) + mid);
        lemma_sp_digits_dec(hi, mid, acc);
        let lp = dec_digits(hi).len();
        let acc1 = acc * pow10(lp) + hi;
        assert(sp_digits(b, acc) == sp_digits(mid, acc1));
        assert(is_digit(mid[0]));
        assert(mid.skip(1) =~= rest);
        assert(sp_digits(mid, acc1) == sp_digits(rest, (acc1 * 10 + mid[0] - 48) as nat));
        assert(dec_digits(n).len() == lp + 1);
        assert(pow10(lp + 1) == 10 * pow10(lp));
        assert(hi * 10 + lo == n) by {
            vstd::arithmetic::div_mod::lemma_fundamental_div_mod(n as int, 10);
        }
        assert((acc * pow10(lp) + hi) * 10 + lo == acc * (10 * pow10(lp)) + (hi * 10 + lo))
            by (nonlinear_arith);
        assert(acc1 * 10 + mid[0] - 48 == acc * pow10((lp + 1) as nat) + n);
    }
}

/// Round-trip law for envelopes: the mathematical parse of the mathematical
/// encoding yields the original message kind, data and timestamp.
#[verifier::rlimit(80)]
pub proof fn lemma_envelope_round_trip(mt: MessageType, data: Seq<u8>, ts: u64)
    ensures
        sp_envelope(spec_enc_envelope(mt, data, ts)) == Some((mt, data, ts)),
{
    let b = spec_enc_envelope(mt, data, ts);
    let rest1 = lit_mtype(mt) + esc(data) + seq![34u8] + lit_ts() + dec_digits(ts as nat)
        + seq![125u8];
    assert(b =~= lit_head() + rest1);
    lemma_sp_lit_prefix(lit_head(), rest1);
    let rest2 = esc(data) + seq![34u8] + (lit_ts() + dec_digits(ts as nat) + seq![125u8]);
    assert(rest1 =~= lit_mtype(mt) + (esc(data) + seq![34u8] + lit_ts() + dec_digits(ts as nat)
        + seq![125u8]));
    match mt {
        MessageType::ShareAddr => {
            assert(rest1 =~= lit_share() + rest2);
            lemma_sp_lit_prefix(lit_share(), rest2);
        }
        MessageType::ReturnNodeAddrs => {
            assert(rest1 =~= lit_return() + rest2);
            lemma_sp_lit_prefix(lit_return(), rest2);
            // `ShareAddr...` is not a prefix: the first bytes differ.
            assert(rest1[0] == 82);
            assert(lit_share()[0] == 83);
            if lit_share().len() <= rest1.len() && rest1.take(lit_share().len() as int)
                == lit_share() {
                assert(rest1.take(lit_share().len() as int)[0] == rest1[0]);
                assert(false);
            }
            assert(sp_lit(rest1, lit_share()) is None);
        }
    }
    // The data string.
    let rest3 = lit_ts() + dec_digits(ts as nat) + seq![125u8];
    assert(rest2 =~= esc(data) + seq![34u8] + rest3);
    lemma_sp_str_esc(data, rest3);
    // The timestamp literal.
    let rest4 = dec_digits(ts as nat) + seq![125u8];
    assert(rest3 =~= lit_ts() + rest4);
    lemma_sp_lit_prefix(lit_ts(), rest4);
    // The digits.
    lemma_dec_digits_are_digits(ts as nat);
    assert(rest4[0] == dec_digits(ts as nat)[0]);
    assert(is_digit(rest4[0]));
    lemma_sp_digits_dec(ts as nat, seq![125u8], 0);
    assert(0 * pow10(dec_digits(ts as nat).len()) == 0) by (nonlinear_arith);
    assert(!is_digit(125u8));
    assert(sp_digits(seq![125u8], ts as nat) == ((ts as nat), seq![125u8]));
    assert(sp_digits(rest4, 0) == ((ts as nat), seq![125u8]));
    assert(sp_env_rest(mt, rest2) == Some((mt, data, ts)));
}

// ---------------------------------------------------------------------------
// Executable encoding
// ---------------------------------------------------------------------------

/// Appends the bytes of `{"mtype":"`.
fn push_lit_head(out: &mut Vec<u8>)
    ensures
        final(out)@ == old(out)@ + lit_head(),
{
    out.push(123);
    out.push(34);
    out.push(109);
    out.push(116);
    out.push(121);
    out.push(112);
    out.push(101);
    out.push(34);
    out.push(58);
    out.push(34);
    assert(out@ =~= old(out)@ + lit_head());
}

/// Appends the bytes of `ShareAddr","data":"`.
fn push_lit_share(out: &mut Vec<u8>)
    ensures
        final(out)@ == old(out)@ + lit_share(),
{
    out.push(83);
    out.push(104);
    out.push(97);
    out.push(114);
    out.push(101);
    out.push(65);
    out.push(100);
    out.push(100);
    out.push(114);
    out.push(34);
    out.push(44);
    out.push(34);
    out.push(100);
    out.push(97);
    out.push(116);
    out.push(97);
    out.push(34);
    out.push(58);
    out.push(34);
    assert(out@ =~= old(out)@ + lit_share());
}

/// Appends the bytes of `ReturnNodeAddrs","data":"`.
fn push_lit_return(out: &mut Vec<u8>)
    ensures
        final(out)@ == old(out)@ + lit_return(),
{
    out.push(82);
    out.push(101);
    out.push(116);
    out.push(117);
    out.push(114);
    out.push(110);
    out.push(78);
    out.push(111);
    out.push(100);
    out.push(101);
    out.push(65);
    out.push(100);
    out.push(100);
    out.push(114);
    out.push(115);
    out.push(34);
    out.push(44);
    out.push(34);
    out.push(100);
    out.push(97);
    out.push(116);
    out.push(97);
    out.push(34);
    out.push(58);
    out.push(34);
    assert(out@ =~= old(out)@ + lit_return());
}

/// Appends the bytes of `,"timestamp":`.
fn push_lit_ts(out: &mut Vec<u8>)
    ensures
        final(out)@ == old(out)@ + lit_ts(),
{
    out.push(44);
    out.push(34);
    out.push(116);
    out.push(105);
    out.push(109);
    out.push(101);
    out.push(115);
    out.push(116);
    out.push(97);
    out.push(109);
    out.push(112);
    out.push(34);
    out.push(58);
    assert(out@ =~= old(out)@ + lit_ts());
}

/// Escaping distributes over appending one byte at the end.
proof fn lemma_esc_snoc(t: Seq<u8>, c: u8)
    ensures
        esc(t + seq![c]) == esc(t) + esc_byte(c),
    decreases t.len(),
{
    let w = t + seq![c];
    if t.len() == 0 {
        assert(w =~= seq![c]);
        assert(w[0] == c);
        assert(w.skip(1) =~= Seq::<u8>::empty());
        assert(esc(w) == esc_byte(c) + esc(Seq::<u8>::empty()));
        assert(esc(w) =~= esc_byte(c));
        assert(esc(t) =~= Seq::<u8>::empty());
        assert(esc(t) + esc_byte(c) =~= esc_byte(c));
    } else {
        lemma_esc_snoc(t.skip(1), c);
        assert(w[0] == t[0]);
        assert(w.skip(1) =~= t.skip(1) + seq![c]);
        assert(esc(w) == esc_byte(t[0]) + (esc(t.skip(1)) + esc_byte(c)));
        assert(esc_byte(t[0]) + (esc(t.skip(1)) + esc_byte(c))
            =~= (esc_byte(t[0]) + esc(t.skip(1))) + esc_byte(c));
    }
}

/// Appends the escaped form of `s`.
pub(crate) fn push_esc(out: &mut Vec<u8>, s: &[u8])
    ensures
        final(out)@ == old(out)@ + esc(s@),
{
    let n = s.len();
    let mut i: usize = 0;
    while i < n
        invariant
            n == s@.len(),
            i <= n,
            out@ == old(out)@ + esc(s@.take(i as int)),
        decreases n - i,
    {
        let c = s[i];
        let ghost pre = out@;
        if c == 34 || c == 92 {
            out.push(92);
            out.push(c);
            assert(out@ =~= pre + esc_byte(c));
        } else {
            out.push(c);
            assert(out@ =~= pre + esc_byte(c));
        }
        proof {
            lemma_esc_snoc(s@.take(i as int), c);
            assert(s@.take(i as int) + seq![c] =~= s@.take(i + 1));
            assert(out@ =~= old(out)@ + esc(s@.take(i + 1)));
        }
        i += 1;
    }
    assert(s@.take(n as int) =~= s@);
}

/// Appends the decimal rendering of `n`.
pub(crate) fn push_u64(out: &mut Vec<u8>, n: u64)
    ensures
        final(out)@ == old(out)@ + dec_digits(n as nat),
{
    let mut tmp: Vec<u8> = Vec::new();
    let mut m = n;
    loop
        invariant_except_break
            (tmp@.len() == 0 && m == n) || (m > 0 && dec_digits(n as nat) == dec_digits(
                m as nat,
            ) + tmp@.reverse()),
        ensures
            dec_digits(n as nat) == tmp@.reverse(),
        decreases m,
    {
        let ghost pre = tmp@;
        let ghost m0 = m;
        let d = (m % 10) as u8 + 48;
        tmp.push(d);
        m = m / 10;
        proof {
            assert(d == ((m0 as nat) % 10 + 48) as u8);
            assert(tmp@ =~= pre + seq![d]);
            assert(tmp@.reverse() =~= seq![d] + pre.reverse());
            if pre.len() == 0 && m0 == n {
                assert(pre.reverse() =~= Seq::<u8>::empty());
                assert(dec_digits(n as nat) =~= dec_digits(m0 as nat) + pre.reverse());
            }
            assert(dec_digits(n as nat) == dec_digits(m0 as nat) + pre.reverse());
            if m0 >= 10 {
                assert(dec_digits(m0 as nat) == dec_digits((m0 as nat) / 10) + seq![d]);
                assert((dec_digits((m0 as nat) / 10) + seq![d]) + pre.reverse()
                    =~= dec_digits((m0 as nat) / 10) + (seq![d] + pre.reverse()));
                assert(dec_digits(n as nat) =~= dec_digits(m as nat) + tmp@.reverse());
            } else {
                assert(m == 0);
                assert((m0 as nat) % 10 == m0 as nat);
                assert(dec_digits(m0 as nat) =~= seq![d]);
                assert(seq![d] + pre.reverse() =~= tmp@.reverse());
                assert(dec_digits(n as nat) =~= tmp@.reverse());
            }
        }
        if m == 0 {
            break;
        }
    }
    assert(dec_digits(n as nat) =~= tmp@.reverse());
    let k = tmp.len();
    let mut j: usize = 0;
    while j < k
        invariant
            k == tmp@.len(),
            j <= k,
            out@ == old(out)@ + tmp@.reverse().take(j as int),
        decreases k - j,
    {
        out.push(tmp[k - 1 - j]);
        proof {
            assert(tmp@.reverse()[j as int] == tmp@[k - 1 - j]);
            assert(out@ =~= old(out)@ + tmp@.reverse().take(j + 1));
        }
        j += 1;
    }
    assert(tmp@.reverse().take(k as int) =~= tmp@.reverse());
}

/// Encodes an envelope into its wire bytes.
pub fn encode_envelope(e: &Envelope) -> (r: Vec<u8>)
    ensures
        r@ == spec_enc_envelope(e.mtype, e.data@, e.timestamp),
{
    let mut out: Vec<u8> = Vec::new();
    push_lit_head(&mut out);
    match e.mtype {
        MessageType::ShareAddr => push_lit_share(&mut out),
        MessageType::ReturnNodeAddrs => push_lit_return(&mut out),
    }
    push_esc(&mut out, e.data.as_slice());
    out.push(34);
    push_lit_ts(&mut out);
    push_u64(&mut out, e.timestamp);
    out.push(125);
    assert(out@ =~= spec_enc_envelope(e.mtype, e.data@, e.timestamp));
    out
}

// ---------------------------------------------------------------------------
// Executable parsing
// ---------------------------------------------------------------------------

/// Checks that `lit` stands at position `i` of `b` and steps past it.
pub(crate) fn parse_lit(b: &[u8], i: usize, lit: &[u8]) -> (r: Option<usize>)
    requires
        i <= b@.len(),
    ensures
        match r {
            Some(j) => i + lit@.len() == j && j <= b@.len() && sp_lit(b@.skip(i as int), lit@)
                == Some(b@.skip(j as int)),
            None => sp_lit(b@.skip(i as int), lit@) is None,
        },
{
    let n = lit.len();
    if n > b.len() - i {
        assert(b@.skip(i as int).len() < n);
        return None;
    }
    let mut k: usize = 0;
    while k < n
        invariant
            i + n <= b@.len(),
            i + n <= usize::MAX,
            n == lit@.len(),
            k <= n,
            forall|t: int| 0 <= t < k ==> b@[i + t] == lit@[t],
        decreases n - k,
    {
        if b[i + k] != lit[k] {
            assert(b@.skip(i as int).take(n as int)[k as int] == b@[i + k]);
            assert(b@.skip(i as int).take(n as int) != lit@);
            return None;
        }
        k += 1;
    }
    assert(b@.skip(i as int).take(n as int) =~= lit@);
    proof {
        lemma_skip_skip(b@, i as int, n as int);
    }
    Some(i + n)
}

/// Reads an escaped string field starting at position `i`, up to and
/// including its closing quote.
pub(crate) fn parse_str(b: &[u8], i: usize) -> (r: Option<(Vec<u8>, usize)>)
    requires
        i <= b@.len(),
    ensures
        match r {
            Some(p) => i < p.1 <= b@.len() && sp_str(b@.skip(i as int)) == Some(
                (p.0@, b@.skip(p.1 as int)),
            ),
            None => sp_str(b@.skip(i as int)) is None,
        },
{
    let mut acc: Vec<u8> = Vec::new();
    let mut k = i;
    loop
        invariant
            i <= k <= b@.len(),
            match sp_str(b@.skip(k as int)) {
                Some(p) => sp_str(b@.skip(i as int)) == Some((acc@ + p.0, p.1)),
                None => sp_str(b@.skip(i as int)) is None,
            },
        decreases b@.len() - k,
    {
        if k >= b.len() {
            assert(b@.skip(k as int).len() == 0);
            return None;
        }
        let c = b[k];
        assert(b@.skip(k as int)[0] == c);
        if c == 34 {
            proof {
                lemma_skip_skip(b@, k as int, 1);
                assert(sp_str(b@.skip(k as int)) == Some(
                    (Seq::<u8>::empty(), b@.skip(k + 1 as int)),
                ));
                assert(acc@ + Seq::<u8>::empty() =~= acc@);
            }
            return Some((acc, k + 1));
        }
        if c == 92 {
            if b.len() - k < 2 {
                assert(b@.skip(k as int).len() < 2);
                return None;
            }
            let c2 = b[k + 1];
            let ghost acc0 = acc@;
            acc.push(c2);
            proof {
                assert(b@.skip(k as int)[1] == c2);
                lemma_skip_skip(b@, k as int, 2);
                match sp_str(b@.skip(k + 2 as int)) {
                    Some(p) => {
                        assert(sp_str(b@.skip(k as int)) == Some((seq![c2] + p.0, p.1)));
                        assert(acc0 + (seq![c2] + p.0) =~= acc@ + p.0);
                    }
                    None => {
                        assert(sp_str(b@.skip(k as int)) is None);
                    }
                }
            }
            k += 2;
        } else {
            let ghost acc0 = acc@;
            acc.push(c);
            proof {
                lemma_skip_skip(b@, k as int, 1);
                match sp_str(b@.skip(k + 1 as int)) {
                    Some(p) => {
                        assert(sp_str(b@.skip(k as int)) == Some((seq![c] + p.0, p.1)));
                        assert(acc0 + (seq![c] + p.0) =~= acc@ + p.0);
                    }
                    None => {
                        assert(sp_str(b@.skip(k as int)) is None);
                    }
                }
            }
            k += 1;
        }
    }
}

/// The folded value of a digit run never falls below its accumulator.
proof fn lemma_sp_digits_ge(b: Seq<u8>, acc: nat)
    ensures
        sp_digits(b, acc).0 >= acc,
    decreases b.len(),
{
    if b.len() > 0 && is_digit(b[0]) {
        lemma_sp_digits_ge(b.skip(1), (acc * 10 + b[0] - 48) as nat);
    }
}

/// Reads a run of decimal digits starting at position `i` as a `u64`.
pub(crate) fn parse_u64(b: &[u8], i: usize) -> (r: Option<(u64, usize)>)
    requires
        i <= b@.len(),
    ensures
        match r {
            Some(p) => i < p.1 <= b@.len() && is_digit(b@[i as int]) && sp_digits(
                b@.skip(i as int),
                0,
            ) == (((p.0 as nat), b@.skip(p.1 as int))),
            None => i == b@.len() || !is_digit(b@[i as int]) || sp_digits(b@.skip(i as int), 0).0
                > u64::MAX,
        },
{
    if i >= b.len() {
        return None;
    }
    let c0 = b[i];
    if !(48 <= c0 && c0 <= 57) {
        return None;
    }
    let mut acc: u64 = (c0 - 48) as u64;
    let mut k = i + 1;
    proof {
        assert(b@.skip(i as int)[0] == c0);
        lemma_skip_skip(b@, i as int, 1);
        assert(sp_digits(b@.skip(i as int), 0) == sp_digits(b@.skip(i + 1 as int), acc as nat));
    }
    while k < b.len() && 48 <= b[k] && b[k] <= 57
        invariant
            i < k <= b@.len(),
            sp_digits(b@.skip(i as int), 0) == sp_digits(b@.skip(k as int), acc as nat),
        decreases b@.len() - k,
    {
        let d = b[k] - 48;
        proof {
            assert(b@.skip(k as int)[0] == b@[k as int]);
            lemma_skip_skip(b@, k as int, 1);
            assert(sp_digits(b@.skip(k as int), acc as nat) == sp_digits(
                b@.skip(k + 1 as int),
                (acc * 10 + d) as nat,
            ));
            vstd::arithmetic::div_mod::lemma_fundamental_div_mod(u64::MAX - d, 10);
        }
        if acc > (u64::MAX - (d as u64)) / 10 {
            proof {
                assert((acc * 10 + d) as nat > u64::MAX);
                lemma_sp_digits_ge(b@.skip(k + 1 as int), (acc * 10 + d) as nat);
                assert(sp_digits(b@.skip(i as int), 0).0 > u64::MAX);
            }
            return None;
        }
        assert(acc * 10 + d <= u64::MAX);
        acc = acc * 10 + (d as u64);
        k += 1;
    }
    proof {
        if k < b@.len() {
            assert(b@.skip(k as int)[0] == b@[k as int]);
            assert(!is_digit(b@.skip(k as int)[0]));
        } else {
            assert(b@.skip(k as int).len() == 0);
        }
        assert(sp_digits(b@.skip(k as int), acc as nat) == (((acc as nat), b@.skip(k as int))));
    }
    Some((acc, k))
}

/// The bytes of `{"mtype":"` as a value.
fn lit_head_vec() -> (v: Vec<u8>)
    ensures
        v@ == lit_head(),
{
    let mut v: Vec<u8> = Vec::new();
    push_lit_head(&mut v);
    assert(v@ =~= lit_head());
    v
}

/// The bytes of `ShareAddr","data":"` as a value.
fn lit_share_vec() -> (v: Vec<u8>)
    ensures
        v@ == lit_share(),
{
    let mut v: Vec<u8> = Vec::new();
    push_lit_share(&mut v);
    assert(v@ =~= lit_share());
    v
}

/// The bytes of `ReturnNodeAddrs","data":"` as a value.
fn lit_return_vec() -> (v: Vec<u8>)
    ensures
        v@ == lit_return(),
{
    let mut v: Vec<u8> = Vec::new();
    push_lit_return(&mut v);
    assert(v@ =~= lit_return());
    v
}

/// The bytes of `,"timestamp":` as a value.
fn lit_ts_vec() -> (v: Vec<u8>)
    ensures
        v@ == lit_ts(),
{
    let mut v: Vec<u8> = Vec::new();
    push_lit_ts(&mut v);
    assert(v@ =~= lit_ts());
    v
}

/// Decodes wire bytes into an envelope; exactly the payloads that the
/// mathematical parse accepts are accepted.
pub fn decode_envelope(b: &[u8]) -> (r: Result<Envelope, DecodeError>)
    ensures
        match r {
            Ok(e) => sp_envelope(b@) == Some((e.mtype, e.data@, e.timestamp)),
            Err(err) => sp_envelope(b@) is None && err == DecodeError::Malformed,
        },
{
    proof {
        assert(b@.skip(0) =~= b@);
    }
    let hv = lit_head_vec();
    let i1 = match parse_lit(b, 0, hv.as_slice()) {
        Some(j) => j,
        None => {
            return Err(DecodeError::Malformed);
        },
    };
    let sv = lit_share_vec();
    let rv = lit_return_vec();
    let (mt, i2) = match parse_lit(b, i1, sv.as_slice()) {
        Some(j) => (MessageType::ShareAddr, j),
        None => match parse_lit(b, i1, rv.as_slice()) {
            Some(j) => (MessageType::ReturnNodeAddrs, j),
            None => {
                return Err(DecodeError::Malformed);
            },
        },
    };
    let (data, i3) = match parse_str(b, i2) {
        Some(p) => p,
        None => {
            return Err(DecodeError::Malformed);
        },
    };
    let tv = lit_ts_vec();
    let i4 = match parse_lit(b, i3, tv.as_slice()) {
        Some(j) => j,
        None => {
            return Err(DecodeError::Malformed);
        },
    };
    let (ts, i5) = match parse_u64(b, i4) {
        Some(p) => p,
        None => {
            proof {
                let b4 = b@.skip(i4 as int);
                if i4 < b@.len() {
                    assert(b4[0] == b@[i4 as int]);
                }
            }
            return Err(DecodeError::Malformed);
        },
    };
    if b.len() - i5 == 1 && b[i5] == 125 {
        proof {
            assert(b@.skip(i5 as int) =~= seq![125u8]);
        }
        Ok(Envelope { mtype: mt, data, timestamp: ts })
    } else {
        proof {
            let b5 = b@.skip(i5 as int);
            if b5 == seq![125u8] {
                assert(b5.len() == 1);
                assert(b5[0] == b@[i5 as int]);
                assert(false);
            }
        }
        Err(DecodeError::Malformed)
    }
}

} // verus!
