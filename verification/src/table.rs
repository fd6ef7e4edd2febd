//! The registry of known peer addresses.
//!
//! A `PeerAddressTable` maps peer address strings (UTF-8 byte strings) to an
//! integer counter.  Keys are unique; inserting an address that is already
//! present never changes its counter.  The table travels on the wire as a
//! JSON-shaped object `{"addr":0,...}`; `enc_table` is the mathematical
//! encoding, `sp_table` the mathematical parse, and
//! `lemma_table_round_trip` proves that parsing a serialized table yields
//! the same entries.

use vstd::prelude::*;

use crate::bytes::bytes_eq;
use crate::codec::{
    dec_digits, esc, is_digit, lemma_dec_digits_are_digits, lemma_sp_digits_dec,
    lemma_sp_lit_prefix, lemma_sp_str_esc, parse_lit, parse_str, parse_u64, pow10, push_esc,
    push_u64, sp_digits, sp_lit, sp_str, DecodeError,
};

verus! {

/// One table entry: a peer address and its counter.
#[derive(Debug)]
pub struct AddrEntry {
    pub addr: Vec<u8>,
    pub counter: u64,
}

impl View for AddrEntry {
    type V = (Seq<u8>, u64);

    open spec fn view(&self) -> (Seq<u8>, u64) {
        (self.addr@, self.counter)
    }
}

/// The view of a sequence of entries: each entry as (address, counter).
pub open spec fn entries_view(v: Seq<AddrEntry>) -> Seq<(Seq<u8>, u64)> {
    v.map_values(|e: AddrEntry| e@)
}

/// No address occurs twice.
pub open spec fn unique_addrs(es: Seq<(Seq<u8>, u64)>) -> bool {
    forall|i: int, j: int| 0 <= i < j < es.len() ==> es[i].0 != es[j].0
}

/// Whether some entry carries address `k`.
pub open spec fn table_contains(es: Seq<(Seq<u8>, u64)>, k: Seq<u8>) -> bool {
    exists|i: int| 0 <= i < es.len() && es[i].0 == k
}

/// The counter stored for `k`, taking the first entry that matches.
pub open spec fn table_lookup(es: Seq<(Seq<u8>, u64)>, k: Seq<u8>) -> Option<u64>
    decreases es.len(),
{
    if es.len() == 0 {
        None
    } else if es[0].0 == k {
        Some(es[0].1)
    } else {
        table_lookup(es.skip(1), k)
    }
}

// ---------------------------------------------------------------------------
// Wire format of a table
// ---------------------------------------------------------------------------

/// One entry on the wire: `"addr":counter`.
pub open spec fn enc_entry(k: Seq<u8>, c: u64) -> Seq<u8> {
    seq![34u8] + esc(k) + seq![34u8, 58u8] + dec_digits(c as nat)
}

/// Second and later entries, each preceded by a comma.
pub open spec fn enc_rest(es: Seq<(Seq<u8>, u64)>) -> Seq<u8>
    decreases es.len(),
{
    if es.len() == 0 {
        Seq::empty()
    } else {
        seq![44u8] + enc_entry(es[0].0, es[0].1) + enc_rest(es.skip(1))
    }
}

/// All entries, comma-separated.
pub open spec fn enc_entries(es: Seq<(Seq<u8>, u64)>) -> Seq<u8> {
    if es.len() == 0 {
        Seq::empty()
    } else {
        enc_entry(es[0].0, es[0].1) + enc_rest(es.skip(1))
    }
}

/// The full wire encoding of a table.
pub open spec fn enc_table(es: Seq<(Seq<u8>, u64)>) -> Seq<u8> {
    seq![123u8] + enc_entries(es) + seq![125u8]
}

/// The mathematical parse of a non-empty entry list followed by the closing
/// brace.  Mirrors `enc_entries(es) + "}"`.
pub open spec fn sp_entries(b: Seq<u8>) -> Option<Seq<(Seq<u8>, u64)>>
    decreases b.len(),
{
    match sp_lit(b, seq![34u8]) {
        None => None,
        Some(b1) => match sp_str(b1) {
            None => None,
            Some(p) => match sp_lit(p.1, seq![58u8]) {
                None => None,
                Some(b3) => if b3.len() > 0 && is_digit(b3[0]) {
                    let (v, b4) = sp_digits(b3, 0);
                    if v > u64::MAX {
                        None
                    } else if b4 == seq![125u8] {
                        Some(seq![(p.0, v as u64)])
                    } else {
                        match sp_lit(b4, seq![44u8]) {
                            None => None,
                            Some(b5) => if b5.len() < b.len() {
                                match sp_entries(b5) {
                                    None => None,
                                    Some(es) => Some(seq![(p.0, v as u64)] + es),
                                }
                            } else {
                                None
                            },
                        }
                    }
                } else {
                    None
                },
            },
        },
    }
}

/// The mathematical parse of a whole table.
pub open spec fn sp_table(b: Seq<u8>) -> Option<Seq<(Seq<u8>, u64)>> {
    match sp_lit(b, seq![123u8]) {
        None => None,
        Some(b1) => if b1 == seq![125u8] {
            Some(Seq::empty())
        } else {
            sp_entries(b1)
        },
    }
}

// ---------------------------------------------------------------------------
// Round-trip law
// ---------------------------------------------------------------------------

/// Parsing the encoding of a non-empty entry list yields the list back.
proof fn lemma_sp_entries_enc(es: Seq<(Seq<u8>, u64)>)
    requires
        es.len() >= 1,
    ensures
        sp_entries(enc_entries(es) + seq![125u8]) == Some(es),
    decreases es.len(),
{
    let k0 = es[0].0;
    let c0 = es[0].1;
    let b = enc_entries(es) + seq![125u8];
    let tail = enc_rest(es.skip(1)) + seq![125u8];
    let b3 = dec_digits(c0 as nat) + tail;
    let after_str = seq![58u8] + b3;
    let b1t = esc(k0) + seq![34u8] + after_str;
    assert(b =~= seq![34u8] + b1t);
    lemma_sp_lit_prefix(seq![34u8], b1t);
    assert(b1t =~= esc(k0) + seq![34u8] + after_str);
    lemma_sp_str_esc(k0, after_str);
    assert(after_str =~= seq![58u8] + b3);
    lemma_sp_lit_prefix(seq![58u8], b3);
    lemma_dec_digits_are_digits(c0 as nat);
    assert(b3[0] == dec_digits(c0 as nat)[0]);
    assert(is_digit(b3[0]));
    lemma_sp_digits_dec(c0 as nat, tail, 0);
    assert(0 * pow10(dec_digits(c0 as nat).len()) == 0) by (nonlinear_arith);
    assert(sp_digits(b3, 0) == sp_digits(tail, c0 as nat));
    if es.len() == 1 {
        assert(es.skip(1) =~= Seq::<(Seq<u8>, u64)>::empty());
        assert(enc_rest(es.skip(1)) =~= Seq::<u8>::empty());
        assert(tail =~= seq![125u8]);
        assert(!is_digit(tail[0]));
        assert(sp_digits(tail, c0 as nat) == (((c0 as nat), tail)));
        assert(seq![(k0, c0)] =~= es);
        assert(sp_entries(b) == Some(es));
    } else {
        let es1 = es.skip(1);
        let b5 = enc_entries(es1) + seq![125u8];
        assert(es1.len() >= 1);
        assert(tail =~= seq![44u8] + b5);
        assert(tail[0] == 44);
        assert(!is_digit(tail[0]));
        assert(sp_digits(tail, c0 as nat) == (((c0 as nat), tail)));
        assert(enc_entries(es1).len() >= 1);
        assert(tail.len() >= 3);
        assert(tail != seq![125u8]);
        lemma_sp_lit_prefix(seq![44u8], b5);
        assert(b5.len() < b.len());
        lemma_sp_entries_enc(es1);
        assert(seq![(k0, c0)] + es1 =~= es);
        assert(sp_entries(b) == Some(es));
    }
}

/// Round-trip law for tables: the mathematical parse of the mathematical
/// encoding yields the original entries, whatever they hold.
pub proof fn lemma_table_round_trip(es: Seq<(Seq<u8>, u64)>)
    ensures
        sp_table(enc_table(es)) == Some(es),
{
    let b = enc_table(es);
    let b1t = enc_entries(es) + seq![125u8];
    assert(b =~= seq![123u8] + b1t);
    lemma_sp_lit_prefix(seq![123u8], b1t);
    if es.len() == 0 {
        assert(enc_entries(es) =~= Seq::<u8>::empty());
        assert(b1t =~= seq![125u8]);
        assert(es =~= Seq::<(Seq<u8>, u64)>::empty());
    } else {
        assert(enc_entries(es).len() >= 1);
        assert(b1t != seq![125u8]);
        lemma_sp_entries_enc(es);
    }
}

// ---------------------------------------------------------------------------
// The table itself
// ---------------------------------------------------------------------------

/// The in-memory registry of known peer addresses.
#[derive(Debug)]
pub struct PeerAddressTable {
    entries: Vec<AddrEntry>,
}

impl View for PeerAddressTable {
    type V = Seq<(Seq<u8>, u64)>;

    closed spec fn view(&self) -> Seq<(Seq<u8>, u64)> {
        entries_view(self.entries@)
    }
}

impl PeerAddressTable {
    /// Address keys are unique.
    pub open spec fn wf(self) -> bool {
        unique_addrs(self@)
    }

    /// An empty table.
    pub fn new() -> (t: Self)
        ensures
            t@ == Seq::<(Seq<u8>, u64)>::empty(),
            t.wf(),
    {
        let t = PeerAddressTable { entries: Vec::new() };
        assert(t@ =~= Seq::<(Seq<u8>, u64)>::empty());
        t
    }

    /// A table holding only the node's own listening address, counted once.
    pub fn seed(own_addr: Vec<u8>) -> (t: Self)
        ensures
            t@ == seq![(own_addr@, 1u64)],
            t.wf(),
    {
        let mut entries: Vec<AddrEntry> = Vec::new();
        entries.push(AddrEntry { addr: own_addr, counter: 1 });
        let t = PeerAddressTable { entries };
        assert(t@ =~= seq![(t.entries@[0].addr@, 1u64)]);
        t
    }

    /// The number of known addresses.
    pub fn len(&self) -> (n: usize)
        ensures
            n == self@.len(),
    {
        self.entries.len()
    }

    /// Whether `addr` is already known.
    pub fn contains_addr(&self, addr: &[u8]) -> (r: bool)
        ensures
            r == table_contains(self@, addr@),
    {
        let n = self.entries.len();
        let mut i: usize = 0;
        while i < n
            invariant
                n == self@.len(),
                i <= n,
                forall|t: int| 0 <= t < i ==> self@[t].0 != addr@,
        decreases n - i,
        {
            assert(self@[i as int].0 == self.entries@[i as int].addr@);
            if bytes_eq(self.entries[i].addr.as_slice(), addr) {
                return true;
            }
            i += 1;
        }
        false
    }

    /// The counter stored for `addr`, if the address is known.
    pub fn counter_of(&self, addr: &[u8]) -> (r: Option<u64>)
        ensures
            r == table_lookup(self@, addr@),
    {
        let n = self.entries.len();
        let mut i: usize = 0;
        assert(self@.skip(0) =~= self@);
        while i < n
            invariant
                n == self@.len(),
                i <= n,
                table_lookup(self@, addr@) == table_lookup(self@.skip(i as int), addr@),
            decreases n - i,
        {
            assert(self@.skip(i as int)[0] == self@[i as int]);
            assert(self@[i as int] == (self.entries@[i as int].addr@, self.entries@[i as int].counter));
            if bytes_eq(self.entries[i].addr.as_slice(), addr) {
                return Some(self.entries[i].counter);
            }
            proof {
                assert(self@.skip(i as int).skip(1) =~= self@.skip(i + 1));
            }
            i += 1;
        }
        assert(self@.skip(n as int).len() == 0);
        None
    }

    /// Records `addr` with a fresh counter of zero, unless it is already
    /// known, in which case nothing changes at all.
    pub fn insert_if_absent(&mut self, addr: Vec<u8>) -> (added: bool)
        requires
            old(self).wf(),
        ensures
            final(self).wf(),
            table_contains(old(self)@, addr@) ==> !added && final(self)@ == old(self)@,
            !table_contains(old(self)@, addr@) ==> added && final(self)@ == old(self)@
                + seq![(addr@, 0u64)],
    {
        if self.contains_addr(addr.as_slice()) {
            return false;
        }
        self.entries.push(AddrEntry { addr, counter: 0 });
        proof {
            assert(self@ =~= old(self)@ + seq![(self.entries@.last().addr@, 0u64)]);
            assert forall|i: int, j: int| 0 <= i < j < self@.len() implies self@[i].0
                != self@[j].0 by {
                if j < self@.len() - 1 {
                } else {
                    assert(self@[j].0 == self.entries@.last().addr@);
                }
            }
        }
        true
    }

    /// Renders the table in its wire format, entries in table order.
    pub fn serialize(&self) -> (r: Vec<u8>)
        ensures
            r@ == enc_table(self@),
    {
        let mut out: Vec<u8> = Vec::new();
        out.push(123);
        assert(out@ =~= seq![123u8]);
        let n = self.entries.len();
        let mut i: usize = 0;
        while i < n
            invariant
                n == self@.len(),
                n == self.entries@.len(),
                i <= n,
                i == 0 ==> out@ == seq![123u8],
                i > 0 ==> out@ == seq![123u8] + enc_entries(self@.take(i as int)),
            decreases n - i,
        {
            let ghost pre = out@;
            let ghost ev = self@[i as int];
            assert(ev == (self.entries@[i as int].addr@, self.entries@[i as int].counter));
            if i > 0 {
                out.push(44);
            }
            out.push(34);
            push_esc(&mut out, self.entries[i].addr.as_slice());
            out.push(34);
            out.push(58);
            push_u64(&mut out, self.entries[i].counter);
            proof {
                if i == 0 {
                    assert(out@ =~= seq![123u8] + enc_entry(ev.0, ev.1));
                    assert(self@.take(1)[0] == ev);
                    assert(self@.take(1).skip(1) =~= Seq::<(Seq<u8>, u64)>::empty());
                    assert(enc_entries(self@.take(1)) == enc_entry(ev.0, ev.1) + enc_rest(
                        self@.take(1).skip(1),
                    ));
                    assert(enc_entries(self@.take(1)) =~= enc_entry(ev.0, ev.1));
                    assert(out@ =~= seq![123u8] + enc_entries(self@.take(i + 1)));
                } else {
                    assert(out@ =~= pre + (seq![44u8] + enc_entry(ev.0, ev.1)));
                    lemma_enc_entries_snoc(self@.take(i as int), ev);
                    assert(self@.take(i as int) + seq![ev] =~= self@.take(i + 1));
                    assert(out@ =~= seq![123u8] + enc_entries(self@.take(i + 1)));
                }
            }
            i += 1;
        }
        out.push(125);
        proof {
            if n == 0 {
                assert(self@.len() == 0);
                assert(enc_entries(self@) =~= Seq::<u8>::empty());
                assert(out@ =~= enc_table(self@));
            } else {
                assert(self@.take(n as int) =~= self@);
                assert(out@ =~= enc_table(self@));
            }
        }
        out
    }

    /// Reads a table back from its wire format.  Succeeds exactly on the
    /// payloads that the mathematical parse accepts with no duplicate
    /// address; duplicates are reported apart from malformed input.
    pub fn deserialize(b: &[u8]) -> (r: Result<PeerAddressTable, DecodeError>)
        ensures
            match r {
                Ok(t) => t.wf() && sp_table(b@) == Some(t@),
                Err(DecodeError::Malformed) => sp_table(b@) is None,
                Err(DecodeError::DuplicateAddr) => match sp_table(b@) {
                    Some(es) => !unique_addrs(es),
                    None => false,
                },
            },
    {
        proof {
            assert(b@.skip(0) =~= b@);
        }
        let obrace = byte_vec(123);
        let i1 = match parse_lit(b, 0, obrace.as_slice()) {
            Some(j) => j,
            None => {
                return Err(DecodeError::Malformed);
            },
        };
        if b.len() - i1 == 1 && b[i1] == 125 {
            proof {
                assert(b@.skip(i1 as int) =~= seq![125u8]);
            }
            let t = PeerAddressTable { entries: Vec::new() };
            assert(t@ =~= Seq::<(Seq<u8>, u64)>::empty());
            return Ok(t);
        }
        proof {
            if b@.skip(i1 as int) == seq![125u8] {
                assert(b@.skip(i1 as int).len() == 1);
                assert(b@.skip(i1 as int)[0] == b@[i1 as int]);
                assert(false);
            }
        }
        let quote = byte_vec(34);
        let colon = byte_vec(58);
        let comma = byte_vec(44);
        let mut entries: Vec<AddrEntry> = Vec::new();
        let mut i = i1;
        assert(entries_view(entries@) =~= Seq::<(Seq<u8>, u64)>::empty());
        loop
            invariant_except_break
                i1 <= i <= b@.len(),
                quote@ == seq![34u8],
                colon@ == seq![58u8],
                comma@ == seq![44u8],
                sp_lit(b@, seq![123u8]) == Some(b@.skip(i1 as int)),
                b@.skip(i1 as int) != seq![125u8],
                match sp_entries(b@.skip(i as int)) {
                    Some(es) => sp_entries(b@.skip(i1 as int)) == Some(
                        entries_view(entries@) + es,
                    ),
                    None => sp_entries(b@.skip(i1 as int)) is None,
                },
            ensures
                sp_lit(b@, seq![123u8]) == Some(b@.skip(i1 as int)),
                b@.skip(i1 as int) != seq![125u8],
                sp_entries(b@.skip(i1 as int)) == Some(entries_view(entries@)),
            decreases b@.len() - i,
        {
            let j1 = match parse_lit(b, i, quote.as_slice()) {
                Some(j) => j,
                None => {
                    return Err(DecodeError::Malformed);
                },
            };
            let (key, j2) = match parse_str(b, j1) {
                Some(p) => p,
                None => {
                    return Err(DecodeError::Malformed);
                },
            };
            let j3 = match parse_lit(b, j2, colon.as_slice()) {
                Some(j) => j,
                None => {
                    return Err(DecodeError::Malformed);
                },
            };
            let (v, j4) = match parse_u64(b, j3) {
                Some(p) => p,
                None => {
                    proof {
                        if j3 < b@.len() {
                            assert(b@.skip(j3 as int)[0] == b@[j3 as int]);
                        } else {
                            assert(b@.skip(j3 as int).len() == 0);
                        }
                    }
                    return Err(DecodeError::Malformed);
                },
            };
            assert(b@.skip(j3 as int)[0] == b@[j3 as int]);
            let ghost entry = (key@, v);
            let ghost pre_entries = entries@;
            entries.push(AddrEntry { addr: key, counter: v });
            proof {
                assert(entries_view(entries@) =~= entries_view(pre_entries) + seq![entry]);
            }
            if b.len() - j4 == 1 && b[j4] == 125 {
                proof {
                    assert(b@.skip(j4 as int) =~= seq![125u8]);
                    assert(sp_entries(b@.skip(i as int)) == Some(seq![entry]));
                    assert(entries_view(pre_entries) + seq![entry] =~= entries_view(entries@));
                }
                break;
            }
            proof {
                if b@.skip(j4 as int) == seq![125u8] {
                    assert(b@.skip(j4 as int).len() == 1);
                    assert(b@.skip(j4 as int)[0] == b@[j4 as int]);
                    assert(false);
                }
            }
            let j5 = match parse_lit(b, j4, comma.as_slice()) {
                Some(j) => j,
                None => {
                    return Err(DecodeError::Malformed);
                },
            };
            proof {
                assert(j5 > i);
                assert(b@.skip(j5 as int).len() < b@.skip(i as int).len());
                match sp_entries(b@.skip(j5 as int)) {
                    Some(es) => {
                        assert(sp_entries(b@.skip(i as int)) == Some(seq![entry] + es));
                        assert(entries_view(pre_entries) + (seq![entry] + es) =~= entries_view(
                            entries@,
                        ) + es);
                    }
                    None => {
                        assert(sp_entries(b@.skip(i as int)) is None);
                    }
                }
            }
            i = j5;
        }
        let n = entries.len();
        let ghost es = entries_view(entries@);
        assert(sp_table(b@) == Some(es));
        let mut x: usize = 0;
        while x < n
            invariant
                n == entries@.len(),
                x <= n,
                es == entries_view(entries@),
                es.len() == n,
                sp_table(b@) == Some(es),
                forall|p: int, q: int| 0 <= p < q < n && p < x ==> es[p].0 != es[q].0,
            decreases n - x,
        {
            let mut y = x + 1;
            while y < n
                invariant
                    n == entries@.len(),
                    x < y <= n,
                    x < n,
                    es == entries_view(entries@),
                    es.len() == n,
                    sp_table(b@) == Some(es),
                    forall|q: int| x < q < y ==> es[x as int].0 != es[q].0,
                decreases n - y,
            {
                assert(es[x as int].0 == entries@[x as int].addr@);
                assert(es[y as int].0 == entries@[y as int].addr@);
                if bytes_eq(entries[x].addr.as_slice(), entries[y].addr.as_slice()) {
                    assert(!unique_addrs(es));
                    return Err(DecodeError::DuplicateAddr);
                }
                y += 1;
            }
            x += 1;
        }
        assert(unique_addrs(es));
        let t = PeerAddressTable { entries };
        assert(t@ == es);
        Ok(t)
    }
}

/// A one-byte literal as a value.
fn byte_vec(c: u8) -> (v: Vec<u8>)
    ensures
        v@ == seq![c],
{
    let mut v: Vec<u8> = Vec::new();
    v.push(c);
    assert(v@ =~= seq![c]);
    v
}

/// Appending one entry to a comma-prefixed run appends its rendering.
proof fn lemma_enc_rest_snoc(t: Seq<(Seq<u8>, u64)>, e: (Seq<u8>, u64))
    ensures
        enc_rest(t + seq![e]) == enc_rest(t) + (seq![44u8] + enc_entry(e.0, e.1)),
    decreases t.len(),
{
    let w = t + seq![e];
    if t.len() == 0 {
        assert(w =~= seq![e]);
        assert(w[0] == e);
        assert(w.skip(1) =~= Seq::<(Seq<u8>, u64)>::empty());
        assert(enc_rest(w.skip(1)) =~= Seq::<u8>::empty());
        assert(enc_rest(w) == seq![44u8] + enc_entry(e.0, e.1) + enc_rest(w.skip(1)));
        assert(enc_rest(t) =~= Seq::<u8>::empty());
        assert(enc_rest(w) =~= enc_rest(t) + (seq![44u8] + enc_entry(e.0, e.1)));
    } else {
        lemma_enc_rest_snoc(t.skip(1), e);
        assert(w[0] == t[0]);
        assert(w.skip(1) =~= t.skip(1) + seq![e]);
        assert(enc_rest(w) == seq![44u8] + enc_entry(t[0].0, t[0].1) + (enc_rest(t.skip(1))
            + (seq![44u8] + enc_entry(e.0, e.1))));
        assert(enc_rest(w) =~= (seq![44u8] + enc_entry(t[0].0, t[0].1) + enc_rest(t.skip(1)))
            + (seq![44u8] + enc_entry(e.0, e.1)));
    }
}

/// Appending one entry to a non-empty entry list appends a comma and its
/// rendering.
proof fn lemma_enc_entries_snoc(t: Seq<(Seq<u8>, u64)>, e: (Seq<u8>, u64))
    requires
        t.len() >= 1,
    ensures
        enc_entries(t + seq![e]) == enc_entries(t) + (seq![44u8] + enc_entry(e.0, e.1)),
{
    let w = t + seq![e];
    assert(w[0] == t[0]);
    assert(w.skip(1) =~= t.skip(1) + seq![e]);
    lemma_enc_rest_snoc(t.skip(1), e);
    assert(enc_entries(w) == enc_entry(t[0].0, t[0].1) + (enc_rest(t.skip(1)) + (seq![44u8]
        + enc_entry(e.0, e.1))));
    assert(enc_entries(w) =~= (enc_entry(t[0].0, t[0].1) + enc_rest(t.skip(1))) + (seq![44u8]
        + enc_entry(e.0, e.1)));
}

} // verus!
