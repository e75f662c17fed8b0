//! Wire codec for the three payload shapes.
//!
//! Each payload is carried as the entire body of one QUIC unidirectional
//! stream, so no outer framing is needed: stream end is message end. All
//! integers are little-endian; variable-length fields carry a length
//! prefix; sums carry a tag byte.
//!
//! The format is first written down as spec-level encoding and decoding
//! functions over byte sequences; the executable encoder and decoder are
//! proved to match them exactly, and decoding an encoding is proved to give
//! the message back.

use vstd::prelude::*;
use crate::addr::{Addr, AddrV, Ip, IpV};
use crate::client::{Event, EventV, Message, Server, ServerV};
use crate::game::Hello;

verus! {

broadcast use vstd::array::group_array_axioms;

/// Decoding failure: the body cannot be decoded, a tag is unknown, a length
/// prefix exceeds the remaining input, or bytes trail the message.
#[derive(Clone, Copy, Debug, PartialEq, Eq, Structural)]
pub enum CodecError {
    Malformed,
}

// ---------------------------------------------------------------------------
// Little-endian integers
// ---------------------------------------------------------------------------

/// The two little-endian bytes of a 16-bit integer.
pub open spec fn u16_le(x: u16) -> Seq<u8> {
    seq![(x & 0xff) as u8, ((x >> 8) & 0xff) as u8]
}

/// The eight little-endian bytes of a 64-bit integer.
pub open spec fn u64_le(x: u64) -> Seq<u8> {
    seq![
        (x & 0xff) as u8,
        ((x >> 8) & 0xff) as u8,
        ((x >> 16) & 0xff) as u8,
        ((x >> 24) & 0xff) as u8,
        ((x >> 32) & 0xff) as u8,
        ((x >> 40) & 0xff) as u8,
        ((x >> 48) & 0xff) as u8,
        ((x >> 56) & 0xff) as u8,
    ]
}

/// The 16-bit integer with the given little-endian bytes.
pub open spec fn le16(b0: u8, b1: u8) -> u16 {
    (b0 as u16) | ((b1 as u16) << 8)
}

/// The 64-bit integer with the given little-endian bytes.
pub open spec fn le64(b0: u8, b1: u8, b2: u8, b3: u8, b4: u8, b5: u8, b6: u8, b7: u8) -> u64 {
    (b0 as u64) | ((b1 as u64) << 8) | ((b2 as u64) << 16) | ((b3 as u64) << 24)
        | ((b4 as u64) << 32) | ((b5 as u64) << 40) | ((b6 as u64) << 48) | ((b7 as u64) << 56)
}

/// Reading back the two little-endian bytes of `x` gives `x`.
pub proof fn lemma_le16_roundtrip(x: u16)
    ensures
        le16(u16_le(x)[0], u16_le(x)[1]) == x,
{
    assert(((x & 0xff) as u8 as u16) | ((((x >> 8) & 0xff) as u8 as u16) << 8) == x)
        by (bit_vector);
}

/// Any two bytes are the little-endian bytes of the integer they read as.
pub proof fn lemma_le16_bytes(b0: u8, b1: u8)
    ensures
        u16_le(le16(b0, b1)) =~= seq![b0, b1],
{
    let x = le16(b0, b1);
    assert((((b0 as u16) | ((b1 as u16) << 8)) & 0xff) as u8 == b0) by (bit_vector);
    assert(((((b0 as u16) | ((b1 as u16) << 8)) >> 8) & 0xff) as u8 == b1) by (bit_vector);
}

/// Reading back the eight little-endian bytes of `x` gives `x`.
pub proof fn lemma_le64_roundtrip(x: u64)
    ensures
        le64(
            u64_le(x)[0],
            u64_le(x)[1],
            u64_le(x)[2],
            u64_le(x)[3],
            u64_le(x)[4],
            u64_le(x)[5],
            u64_le(x)[6],
            u64_le(x)[7],
        ) == x,
{
    assert(((x & 0xff) as u8 as u64) | ((((x >> 8) & 0xff) as u8 as u64) << 8)
        | ((((x >> 16) & 0xff) as u8 as u64) << 16) | ((((x >> 24) & 0xff) as u8 as u64) << 24)
        | ((((x >> 32) & 0xff) as u8 as u64) << 32) | ((((x >> 40) & 0xff) as u8 as u64) << 40)
        | ((((x >> 48) & 0xff) as u8 as u64) << 48) | ((((x >> 56) & 0xff) as u8 as u64) << 56)
        == x) by (bit_vector);
}

/// Any eight bytes are the little-endian bytes of the integer they read as.
pub proof fn lemma_le64_bytes(b0: u8, b1: u8, b2: u8, b3: u8, b4: u8, b5: u8, b6: u8, b7: u8)
    ensures
        u64_le(le64(b0, b1, b2, b3, b4, b5, b6, b7)) =~= seq![b0, b1, b2, b3, b4, b5, b6, b7],
{
    let x = le64(b0, b1, b2, b3, b4, b5, b6, b7);
    assert({
        let y = (b0 as u64) | ((b1 as u64) << 8) | ((b2 as u64) << 16) | ((b3 as u64) << 24)
            | ((b4 as u64) << 32) | ((b5 as u64) << 40) | ((b6 as u64) << 48)
            | ((b7 as u64) << 56);
        (y & 0xff) as u8 == b0 && ((y >> 8) & 0xff) as u8 == b1 && ((y >> 16) & 0xff) as u8 == b2
            && ((y >> 24) & 0xff) as u8 == b3 && ((y >> 32) & 0xff) as u8 == b4
            && ((y >> 40) & 0xff) as u8 == b5 && ((y >> 48) & 0xff) as u8 == b6
            && ((y >> 56) & 0xff) as u8 == b7
    }) by (bit_vector);
}

/// The 64-bit length prefix at the head of `b`, if `b` is long enough.
pub open spec fn dec_u64(b: Seq<u8>) -> Option<(u64, Seq<u8>)> {
    if b.len() >= 8 {
        Some((le64(b[0], b[1], b[2], b[3], b[4], b[5], b[6], b[7]), b.skip(8)))
    } else {
        None
    }
}

/// Decoding the little-endian bytes of `x`, followed by anything, gives `x`
/// and the rest.
pub proof fn lemma_dec_u64_enc(x: u64, rest: Seq<u8>)
    ensures
        dec_u64(u64_le(x) + rest) == Some((x, rest)),
{
    let b = u64_le(x) + rest;
    lemma_le64_roundtrip(x);
    assert(b.skip(8) =~= rest);
}

// ---------------------------------------------------------------------------
// Addresses
// ---------------------------------------------------------------------------

/// The encoding of an IP: a family tag byte, then the octets.
pub open spec fn enc_ip(ip: IpV) -> Seq<u8> {
    seq![if ip.v4 { 0u8 } else { 1u8 }] + ip.octets
}

/// The encoding of an address: the IP, then the port.
pub open spec fn enc_addr(a: AddrV) -> Seq<u8> {
    enc_ip(a.ip) + u16_le(a.port)
}

/// The address at the head of `b`, and what follows it.
pub open spec fn dec_addr(b: Seq<u8>) -> Option<(AddrV, Seq<u8>)> {
    if b.len() >= 1 && b[0] == 0 {
        if b.len() >= 7 {
            Some((
                AddrV { ip: IpV { v4: true, octets: b.subrange(1, 5) }, port: le16(b[5], b[6]) },
                b.skip(7),
            ))
        } else {
            None
        }
    } else if b.len() >= 1 && b[0] == 1 {
        if b.len() >= 19 {
            Some((
                AddrV { ip: IpV { v4: false, octets: b.subrange(1, 17) }, port: le16(b[17], b[18]) },
                b.skip(19),
            ))
        } else {
            None
        }
    } else {
        None
    }
}

/// Decoding an encoded address, followed by anything, gives the address and
/// the rest.
pub proof fn lemma_dec_addr_enc(a: AddrV, rest: Seq<u8>)
    requires
        a.wf(),
    ensures
        dec_addr(enc_addr(a) + rest) == Some((a, rest)),
{
    let b = enc_addr(a) + rest;
    lemma_le16_roundtrip(a.port);
    if a.ip.v4 {
        assert(b.subrange(1, 5) =~= a.ip.octets);
        assert(b[5] == u16_le(a.port)[0] && b[6] == u16_le(a.port)[1]);
        assert(b.skip(7) =~= rest);
        assert(dec_addr(b) == Some((a, rest)));
    } else {
        assert(b.subrange(1, 17) =~= a.ip.octets);
        assert(b[17] == u16_le(a.port)[0] && b[18] == u16_le(a.port)[1]);
        assert(b.skip(19) =~= rest);
        assert(dec_addr(b) == Some((a, rest)));
    }
}

// ---------------------------------------------------------------------------
// Events and deltas
// ---------------------------------------------------------------------------

/// The encoding of an event: a tag byte, and for an update the address,
/// a length prefix and the state bytes.
pub open spec fn enc_event(e: EventV) -> Seq<u8> {
    match e {
        EventV::Shutdown => seq![0u8],
        EventV::Update(a, s) => seq![1u8] + enc_addr(a) + u64_le(s.len() as u64) + s,
    }
}

/// What it takes for an event to be encodable: a well-formed address and
/// state bytes whose length fits its prefix.
pub open spec fn event_wf(e: EventV) -> bool {
    e matches EventV::Update(a, s) ==> a.wf() && s.len() <= u64::MAX
}

/// The event at the head of `b`, and what follows it.
pub open spec fn dec_event(b: Seq<u8>) -> Option<(EventV, Seq<u8>)> {
    if b.len() >= 1 && b[0] == 0 {
        Some((EventV::Shutdown, b.skip(1)))
    } else if b.len() >= 1 && b[0] == 1 {
        match dec_addr(b.skip(1)) {
            Some((a, r1)) => match dec_u64(r1) {
                Some((n, r2)) => if n <= r2.len() {
                    Some((EventV::Update(a, r2.subrange(0, n as int)), r2.skip(n as int)))
                } else {
                    None
                },
                None => None,
            },
            None => None,
        }
    } else {
        None
    }
}

/// Decoding an encoded event, followed by anything, gives the event and the
/// rest.
pub proof fn lemma_dec_event_enc(e: EventV, rest: Seq<u8>)
    requires
        event_wf(e),
    ensures
        dec_event(enc_event(e) + rest) == Some((e, rest)),
{
    let b = enc_event(e) + rest;
    match e {
        EventV::Shutdown => {
            assert(b.skip(1) =~= rest);
        }
        EventV::Update(a, s) => {
            let n = s.len() as u64;
            assert(b[0] == 1);
            assert(b.skip(1) =~= enc_addr(a) + (u64_le(n) + s + rest));
            lemma_dec_addr_enc(a, u64_le(n) + s + rest);
            assert(u64_le(n) + s + rest =~= u64_le(n) + (s + rest));
            lemma_dec_u64_enc(n, s + rest);
            assert((s + rest).subrange(0, n as int) =~= s);
            assert((s + rest).skip(n as int) =~= rest);
        }
    }
}

/// The encoding of one per-server delta: the id, then the event.
pub open spec fn enc_server(d: ServerV) -> Seq<u8> {
    u64_le(d.id) + enc_event(d.event)
}

/// The delta at the head of `b`, and what follows it.
pub open spec fn dec_server(b: Seq<u8>) -> Option<(ServerV, Seq<u8>)> {
    match dec_u64(b) {
        Some((id, r1)) => match dec_event(r1) {
            Some((e, r2)) => Some((ServerV { id, event: e }, r2)),
            None => None,
        },
        None => None,
    }
}

/// Decoding an encoded delta, followed by anything, gives the delta and the
/// rest.
pub proof fn lemma_dec_server_enc(d: ServerV, rest: Seq<u8>)
    requires
        event_wf(d.event),
    ensures
        dec_server(enc_server(d) + rest) == Some((d, rest)),
{
    let b = enc_server(d) + rest;
    assert(b =~= u64_le(d.id) + (enc_event(d.event) + rest));
    lemma_dec_u64_enc(d.id, enc_event(d.event) + rest);
    lemma_dec_event_enc(d.event, rest);
}

// ---------------------------------------------------------------------------
// Client messages
// ---------------------------------------------------------------------------

/// The concatenated encodings of a run of deltas.
pub open spec fn enc_servers(s: Seq<ServerV>) -> Seq<u8>
    decreases s.len(),
{
    if s.len() == 0 {
        Seq::empty()
    } else {
        enc_server(s[0]) + enc_servers(s.skip(1))
    }
}

/// The encoding of a whole client message: a count, then that many deltas.
pub open spec fn enc_message(s: Seq<ServerV>) -> Seq<u8> {
    u64_le(s.len() as u64) + enc_servers(s)
}

/// Every delta in the run is encodable.
pub open spec fn servers_wf(s: Seq<ServerV>) -> bool {
    forall|i: int| 0 <= i < s.len() ==> event_wf(#[trigger] s[i].event)
}

/// `n` deltas read from the head of `b`, and what follows them.
pub open spec fn dec_servers(b: Seq<u8>, n: nat) -> Option<(Seq<ServerV>, Seq<u8>)>
    decreases n,
{
    if n == 0 {
        Some((Seq::empty(), b))
    } else {
        match dec_server(b) {
            Some((d, r1)) => match dec_servers(r1, (n - 1) as nat) {
                Some((s, r2)) => Some((seq![d] + s, r2)),
                None => None,
            },
            None => None,
        }
    }
}

/// The message a whole body decodes to: the count, that many deltas, and
/// nothing after them.
pub open spec fn dec_message(b: Seq<u8>) -> Option<Seq<ServerV>> {
    match dec_u64(b) {
        Some((n, r1)) => match dec_servers(r1, n as nat) {
            Some((s, r2)) => if r2.len() == 0 {
                Some(s)
            } else {
                None
            },
            None => None,
        },
        None => None,
    }
}

/// Decoding an encoded run of deltas, followed by anything, gives the run
/// and the rest.
#[verifier::rlimit(50)]
pub proof fn lemma_dec_servers_enc(s: Seq<ServerV>, rest: Seq<u8>)
    requires
        servers_wf(s),
    ensures
        dec_servers(enc_servers(s) + rest, s.len()) == Some((s, rest)),
    decreases s.len(),
{
    if s.len() == 0 {
        assert(enc_servers(s) + rest =~= rest);
        assert(dec_servers(rest, 0) == Some((Seq::<ServerV>::empty(), rest)));
        assert(Seq::<ServerV>::empty() =~= s);
    } else {
        let b = enc_servers(s) + rest;
        assert(b =~= enc_server(s[0]) + (enc_servers(s.skip(1)) + rest));
        lemma_dec_server_enc(s[0], enc_servers(s.skip(1)) + rest);
        assert(servers_wf(s.skip(1)));
        lemma_dec_servers_enc(s.skip(1), rest);
        assert(seq![s[0]] + s.skip(1) =~= s);
    }
}

/// Decoding an encoded message gives the run of deltas back.
pub proof fn lemma_message_roundtrip(s: Seq<ServerV>)
    requires
        servers_wf(s),
        s.len() <= u64::MAX,
    ensures
        dec_message(enc_message(s)) == Some(s),
{
    let n = s.len() as u64;
    lemma_dec_u64_enc(n, enc_servers(s));
    lemma_dec_servers_enc(s, Seq::empty());
    assert(enc_servers(s) + Seq::<u8>::empty() =~= enc_servers(s));
}

// ---------------------------------------------------------------------------
// Hello
// ---------------------------------------------------------------------------

/// The encoding of a `Hello`: the declared port, little-endian.
pub open spec fn enc_hello(port: u16) -> Seq<u8> {
    u16_le(port)
}

/// The `Hello` a body decodes to: exactly two bytes, read little-endian.
pub open spec fn dec_hello(b: Seq<u8>) -> Option<u16> {
    if b.len() == 2 {
        Some(le16(b[0], b[1]))
    } else {
        None
    }
}

/// Decoding an encoded `Hello` gives the port back.
pub proof fn lemma_hello_roundtrip(port: u16)
    ensures
        dec_hello(enc_hello(port)) == Some(port),
{
    lemma_le16_roundtrip(port);
}

/// A body that decodes as a `Hello` is the encoding of that `Hello`.
pub proof fn lemma_hello_exact(b: Seq<u8>)
    ensures
        dec_hello(b) matches Some(port) ==> enc_hello(port) == b,
{
    if b.len() == 2 {
        lemma_le16_bytes(b[0], b[1]);
        assert(u16_le(le16(b[0], b[1])) =~= b);
    }
}

/// Serialize a `Hello`.
pub fn encode_hello(h: &Hello) -> (r: Vec<u8>)
    ensures
        r@ == enc_hello(h.port),
{
    let mut out: Vec<u8> = Vec::new();
    out.push((h.port & 0xff) as u8);
    out.push(((h.port >> 8) & 0xff) as u8);
    proof {
        assert(out@ =~= enc_hello(h.port));
    }
    out
}

/// Parse a `Hello` from the entire body of a stream.
pub fn decode_hello(b: &Vec<u8>) -> (r: Result<Hello, CodecError>)
    ensures
        match r {
            Ok(h) => dec_hello(b@) == Some(h.port),
            Err(_) => dec_hello(b@) is None,
        },
{
    if b.len() == 2 {
        let port = (b[0] as u16) | ((b[1] as u16) << 8);
        Ok(Hello { port })
    } else {
        Err(CodecError::Malformed)
    }
}

// ---------------------------------------------------------------------------
// Executable encoder
// ---------------------------------------------------------------------------

fn push_u16(out: &mut Vec<u8>, x: u16)
    ensures
        final(out)@ == old(out)@ + u16_le(x),
{
    out.push((x & 0xff) as u8);
    out.push(((x >> 8) & 0xff) as u8);
    proof {
        assert(out@ =~= old(out)@ + u16_le(x));
    }
}

fn push_u64(out: &mut Vec<u8>, x: u64)
    ensures
        final(out)@ == old(out)@ + u64_le(x),
{
    out.push((x & 0xff) as u8);
    out.push(((x >> 8) & 0xff) as u8);
    out.push(((x >> 16) & 0xff) as u8);
    out.push(((x >> 24) & 0xff) as u8);
    out.push(((x >> 32) & 0xff) as u8);
    out.push(((x >> 40) & 0xff) as u8);
    out.push(((x >> 48) & 0xff) as u8);
    out.push(((x >> 56) & 0xff) as u8);
    proof {
        assert(out@ =~= old(out)@ + u64_le(x));
    }
}

fn push_addr(out: &mut Vec<u8>, a: &Addr)
    ensures
        final(out)@ == old(out)@ + enc_addr(a@),
{
    match &a.ip {
        Ip::V4(o) => {
            out.push(0);
            out.push(o[0]);
            out.push(o[1]);
            out.push(o[2]);
            out.push(o[3]);
            proof {
                assert(out@ =~= old(out)@ + enc_ip(a@.ip));
            }
        }
        Ip::V6(o) => {
            out.push(1);
            let ghost base = out@;
            let mut i: usize = 0;
            while i < 16
                invariant
                    i <= 16,
                    out@ == base + o@.take(i as int),
                decreases 16 - i,
            {
                out.push(o[i]);
                proof {
                    assert(out@ =~= base + o@.take(i + 1));
                }
                i = i + 1;
            }
            proof {
                assert(o@.take(16) =~= o@);
                assert(out@ =~= old(out)@ + enc_ip(a@.ip));
            }
        }
    }
    push_u16(out, a.port);
    proof {
        assert(out@ =~= old(out)@ + enc_addr(a@));
    }
}

fn push_event(out: &mut Vec<u8>, e: &Event)
    ensures
        final(out)@ == old(out)@ + enc_event(e@),
{
    match e {
        Event::Shutdown => {
            out.push(0);
            proof {
                assert(out@ =~= old(out)@ + enc_event(e@));
            }
        }
        Event::Update(a, state) => {
            out.push(1);
            push_addr(out, a);
            push_u64(out, state.len() as u64);
            let ghost base = out@;
            let mut j: usize = 0;
            while j < state.len()
                invariant
                    j <= state.len(),
                    out@ == base + state@.take(j as int),
                decreases state.len() - j,
            {
                out.push(state[j]);
                proof {
                    assert(out@ =~= base + state@.take(j + 1));
                }
                j = j + 1;
            }
            proof {
                assert(state@.take(state@.len() as int) =~= state@);
                assert(out@ =~= old(out)@ + enc_event(e@));
            }
        }
    }
}

fn push_server(out: &mut Vec<u8>, d: &Server)
    ensures
        final(out)@ == old(out)@ + enc_server(d@),
{
    push_u64(out, d.id);
    push_event(out, &d.event);
    proof {
        assert(out@ =~= old(out)@ + enc_server(d@));
    }
}

/// Appending one delta to a run appends its encoding.
proof fn lemma_enc_servers_snoc(s: Seq<ServerV>, d: ServerV)
    ensures
        enc_servers(s + seq![d]) == enc_servers(s) + enc_server(d),
    decreases s.len(),
{
    if s.len() == 0 {
        let t = s + seq![d];
        assert(t[0] == d);
        assert(t.skip(1) =~= Seq::<ServerV>::empty());
        assert(enc_servers(Seq::<ServerV>::empty()) =~= Seq::<u8>::empty());
        assert(enc_servers(t) == enc_server(t[0]) + enc_servers(t.skip(1)));
        assert(enc_servers(t) =~= enc_server(d));
        assert(enc_servers(s) + enc_server(d) =~= enc_server(d));
    } else {
        let t = s + seq![d];
        assert(t[0] == s[0]);
        assert(t.skip(1) =~= s.skip(1) + seq![d]);
        lemma_enc_servers_snoc(s.skip(1), d);
        assert(enc_servers(t) =~= enc_servers(s) + enc_server(d));
    }
}

/// Serialize a client message.
pub fn encode_message(m: &Message) -> (r: Vec<u8>)
    ensures
        r@ == enc_message(m@),
{
    let mut out: Vec<u8> = Vec::new();
    push_u64(&mut out, m.servers.len() as u64);
    let mut i: usize = 0;
    while i < m.servers.len()
        invariant
            i <= m.servers.len(),
            out@ == u64_le(m.servers.len() as u64) + enc_servers(m@.take(i as int)),
        decreases m.servers.len() - i,
    {
        push_server(&mut out, &m.servers[i]);
        proof {
            assert(m@.take(i + 1) =~= m@.take(i as int) + seq![m@[i as int]]);
            lemma_enc_servers_snoc(m@.take(i as int), m@[i as int]);
        }
        i = i + 1;
    }
    proof {
        assert(m@.take(m@.len() as int) =~= m@);
        assert(m@.len() == m.servers@.len());
    }
    out
}

// ---------------------------------------------------------------------------
// Executable decoder
// ---------------------------------------------------------------------------

fn read_u64(b: &Vec<u8>, pos: usize) -> (r: Option<(u64, usize)>)
    requires
        pos <= b.len(),
    ensures
        match r {
            Some(rp) => rp.1 == pos + 8 && rp.1 <= b.len() && dec_u64(b@.skip(pos as int))
                == Some((rp.0, b@.skip(rp.1 as int))),
            None => dec_u64(b@.skip(pos as int)) is None,
        },
{
    if b.len() - pos >= 8 {
        let x = (b[pos] as u64) | ((b[pos + 1] as u64) << 8) | ((b[pos + 2] as u64) << 16)
            | ((b[pos + 3] as u64) << 24) | ((b[pos + 4] as u64) << 32)
            | ((b[pos + 5] as u64) << 40) | ((b[pos + 6] as u64) << 48)
            | ((b[pos + 7] as u64) << 56);
        proof {
            let s = b@.skip(pos as int);
            assert(s.len() >= 8);
            assert(s.skip(8) =~= b@.skip(pos + 8));
        }
        Some((x, pos + 8))
    } else {
        None
    }
}

fn read_addr(b: &Vec<u8>, pos: usize) -> (r: Option<(Addr, usize)>)
    requires
        pos <= b.len(),
    ensures
        match r {
            Some(rp) => pos < rp.1 && rp.1 <= b.len() && dec_addr(b@.skip(pos as int))
                == Some((rp.0@, b@.skip(rp.1 as int))),
            None => dec_addr(b@.skip(pos as int)) is None,
        },
{
    let ghost s = b@.skip(pos as int);
    if pos < b.len() && b[pos] == 0 {
        if b.len() - pos >= 7 {
            let ip = Ip::V4([b[pos + 1], b[pos + 2], b[pos + 3], b[pos + 4]]);
            let port = (b[pos + 5] as u16) | ((b[pos + 6] as u16) << 8);
            let a = Addr { ip, port };
            proof {
                assert(a@.ip.octets =~= s.subrange(1, 5));
                assert(s.skip(7) =~= b@.skip(pos + 7));
                assert(s[5] == b@[pos + 5] && s[6] == b@[pos + 6]);
            }
            Some((a, pos + 7))
        } else {
            None
        }
    } else if pos < b.len() && b[pos] == 1 {
        if b.len() - pos >= 19 {
            let ip = Ip::V6([
                b[pos + 1], b[pos + 2], b[pos + 3], b[pos + 4], b[pos + 5], b[pos + 6],
                b[pos + 7], b[pos + 8], b[pos + 9], b[pos + 10], b[pos + 11], b[pos + 12],
                b[pos + 13], b[pos + 14], b[pos + 15], b[pos + 16],
            ]);
            let port = (b[pos + 17] as u16) | ((b[pos + 18] as u16) << 8);
            let a = Addr { ip, port };
            proof {
                assert(a@.ip.octets =~= s.subrange(1, 17));
                assert(s.skip(19) =~= b@.skip(pos + 19));
                assert(s[17] == b@[pos + 17] && s[18] == b@[pos + 18]);
            }
            Some((a, pos + 19))
        } else {
            None
        }
    } else {
        None
    }
}

fn read_event(b: &Vec<u8>, pos: usize) -> (r: Option<(Event, usize)>)
    requires
        pos <= b.len(),
    ensures
        match r {
            Some(rp) => pos < rp.1 && rp.1 <= b.len() && dec_event(b@.skip(pos as int))
                == Some((rp.0@, b@.skip(rp.1 as int))),
            None => dec_event(b@.skip(pos as int)) is None,
        },
{
    let ghost s = b@.skip(pos as int);
    if pos < b.len() && b[pos] == 0 {
        proof {
            assert(s.skip(1) =~= b@.skip(pos + 1));
        }
        Some((Event::Shutdown, pos + 1))
    } else if pos < b.len() && b[pos] == 1 {
        proof {
            assert(s.skip(1) =~= b@.skip(pos + 1));
        }
        match read_addr(b, pos + 1) {
            Some((a, p1)) => {
                match read_u64(b, p1) {
                    Some((n, p2)) => {
                        if n <= (b.len() - p2) as u64 {
                            let count = n as usize;
                            let mut state: Vec<u8> = Vec::new();
                            let mut j: usize = 0;
                            while j < count
                                invariant
                                    j <= count,
                                    p2 + count <= b.len(),
                                    state@ == b@.subrange(p2 as int, p2 + j),
                                decreases count - j,
                            {
                                state.push(b[p2 + j]);
                                proof {
                                    assert(state@ =~= b@.subrange(p2 as int, p2 + j + 1));
                                }
                                j = j + 1;
                            }
                            let e = Event::Update(a, state);
                            proof {
                                let r2 = b@.skip(p2 as int);
                                assert(r2.subrange(0, n as int) =~= b@.subrange(
                                    p2 as int,
                                    p2 + count,
                                ));
                                assert(r2.skip(n as int) =~= b@.skip(p2 + count));
                            }
                            Some((e, p2 + count))
                        } else {
                            None
                        }
                    }
                    None => None,
                }
            }
            None => None,
        }
    } else {
        None
    }
}

fn read_server(b: &Vec<u8>, pos: usize) -> (r: Option<(Server, usize)>)
    requires
        pos <= b.len(),
    ensures
        match r {
            Some(rp) => pos < rp.1 && rp.1 <= b.len() && dec_server(b@.skip(pos as int))
                == Some((rp.0@, b@.skip(rp.1 as int))),
            None => dec_server(b@.skip(pos as int)) is None,
        },
{
    match read_u64(b, pos) {
        Some((id, p1)) => match read_event(b, p1) {
            Some((e, p2)) => Some((Server { id, event: e }, p2)),
            None => None,
        },
        None => None,
    }
}

/// Parse a client message from the entire body of a stream.
pub fn decode_message(b: &Vec<u8>) -> (r: Result<Message, CodecError>)
    ensures
        match r {
            Ok(m) => dec_message(b@) == Some(m@),
            Err(_) => dec_message(b@) is None,
        },
{
    let (count, start) = match read_u64(b, 0) {
        Some(p) => p,
        None => {
            proof {
                assert(b@.skip(0) =~= b@);
            }
            return Err(CodecError::Malformed);
        }
    };
    proof {
        assert(b@.skip(0) =~= b@);
    }
    let mut servers: Vec<Server> = Vec::new();
    let mut pos: usize = start;
    let mut i: u64 = 0;
    while i < count
        invariant
            i <= count,
            pos <= b.len(),
            dec_u64(b@) == Some((count, b@.skip(start as int))),
            servers@.len() == i,
            match dec_servers(b@.skip(pos as int), (count - i) as nat) {
                Some(sr) => dec_servers(b@.skip(start as int), count as nat) == Some(
                    (servers@.map_values(|x: Server| x@) + sr.0, sr.1),
                ),
                None => dec_servers(b@.skip(start as int), count as nat) is None,
            },
        decreases count - i,
    {
        match read_server(b, pos) {
            Some((d, p2)) => {
                proof {
                    let tail = b@.skip(pos as int);
                    let n = (count - i) as nat;
                    assert(dec_servers(tail, n) == match dec_server(tail) {
                        Some((d0, r1)) => match dec_servers(r1, (n - 1) as nat) {
                            Some((s0, r2)) => Some((seq![d0] + s0, r2)),
                            None => None,
                        },
                        None => None,
                    });
                }
                let ghost old_servers = servers@;
                servers.push(d);
                proof {
                    assert(servers@.map_values(|x: Server| x@) =~= old_servers.map_values(
                        |x: Server| x@,
                    ) + seq![d@]);
                    match dec_servers(b@.skip(p2 as int), (count - i - 1) as nat) {
                        Some(sr) => {
                            assert(old_servers.map_values(|x: Server| x@) + (seq![d@] + sr.0)
                                =~= servers@.map_values(|x: Server| x@) + sr.0);
                        }
                        None => {}
                    }
                }
                pos = p2;
            }
            None => {
                proof {
                    let tail = b@.skip(pos as int);
                    let n = (count - i) as nat;
                    assert(n > 0);
                    assert(dec_servers(tail, n) is None);
                }
                return Err(CodecError::Malformed);
            }
        }
        i = i + 1;
    }
    proof {
        let tail = b@.skip(pos as int);
        assert(dec_servers(tail, 0) == Some((Seq::<ServerV>::empty(), tail)));
        assert(servers@.map_values(|x: Server| x@) + Seq::<ServerV>::empty() =~= servers@
            .map_values(|x: Server| x@));
    }
    if pos == b.len() {
        let m = Message { servers };
        proof {
            assert(b@.skip(pos as int).len() == 0);
        }
        Ok(m)
    } else {
        proof {
            assert(b@.skip(pos as int).len() > 0);
        }
        Err(CodecError::Malformed)
    }
}

// ---------------------------------------------------------------------------
// The decoder accepts nothing but encodings
// ---------------------------------------------------------------------------

proof fn lemma_dec_u64_sound(b: Seq<u8>)
    ensures
        dec_u64(b) matches Some(p) ==> b == u64_le(p.0) + p.1,
{
    if b.len() >= 8 {
        lemma_le64_bytes(b[0], b[1], b[2], b[3], b[4], b[5], b[6], b[7]);
        assert(u64_le(le64(b[0], b[1], b[2], b[3], b[4], b[5], b[6], b[7])) + b.skip(8) =~= b);
    }
}

proof fn lemma_dec_addr_sound(b: Seq<u8>)
    ensures
        dec_addr(b) matches Some(p) ==> p.0.wf() && b == enc_addr(p.0) + p.1,
{
    if b.len() >= 1 && b[0] == 0 && b.len() >= 7 {
        let (a, r) = dec_addr(b)->0;
        lemma_le16_bytes(b[5], b[6]);
        assert(enc_addr(a) + r =~= b);
    } else if b.len() >= 1 && b[0] == 1 && b.len() >= 19 {
        let (a, r) = dec_addr(b)->0;
        lemma_le16_bytes(b[17], b[18]);
        assert(enc_addr(a) + r =~= b);
    }
}

proof fn lemma_dec_event_sound(b: Seq<u8>)
    ensures
        dec_event(b) matches Some(p) ==> event_wf(p.0) && b == enc_event(p.0) + p.1,
{
    if b.len() >= 1 && b[0] == 0 {
        assert(enc_event(EventV::Shutdown) + b.skip(1) =~= b);
    } else if b.len() >= 1 && b[0] == 1 {
        lemma_dec_addr_sound(b.skip(1));
        match dec_addr(b.skip(1)) {
            Some((a, r1)) => {
                lemma_dec_u64_sound(r1);
                match dec_u64(r1) {
                    Some((n, r2)) => {
                        if n <= r2.len() {
                            let s = r2.subrange(0, n as int);
                            let rest = r2.skip(n as int);
                            assert(r2 =~= s + rest);
                            assert(s.len() as u64 == n);
                            assert(b =~= seq![1u8] + enc_addr(a) + u64_le(n) + s + rest);
                            assert(enc_event(EventV::Update(a, s)) + rest =~= seq![1u8]
                                + enc_addr(a) + u64_le(n) + s + rest);
                        }
                    }
                    None => {}
                }
            }
            None => {}
        }
    }
}

proof fn lemma_dec_server_sound(b: Seq<u8>)
    ensures
        dec_server(b) matches Some(p) ==> event_wf(p.0.event) && b == enc_server(p.0) + p.1,
{
    lemma_dec_u64_sound(b);
    match dec_u64(b) {
        Some((id, r1)) => {
            lemma_dec_event_sound(r1);
            match dec_event(r1) {
                Some((e, r2)) => {
                    assert(b =~= u64_le(id) + (enc_event(e) + r2));
                    assert(enc_server(ServerV { id, event: e }) + r2 =~= u64_le(id) + (enc_event(
                        e,
                    ) + r2));
                }
                None => {}
            }
        }
        None => {}
    }
}

#[verifier::rlimit(60)]
proof fn lemma_dec_servers_sound(b: Seq<u8>, n: nat)
    ensures
        dec_servers(b, n) matches Some(p) ==> servers_wf(p.0) && p.0.len() == n && b
            == enc_servers(p.0) + p.1,
    decreases n,
{
    if n == 0 {
        assert(enc_servers(Seq::<ServerV>::empty()) + b =~= b);
    } else {
        lemma_dec_server_sound(b);
        match dec_server(b) {
            Some((d, r1)) => {
                lemma_dec_servers_sound(r1, (n - 1) as nat);
                match dec_servers(r1, (n - 1) as nat) {
                    Some((s, r2)) => {
                        let t = seq![d] + s;
                        assert(t[0] == d && t.skip(1) =~= s);
                        assert(servers_wf(t)) by {
                            assert forall|i: int| 0 <= i < t.len() implies event_wf(
                                #[trigger] t[i].event,
                            ) by {
                                if i > 0 {
                                    assert(t[i] == s[i - 1]);
                                }
                            }
                        }
                        assert(enc_servers(t) == enc_server(d) + enc_servers(s));
                        assert(b =~= enc_server(d) + (enc_servers(s) + r2));
                        assert(enc_servers(t) + r2 =~= enc_server(d) + (enc_servers(s) + r2));
                    }
                    None => {}
                }
            }
            None => {}
        }
    }
}

/// The decoder accepts nothing but encodings: a body that decodes as a
/// message is exactly the encoding of that message. Together with
/// [`lemma_message_roundtrip`], decoding succeeds on precisely the
/// encodings of well-formed messages and on nothing else.
pub proof fn lemma_message_exact(b: Seq<u8>)
    ensures
        dec_message(b) matches Some(s) ==> servers_wf(s) && s.len() <= u64::MAX && b
            == enc_message(s),
{
    lemma_dec_u64_sound(b);
    match dec_u64(b) {
        Some((n, r1)) => {
            lemma_dec_servers_sound(r1, n as nat);
            match dec_servers(r1, n as nat) {
                Some((s, r2)) => {
                    if r2.len() == 0 {
                        assert(s.len() as u64 == n);
                        assert(r1 =~= enc_servers(s));
                        assert(b =~= u64_le(n) + enc_servers(s));
                    }
                }
                None => {}
            }
        }
        None => {}
    }
}

/// Every message built from executable parts is encodable: its addresses
/// are well formed and its lengths fit their prefixes.
pub broadcast proof fn lemma_message_encodable(m: &Message)
    ensures
        servers_wf(#[trigger] m@),
        m@.len() <= u64::MAX,
{
    assert(m.servers.len() == m.servers@.len());
    assert(m@.len() == m.servers@.len());
    assert(usize::MAX <= u64::MAX);
    assert forall|i: int| 0 <= i < m@.len() implies event_wf(#[trigger] m@[i].event) by {
        assert(m@[i] == m.servers@[i]@);
        let ev = m.servers@[i].event;
        match ev {
            Event::Shutdown => {
                assert(m@[i].event is Shutdown);
            }
            Event::Update(a, s) => {
                assert(m@[i].event == EventV::Update(a@, s@));
                crate::addr::lemma_addr_wf(a);
                assert(s.len() == s@.len());
            }
        }
    }
}

} // verus!
