//! Domain-separated deterministic random streams.

use vstd::prelude::*;
use vstd::string::StringExecFns;

use crate::icao::Icao;

verus! {

/// `rand_chacha::ChaCha12Rng`: a random generator.
#[verifier::external_type_specification]
#[verifier::external_body]
pub struct ExChaCha12Rng(rand_chacha::ChaCha12Rng);

/// The SHA-256 digest of a byte string.
pub uninterp spec fn sha256_of(data: Seq<u8>) -> Seq<u8>;

/// The generator that a 32-byte key starts.
pub uninterp spec fn chacha12_of(key: Seq<u8>) -> rand_chacha::ChaCha12Rng;

/// `sha2::Sha256::digest`: the digest, 32 bytes, a function of the data alone.
#[verifier::external_body]
pub(crate) fn sha256(data: &[u8]) -> (r: [u8; 32])
    ensures
        r@ == sha256_of(data@),
{
    <sha2::Sha256 as sha2::Digest>::digest(data).into()
}

/// `rand_chacha::ChaCha12Rng::from_seed`: the generator in the starting state that
/// the key alone decides.
#[verifier::external_body]
fn chacha12(key: [u8; 32]) -> (r: rand_chacha::ChaCha12Rng)
    ensures
        r == chacha12_of(key@),
{
    <rand_chacha::ChaCha12Rng as rand_chacha::rand_core::SeedableRng>::from_seed(key)
}

/// The eight bytes of a number, least significant first.
pub open spec fn le64(n: u64) -> Seq<u8> {
    seq![
        (n % 256) as u8,
        (n / 256 % 256) as u8,
        (n / 0x1_0000 % 256) as u8,
        (n / 0x100_0000 % 256) as u8,
        (n / 0x1_0000_0000 % 256) as u8,
        (n / 0x100_0000_0000 % 256) as u8,
        (n / 0x1_0000_0000_0000 % 256) as u8,
        (n / 0x100_0000_0000_0000 % 256) as u8,
    ]
}

/// Appends the eight bytes of a number.
pub(crate) fn push_le64(out: &mut Vec<u8>, n: u64)
    ensures
        final(out)@ == old(out)@ + le64(n),
{
    out.push((n % 256) as u8);
    out.push((n / 256 % 256) as u8);
    out.push((n / 0x1_0000 % 256) as u8);
    out.push((n / 0x100_0000 % 256) as u8);
    out.push((n / 0x1_0000_0000 % 256) as u8);
    out.push((n / 0x100_0000_0000 % 256) as u8);
    out.push((n / 0x1_0000_0000_0000 % 256) as u8);
    out.push((n / 0x100_0000_0000_0000 % 256) as u8);
    assert(out@ =~= old(out)@ + le64(n));
}

/// The number that eight bytes write, least significant first.
pub open spec fn from_le64(b: Seq<u8>) -> int {
    b[0] + 256 * (b[1] + 256 * (b[2] + 256 * (b[3] + 256 * (b[4] + 256 * (b[5] + 256 * (b[6] + 256
        * b[7]))))))
}

/// Writing a number as eight bytes and reading it gives it back.
pub proof fn lemma_le64(n: u64)
    ensures
        from_le64(le64(n)) == n,
        le64(n).len() == 8,
{
    let m = n as int;
    let c1 = m / 256;
    let c2 = m / 0x1_0000;
    let c3 = m / 0x100_0000;
    let c4 = m / 0x1_0000_0000;
    let c5 = m / 0x100_0000_0000;
    let c6 = m / 0x1_0000_0000_0000;
    let c7 = m / 0x100_0000_0000_0000;
    assert(c2 == c1 / 256);
    assert(c3 == c2 / 256);
    assert(c4 == c3 / 256);
    assert(c5 == c4 / 256);
    assert(c6 == c5 / 256);
    assert(c7 == c6 / 256);
    let b = le64(n);
    assert(m == 256 * c1 + b[0]);
    assert(c1 == 256 * c2 + b[1]);
    assert(c2 == 256 * c3 + b[2]);
    assert(c3 == 256 * c4 + b[3]);
    assert(c4 == 256 * c5 + b[4]);
    assert(c5 == 256 * c6 + b[5]);
    assert(c6 == 256 * c7 + b[6]);
    assert(c7 == b[7]);
}

/// What is hashed for a stream: the seed, a separator, and the stream's name.
pub open spec fn seed_material(seed: u64, stream: Seq<char>) -> Seq<u8> {
    le64(seed).push(0x1f) + vstd::utf8::encode_utf8(stream)
}

/// Domain-separated deterministic generator. Streams with different names are
/// independent: adding an aircraft to a scenario never perturbs another aircraft's
/// trajectory or any receiver's clock.
pub fn rng_for(seed: u64, stream: &str) -> (r: rand_chacha::ChaCha12Rng)
    ensures
        r == chacha12_of(sha256_of(seed_material(seed, stream@))),
{
    let mut h: Vec<u8> = Vec::new();
    push_le64(&mut h, seed);
    h.push(0x1f);
    h.extend_from_slice(stream.as_bytes());
    assert(h@ =~= seed_material(seed, stream@));
    chacha12(sha256(h.as_slice()))
}

/// Domain separation: different seeds or different stream names are never hashed
/// as the same bytes.
pub proof fn law_streams_are_separated(a: u64, x: Seq<char>, b: u64, y: Seq<char>)
    requires
        seed_material(a, x) == seed_material(b, y),
    ensures
        a == b,
        x == y,
{
    let m = seed_material(a, x);
    let n = seed_material(b, y);
    lemma_le64(a);
    lemma_le64(b);
    assert(le64(a) =~= m.take(8));
    assert(le64(b) =~= n.take(8));
    assert(vstd::utf8::encode_utf8(x) =~= m.skip(9));
    assert(vstd::utf8::encode_utf8(y) =~= n.skip(9));
    vstd::utf8::encode_utf8_decode_utf8(x);
    vstd::utf8::encode_utf8_decode_utf8(y);
}

// -------------------------------------------------------------------- streams

/// What a random stream is drawn for. Draws that concern a receiver and an aircraft
/// come from a stream of the two, so that they stay the same when others come or go.
#[derive(Debug)]
pub enum Stream {
    /// The receivers and aircraft that a scenario has generated.
    Generate,
    /// The transmissions of an aircraft, by its address as the scenario writes it.
    Emit(String),
    /// The network latency of a receiver and its reported position.
    Net(String),
    /// Multipath delays of an aircraft at a receiver.
    Multipath(String, Icao),
    /// The wander and the jumps of a receiver's clock.
    Hostile(String),
    /// Lost receptions of an aircraft at a receiver.
    Loss(String, Icao),
    /// The jitter of a receiver's clock at receptions of an aircraft.
    ClockJitter(String, Icao),
    /// The damage done to a client's stream.
    Fuzz(String),
    /// The aircraft of an imported data set that are held out.
    Holdout,
    /// The network latencies of an imported data set.
    ImportNet,
}

/// What a random stream is drawn for, as a mathematical value.
pub ghost enum StreamView {
    Generate,
    Emit(Seq<char>),
    Net(Seq<char>),
    Multipath(Seq<char>, int),
    Hostile(Seq<char>),
    Loss(Seq<char>, int),
    ClockJitter(Seq<char>, int),
    Fuzz(Seq<char>),
    Holdout,
    ImportNet,
}

impl View for Stream {
    type V = StreamView;

    open spec fn view(&self) -> StreamView {
        match self {
            Stream::Generate => StreamView::Generate,
            Stream::Emit(id) => StreamView::Emit(id@),
            Stream::Net(id) => StreamView::Net(id@),
            Stream::Multipath(id, a) => StreamView::Multipath(id@, a.0 as int % 0x100_0000),
            Stream::Hostile(id) => StreamView::Hostile(id@),
            Stream::Loss(id, a) => StreamView::Loss(id@, a.0 as int % 0x100_0000),
            Stream::ClockJitter(id, a) => StreamView::ClockJitter(id@, a.0 as int % 0x100_0000),
            Stream::Fuzz(id) => StreamView::Fuzz(id@),
            Stream::Holdout => StreamView::Holdout,
            Stream::ImportNet => StreamView::ImportNet,
        }
    }
}

/// The name of a stream of a receiver and an aircraft: behind the start the receiver,
/// a slash, and the six digits of the address.
pub open spec fn pair_name(start: Seq<char>, id: Seq<char>, address: int) -> Seq<char> {
    start + id + "/"@ + crate::text::hex_digits(address, 6)
}

/// The name of a stream.
pub open spec fn stream_name(s: StreamView) -> Seq<char> {
    match s {
        StreamView::Generate => "generate"@,
        StreamView::Emit(id) => "emit/"@ + id,
        StreamView::Net(id) => "net/"@ + id,
        StreamView::Multipath(id, a) => pair_name("mp/"@, id, a),
        StreamView::Hostile(id) => "hostile/"@ + id,
        StreamView::Loss(id, a) => pair_name("loss/"@, id, a),
        StreamView::ClockJitter(id, a) => pair_name("clkjit/"@, id, a),
        StreamView::Fuzz(id) => "fuzz/"@ + id,
        StreamView::Holdout => "locards/holdout"@,
        StreamView::ImportNet => "locards/net"@,
    }
}

fn put_pair(start: &str, id: &String, a: Icao) -> (r: String)
    ensures
        r@ == pair_name(start@, id@, a.0 as int % 0x100_0000),
{
    let mut out = start.to_owned();
    out.append(id.as_str());
    out.append("/");
    let hex = a.to_hex();
    out.append(hex.as_str());
    out
}

fn put_one(start: &str, id: &String) -> (r: String)
    ensures
        r@ == start@ + id@,
{
    let mut out = start.to_owned();
    out.append(id.as_str());
    out
}

impl Stream {
    /// The name of the stream. Captures depend on it: a stream keeps its name.
    pub fn name(&self) -> (r: String)
        ensures
            r@ == stream_name(self@),
    {
        match self {
            Stream::Generate => "generate".to_owned(),
            Stream::Emit(id) => put_one("emit/", id),
            Stream::Net(id) => put_one("net/", id),
            Stream::Multipath(id, a) => put_pair("mp/", id, *a),
            Stream::Hostile(id) => put_one("hostile/", id),
            Stream::Loss(id, a) => put_pair("loss/", id, *a),
            Stream::ClockJitter(id, a) => put_pair("clkjit/", id, *a),
            Stream::Fuzz(id) => put_one("fuzz/", id),
            Stream::Holdout => "locards/holdout".to_owned(),
            Stream::ImportNet => "locards/net".to_owned(),
        }
    }

    /// The generator of the stream under a seed.
    pub fn rng(&self, seed: u64) -> (r: rand_chacha::ChaCha12Rng)
        ensures
            r == chacha12_of(sha256_of(seed_material(seed, stream_name(self@)))),
    {
        rng_for(seed, self.name().as_str())
    }
}

/// The address of a stream of a receiver and an aircraft has 24 bits.
pub open spec fn addressed(s: StreamView) -> bool {
    match s {
        StreamView::Multipath(_, a) => 0 <= a < 0x100_0000,
        StreamView::Loss(_, a) => 0 <= a < 0x100_0000,
        StreamView::ClockJitter(_, a) => 0 <= a < 0x100_0000,
        _ => true,
    }
}

/// Streams that are drawn for different things are hashed as different bytes: their
/// names differ, and so does what is hashed for them under any seeds.
pub proof fn law_stream_names_differ(x: StreamView, y: StreamView, a: u64, b: u64)
    requires
        addressed(x),
        addressed(y),
        x != y,
    ensures
        stream_name(x) != stream_name(y),
        seed_material(a, stream_name(x)) != seed_material(b, stream_name(y)),
{
    let (t, u) = (stream_name(x), stream_name(y));
    if t == u {
        lemma_stream_start(x);
        lemma_stream_start(y);
        match (x, y) {
            (StreamView::Emit(i), StreamView::Emit(j)) => lemma_same_rest("emit/"@, i, j),
            (StreamView::Net(i), StreamView::Net(j)) => lemma_same_rest("net/"@, i, j),
            (StreamView::Hostile(i), StreamView::Hostile(j)) => lemma_same_rest("hostile/"@, i, j),
            (StreamView::Fuzz(i), StreamView::Fuzz(j)) => lemma_same_rest("fuzz/"@, i, j),
            (StreamView::Multipath(i, c), StreamView::Multipath(j, d)) => lemma_same_pair(
                "mp/"@,
                i,
                c,
                j,
                d,
            ),
            (StreamView::Loss(i, c), StreamView::Loss(j, d)) => lemma_same_pair(
                "loss/"@,
                i,
                c,
                j,
                d,
            ),
            (StreamView::ClockJitter(i, c), StreamView::ClockJitter(j, d)) => lemma_same_pair(
                "clkjit/"@,
                i,
                c,
                j,
                d,
            ),
            _ => {},
        }
    }
    if seed_material(a, t) == seed_material(b, u) {
        law_streams_are_separated(a, t, b, u);
    }
}

/// The first characters of a name tell what the stream is for.
proof fn lemma_stream_start(s: StreamView)
    ensures
        ({
            let t = stream_name(s);
            &&& t.len() > 2
            &&& t[0] == (match s {
                StreamView::Generate => 'g',
                StreamView::Emit(_) => 'e',
                StreamView::Net(_) => 'n',
                StreamView::Multipath(..) => 'm',
                StreamView::Hostile(_) => 'h',
                StreamView::Loss(..) => 'l',
                StreamView::ClockJitter(..) => 'c',
                StreamView::Fuzz(_) => 'f',
                StreamView::Holdout => 'l',
                StreamView::ImportNet => 'l',
            })
            &&& s is Loss ==> t[2] == 's'
            &&& s is Holdout ==> t[2] == 'c' && t.len() == 15
            &&& s is ImportNet ==> t[2] == 'c' && t.len() == 11
        }),
{
    reveal_strlit("generate");
    reveal_strlit("emit/");
    reveal_strlit("net/");
    reveal_strlit("mp/");
    reveal_strlit("hostile/");
    reveal_strlit("loss/");
    reveal_strlit("clkjit/");
    reveal_strlit("fuzz/");
    reveal_strlit("locards/holdout");
    reveal_strlit("locards/net");
}

proof fn lemma_same_rest(start: Seq<char>, i: Seq<char>, j: Seq<char>)
    requires
        start + i == start + j,
    ensures
        i == j,
{
    assert((start + i).skip(start.len() as int) =~= i);
    assert((start + j).skip(start.len() as int) =~= j);
}

proof fn lemma_same_pair(start: Seq<char>, i: Seq<char>, c: int, j: Seq<char>, d: int)
    requires
        pair_name(start, i, c) == pair_name(start, j, d),
        0 <= c < 0x100_0000,
        0 <= d < 0x100_0000,
    ensures
        i == j,
        c == d,
{
    reveal_strlit("/");
    let (g, h) = (crate::text::hex_digits(c, 6), crate::text::hex_digits(d, 6));
    crate::text::lemma_hex_digits(c, 6);
    crate::text::lemma_hex_digits(d, 6);
    assert(vstd::arithmetic::power::pow(16, 6) == 0x100_0000) by {
        reveal_with_fuel(vstd::arithmetic::power::pow, 7);
    }
    let t = pair_name(start, i, c);
    let n = t.len() as int;
    assert(i.len() == j.len());
    assert(t.skip(n - 6) =~= g);
    assert(t.skip(n - 6) =~= h);
    assert(t.subrange(start.len() as int, n - 7) =~= i);
    assert(t.subrange(start.len() as int, n - 7) =~= j);
}

} // verus!
