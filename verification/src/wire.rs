//! The byte layout of a datagram, as postcard writes and reads it.
//!
//! An integer is a varint: seven bits per byte, least significant group first,
//! the top bit set on every byte but the last. A string is its length in UTF-8
//! bytes followed by those bytes. A list is its item count followed by the
//! items. A tuple is its fields one after the other, with nothing in between.
//! One audio sample is the four bytes of its bit pattern, lowest byte first.

use vstd::prelude::*;
use vstd::utf8::*;

verus! {

/// The varint form of `n`.
pub open spec fn varint(n: nat) -> Seq<u8>
    decreases n,
{
    if n < 128 {
        seq![n as u8]
    } else {
        seq![(n % 128 + 128) as u8] + varint(n / 128)
    }
}

/// The number that a varint of at most `room` bytes at the front of `s` stands
/// for, and the bytes behind it.
pub open spec fn take_varint(s: Seq<u8>, room: nat) -> Option<(nat, Seq<u8>)>
    decreases room,
{
    if room == 0 || s.len() == 0 {
        None
    } else if s[0] < 128 {
        Some((s[0] as nat, s.skip(1)))
    } else {
        match take_varint(s.skip(1), (room - 1) as nat) {
            Some((high, rest)) => Some(((s[0] - 128) as nat + 128 * high, rest)),
            None => None,
        }
    }
}

/// A varint that has to fit an unsigned integer of `bits` bits.
pub open spec fn take_uint(s: Seq<u8>, bits: nat, max: nat) -> Option<(nat, Seq<u8>)> {
    match take_varint(s, (bits + 6) / 7) {
        Some((n, rest)) => if n <= max {
            Some((n, rest))
        } else {
            None
        },
        None => None,
    }
}

pub open spec fn take_u32(s: Seq<u8>) -> Option<(u32, Seq<u8>)> {
    match take_uint(s, 32, u32::MAX as nat) {
        Some((n, rest)) => Some((n as u32, rest)),
        None => None,
    }
}

pub open spec fn take_u64(s: Seq<u8>) -> Option<(u64, Seq<u8>)> {
    match take_uint(s, 64, u64::MAX as nat) {
        Some((n, rest)) => Some((n as u64, rest)),
        None => None,
    }
}

/// A length or an item count: a varint that has to fit a `usize`.
pub open spec fn take_len(s: Seq<u8>) -> Option<(nat, Seq<u8>)> {
    take_uint(s, usize::BITS as nat, usize::MAX as nat)
}

/// A string on the wire.
pub open spec fn text(s: Seq<char>) -> Seq<u8> {
    varint(encode_utf8(s).len()) + encode_utf8(s)
}

pub open spec fn take_text(s: Seq<u8>) -> Option<(Seq<char>, Seq<u8>)> {
    match take_len(s) {
        Some((n, rest)) => if n <= rest.len() && valid_utf8(rest.take(n as int)) {
            Some((decode_utf8(rest.take(n as int)), rest.skip(n as int)))
        } else {
            None
        },
        None => None,
    }
}

/// Byte `k` of the bit pattern `x`, counted from the least significant one.
pub open spec fn byte_of(x: u32, k: int) -> u8 {
    if k == 0 {
        (x % 256) as u8
    } else if k == 1 {
        (x / 256 % 256) as u8
    } else if k == 2 {
        (x / 65536 % 256) as u8
    } else {
        (x / 16777216) as u8
    }
}

/// The bit pattern whose four bytes, least significant first, are `s[at]` and
/// the three behind it.
pub open spec fn pattern_at(s: Seq<u8>, at: int) -> u32 {
    (s[at] + 256 * s[at + 1] + 65536 * s[at + 2] + 16777216 * s[at + 3]) as u32
}

/// A run of audio samples on the wire.
pub open spec fn samples(pcm: Seq<u32>) -> Seq<u8> {
    varint(pcm.len()) + Seq::new(4 * pcm.len(), |i: int| byte_of(pcm[i / 4], i % 4))
}

pub open spec fn take_samples(s: Seq<u8>) -> Option<(Seq<u32>, Seq<u8>)> {
    match take_len(s) {
        Some((n, rest)) => if 4 * n <= rest.len() {
            Some((Seq::new(n, |i: int| pattern_at(rest, 4 * i)), rest.skip(4 * n as int)))
        } else {
            None
        },
        None => None,
    }
}

/// What every datagram starts with: the magic number, the sender, and which
/// kind of payload follows.
pub open spec fn header(magic: u32, peer_id: u64, tag: u32) -> Seq<u8> {
    varint(magic as nat) + varint(peer_id as nat) + varint(tag as nat)
}

pub open spec fn take_header(s: Seq<u8>) -> Option<((u32, u64, u32), Seq<u8>)> {
    match take_u32(s) {
        Some((magic, s1)) => match take_u64(s1) {
            Some((peer_id, s2)) => match take_u32(s2) {
                Some((tag, s3)) => Some(((magic, peer_id, tag), s3)),
                None => None,
            },
            None => None,
        },
        None => None,
    }
}

/// A payload of one string.
pub open spec fn read_text(s: Seq<u8>) -> Option<Seq<char>> {
    match take_text(s) {
        Some((name, _)) => Some(name),
        None => None,
    }
}

/// A payload of two strings.
pub open spec fn read_texts(s: Seq<u8>) -> Option<(Seq<char>, Seq<char>)> {
    match take_text(s) {
        Some((first, s1)) => match take_text(s1) {
            Some((second, _)) => Some((first, second)),
            None => None,
        },
        None => None,
    }
}

/// A payload of a string, a number and a run of samples.
pub open spec fn read_voice(s: Seq<u8>) -> Option<(Seq<char>, u32, Seq<u32>)> {
    match take_text(s) {
        Some((name, s1)) => match take_u32(s1) {
            Some((seq, s2)) => match take_samples(s2) {
                Some((pcm, _)) => Some((name, seq, pcm)),
                None => None,
            },
            None => None,
        },
        None => None,
    }
}

// ---- what postcard does -----------------------------------------------------

/// `postcard::to_allocvec` on a tuple of three numbers and a string: the header
/// followed by the string. Writing to a growing vector has no way to fail.
#[verifier::external_body]
pub(crate) fn encode_named(magic: u32, peer_id: u64, tag: u32, name: &str) -> (r: Vec<u8>)
    ensures
        r@ == header(magic, peer_id, tag) + text(name@),
{
    postcard::to_allocvec(&(magic, peer_id, tag, name)).expect("serialize envelope")
}

/// `postcard::to_allocvec` on a tuple of three numbers and two strings: the
/// header followed by the strings.
#[verifier::external_body]
pub(crate) fn encode_texts(magic: u32, peer_id: u64, tag: u32, first: &str, second: &str) -> (r: Vec<u8>)
    ensures
        r@ == header(magic, peer_id, tag) + text(first@) + text(second@),
{
    postcard::to_allocvec(&(magic, peer_id, tag, first, second)).expect("serialize envelope")
}

/// `postcard::to_allocvec` on a tuple of three numbers, a string, a number and
/// a list of four-byte arrays: the header followed by the fields. Each sample
/// goes in as its bytes, least significant first, which is how postcard writes
/// a 32-bit float.
#[verifier::external_body]
pub(crate) fn encode_voice(magic: u32, peer_id: u64, tag: u32, name: &str, seq: u32, pcm: &Vec<u32>) -> (r: Vec<u8>)
    ensures
        r@ == header(magic, peer_id, tag) + text(name@) + varint(seq as nat) + samples(pcm@),
{
    let raw: Vec<[u8; 4]> = pcm.iter().map(|s| s.to_le_bytes()).collect();
    postcard::to_allocvec(&(magic, peer_id, tag, name, seq, raw)).expect("serialize envelope")
}

/// `postcard::take_from_bytes` for a tuple of three numbers: the header, if the
/// bytes start with one, and the bytes behind it.
#[verifier::external_body]
pub(crate) fn decode_header(bytes: &[u8]) -> (r: Option<((u32, u64, u32), &[u8])>)
    ensures
        match r {
            Some((head, rest)) => take_header(bytes@) == Some((head, rest@)),
            None => take_header(bytes@) is None,
        },
{
    postcard::take_from_bytes::<(u32, u64, u32)>(bytes).ok()
}

/// `postcard::from_bytes` for a string. Bytes behind the string are ignored.
#[verifier::external_body]
pub(crate) fn decode_named(bytes: &[u8]) -> (r: Option<String>)
    ensures
        match r {
            Some(name) => read_text(bytes@) == Some(name@),
            None => read_text(bytes@) is None,
        },
{
    postcard::from_bytes::<String>(bytes).ok()
}

/// `postcard::from_bytes` for a pair of strings. Bytes behind them are ignored.
#[verifier::external_body]
pub(crate) fn decode_texts(bytes: &[u8]) -> (r: Option<(String, String)>)
    ensures
        match r {
            Some((first, second)) => read_texts(bytes@) == Some((first@, second@)),
            None => read_texts(bytes@) is None,
        },
{
    postcard::from_bytes::<(String, String)>(bytes).ok()
}

/// `postcard::from_bytes` for a string, a number and a list of four-byte
/// arrays, each taken as a sample with its least significant byte first. Bytes
/// behind them are ignored.
#[verifier::external_body]
pub(crate) fn decode_voice(bytes: &[u8]) -> (r: Option<(String, u32, Vec<u32>)>)
    ensures
        match r {
            Some((name, seq, pcm)) => read_voice(bytes@) == Some((name@, seq, pcm@)),
            None => read_voice(bytes@) is None,
        },
{
    let (name, seq, raw) = postcard::from_bytes::<(String, u32, Vec<[u8; 4]>)>(bytes).ok()?;
    Some((name, seq, raw.into_iter().map(u32::from_le_bytes).collect()))
}

// ---- reading back what was written ------------------------------------------

/// One past the largest number that `k` varint bytes can hold.
pub open spec fn varint_span(k: nat) -> nat
    decreases k,
{
    if k == 0 {
        1
    } else {
        128 * varint_span((k - 1) as nat)
    }
}

/// A varint is read back as the number it was written for, whatever follows it,
/// as long as the reader allows enough bytes.
proof fn lemma_varint(n: nat, room: nat, rest: Seq<u8>)
    requires
        room > 0,
        n < varint_span(room),
    ensures
        take_varint(varint(n) + rest, room) == Some((n, rest)),
    decreases room,
{
    let s = varint(n) + rest;
    if n < 128 {
        assert(s.skip(1) =~= rest);
    } else {
        let low = (n % 128 + 128) as u8;
        assert(room > 1) by {
            assert(varint_span(1) == 128) by {
                reveal_with_fuel(varint_span, 2);
            }
        }
        assert(n / 128 < varint_span((room - 1) as nat));
        assert(s.skip(1) =~= varint(n / 128) + rest);
        lemma_varint(n / 128, (room - 1) as nat, rest);
        assert(s[0] == low);
        assert((low - 128) as nat + 128 * (n / 128) == n);
    }
}

proof fn lemma_span()
    ensures
        varint_span(5) > u32::MAX,
        varint_span(10) > u64::MAX,
{
    reveal_with_fuel(varint_span, 11);
}

proof fn lemma_u32(n: u32, rest: Seq<u8>)
    ensures
        take_u32(varint(n as nat) + rest) == Some((n, rest)),
{
    lemma_span();
    lemma_varint(n as nat, 5, rest);
}

proof fn lemma_u64(n: u64, rest: Seq<u8>)
    ensures
        take_u64(varint(n as nat) + rest) == Some((n, rest)),
{
    lemma_span();
    lemma_varint(n as nat, 10, rest);
}

proof fn lemma_len(n: nat, rest: Seq<u8>)
    requires
        n <= usize::MAX,
    ensures
        take_len(varint(n) + rest) == Some((n, rest)),
{
    lemma_span();
    if usize::BITS == 32 {
        lemma_varint(n, 5, rest);
    } else {
        lemma_varint(n, 10, rest);
    }
}

/// A string is read back as it was written, whatever follows it.
pub proof fn lemma_text(s: Seq<char>, rest: Seq<u8>)
    requires
        encode_utf8(s).len() <= usize::MAX,
    ensures
        take_text(text(s) + rest) == Some((s, rest)),
{
    let bytes = encode_utf8(s);
    assert(text(s) + rest =~= varint(bytes.len()) + (bytes + rest));
    lemma_len(bytes.len(), bytes + rest);
    assert((bytes + rest).take(bytes.len() as int) =~= bytes);
    assert((bytes + rest).skip(bytes.len() as int) =~= rest);
    encode_utf8_valid_utf8(s);
    encode_utf8_decode_utf8(s);
}

proof fn lemma_bytes(x: u32)
    ensures
        byte_of(x, 0) + 256 * byte_of(x, 1) + 65536 * byte_of(x, 2) + 16777216 * byte_of(x, 3) == x,
{
}

/// Samples are read back bit for bit, whatever follows them.
pub proof fn lemma_samples(pcm: Seq<u32>, rest: Seq<u8>)
    requires
        pcm.len() <= usize::MAX,
    ensures
        take_samples(samples(pcm) + rest) == Some((pcm, rest)),
{
    let n = pcm.len();
    let raw = Seq::new(4 * n, |i: int| byte_of(pcm[i / 4], i % 4));
    assert(samples(pcm) + rest =~= varint(n) + (raw + rest));
    lemma_len(n, raw + rest);
    let behind = raw + rest;
    assert(behind.skip(4 * n as int) =~= rest);
    let got = Seq::new(n, |i: int| pattern_at(behind, 4 * i));
    assert forall|i: int| 0 <= i < n implies got[i] == pcm[i] by {
        lemma_bytes(pcm[i]);
        assert(behind[4 * i] == byte_of(pcm[i], 0));
        assert(behind[4 * i + 1] == byte_of(pcm[i], 1));
        assert(behind[4 * i + 2] == byte_of(pcm[i], 2));
        assert(behind[4 * i + 3] == byte_of(pcm[i], 3));
    }
    assert(got =~= pcm);
}

/// A header is read back as it was written, whatever follows it.
pub proof fn lemma_header(magic: u32, peer_id: u64, tag: u32, rest: Seq<u8>)
    ensures
        take_header(header(magic, peer_id, tag) + rest) == Some(((magic, peer_id, tag), rest)),
{
    let t = varint(tag as nat) + rest;
    let p = varint(peer_id as nat) + t;
    assert(header(magic, peer_id, tag) + rest =~= varint(magic as nat) + p);
    lemma_u32(magic, p);
    lemma_u64(peer_id, t);
    lemma_u32(tag, rest);
}

/// A pair of strings is read back as it was written.
pub proof fn lemma_texts(first: Seq<char>, second: Seq<char>, rest: Seq<u8>)
    requires
        encode_utf8(first).len() <= usize::MAX,
        encode_utf8(second).len() <= usize::MAX,
    ensures
        read_texts(text(first) + text(second) + rest) == Some((first, second)),
{
    assert(text(first) + text(second) + rest =~= text(first) + (text(second) + rest));
    lemma_text(first, text(second) + rest);
    lemma_text(second, rest);
}

/// A voice payload is read back as it was written.
pub proof fn lemma_voice(name: Seq<char>, seq: u32, pcm: Seq<u32>, rest: Seq<u8>)
    requires
        encode_utf8(name).len() <= usize::MAX,
        pcm.len() <= usize::MAX,
    ensures
        read_voice(text(name) + varint(seq as nat) + samples(pcm) + rest) == Some((name, seq, pcm)),
{
    let s2 = samples(pcm) + rest;
    let s1 = varint(seq as nat) + s2;
    assert(text(name) + varint(seq as nat) + samples(pcm) + rest =~= text(name) + s1);
    lemma_text(name, s1);
    lemma_u32(seq, s2);
    lemma_samples(pcm, rest);
}

// ---- what is cut short is not read ------------------------------------------

/// What is read does not depend on what follows it.
proof fn lemma_varint_extends(s: Seq<u8>, room: nat, more: Seq<u8>)
    requires
        take_varint(s, room) is Some,
    ensures
        ({
            let (n, rest) = take_varint(s, room)->0;
            take_varint(s + more, room) == Some((n, rest + more))
        }),
    decreases room,
{
    assert((s + more)[0] == s[0]);
    assert((s + more).skip(1) =~= s.skip(1) + more);
    if s[0] >= 128 {
        lemma_varint_extends(s.skip(1), (room - 1) as nat, more);
    }
}

proof fn lemma_text_extends(s: Seq<u8>, more: Seq<u8>)
    requires
        take_text(s) is Some,
    ensures
        ({
            let (text, rest) = take_text(s)->0;
            take_text(s + more) == Some((text, rest + more))
        }),
{
    lemma_varint_extends(s, (usize::BITS as nat + 6) / 7, more);
    let (n, rest) = take_len(s)->0;
    assert((rest + more).take(n as int) =~= rest.take(n as int));
    assert((rest + more).skip(n as int) =~= rest.skip(n as int) + more);
}

proof fn lemma_samples_extends(s: Seq<u8>, more: Seq<u8>)
    requires
        take_samples(s) is Some,
    ensures
        ({
            let (pcm, rest) = take_samples(s)->0;
            take_samples(s + more) == Some((pcm, rest + more))
        }),
{
    lemma_varint_extends(s, (usize::BITS as nat + 6) / 7, more);
    let (n, rest) = take_len(s)->0;
    let pcm = Seq::new(n, |i: int| pattern_at(rest, 4 * i));
    assert(Seq::new(n, |i: int| pattern_at(rest + more, 4 * i)) =~= pcm);
    assert((rest + more).skip(4 * n as int) =~= rest.skip(4 * n as int) + more);
}

proof fn lemma_split_at(s: Seq<u8>, k: int)
    requires
        0 <= k < s.len(),
    ensures
        s.take(k) + s.skip(k) == s,
        s.skip(k).len() > 0,
{
    assert(s.take(k) + s.skip(k) =~= s);
}

proof fn lemma_u32_cut(n: u32, k: int)
    requires
        0 <= k < varint(n as nat).len(),
    ensures
        take_u32(varint(n as nat).take(k)) is None,
{
    let all = varint(n as nat);
    let s = all.take(k);
    lemma_split_at(all, k);
    lemma_u32(n, Seq::empty());
    assert(all + Seq::<u8>::empty() =~= all);
    if take_u32(s) is Some {
        lemma_varint_extends(s, 5, all.skip(k));
        let (_, rest) = take_varint(s, 5)->0;
        assert((rest + all.skip(k)).len() > 0);
    }
}

proof fn lemma_u64_cut(n: u64, k: int)
    requires
        0 <= k < varint(n as nat).len(),
    ensures
        take_u64(varint(n as nat).take(k)) is None,
{
    let all = varint(n as nat);
    let s = all.take(k);
    lemma_split_at(all, k);
    lemma_u64(n, Seq::empty());
    assert(all + Seq::<u8>::empty() =~= all);
    if take_u64(s) is Some {
        lemma_varint_extends(s, 10, all.skip(k));
        let (_, rest) = take_varint(s, 10)->0;
        assert((rest + all.skip(k)).len() > 0);
    }
}

/// A string that is cut short is not read.
pub proof fn lemma_text_cut(s: Seq<char>, k: int)
    requires
        encode_utf8(s).len() <= usize::MAX,
        0 <= k < text(s).len(),
    ensures
        take_text(text(s).take(k)) is None,
{
    let all = text(s);
    lemma_split_at(all, k);
    lemma_text(s, Seq::empty());
    assert(all + Seq::<u8>::empty() =~= all);
    if take_text(all.take(k)) is Some {
        lemma_text_extends(all.take(k), all.skip(k));
        let (_, rest) = take_text(all.take(k))->0;
        assert((rest + all.skip(k)).len() > 0);
    }
}

/// Samples that are cut short are not read.
pub proof fn lemma_samples_cut(pcm: Seq<u32>, k: int)
    requires
        pcm.len() <= usize::MAX,
        0 <= k < samples(pcm).len(),
    ensures
        take_samples(samples(pcm).take(k)) is None,
{
    let all = samples(pcm);
    lemma_split_at(all, k);
    lemma_samples(pcm, Seq::empty());
    assert(all + Seq::<u8>::empty() =~= all);
    if take_samples(all.take(k)) is Some {
        lemma_samples_extends(all.take(k), all.skip(k));
        let (_, rest) = take_samples(all.take(k))->0;
        assert((rest + all.skip(k)).len() > 0);
    }
}

/// A header that is cut short is not read.
pub proof fn lemma_header_cut(magic: u32, peer_id: u64, tag: u32, k: int)
    requires
        0 <= k < header(magic, peer_id, tag).len(),
    ensures
        take_header(header(magic, peer_id, tag).take(k)) is None,
{
    let a = varint(magic as nat);
    let b = varint(peer_id as nat);
    let c = varint(tag as nat);
    let s = header(magic, peer_id, tag).take(k);
    if k < a.len() {
        assert(s =~= a.take(k));
        lemma_u32_cut(magic, k);
    } else if k < a.len() + b.len() {
        let part = b.take(k - a.len());
        assert(s =~= a + part);
        lemma_u32(magic, part);
        lemma_u64_cut(peer_id, k - a.len());
    } else {
        let part = c.take(k - a.len() - b.len());
        assert(s =~= a + (b + part));
        lemma_u32(magic, b + part);
        lemma_u64(peer_id, part);
        lemma_u32_cut(tag, k - a.len() - b.len());
    }
}

/// A pair of strings that is cut short is not read.
pub proof fn lemma_texts_cut(first: Seq<char>, second: Seq<char>, k: int)
    requires
        encode_utf8(first).len() <= usize::MAX,
        encode_utf8(second).len() <= usize::MAX,
        0 <= k < (text(first) + text(second)).len(),
    ensures
        read_texts((text(first) + text(second)).take(k)) is None,
{
    let a = text(first);
    let b = text(second);
    let s = (a + b).take(k);
    if k < a.len() {
        assert(s =~= a.take(k));
        lemma_text_cut(first, k);
    } else {
        let part = b.take(k - a.len());
        assert(s =~= a + part);
        lemma_text(first, part);
        lemma_text_cut(second, k - a.len());
    }
}

/// A voice payload that is cut short is not read.
pub proof fn lemma_voice_cut(name: Seq<char>, seq: u32, pcm: Seq<u32>, k: int)
    requires
        encode_utf8(name).len() <= usize::MAX,
        pcm.len() <= usize::MAX,
        0 <= k < (text(name) + varint(seq as nat) + samples(pcm)).len(),
    ensures
        read_voice((text(name) + varint(seq as nat) + samples(pcm)).take(k)) is None,
{
    let a = text(name);
    let b = varint(seq as nat);
    let c = samples(pcm);
    let s = (a + b + c).take(k);
    if k < a.len() {
        assert(s =~= a.take(k));
        lemma_text_cut(name, k);
    } else if k < a.len() + b.len() {
        let part = b.take(k - a.len());
        assert(s =~= a + part);
        lemma_text(name, part);
        lemma_u32_cut(seq, k - a.len());
    } else {
        let part = c.take(k - a.len() - b.len());
        assert(s =~= a + (b + part));
        lemma_text(name, b + part);
        lemma_u32(seq, part);
        lemma_samples_cut(pcm, k - a.len() - b.len());
    }
}

} // verus!
