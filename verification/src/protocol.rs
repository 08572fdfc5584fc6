//! Wire protocol shared by all peers on the multicast group.

use crate::wire;
use vstd::prelude::*;
use vstd::utf8::*;

verus! {

/// Magic number, so that stray datagrams from other programs are ignored.
pub const MAGIC: u32 = 0x4C41_4E43;

/// Voice is captured and played back at this fixed rate, mono.
pub const SAMPLE_RATE: u32 = 48_000;

/// A single datagram: a small header followed by a payload.
#[derive(Debug, Clone, PartialEq)]
pub struct Envelope {
    pub magic: u32,
    /// Random per-process id, by which a process drops its own looped-back packets.
    pub peer_id: u64,
    pub payload: Payload,
}

#[derive(Debug, Clone, PartialEq)]
pub enum Payload {
    /// Announce presence, or keep it alive.
    Hello { name: String },
    /// Graceful departure.
    Bye { name: String },
    /// Text chat line.
    Text { name: String, body: String },
    /// An emote or action ("/me waves").
    Emote { name: String, action: String },
    /// One frame of mono PCM at `SAMPLE_RATE`. Each sample is held as the bit
    /// pattern of its 32-bit float.
    Voice { name: String, seq: u32, pcm: Vec<u32> },
}

#[verifier::ext_equal]
pub struct EnvelopeView {
    pub magic: u32,
    pub peer_id: u64,
    pub payload: PayloadView,
}

#[verifier::ext_equal]
pub enum PayloadView {
    Hello { name: Seq<char> },
    Bye { name: Seq<char> },
    Text { name: Seq<char>, body: Seq<char> },
    Emote { name: Seq<char>, action: Seq<char> },
    Voice { name: Seq<char>, seq: u32, pcm: Seq<u32> },
}

impl View for Payload {
    type V = PayloadView;

    open spec fn view(&self) -> PayloadView {
        match *self {
            Payload::Hello { name } => PayloadView::Hello { name: name@ },
            Payload::Bye { name } => PayloadView::Bye { name: name@ },
            Payload::Text { name, body } => PayloadView::Text { name: name@, body: body@ },
            Payload::Emote { name, action } => PayloadView::Emote { name: name@, action: action@ },
            Payload::Voice { name, seq, pcm } => PayloadView::Voice { name: name@, seq, pcm: pcm@ },
        }
    }
}

impl View for Envelope {
    type V = EnvelopeView;

    open spec fn view(&self) -> EnvelopeView {
        EnvelopeView { magic: self.magic, peer_id: self.peer_id, payload: self.payload@ }
    }
}

impl EnvelopeView {
    /// The bytes of the datagram.
    pub open spec fn bytes(self) -> Seq<u8> {
        match self.payload {
            PayloadView::Hello { name } => wire::header(self.magic, self.peer_id, 0) + wire::text(name),
            PayloadView::Bye { name } => wire::header(self.magic, self.peer_id, 1) + wire::text(name),
            PayloadView::Text { name, body } => wire::header(self.magic, self.peer_id, 2)
                + wire::text(name) + wire::text(body),
            PayloadView::Emote { name, action } => wire::header(self.magic, self.peer_id, 3)
                + wire::text(name) + wire::text(action),
            PayloadView::Voice { name, seq, pcm } => wire::header(self.magic, self.peer_id, 4)
                + wire::text(name) + wire::varint(seq as nat) + wire::samples(pcm),
        }
    }

    /// Every string and every run of samples has a length that fits a `usize`,
    /// as those in memory do.
    pub open spec fn fits(self) -> bool {
        match self.payload {
            PayloadView::Hello { name } => encode_utf8(name).len() <= usize::MAX,
            PayloadView::Bye { name } => encode_utf8(name).len() <= usize::MAX,
            PayloadView::Text { name, body } => encode_utf8(name).len() <= usize::MAX
                && encode_utf8(body).len() <= usize::MAX,
            PayloadView::Emote { name, action } => encode_utf8(name).len() <= usize::MAX
                && encode_utf8(action).len() <= usize::MAX,
            PayloadView::Voice { name, seq: _, pcm } => encode_utf8(name).len() <= usize::MAX
                && pcm.len() <= usize::MAX,
        }
    }
}

/// The payload of kind `tag` that `s` starts with.
pub open spec fn parse_payload(tag: u32, s: Seq<u8>) -> Option<PayloadView> {
    if tag == 0 {
        match wire::read_text(s) {
            Some(name) => Some(PayloadView::Hello { name }),
            None => None,
        }
    } else if tag == 1 {
        match wire::read_text(s) {
            Some(name) => Some(PayloadView::Bye { name }),
            None => None,
        }
    } else if tag == 2 {
        match wire::read_texts(s) {
            Some((name, body)) => Some(PayloadView::Text { name, body }),
            None => None,
        }
    } else if tag == 3 {
        match wire::read_texts(s) {
            Some((name, action)) => Some(PayloadView::Emote { name, action }),
            None => None,
        }
    } else if tag == 4 {
        match wire::read_voice(s) {
            Some((name, seq, pcm)) => Some(PayloadView::Voice { name, seq, pcm }),
            None => None,
        }
    } else {
        None
    }
}

/// The envelope that a datagram holds, if it is one of ours: it starts with a
/// header with the right magic number, and a payload of the announced kind
/// follows. Bytes behind the payload are ignored.
pub open spec fn parse_envelope(s: Seq<u8>) -> Option<EnvelopeView> {
    match wire::take_header(s) {
        Some(((magic, peer_id, tag), rest)) => match parse_payload(tag, rest) {
            Some(payload) => if magic == MAGIC {
                Some(EnvelopeView { magic, peer_id, payload })
            } else {
                None
            },
            None => None,
        },
        None => None,
    }
}

impl Envelope {
    pub fn new(peer_id: u64, payload: Payload) -> (r: Self)
        ensures
            r.magic == MAGIC,
            r.peer_id == peer_id,
            r.payload == payload,
    {
        Envelope { magic: MAGIC, peer_id, payload }
    }

    /// The datagram for this envelope.
    pub fn encode(&self) -> (r: Vec<u8>)
        ensures
            r@ == self@.bytes(),
    {
        match &self.payload {
            Payload::Hello { name } => wire::encode_named(self.magic, self.peer_id, 0, name.as_str()),
            Payload::Bye { name } => wire::encode_named(self.magic, self.peer_id, 1, name.as_str()),
            Payload::Text { name, body } => wire::encode_texts(
                self.magic,
                self.peer_id,
                2,
                name.as_str(),
                body.as_str(),
            ),
            Payload::Emote { name, action } => wire::encode_texts(
                self.magic,
                self.peer_id,
                3,
                name.as_str(),
                action.as_str(),
            ),
            Payload::Voice { name, seq, pcm } => wire::encode_voice(
                self.magic,
                self.peer_id,
                4,
                name.as_str(),
                *seq,
                pcm,
            ),
        }
    }

    /// The envelope in a datagram, or `None` if the datagram is not ours.
    pub fn decode(bytes: &[u8]) -> (r: Option<Self>)
        ensures
            match r {
                Some(env) => parse_envelope(bytes@) == Some(env@),
                None => parse_envelope(bytes@) is None,
            },
    {
        let ((magic, peer_id, tag), rest) = match wire::decode_header(bytes) {
            Some(found) => found,
            None => return None,
        };
        let payload = match decode_payload(tag, rest) {
            Some(payload) => payload,
            None => return None,
        };
        if magic != MAGIC {
            return None;
        }
        Some(Envelope { magic, peer_id, payload })
    }
}

fn decode_payload(tag: u32, bytes: &[u8]) -> (r: Option<Payload>)
    ensures
        match r {
            Some(payload) => parse_payload(tag, bytes@) == Some(payload@),
            None => parse_payload(tag, bytes@) is None,
        },
{
    if tag == 0 || tag == 1 {
        match wire::decode_named(bytes) {
            Some(name) => if tag == 0 {
                Some(Payload::Hello { name })
            } else {
                Some(Payload::Bye { name })
            },
            None => None,
        }
    } else if tag == 2 || tag == 3 {
        match wire::decode_texts(bytes) {
            Some((name, second)) => if tag == 2 {
                Some(Payload::Text { name, body: second })
            } else {
                Some(Payload::Emote { name, action: second })
            },
            None => None,
        }
    } else if tag == 4 {
        match wire::decode_voice(bytes) {
            Some((name, seq, pcm)) => Some(Payload::Voice { name, seq, pcm }),
            None => None,
        }
    } else {
        None
    }
}

// ---- laws -------------------------------------------------------------------

/// Decoding gives back what was encoded, whatever bytes follow it in the
/// datagram.
pub proof fn decode_inverts_encode(env: EnvelopeView, behind: Seq<u8>)
    requires
        env.magic == MAGIC,
        env.fits(),
    ensures
        parse_envelope(env.bytes()) == Some(env),
        parse_envelope(env.bytes() + behind) == Some(env),
{
    lemma_decode(env, behind);
    lemma_decode(env, Seq::empty());
    assert(env.bytes() + Seq::<u8>::empty() =~= env.bytes());
}

/// A datagram with another magic number is never taken for ours.
pub proof fn foreign_magic_is_rejected(env: EnvelopeView, behind: Seq<u8>)
    requires
        env.magic != MAGIC,
        env.fits(),
    ensures
        parse_envelope(env.bytes() + behind) is None,
{
    lemma_decode(env, behind);
}

/// Whatever is decoded carries our magic number.
pub proof fn decoded_is_ours(bytes: Seq<u8>)
    requires
        parse_envelope(bytes) is Some,
    ensures
        parse_envelope(bytes)->0.magic == MAGIC,
{
}

/// Two envelopes with the same bytes are the same envelope.
pub proof fn encoding_is_injective(a: EnvelopeView, b: EnvelopeView)
    requires
        a.magic == MAGIC,
        b.magic == MAGIC,
        a.fits(),
        b.fits(),
        a.bytes() == b.bytes(),
    ensures
        a == b,
{
    decode_inverts_encode(a, Seq::empty());
    decode_inverts_encode(b, Seq::empty());
}

proof fn lemma_decode(env: EnvelopeView, behind: Seq<u8>)
    requires
        env.fits(),
    ensures
        parse_envelope(env.bytes() + behind) == if env.magic == MAGIC {
            Some(env)
        } else {
            None
        },
{
    let m = env.magic;
    let p = env.peer_id;
    let all = env.bytes() + behind;
    match env.payload {
        PayloadView::Hello { name } => {
            let rest = wire::text(name) + behind;
            assert(all =~= wire::header(m, p, 0) + rest);
            wire::lemma_header(m, p, 0, rest);
            wire::lemma_text(name, behind);
        },
        PayloadView::Bye { name } => {
            let rest = wire::text(name) + behind;
            assert(all =~= wire::header(m, p, 1) + rest);
            wire::lemma_header(m, p, 1, rest);
            wire::lemma_text(name, behind);
        },
        PayloadView::Text { name, body } => {
            let rest = wire::text(name) + wire::text(body) + behind;
            assert(all =~= wire::header(m, p, 2) + rest);
            wire::lemma_header(m, p, 2, rest);
            wire::lemma_texts(name, body, behind);
        },
        PayloadView::Emote { name, action } => {
            let rest = wire::text(name) + wire::text(action) + behind;
            assert(all =~= wire::header(m, p, 3) + rest);
            wire::lemma_header(m, p, 3, rest);
            wire::lemma_texts(name, action, behind);
        },
        PayloadView::Voice { name, seq, pcm } => {
            let rest = wire::text(name) + wire::varint(seq as nat) + wire::samples(pcm) + behind;
            assert(all =~= wire::header(m, p, 4) + rest);
            wire::lemma_header(m, p, 4, rest);
            wire::lemma_voice(name, seq, pcm, behind);
        },
    }
}

/// A datagram that is cut short, wherever, is rejected.
pub proof fn cut_datagrams_are_rejected(env: EnvelopeView, k: int)
    requires
        env.fits(),
        0 <= k < env.bytes().len(),
    ensures
        parse_envelope(env.bytes().take(k)) is None,
{
    let m = env.magic;
    let p = env.peer_id;
    let s = env.bytes().take(k);
    let (tag, body): (u32, Seq<u8>) = match env.payload {
        PayloadView::Hello { name } => (0, wire::text(name)),
        PayloadView::Bye { name } => (1, wire::text(name)),
        PayloadView::Text { name, body } => (2, wire::text(name) + wire::text(body)),
        PayloadView::Emote { name, action } => (3, wire::text(name) + wire::text(action)),
        PayloadView::Voice { name, seq, pcm } => (
            4,
            wire::text(name) + wire::varint(seq as nat) + wire::samples(pcm),
        ),
    };
    let head = wire::header(m, p, tag);
    assert(env.bytes() =~= head + body);
    if k < head.len() {
        assert(s =~= head.take(k));
        wire::lemma_header_cut(m, p, tag, k);
    } else {
        let at = k - head.len();
        assert(s =~= head + body.take(at));
        wire::lemma_header(m, p, tag, body.take(at));
        match env.payload {
            PayloadView::Hello { name } => wire::lemma_text_cut(name, at),
            PayloadView::Bye { name } => wire::lemma_text_cut(name, at),
            PayloadView::Text { name, body } => wire::lemma_texts_cut(name, body, at),
            PayloadView::Emote { name, action } => wire::lemma_texts_cut(name, action, at),
            PayloadView::Voice { name, seq, pcm } => wire::lemma_voice_cut(name, seq, pcm, at),
        }
    }
}

/// A datagram of a kind that there is not is rejected, whatever it holds.
pub proof fn unknown_kinds_are_rejected(magic: u32, peer_id: u64, tag: u32, rest: Seq<u8>)
    requires
        tag > 4,
    ensures
        parse_envelope(wire::header(magic, peer_id, tag) + rest) is None,
{
    wire::lemma_header(magic, peer_id, tag, rest);
}

/// What is read of a datagram is ours and comes from the peer that its header
/// names.
pub proof fn datagrams_name_their_sender(magic: u32, peer_id: u64, tag: u32, rest: Seq<u8>)
    requires
        parse_envelope(wire::header(magic, peer_id, tag) + rest) is Some,
    ensures
        magic == 0x4C41_4E43,
        parse_envelope(wire::header(magic, peer_id, tag) + rest)->0.peer_id == peer_id,
{
    wire::lemma_header(magic, peer_id, tag, rest);
}

} // verus!
