//! The transcript: what it absorbs for a message and for a challenge, and in
//! which order.

use crate::duplex::{
    drained, meow_ad, meow_meta_ad, meow_new, meow_open, meow_prf, meow_ratchet, meow_state,
    stream, OP_META_AD,
};
use crate::rng::{seeded, MeowRng, SEED_SIZE};
use crate::varint::{encoding, lemma_encoding_delimits_itself, serialize_len};
use ck_meow::Meow;
use vstd::prelude::*;

verus! {

/// The state of a transcript that was just made for `protocol`: the duplex
/// for that protocol, ratcheted once.
pub open spec fn started(protocol: Seq<u8>) -> Seq<u8> {
    meow_ratchet(meow_new(protocol))
}

/// The state after the frame of a field is absorbed into `state`: the
/// encoded length of `label`, then `label`, then the encoded length `len`
/// of what the label announces, all three as one run of metadata.
pub open spec fn framed(state: Seq<u8>, label: Seq<u8>, len: nat) -> Seq<u8> {
    let opened = meow_meta_ad(state, encoding(label.len()), false);
    let labelled = meow_meta_ad(opened, label, true);
    meow_meta_ad(labelled, encoding(len), true)
}

/// The state after a message is absorbed into `state`: its frame, then
/// `data` as content, in an operation of its own.
pub open spec fn with_message(state: Seq<u8>, label: Seq<u8>, data: Seq<u8>) -> Seq<u8> {
    meow_ad(framed(state, label, data.len()), data, false)
}

/// The state in which a challenge for `label` squeezes its seed out of
/// `state`: the frame of an empty field is absorbed, and a squeeze opened.
pub open spec fn challenge_opened(state: Seq<u8>, label: Seq<u8>) -> Seq<u8> {
    meow_prf(framed(state, label, 0), 0, false).1
}

/// The seed that a challenge for `label` draws from `state`.
pub open spec fn challenge_seed(state: Seq<u8>, label: Seq<u8>) -> Seq<u8> {
    stream(challenge_opened(state, label), SEED_SIZE as nat)
}

/// The state in which a challenge for `label` leaves a transcript that was
/// in `state`.
pub open spec fn after_challenge(state: Seq<u8>, label: Seq<u8>) -> Seq<u8> {
    drained(challenge_opened(state, label), SEED_SIZE as nat)
}

/// Represents a transcript.
///
/// A transcript is, in essence, a way of making a public coin protocol
/// non-interactive. The transcript can absorb messages, and then produce
/// challenges based on the messages in response.
///
/// Adding messages and extracting challenges can be mixed freely.
pub struct Transcript {
    meow: Meow,
}

impl View for Transcript {
    type V = Seq<u8>;

    /// The state of the transcript's duplex.
    closed spec fn view(&self) -> Seq<u8> {
        meow_state(self.meow)
    }
}

impl Transcript {
    /// Return a cloned version of this transcript.
    fn cloned(&self) -> (copy: Self)
        ensures
            copy@ == self@,
    {
        Self { meow: self.meow.clone() }
    }

    /// Initialize a new transcript.
    ///
    /// This also takes a string describing the protocol the transcript is
    /// being used for. This is used for domain separation.
    pub fn new(protocol: &'static [u8]) -> (transcript: Self)
        ensures
            transcript@ == started(protocol@),
    {
        let mut meow = Meow::new(protocol);
        // To prevent potential shenanigans if the protocol string overlaps
        // with subsequent metadata.
        meow.ratchet();
        Self { meow }
    }

    /// Add a message to this transcript.
    ///
    /// You can also add a label to distinguish this message from others.
    ///
    /// The labels used for different objects in a transcript should, ideally,
    /// be unique. It's ok if some labels are prefixes of others.
    pub fn message(&mut self, label: &'static [u8], data: &[u8])
        ensures
            final(self)@ == with_message(old(self)@, label@, data@),
    {
        self.feed_meta_len(label.len(), false);
        self.meow.meta_ad(label, true);
        self.feed_meta_len(data.len(), true);
        self.meow.ad(data, false);
    }

    /// Generate a challenge given the transcript so far.
    ///
    /// This challenge takes the form of an infinite stream of bytes, represented
    /// as an RNG.
    pub fn challenge(&mut self, label: &'static [u8]) -> (rng: MeowRng)
        ensures
            rng.wf(),
            rng@ == seeded(challenge_seed(old(self)@, label@)),
            final(self)@ == after_challenge(old(self)@, label@),
    {
        let mut seed: [u8; SEED_SIZE] = [0u8; SEED_SIZE];
        self.feed_meta_len(label.len(), false);
        self.meow.meta_ad(label, true);
        self.feed_meta_len(0, true);
        self.meow.prf(&mut seed, false);
        MeowRng::new(&seed)
    }

    /// Create a forked version of this transcript.
    ///
    /// Forking without domain separation is intentionally not possible, to prevent
    /// potential misuse where the same randomness is generated in different contexts.
    pub fn forked(&self, label: &'static [u8], data: &[u8]) -> (fork: Self)
        ensures
            fork@ == with_message(self@, label@, data@),
    {
        let mut out = self.cloned();
        out.message(label, data);
        out
    }

    /// Feed in a length as metadata.
    fn feed_meta_len(&mut self, len: usize, more: bool)
        requires
            more ==> meow_open(old(self).meow) == OP_META_AD,
        ensures
            final(self)@ == meow_meta_ad(old(self)@, encoding(len as nat), more),
            meow_open(final(self).meow) == OP_META_AD,
    {
        let (data, size) = serialize_len(len);
        self.meow.meta_ad(&data[0..size], more);
    }
}

/// One call on a transcript that changes its state.
pub enum Call {
    /// `message`, with its label and its data.
    Message { label: Seq<u8>, data: Seq<u8> },
    /// `challenge`, with its label.
    Challenge { label: Seq<u8> },
}

/// The state in which `call` leaves a transcript that was in `state`.
pub open spec fn after(state: Seq<u8>, call: Call) -> Seq<u8> {
    match call {
        Call::Message { label, data } => with_message(state, label, data),
        Call::Challenge { label } => after_challenge(state, label),
    }
}

/// The state of a transcript that was made for `protocol` and has seen
/// `calls`, in their order.
pub open spec fn replayed(protocol: Seq<u8>, calls: Seq<Call>) -> Seq<u8>
    decreases calls.len(),
{
    if calls.len() == 0 {
        started(protocol)
    } else {
        after(replayed(protocol, calls.drop_last()), calls.last())
    }
}

/// The first `len` bytes of the challenge that a transcript in `state`
/// hands out for `label`.
pub open spec fn challenge_bytes(state: Seq<u8>, label: Seq<u8>, len: nat) -> Seq<u8> {
    stream(seeded(challenge_seed(state, label)), len)
}

/// A transcript is determined by what it was made for and what it has seen:
/// two transcripts made for the same protocol that have seen the same calls
/// are in the same state, and a challenge for the same label then gives the
/// same bytes from both, however many are read.
pub proof fn lemma_replay_is_deterministic(
    protocol: Seq<u8>,
    calls: Seq<Call>,
    other_protocol: Seq<u8>,
    other_calls: Seq<Call>,
    label: Seq<u8>,
    len: nat,
)
    requires
        protocol == other_protocol,
        calls == other_calls,
    ensures
        replayed(protocol, calls) == replayed(other_protocol, other_calls),
        challenge_bytes(replayed(protocol, calls), label, len) == challenge_bytes(
            replayed(other_protocol, other_calls),
            label,
            len,
        ),
{
}

/// The bytes that a message hands to the duplex, in the order in which they
/// are absorbed: the encoded length of the label, the label, the encoded
/// length of the data, the data.
pub open spec fn message_bytes(label: Seq<u8>, data: Seq<u8>) -> Seq<u8> {
    encoding(label.len()) + label + encoding(data.len()) + data
}

/// The bytes of a message say where the label ends and where the data ends:
/// if two messages, each followed by any bytes at all, give the same bytes,
/// then they have the same label and the same data. So two messages that
/// differ in their label or in their data, as the arguments of two forks
/// may, never hand the same bytes to the duplex, and neither hands it a
/// prefix of what the other does.
pub proof fn lemma_message_bytes_delimit_themselves(
    label: Seq<u8>,
    data: Seq<u8>,
    rest: Seq<u8>,
    other_label: Seq<u8>,
    other_data: Seq<u8>,
    other_rest: Seq<u8>,
)
    requires
        message_bytes(label, data) + rest == message_bytes(other_label, other_data) + other_rest,
    ensures
        label == other_label,
        data == other_data,
        rest == other_rest,
{
    let tail = encoding(data.len()) + (data + rest);
    let other_tail = encoding(other_data.len()) + (other_data + other_rest);
    assert(message_bytes(label, data) + rest == encoding(label.len()) + (label + tail));
    assert(message_bytes(other_label, other_data) + other_rest == encoding(other_label.len()) + (
    other_label + other_tail));
    lemma_encoding_delimits_itself(
        label.len(),
        other_label.len(),
        label + tail,
        other_label + other_tail,
    );
    assert(label == (label + tail).subrange(0, label.len() as int));
    assert(other_label == (other_label + other_tail).subrange(0, label.len() as int));
    assert(tail == (label + tail).skip(label.len() as int));
    assert(other_tail == (other_label + other_tail).skip(label.len() as int));
    lemma_encoding_delimits_itself(
        data.len(),
        other_data.len(),
        data + rest,
        other_data + other_rest,
    );
    assert(data == (data + rest).subrange(0, data.len() as int));
    assert(other_data == (other_data + other_rest).subrange(0, data.len() as int));
    assert(rest == (data + rest).skip(data.len() as int));
    assert(other_rest == (other_data + other_rest).skip(data.len() as int));
}

} // verus!
