//! The duplex that the transcript and its generators are built on: the
//! `Meow` state of the `ck_meow` crate, with what this library relies on of
//! each of its operations.
//!
//! Nothing in this file is proved. Each contract says what the operation
//! does according to the crate's source, over names for the results that
//! only its permutation can give. An operation called with `more` continues
//! the operation that is open; `ck_meow` panics unless that operation is of
//! the same kind, so each contract asks for it.

use ck_meow::Meow;
use vstd::prelude::*;

verus! {

#[verifier::external_type_specification]
#[verifier::external_body]
pub struct ExMeow(ck_meow::Meow);

/// The flags under which `Meow::ad` opens an operation.
pub const OP_AD: u8 = 0x02;

/// The flags under which `Meow::meta_ad` opens an operation.
pub const OP_META_AD: u8 = 0x12;

/// The flags under which `Meow::key` opens an operation.
pub const OP_KEY: u8 = 0x06;

/// The flags under which `Meow::prf` opens an operation.
pub const OP_PRF: u8 = 0x07;

/// The flags under which `Meow::ratchet` opens an operation.
pub const OP_RATCHET: u8 = 0x04;

/// The bytes that a duplex holds: its sponge, its two cursors, its role and
/// the flags of its open operation. Every operation acts on these alone.
pub uninterp spec fn meow_state(m: Meow) -> Seq<u8>;

/// The flags of the operation that a duplex has open.
pub uninterp spec fn meow_open(m: Meow) -> u8;

/// The state that `Meow::new` builds from a protocol string.
pub uninterp spec fn meow_new(protocol: Seq<u8>) -> Seq<u8>;

/// The state that `Meow::ad` leaves.
pub uninterp spec fn meow_ad(state: Seq<u8>, data: Seq<u8>, more: bool) -> Seq<u8>;

/// The state that `Meow::meta_ad` leaves.
pub uninterp spec fn meow_meta_ad(state: Seq<u8>, data: Seq<u8>, more: bool) -> Seq<u8>;

/// The state that `Meow::key` leaves.
pub uninterp spec fn meow_key(state: Seq<u8>, data: Seq<u8>, more: bool) -> Seq<u8>;

/// The state that `Meow::ratchet` leaves.
pub uninterp spec fn meow_ratchet(state: Seq<u8>) -> Seq<u8>;

/// The bytes that `Meow::prf` writes into a buffer of `len` bytes, and the
/// state that it leaves.
pub uninterp spec fn meow_prf(state: Seq<u8>, len: nat, more: bool) -> (Seq<u8>, Seq<u8>);

/// The next `len` bytes that a duplex with an open squeeze gives, one
/// continued squeeze of a single byte after another.
pub open spec fn stream(state: Seq<u8>, len: nat) -> Seq<u8>
    decreases len,
{
    if len == 0 {
        Seq::empty()
    } else {
        let (byte, next) = meow_prf(state, 1, true);
        seq![byte[0]] + stream(next, (len - 1) as nat)
    }
}

/// The state of a duplex with an open squeeze once `len` more bytes are
/// squeezed out of it.
pub open spec fn drained(state: Seq<u8>, len: nat) -> Seq<u8>
    decreases len,
{
    if len == 0 {
        state
    } else {
        drained(meow_prf(state, 1, true).1, (len - 1) as nat)
    }
}

/// `Meow::new`: a fresh state, made from the protocol string alone. It
/// absorbs the string as metadata, which is the operation it leaves open.
pub assume_specification[ Meow::new ](protocol: &[u8]) -> (m: Meow)
    ensures
        meow_state(m) == meow_new(protocol@),
        meow_open(m) == OP_META_AD,
;

/// `Meow::ad`: absorbs `data` as content. The new state depends on the old
/// one, on `data` and on `more`, and on nothing else.
pub assume_specification[ Meow::ad ](m: &mut Meow, data: &[u8], more: bool)
    requires
        more ==> meow_open(*old(m)) == OP_AD,
    ensures
        meow_state(*final(m)) == meow_ad(meow_state(*old(m)), data@, more),
        meow_open(*final(m)) == OP_AD,
;

/// `Meow::meta_ad`: absorbs `data` as metadata. The new state depends on
/// the old one, on `data` and on `more`, and on nothing else.
pub assume_specification[ Meow::meta_ad ](m: &mut Meow, data: &[u8], more: bool)
    requires
        more ==> meow_open(*old(m)) == OP_META_AD,
    ensures
        meow_state(*final(m)) == meow_meta_ad(meow_state(*old(m)), data@, more),
        meow_open(*final(m)) == OP_META_AD,
;

/// `Meow::key`: overwrites part of the state with key material. The new
/// state depends on the old one, on `data` and on `more`, and on nothing
/// else.
pub assume_specification[ Meow::key ](m: &mut Meow, data: &[u8], more: bool)
    requires
        more ==> meow_open(*old(m)) == OP_KEY,
    ensures
        meow_state(*final(m)) == meow_key(meow_state(*old(m)), data@, more),
        meow_open(*final(m)) == OP_KEY,
;

/// `Meow::prf`: fills `data` with bytes squeezed from the state. Without
/// `more` it first opens the squeeze, which is all that a call on an empty
/// buffer does. Then, in either case, it squeezes byte by byte: a call for
/// many bytes does what as many continued calls for one byte do.
pub assume_specification[ Meow::prf ](m: &mut Meow, data: &mut [u8], more: bool)
    requires
        more ==> meow_open(*old(m)) == OP_PRF,
    ensures
        more ==> final(data)@ == stream(meow_state(*old(m)), old(data)@.len()),
        more ==> meow_state(*final(m)) == drained(meow_state(*old(m)), old(data)@.len()),
        !more ==> final(data)@ == stream(
            meow_prf(meow_state(*old(m)), 0, false).1,
            old(data)@.len(),
        ),
        !more ==> meow_state(*final(m)) == drained(
            meow_prf(meow_state(*old(m)), 0, false).1,
            old(data)@.len(),
        ),
        meow_open(*final(m)) == OP_PRF,
;

/// `Meow::ratchet`: overwrites part of the state with zeros. The new state
/// depends on the old one alone.
pub assume_specification[ Meow::ratchet ](m: &mut Meow)
    ensures
        meow_state(*final(m)) == meow_ratchet(meow_state(*old(m))),
        meow_open(*final(m)) == OP_RATCHET,
;

/// `Meow::clone`: a copy that is equal, field for field, to the state it was
/// made from.
pub assume_specification[ <Meow as Clone>::clone ](m: &Meow) -> (c: Meow)
    ensures
        c == *m,
;

} // verus!
