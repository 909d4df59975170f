//! The ratchet: the chain of keys by which the versions of a node follow
//! one another.

use vstd::prelude::*;
use vstd::string::StrSliceExecFns;
use skip_ratchet::seek::JumpSize;
use skip_ratchet::{Ratchet, RatchetSeeker};
use crate::cid::HashOutput;

verus! {

#[verifier::external_type_specification]
#[verifier::external_body]
pub struct ExRatchet(Ratchet);

#[verifier::external_type_specification]
#[verifier::external_body]
pub struct ExRatchetSeeker(RatchetSeeker);

/// The ratchet that starts at a seed, with its counters at zero.
pub uninterp spec fn ratchet_zero(seed: Seq<u8>) -> Ratchet;

/// The ratchet one step after `ratchet`.
pub uninterp spec fn ratchet_next(ratchet: Ratchet) -> Ratchet;

/// The key that a ratchet gives at its present step.
pub uninterp spec fn ratchet_key(ratchet: Ratchet) -> HashOutput;

/// The text that a ratchet is written as.
pub uninterp spec fn ratchet_text(ratchet: Ratchet) -> Seq<char>;

/// The ratchet that a text is read as, `None` where the text does not hold
/// one.
pub uninterp spec fn ratchet_of_text(text: Seq<char>) -> Option<Ratchet>;

/// How far a search jumps at first.
#[derive(Clone, Copy, Debug, PartialEq, Eq)]
pub enum Jump {
    /// Not at all.
    Zero,
    /// One step.
    Small,
    /// To the next medium epoch.
    Medium,
    /// To the next large epoch.
    Large,
}

/// The search that starts at a ratchet with a first jump of the given
/// size.
pub uninterp spec fn seeker_start(ratchet: Ratchet, jump: Jump) -> RatchetSeeker;

/// The ratchet that a search asks about next.
pub uninterp spec fn seeker_current(seeker: RatchetSeeker) -> Ratchet;

/// The search after it was told whether the ratchet it asked about was
/// found, and whether it goes on.
pub uninterp spec fn seeker_stepped(seeker: RatchetSeeker, found: bool) -> (RatchetSeeker, bool);

/// Calls `Ratchet::zero` of skip_ratchet.
#[verifier::external_body]
pub(crate) fn zero(seed: HashOutput) -> (r: Ratchet)
    ensures
        r == ratchet_zero(seed@),
{
    Ratchet::zero(seed)
}

/// Calls `Ratchet::inc` of skip_ratchet, which moves the ratchet one step.
#[verifier::external_body]
pub(crate) fn inc(ratchet: &mut Ratchet)
    ensures
        *final(ratchet) == ratchet_next(*old(ratchet)),
{
    ratchet.inc()
}

/// Calls `Ratchet::derive_key` of skip_ratchet.
#[verifier::external_body]
pub(crate) fn derive_key(ratchet: &Ratchet) -> (r: HashOutput)
    ensures
        r == ratchet_key(*ratchet),
{
    ratchet.derive_key()
}

/// Calls `Ratchet::clone`, which skip_ratchet derives: the copy holds what
/// the ratchet holds.
#[verifier::external_body]
pub(crate) fn duplicate(ratchet: &Ratchet) -> (r: Ratchet)
    ensures
        r == *ratchet,
{
    ratchet.clone()
}

/// Whether a text has the form in which a ratchet is written: 133
/// characters, all of them ASCII.
pub open spec fn is_ratchet_text(text: Seq<char>) -> bool {
    text.len() == 133 && vstd::utf8::is_ascii_chars(text)
}

/// The ratchet that a text holds: `None` where the text has not the form
/// in which a ratchet is written, or holds no ratchet.
pub open spec fn ratchet_read(text: Seq<char>) -> Option<Ratchet> {
    if is_ratchet_text(text) {
        ratchet_of_text(text)
    } else {
        None
    }
}

/// Calls `String::from` on the ratchet, by which skip_ratchet writes a
/// ratchet as text: two characters and the base64 form of 98 bytes, 133
/// ASCII characters in all. `Ratchet::try_from` reads the text as the
/// ratchet again.
#[verifier::external_body]
pub(crate) fn to_text(ratchet: &Ratchet) -> (r: String)
    ensures
        r@ == ratchet_text(*ratchet),
        is_ratchet_text(r@),
        ratchet_of_text(r@) == Some(*ratchet),
{
    String::from(ratchet)
}

/// Calls `Ratchet::try_from` of skip_ratchet on the text. The result is the
/// ratchet that was read, `None` where an error was reported. The text has
/// 133 ASCII characters: on 133 bytes that are not all ASCII the outside
/// function may cut the text inside a character and panic.
#[verifier::external_body]
pub(crate) fn from_text(text: &str) -> (r: Option<Ratchet>)
    requires
        is_ratchet_text(text@),
    ensures
        r == ratchet_of_text(text@),
{
    Ratchet::try_from(text.to_string()).ok()
}

/// Reads a ratchet from a text: a text that has not 133 ASCII characters
/// holds none.
pub fn read_ratchet(text: &str) -> (r: Option<Ratchet>)
    ensures
        r == ratchet_read(text@),
{
    if text.is_ascii() && text.unicode_len() == 133 {
        from_text(text)
    } else {
        None
    }
}

/// Calls `RatchetSeeker::new` of skip_ratchet with the `JumpSize` that
/// stands for `jump`.
#[verifier::external_body]
pub(crate) fn seeker_new(ratchet: Ratchet, jump: Jump) -> (r: RatchetSeeker)
    ensures
        r == seeker_start(ratchet, jump),
{
    let size = match jump {
        Jump::Zero => JumpSize::Zero,
        Jump::Small => JumpSize::Small,
        Jump::Medium => JumpSize::Medium,
        Jump::Large => JumpSize::Large,
    };
    RatchetSeeker::new(ratchet, size)
}

/// Calls `RatchetSeeker::current` of skip_ratchet and copies the ratchet.
#[verifier::external_body]
pub(crate) fn current(seeker: &RatchetSeeker) -> (r: Ratchet)
    ensures
        r == seeker_current(*seeker),
{
    seeker.current().clone()
}

/// Calls `RatchetSeeker::step` of skip_ratchet: with `Ordering::Less` where
/// the ratchet that the search asked about was found, with
/// `Ordering::Greater` where it was not. The result tells whether the search
/// goes on.
#[verifier::external_body]
pub(crate) fn step(seeker: &mut RatchetSeeker, found: bool) -> (r: bool)
    ensures
        (*final(seeker), r) == seeker_stepped(*old(seeker), found),
{
    seeker.step(if found { std::cmp::Ordering::Less } else { std::cmp::Ordering::Greater })
}

} // verus!
