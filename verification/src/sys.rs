//! Calls into the outside world that the store's logic needs: fresh
//! identifiers, the current time, and Unicode case folding.

use vstd::prelude::*;

verus! {

/// Relies on `uuid::Uuid::new_v4` and `Uuid::as_u128`: draws a random
/// version-4 UUID and hands back its 128-bit value. Nothing can be promised
/// of a random value, so this has no `ensures`.
#[verifier::external_body]
pub(crate) fn fresh_id() -> u128 {
    uuid::Uuid::new_v4().as_u128()
}

/// Relies on `std::time::SystemTime::now`: the current time, converted to
/// whole seconds since the Unix epoch (0 if the clock reads earlier than the
/// epoch). Nothing can be promised of the clock, so this has no `ensures`.
#[verifier::external_body]
pub(crate) fn now_seconds() -> u64 {
    match std::time::SystemTime::now().duration_since(std::time::UNIX_EPOCH) {
        Ok(d) => d.as_secs(),
        Err(_) => 0,
    }
}

/// What `str::to_lowercase` returns: the result depends on the characters of
/// the input alone.
pub uninterp spec fn lower_of(s: Seq<char>) -> Seq<char>;

/// Relies on `str::to_lowercase`: the lowercase mapping of the input,
/// a function of the input characters alone.
#[verifier::external_body]
pub(crate) fn lowercase(s: &str) -> (r: String)
    ensures
        r@ == lower_of(s@),
{
    s.to_lowercase()
}

/// Relies on `str::contains` with a string pattern: whether the needle's
/// characters occur contiguously within the haystack's characters.
#[verifier::external_body]
pub(crate) fn str_contains(hay: &str, needle: &str) -> (r: bool)
    ensures
        r == crate::display::text_contains(hay@, needle@),
{
    hay.contains(needle)
}

} // verus!
