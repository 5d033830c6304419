//! The random index source: raw words from the operating system's entropy pool,
//! reduced to a pivot index in a given range.
use vstd::prelude::*;

verus! {

#[verifier::external_type_specification]
#[verifier::external_body]
pub struct ExEntropyError(getrandom::Error);

/// Why a selection produced no value.
#[derive(Debug, Clone, Copy, PartialEq, Eq, Structural)]
pub enum SelectError {
    /// The sequence holds no values.
    EmptyInput,
    /// The entropy source could not produce random bytes.
    EntropyUnavailable,
}

/// Relies on getrandom::getrandom: it fills the buffer with bytes from the
/// operating system's entropy source, or returns its error. Nothing is known of
/// the word that comes back.
#[verifier::external_body]
fn entropy_word() -> (r: Result<u64, getrandom::Error>) {
    let mut buf = [0u8; 8];
    getrandom::getrandom(&mut buf)?;
    Ok(u64::from_ne_bytes(buf))
}

/// The index that `pivot_index` draws from the random word `word`: the word
/// reduced modulo `upper`, raised to `lower` where it falls below.
pub open spec fn pivot_of(word: int, lower: int, upper: int) -> int {
    if word % upper < lower {
        lower
    } else {
        word % upper
    }
}

/// Maps a random word to an index in `[lower, upper)`.
///
/// The word is reduced modulo `upper` and then raised to `lower`, so every
/// residue below `lower` lands on `lower` itself: the draw leans towards the
/// lower bound of the range whenever `lower > 0`.
pub fn pivot_index(word: u64, lower: usize, upper: usize) -> (r: usize)
    requires
        lower < upper,
    ensures
        r == pivot_of(word as int, lower as int, upper as int),
        lower <= r < upper,
{
    let m = word % (upper as u64);
    if m < lower as u64 {
        lower
    } else {
        m as usize
    }
}

/// Draws an index in `[lower, upper)` from the entropy source.
pub fn rand(lower: usize, upper: usize) -> (r: Result<usize, SelectError>)
    requires
        lower < upper,
    ensures
        r matches Ok(i) ==> lower <= i < upper,
        r matches Err(e) ==> e == SelectError::EntropyUnavailable,
{
    match entropy_word() {
        Ok(word) => Ok(pivot_index(word, lower, upper)),
        Err(_) => Err(SelectError::EntropyUnavailable),
    }
}

} // verus!
