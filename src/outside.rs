//! What this library takes from other crates: reading CSV, and drawing
//! surplus ballots at random.
use vstd::prelude::*;

use rand::rngs::StdRng;

use crate::election::ballots_of;
use crate::tally::is_draw;

verus! {

#[verifier::external_type_specification]
#[verifier::external_body]
pub struct ExCsvError(csv::Error);

#[verifier::external_type_specification]
#[verifier::external_body]
pub struct ExStdRng(StdRng);

/// The records that `csv` reads from `bytes`, each as its fields, or `None`
/// when it cannot read them.
pub uninterp spec fn csv_records(bytes: Seq<u8>) -> Option<Seq<Seq<Seq<char>>>>;

/// Relies on csv's `Reader::records`, configured with no header row and
/// records of any length: every record of `bytes` in order, or the first
/// error met. What it reads depends on the bytes alone.
#[verifier::external_body]
pub(crate) fn read_records(bytes: &[u8]) -> (r: Result<Vec<Vec<String>>, csv::Error>)
    ensures
        match r {
            Ok(rows) => csv_records(bytes@) == Some(ballots_of(rows@)),
            Err(_) => csv_records(bytes@) is None,
        },
{
    csv::ReaderBuilder::new()
        .has_headers(false)
        .flexible(true)
        .from_reader(bytes)
        .records()
        .map(|rec| rec.map(|rec| rec.iter().map(String::from).collect()))
        .collect()
}

/// Relies on `rand::seq::index::sample`: `amount` distinct indices below
/// `length`. It panics when `amount > length`, and its debug check asks for
/// `amount < length` on its path for lengths past `u32::MAX`.
#[verifier::external_body]
pub(crate) fn sample_positions(rng: &mut StdRng, length: usize, amount: usize) -> (picks: Vec<usize>)
    requires
        amount < length,
    ensures
        is_draw(picks@, length as nat, amount as nat),
{
    rand::seq::index::sample(rng, length, amount).into_vec()
}

/// Whether `c` is an ASCII letter or digit.
pub open spec fn is_alphanumeric(c: char) -> bool {
    ('a' <= c && c <= 'z') || ('A' <= c && c <= 'Z') || ('0' <= c && c <= '9')
}

/// Relies on rand's `Alphanumeric` distribution: one of `A`-`Z`, `a`-`z`
/// and `0`-`9`, as a character.
#[verifier::external_body]
pub(crate) fn alphanumeric(rng: &mut StdRng) -> (c: char)
    ensures
        is_alphanumeric(c),
{
    char::from(rand::Rng::sample(rng, rand::distributions::Alphanumeric))
}

/// What `str::to_lowercase` makes of `s`.
pub uninterp spec fn lowercase_of(s: Seq<char>) -> Seq<char>;

/// Relies on `str::to_lowercase`: the lowercase form of `s`, which depends
/// on its characters alone.
#[verifier::external_body]
pub(crate) fn to_lowercase(s: &str) -> (r: String)
    ensures
        r@ == lowercase_of(s@),
{
    s.to_lowercase()
}

/// Relies on `String::push`: appends `c` to the end of `s`.
#[verifier::external_body]
pub(crate) fn push_char(s: &mut String, c: char)
    ensures
        final(s)@ == old(s)@.push(c),
{
    s.push(c)
}

/// Relies on `SeedableRng::from_rng` over `rand::rngs::OsRng`: a generator
/// seeded by the operating system, or `None` when it has no entropy to give.
#[verifier::external_body]
pub(crate) fn os_seeded_rng() -> (r: Option<StdRng>) {
    <StdRng as rand::SeedableRng>::from_rng(rand::rngs::OsRng).ok()
}

} // verus!
