use std::hash::{Hash, Hasher};
use std::ops::Deref;

use vstd::prelude::*;
use vstd::std_specs::cmp::PartialEqSpecImpl;

use crate::text::same_text;

verus! {

/// A string together with a hash of it that was computed once, so that a
/// hash map need not hash the text again on every probe. Two values are
/// equal exactly if their texts are equal: the hash plays no part.
#[derive(Clone, Copy)]
pub struct PreHashedStr<'a> {
    str: &'a str,
    hash: u64,
}

/// Feeds a string to a hasher.
///
/// Trusted: `Hash::hash` of `str` in the standard library. What it does to
/// the hasher is the hasher's business; nothing is claimed of it.
#[verifier::external_body]
fn feed<H: Hasher>(text: &str, hasher: &mut H) {
    text.hash(hasher)
}

/// The hash that a hasher has arrived at.
///
/// Trusted: `Hasher::finish` of the standard library. Nothing is claimed of
/// the value.
#[verifier::external_body]
fn digest<H: Hasher>(hasher: &H) -> u64 {
    hasher.finish()
}

impl<'a> PreHashedStr<'a> {
    /// The text.
    pub closed spec fn text(&self) -> Seq<char> {
        self.str@
    }

    /// The hash kept with the text.
    pub closed spec fn cached_hash(&self) -> u64 {
        self.hash
    }

    /// Keeps `hash` with `str`.
    pub fn from_hash(str: &'a str, hash: u64) -> (hashed: PreHashedStr<'a>)
        ensures
            hashed.text() == str@,
            hashed.cached_hash() == hash,
    {
        PreHashedStr { str, hash }
    }

    /// Hashes `str` with `hasher`, once, and keeps the hash with it.
    pub fn new<H: Hasher>(str: &'a str, hasher: H) -> (hashed: PreHashedStr<'a>)
        ensures
            hashed.text() == str@,
    {
        let mut hasher = hasher;
        feed(str, &mut hasher);
        let hash = digest(&hasher);
        PreHashedStr::from_hash(str, hash)
    }

    /// The string.
    pub fn as_str(&self) -> (str: &'a str)
        ensures
            str@ == self.text(),
    {
        self.str
    }

    /// The hash kept with the string.
    pub fn hash_value(&self) -> (hash: u64)
        ensures
            hash == self.cached_hash(),
    {
        self.hash
    }
}

impl<'a> PartialEq for PreHashedStr<'a> {
    fn eq(&self, other: &Self) -> (same: bool) {
        same_text(self.str, other.str)
    }
}

impl<'a> PartialEqSpecImpl for PreHashedStr<'a> {
    open spec fn obeys_eq_spec() -> bool {
        true
    }

    open spec fn eq_spec(&self, other: &Self) -> bool {
        self.text() == other.text()
    }
}

impl<'a> Eq for PreHashedStr<'a> {

}

impl<'a> Hash for PreHashedStr<'a> {
    /// Writes the cached hash, not the text.
    ///
    /// Trusted: `Hasher::write_u64` of the standard library. Nothing is
    /// claimed of what it does to the hasher.
    #[verifier::external_body]
    fn hash<H: Hasher>(&self, state: &mut H) {
        state.write_u64(self.hash);
    }
}

impl<'a> Deref for PreHashedStr<'a> {
    type Target = str;

    fn deref(&self) -> (str: &str)
        ensures
            str@ == self.text(),
    {
        self.str
    }
}

} // verus!
