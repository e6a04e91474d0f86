use vstd::prelude::*;

verus! {

/// Whether two strings hold the same text.
///
/// Trusted: this is `==` of `str` in the standard library, which compares
/// the contents of the two strings.
#[verifier::external_body]
pub(crate) fn same_text(a: &str, b: &str) -> (same: bool)
    ensures
        same == (a@ == b@),
{
    a == b
}

/// Gives a string storage that lasts for the rest of the process.
///
/// Trusted: this is `String::leak` of the standard library, which hands back
/// the contents of the string as a reference that is never freed.
#[verifier::external_body]
pub(crate) fn leak_text(text: String) -> (leaked: &'static str)
    ensures
        leaked@ == text@,
{
    text.leak()
}

/// Whether `a` comes before `b` in the order of strings: at the first
/// position where the two differ the character of `a` is the smaller one, or
/// `a` ends there and `b` goes on.
pub open spec fn text_precedes(a: Seq<char>, b: Seq<char>) -> bool
    decreases a.len(),
{
    if b.len() == 0 {
        false
    } else if a.len() == 0 {
        true
    } else if a[0] != b[0] {
        (a[0] as u32) < (b[0] as u32)
    } else {
        text_precedes(a.drop_first(), b.drop_first())
    }
}

/// Whether `a` comes strictly before `b` in the order of strings.
///
/// Trusted: this is `<` of `str` in the standard library, which orders
/// strings lexicographically by their bytes and thereby, as UTF-8 keeps the
/// order of code points, by their characters.
#[verifier::external_body]
pub(crate) fn text_before(a: &str, b: &str) -> (before: bool)
    ensures
        before == text_precedes(a@, b@),
{
    a < b
}

/// The order of strings is transitive.
pub proof fn lemma_text_precedes_transitive(a: Seq<char>, b: Seq<char>, c: Seq<char>)
    requires
        text_precedes(a, b),
        text_precedes(b, c),
    ensures
        text_precedes(a, c),
    decreases a.len(),
{
    if a.len() > 0 && a[0] == b[0] && b[0] == c[0] {
        lemma_text_precedes_transitive(a.drop_first(), b.drop_first(), c.drop_first());
    }
}

/// No text comes before itself.
pub proof fn lemma_text_precedes_irreflexive(a: Seq<char>)
    ensures
        !text_precedes(a, a),
    decreases a.len(),
{
    if a.len() > 0 {
        lemma_text_precedes_irreflexive(a.drop_first());
    }
}

} // verus!
