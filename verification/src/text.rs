//! Text handling: characters of a string, and display width measured in
//! grapheme clusters.

use vstd::prelude::*;

verus! {

/// The characters of a string, in order.
pub fn str_chars(s: &str) -> (r: Vec<char>)
    ensures
        r@ == s@,
{
    let mut r: Vec<char> = Vec::new();
    for c in it: s.chars()
        invariant
            it.seq() == s@,
            r@ == s@.take(it.index() as int),
    {
        r.push(c);
    }
    assert(r@ =~= s@);
    r
}

/// The number of extended grapheme clusters that the characters `s` form:
/// the text's display width in terminal cells. The clusters partition the
/// text and each holds at least one character, so the count is at most
/// `s.len()` and is zero exactly for empty text.
pub uninterp spec fn grapheme_len(s: Seq<char>) -> int;

/// Relies on unicode_segmentation's `UnicodeSegmentation::graphemes`: the
/// extended grapheme clusters of the text, a function of the characters
/// alone; the count of clusters is at most the count of characters, and is
/// zero exactly when the text is empty.
#[verifier::external_body]
pub fn grapheme_count(v: &Vec<char>) -> (r: usize)
    ensures
        r as int == grapheme_len(v@),
        r <= v@.len(),
        v@.len() == 0 ==> r == 0,
        v@.len() > 0 ==> r > 0,
{
    let s: String = v.iter().collect();
    unicode_segmentation::UnicodeSegmentation::graphemes(s.as_str(), true).count()
}

} // verus!
