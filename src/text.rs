use vstd::prelude::*;

verus! {

/// ASCII transliteration of a string, as `deunicode::deunicode` computes it.
pub uninterp spec fn deunicode_of(s: Seq<char>) -> Seq<char>;

/// Lowercase form of a string, as `str::to_lowercase` computes it.
pub uninterp spec fn lowercase_of(s: Seq<char>) -> Seq<char>;

/// Jaro-Winkler similarity of two strings, as `strsim::jaro_winkler` computes
/// it, given as the bit pattern of the resulting `f64`.
pub uninterp spec fn jaro_winkler_of(a: Seq<char>, b: Seq<char>) -> u64;

/// Normalized Levenshtein similarity of two strings, as
/// `strsim::normalized_levenshtein` computes it, given as the bit pattern of
/// the resulting `f64`.
pub uninterp spec fn normalized_levenshtein_of(a: Seq<char>, b: Seq<char>) -> u64;

/// The canonical form under which strings are compared.
pub open spec fn normalized(s: Seq<char>) -> Seq<char> {
    lowercase_of(deunicode_of(s))
}

pub open spec fn min3(x: nat, y: nat, z: nat) -> nat {
    if x <= y && x <= z {
        x
    } else if y <= z {
        y
    } else {
        z
    }
}

/// Minimum number of single-character insertions, deletions and
/// substitutions that turn `a` into `b`.
pub open spec fn edit_distance(a: Seq<char>, b: Seq<char>) -> nat
    decreases a.len() + b.len(),
{
    if a.len() == 0 {
        b.len()
    } else if b.len() == 0 {
        a.len()
    } else {
        min3(
            edit_distance(a.drop_last(), b) + 1,
            edit_distance(a, b.drop_last()) + 1,
            edit_distance(a.drop_last(), b.drop_last()) + if a.last() == b.last() {
                0nat
            } else {
                1nat
            },
        )
    }
}

pub proof fn lemma_edit_distance_self(s: Seq<char>)
    ensures
        edit_distance(s, s) == 0,
    decreases s.len(),
{
    if s.len() > 0 {
        lemma_edit_distance_self(s.drop_last());
    }
}

/// Relies on `deunicode::deunicode`: the transliteration depends on the
/// input characters alone.
#[verifier::external_body]
fn transliterate(s: &str) -> (r: String)
    ensures
        r@ == deunicode_of(s@),
{
    deunicode::deunicode(s)
}

/// Relies on `str::to_lowercase`: the result depends on the characters alone.
#[verifier::external_body]
fn lowercase(s: &str) -> (r: String)
    ensures
        r@ == lowercase_of(s@),
{
    s.to_lowercase()
}

/// Folds a string to lowercase ASCII so that comparisons ignore case and
/// diacritics.
pub fn normalize(s: &str) -> (r: String)
    ensures
        r@ == normalized(s@),
{
    let folded = transliterate(s);
    lowercase(folded.as_str())
}

/// Relies on `strsim::jaro_winkler`, whose result depends on its arguments
/// alone and lies between 0.0 and 1.0; on equal strings every match counts
/// and no prefix bonus applies, so the result is exactly 1.0.
#[verifier::external_body]
pub(crate) fn jaro_winkler_bits(a: &str, b: &str) -> (r: u64)
    ensures
        r == jaro_winkler_of(a@, b@),
        r <= crate::score::ONE_BITS,
        a@ == b@ ==> r == crate::score::ONE_BITS,
{
    strsim::jaro_winkler(a, b).to_bits()
}

/// Relies on `strsim::normalized_levenshtein`, which returns 1.0 for two empty
/// strings and otherwise `1.0 - distance / max(len(a), len(b))` over
/// characters; the distance is symmetric and at most the longer length, so
/// the result is symmetric, lies between 0.0 and 1.0, and is 1.0 on equal
/// strings.
#[verifier::external_body]
pub(crate) fn normalized_levenshtein_bits(a: &str, b: &str) -> (r: u64)
    ensures
        r == normalized_levenshtein_of(a@, b@),
        r == normalized_levenshtein_of(b@, a@),
        r <= crate::score::ONE_BITS,
        a@ == b@ ==> r == crate::score::ONE_BITS,
{
    strsim::normalized_levenshtein(a, b).to_bits()
}

/// Relies on `strsim::levenshtein`: the minimum number of single-character
/// insertions, deletions and substitutions that turn `a` into `b`.
#[verifier::external_body]
pub(crate) fn char_edit_distance(a: &str, b: &str) -> (r: usize)
    ensures
        r as nat == edit_distance(a@, b@),
{
    strsim::levenshtein(a, b)
}

} // verus!
