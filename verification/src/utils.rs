//! Turning a string into the character sequence that the metrics compare.

use vstd::prelude::*;
use vstd::string::*;
use vstd::std_specs::iter::IteratorSpec;

verus! {

/// The lowercase form of a character sequence, as `str::to_lowercase` gives it.
pub uninterp spec fn lowercase_of(s: Seq<char>) -> Seq<char>;

/// Whether a character has the Unicode property `White_Space`, as
/// `char::is_whitespace` decides it.
pub uninterp spec fn is_unicode_whitespace(c: char) -> bool;

/// The predicate that keeps a character when whitespace is removed.
pub open spec fn keeps(c: char) -> bool {
    !is_unicode_whitespace(c)
}

/// The character sequence that stands for `s` in a comparison: case is folded
/// first unless the comparison is case sensitive, then whitespace is dropped
/// if asked for.
pub open spec fn normalized(s: Seq<char>, case_sensitive: bool, remove_whitespace: bool) -> Seq<
    char,
> {
    let folded = if case_sensitive {
        s
    } else {
        lowercase_of(s)
    };
    if remove_whitespace {
        folded.filter(|c: char| keeps(c))
    } else {
        folded
    }
}

/// Calls `str::to_lowercase`. The contract only gives the result its name:
/// the lowercase form depends on the characters of `word` alone.
#[verifier::external_body]
fn lowercase(word: &str) -> (r: String)
    ensures
        r@ == lowercase_of(word@),
{
    word.to_lowercase()
}

/// The uppercase form of a character sequence, as `str::to_uppercase` gives it.
pub uninterp spec fn uppercase_of(s: Seq<char>) -> Seq<char>;

/// Calls `str::to_uppercase`. The contract only gives the result its name:
/// the uppercase form depends on the characters of `word` alone.
#[verifier::external_body]
pub(crate) fn uppercase(word: &str) -> (r: String)
    ensures
        r@ == uppercase_of(word@),
{
    word.to_uppercase()
}

/// Calls `char::is_whitespace`. The contract only gives the result its name.
#[verifier::external_body]
fn is_whitespace(c: char) -> (r: bool)
    ensures
        r == is_unicode_whitespace(c),
{
    c.is_whitespace()
}

/// The characters of `word`, in order.
pub fn chars_of(word: &str) -> (out: Vec<char>)
    ensures
        out@ == word@,
{
    let n = word.unicode_len();
    let mut out: Vec<char> = Vec::with_capacity(n);
    let mut it = word.chars();
    let mut i: usize = 0;
    proof {
        broadcast use axiom_spec_iter;
    }
    while i < n
        invariant
            n == word@.len(),
            i <= n,
            out@ == word@.take(i as int),
            it.remaining() == word@.skip(i as int),
            it.obeys_prophetic_iter_laws(),
        decreases n - i,
    {
        let ghost before = it;
        let next = it.next();
        proof {
            broadcast use next_postcondition;
            assert(before.remaining().len() > 0);
            assert(before.remaining()[0] == word@[i as int]);
            assert(word@.skip(i as int).drop_first() =~= word@.skip(i as int + 1));
        }
        match next {
            Some(c) => {
                out.push(c);
                proof {
                    assert(word@.take(i as int).push(c) =~= word@.take(i as int + 1));
                }
            },
            None => {
                proof {
                    assert(false);
                }
            },
        }
        i = i + 1;
    }
    proof {
        assert(word@.take(n as int) =~= word@);
    }
    out
}

/// The normalized character sequence of `word`.
pub fn char_vec(word: &str, case_sensitive: bool, remove_whitespace: bool) -> (out: Vec<char>)
    ensures
        out@ == normalized(word@, case_sensitive, remove_whitespace),
{
    let folded = if case_sensitive {
        chars_of(word)
    } else {
        let lower = lowercase(word);
        chars_of(lower.as_str())
    };
    if !remove_whitespace {
        return folded;
    }
    let mut out: Vec<char> = Vec::new();
    let mut i: usize = 0;
    let ghost pred = |c: char| keeps(c);
    proof {
        reveal(Seq::filter);
        assert(folded@.take(0).filter(pred) =~= Seq::<char>::empty());
    }
    while i < folded.len()
        invariant
            i <= folded.len(),
            pred == (|c: char| keeps(c)),
            out@ == folded@.take(i as int).filter(pred),
        decreases folded.len() - i,
    {
        let c = folded[i];
        proof {
            reveal(Seq::filter);
            assert(folded@.take(i as int + 1).drop_last() =~= folded@.take(i as int));
            assert(folded@.take(i as int + 1).last() == c);
        }
        if !is_whitespace(c) {
            out.push(c);
        }
        i = i + 1;
    }
    proof {
        assert(folded@.take(folded.len() as int) =~= folded@);
    }
    out
}

} // verus!
