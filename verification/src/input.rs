//! What every parser of this crate shares: the kinds of plain failure and the
//! measure of how much input is left.

use vstd::prelude::*;
use vstd::slice::slice_subrange;
use vstd::string::StrSliceExecFns;

verus! {

/// Why a parser gave up when no richer error applies.
#[derive(Clone, Copy, Debug, PartialEq, Eq, Structural)]
pub enum ErrorKind {
    /// A fixed text was expected and not found.
    Tag,
    /// No alternative of a choice matched.
    Alt,
    /// The input ended before the announced number of bytes.
    Eof,
    /// A counted repetition stopped early.
    Count,
}

/// An input of which the length that is left can be measured.
///
/// Errors are ranked by this length: the shorter the remainder, the further
/// the parser got before it failed.
pub trait InputLength {
    /// The length of the input.
    spec fn spec_input_len(&self) -> nat;

    /// The length of the input.
    fn input_len(&self) -> (n: usize)
        ensures
            n == self.spec_input_len(),
    ;
}

impl<'a> InputLength for &'a [u8] {
    open spec fn spec_input_len(&self) -> nat {
        self@.len()
    }

    fn input_len(&self) -> (n: usize) {
        self.len()
    }
}

impl<'a> InputLength for &'a [char] {
    open spec fn spec_input_len(&self) -> nat {
        self@.len()
    }

    fn input_len(&self) -> (n: usize) {
        self.len()
    }
}

/// A string is measured in bytes of UTF-8.
impl<'a> InputLength for &'a str {
    open spec fn spec_input_len(&self) -> nat {
        self.len() as nat
    }

    fn input_len(&self) -> (n: usize) {
        self.len()
    }
}

/// The one of two lengths' owners that lies deeper in the input: `first` if
/// its remainder is strictly shorter, else `second`.
pub open spec fn deeper<E>(first: E, first_left: nat, second: E, second_left: nat) -> E {
    if first_left < second_left {
        first
    } else {
        second
    }
}

/// Ranks two errors by how much input each left: returns `first` if it left
/// strictly less than `second`, else `second`. This is the one rule by which
/// every parser of the crate chooses between the failures of alternatives.
pub fn rank<E>(first: E, first_left: usize, second: E, second_left: usize) -> (chosen: E)
    ensures
        chosen == deeper(first, first_left as nat, second, second_left as nat),
{
    if first_left < second_left {
        first
    } else {
        second
    }
}

/// Whether `rest` is what is left of `s` after some prefix of it.
pub open spec fn is_suffix<T>(rest: Seq<T>, s: Seq<T>) -> bool {
    rest.len() <= s.len() && rest == s.skip(s.len() - rest.len())
}

/// Where nothing was consumed, the whole is left.
pub proof fn lemma_suffix_whole<T>(s: Seq<T>)
    ensures
        is_suffix(s, s),
{
    assert(s =~= s.skip(0));
}

/// What is left of what is left is left of the whole.
pub proof fn lemma_suffix_of_suffix<T>(a: Seq<T>, b: Seq<T>, c: Seq<T>)
    requires
        is_suffix(a, b),
        is_suffix(b, c),
    ensures
        is_suffix(a, c),
{
    assert(a =~= c.skip(c.len() - a.len()));
}

/// What is left after skipping a prefix is a suffix.
pub proof fn lemma_skip_is_suffix<T>(s: Seq<T>, n: int)
    requires
        0 <= n <= s.len(),
    ensures
        is_suffix(s.skip(n), s),
{
}

/// The characters of a string, in a vector.
pub(crate) fn chars_of(text: &str) -> (chars: Vec<char>)
    ensures
        chars@ == text@,
{
    let mut chars: Vec<char> = Vec::new();
    for c in it: text.chars()
        invariant
            chars@ == it.seq().take(it.index() as int),
    {
        chars.push(c);
    }
    chars
}

/// The end of a string of `total` characters of which `left` are left.
pub(crate) fn tail_str<'a>(text: &'a str, total: usize, left: usize) -> (tail: &'a str)
    requires
        total == text@.len(),
        left <= total,
    ensures
        tail@ == text@.skip(total - left),
        is_suffix(tail@, text@),
{
    text.substring_char(total - left, total)
}

/// What is left of the input after the character `c`, if the input begins
/// with it.
pub(crate) fn strip_char<'a>(i: &'a [char], c: char) -> (rest: Option<&'a [char]>)
    ensures
        rest is Some <==> i@.len() > 0 && i@[0] == c,
        rest is Some ==> rest->0@ == i@.skip(1),
{
    if i.len() > 0 && i[0] == c {
        Some(slice_subrange(i, 1, i.len()))
    } else {
        None
    }
}

/// What is left of the input after the word, if the input begins with it.
pub(crate) fn strip_word<'a>(i: &'a [char], word: &str) -> (rest: Option<&'a [char]>)
    ensures
        rest is Some <==> word@.is_prefix_of(i@),
        rest is Some ==> rest->0@ == i@.skip(word@.len() as int),
{
    let mut k: usize = 0;
    for c in it: word.chars()
        invariant
            k == it.index(),
            k <= i@.len(),
            it.seq() == word@,
            i@.take(k as int) == word@.take(k as int),
    {
        if k >= i.len() || i[k] != c {
            proof {
                if word@.is_prefix_of(i@) {
                    assert(i@.subrange(0, word@.len() as int)[k as int] == word@[k as int]);
                }
            }
            return None;
        }
        proof {
            assert(i@.take(k + 1) =~= i@.take(k as int).push(i@[k as int]));
            assert(word@.take(k + 1) =~= word@.take(k as int).push(word@[k as int]));
        }
        k += 1;
    }
    proof {
        assert(word@.take(k as int) =~= word@);
    }
    Some(slice_subrange(i, k, i.len()))
}

} // verus!
