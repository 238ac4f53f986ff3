//! Canonical decomposition (Unicode normalization form D), relied on from
//! the `unicode-normalization` crate, together with the small trusted string
//! conversions the path type needs at its edges.

use vstd::prelude::*;

use unicode_normalization::char::decompose_canonical;

verus! {

/// The canonical decomposition of one scalar value, as the sequence of scalar
/// values that `unicode_normalization::char::decompose_canonical` emits for it.
pub uninterp spec fn nfd_char(c: char) -> Seq<char>;

/// The canonical decomposition of a text, character by character.
pub open spec fn nfd_seq(s: Seq<char>) -> Seq<char>
    decreases s.len(),
{
    if s.len() == 0 {
        Seq::<char>::empty()
    } else {
        nfd_char(s[0]) + nfd_seq(s.skip(1))
    }
}

/// Relies on `unicode_normalization::char::decompose_canonical`: the canonical
/// decomposition of a scalar value depends on that value alone, emits at least
/// one scalar value, emits fully decomposed output (UAX #15), and leaves 7-bit
/// ASCII unchanged (stated in that function's source).
#[verifier::external_body]
fn decompose_char_vec(c: char) -> (r: Vec<char>)
    ensures
        r@ == nfd_char(c),
        r@.len() >= 1,
        nfd_seq(r@) == r@,
        (c as u32) < 0x80 ==> r@ == seq![c],
{
    let mut r: Vec<char> = Vec::new();
    decompose_canonical(c, |x| r.push(x));
    r
}

/// Relies on `str::chars`: collecting a string slice's character iterator
/// yields exactly the characters of the string.
#[verifier::external_body]
pub(crate) fn str_to_chars(s: &str) -> (r: Vec<char>)
    ensures
        r@ == s@,
{
    s.chars().collect()
}

/// Relies on `String`'s `FromIterator<char>` impl: collecting characters
/// yields the string of exactly those characters.
#[verifier::external_body]
pub(crate) fn chars_to_string(v: &Vec<char>) -> (r: String)
    ensures
        r@ == v@,
{
    v.iter().collect()
}

/// The canonical decomposition of one scalar value, as an executable query:
/// at least one scalar comes out, the output is itself fully decomposed, and
/// 7-bit ASCII comes back unchanged.
pub fn decompose_char(c: char) -> (r: Vec<char>)
    ensures
        r@ == nfd_char(c),
        r@.len() >= 1,
        nfd_seq(r@) == r@,
        (c as u32) < 0x80 ==> r@ == seq![c],
{
    decompose_char_vec(c)
}

pub proof fn lemma_nfd_seq_concat(a: Seq<char>, b: Seq<char>)
    ensures
        nfd_seq(a + b) == nfd_seq(a) + nfd_seq(b),
    decreases a.len(),
{
    if a.len() == 0 {
        assert(a + b =~= b);
        assert(nfd_seq(a) + nfd_seq(b) =~= nfd_seq(b));
    } else {
        lemma_nfd_seq_concat(a.skip(1), b);
        assert((a + b).skip(1) =~= a.skip(1) + b);
        assert(nfd_seq(a + b) == nfd_char(a[0]) + (nfd_seq(a.skip(1)) + nfd_seq(b)));
        assert(nfd_char(a[0]) + (nfd_seq(a.skip(1)) + nfd_seq(b)) =~= (nfd_char(a[0]) + nfd_seq(
            a.skip(1),
        )) + nfd_seq(b));
    }
}

pub proof fn lemma_nfd_seq_snoc(s: Seq<char>, c: char)
    ensures
        nfd_seq(s + seq![c]) == nfd_seq(s) + nfd_char(c),
{
    lemma_nfd_seq_concat(s, seq![c]);
    assert(nfd_seq(seq![c]) == nfd_char(c) + nfd_seq(seq![c].skip(1)));
    assert(seq![c].skip(1) =~= Seq::<char>::empty());
    assert(nfd_char(c) + Seq::<char>::empty() =~= nfd_char(c));
}

/// Decompose the characters `src[lo..hi]` into normal form D. The result is
/// itself stable under decomposition.
pub(crate) fn decompose_range(src: &Vec<char>, lo: usize, hi: usize) -> (r: Vec<char>)
    requires
        lo <= hi <= src@.len(),
    ensures
        r@ == nfd_seq(src@.subrange(lo as int, hi as int)),
        nfd_seq(r@) == r@,
        r@.len() >= hi - lo,
{
    let mut r: Vec<char> = Vec::new();
    let mut i: usize = lo;
    proof {
        assert(src@.subrange(lo as int, lo as int) =~= Seq::<char>::empty());
    }
    while i < hi
        invariant
            lo <= i <= hi <= src@.len(),
            r@ == nfd_seq(src@.subrange(lo as int, i as int)),
            nfd_seq(r@) == r@,
            r@.len() >= i - lo,
        decreases hi - i,
    {
        let mut piece = decompose_char_vec(src[i]);
        proof {
            let prefix = src@.subrange(lo as int, i as int);
            let next = src@.subrange(lo as int, i + 1 as int);
            assert(next =~= prefix + seq![src@[i as int]]);
            lemma_nfd_seq_snoc(prefix, src@[i as int]);
            lemma_nfd_seq_concat(r@, piece@);
        }
        r.append(&mut piece);
        i = i + 1;
    }
    r
}

} // verus!
