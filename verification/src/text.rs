//! Mathematical model of path text: absoluteness, directory-ness, the
//! interior between the outer separators, splitting into components, and
//! reassembly.

use vstd::prelude::*;

verus! {

/// A text denotes an absolute location iff it begins with `/`.
pub open spec fn is_abs(s: Seq<char>) -> bool {
    s.len() > 0 && s[0] == '/'
}

/// A text denotes a directory iff it is empty or ends with `/`.
pub open spec fn is_dir(s: Seq<char>) -> bool {
    s.len() == 0 || s[s.len() - 1] == '/'
}

pub open spec fn starts_with(s: Seq<char>, pre: Seq<char>) -> bool {
    s.len() >= pre.len() && s.take(pre.len() as int) == pre
}

pub open spec fn ends_with(s: Seq<char>, suf: Seq<char>) -> bool {
    s.len() >= suf.len() && s.skip(s.len() - suf.len()) == suf
}

/// The text between a leading `/` (at most one) and a trailing `/` (at most
/// one): the part of the text that carries the components.
pub open spec fn interior(s: Seq<char>) -> Seq<char> {
    let t = if s.len() > 0 && s[0] == '/' {
        s.skip(1)
    } else {
        s
    };
    if t.len() > 0 && t[t.len() - 1] == '/' {
        t.take(t.len() - 1)
    } else {
        t
    }
}

/// Split a text on every `/`. Always yields at least one piece; adjacent
/// separators yield empty pieces.
pub open spec fn split_slash(s: Seq<char>) -> Seq<Seq<char>>
    decreases s.len(),
{
    if s.len() == 0 {
        seq![Seq::<char>::empty()]
    } else if s[0] == '/' {
        seq![Seq::<char>::empty()] + split_slash(s.skip(1))
    } else {
        let rest = split_slash(s.skip(1));
        seq![seq![s[0]] + rest[0]] + rest.skip(1)
    }
}

/// Join pieces with `/` between them.
pub open spec fn join_slash(cs: Seq<Seq<char>>) -> Seq<char>
    decreases cs.len(),
{
    if cs.len() == 0 {
        Seq::<char>::empty()
    } else if cs.len() == 1 {
        cs[0]
    } else {
        cs[0] + seq!['/'] + join_slash(cs.skip(1))
    }
}

/// The components of a path text: the `/`-separated pieces of its interior.
/// The empty interior carries no components.
pub open spec fn components_of(s: Seq<char>) -> Seq<Seq<char>> {
    if interior(s).len() == 0 {
        Seq::<Seq<char>>::empty()
    } else {
        split_slash(interior(s))
    }
}

/// A piece is slash-free iff no character of it is `/`.
pub open spec fn slash_free(c: Seq<char>) -> bool {
    forall|i: int| 0 <= i < c.len() ==> c[i] != '/'
}

pub proof fn lemma_split_slash_basic(s: Seq<char>)
    ensures
        split_slash(s).len() >= 1,
        forall|k: int|
            0 <= k < split_slash(s).len() ==> #[trigger] slash_free(split_slash(s)[k]),
        join_slash(split_slash(s)) == s,
    decreases s.len(),
{
    if s.len() == 0 {
        assert(join_slash(split_slash(s)) =~= s);
        assert(slash_free(split_slash(s)[0]));
    } else if s[0] == '/' {
        lemma_split_slash_basic(s.skip(1));
        let rest = split_slash(s.skip(1));
        let whole = split_slash(s);
        assert(whole == seq![Seq::<char>::empty()] + rest);
        assert(whole.len() == rest.len() + 1);
        assert(slash_free(whole[0]));
        assert(forall|k: int| 1 <= k < whole.len() ==> whole[k] == rest[k - 1]);
        assert(whole.skip(1) =~= rest);
        if rest.len() == 1 {
            assert(join_slash(whole) == whole[0] + seq!['/'] + join_slash(whole.skip(1)));
            assert(join_slash(whole) =~= s);
        } else {
            assert(join_slash(whole) =~= s);
        }
    } else {
        lemma_split_slash_basic(s.skip(1));
        let rest = split_slash(s.skip(1));
        let whole = split_slash(s);
        assert(whole[0] == seq![s[0]] + rest[0]);
        assert(slash_free(rest[0]));
        assert(slash_free(whole[0]));
        assert(forall|k: int| 1 <= k < whole.len() ==> whole[k] == rest[k]);
        assert(forall|k: int|
            0 <= k < whole.len() ==> #[trigger] slash_free(whole[k]) == if k == 0 {
                slash_free(whole[0])
            } else {
                slash_free(rest[k])
            });
        if rest.len() == 1 {
            assert(whole.len() == 1);
            assert(join_slash(whole) == whole[0]);
            assert(join_slash(rest) == rest[0]);
            assert(rest[0] == s.skip(1));
            assert(seq![s[0]] + s.skip(1) =~= s);
            assert(join_slash(whole) =~= s);
        } else {
            assert(whole.len() >= 2);
            assert(whole.skip(1) =~= rest.skip(1));
            assert(join_slash(whole) == whole[0] + seq!['/'] + join_slash(rest.skip(1)));
            assert(join_slash(rest) == rest[0] + seq!['/'] + join_slash(rest.skip(1)));
            assert(join_slash(rest) == s.skip(1));
            assert(join_slash(whole) =~= seq![s[0]] + (rest[0] + seq!['/'] + join_slash(
                rest.skip(1),
            )));
            assert(join_slash(whole) =~= seq![s[0]] + s.skip(1));
            assert(seq![s[0]] + s.skip(1) =~= s);
            assert(join_slash(whole) =~= s);
        }
    }
}

/// Splitting at the first separator peels off the first component.
pub proof fn lemma_split_slash_step(s: Seq<char>, i: int)
    requires
        0 <= i < s.len(),
        s[i] == '/',
        forall|j: int| 0 <= j < i ==> s[j] != '/',
    ensures
        split_slash(s) == seq![s.take(i)] + split_slash(s.skip(i + 1)),
    decreases i,
{
    if i == 0 {
        assert(s.take(0) =~= Seq::<char>::empty());
        assert(split_slash(s) =~= seq![s.take(0)] + split_slash(s.skip(1)));
    } else {
        let t = s.skip(1);
        lemma_split_slash_step(t, i - 1);
        let rest = split_slash(t);
        assert(rest == seq![t.take(i - 1)] + split_slash(t.skip(i)));
        assert(rest[0] == t.take(i - 1));
        assert(seq![s[0]] + t.take(i - 1) =~= s.take(i));
        assert(t.skip(i) =~= s.skip(i + 1));
        assert(rest.skip(1) =~= split_slash(s.skip(i + 1)));
        assert(split_slash(s) =~= seq![s.take(i)] + split_slash(s.skip(i + 1)));
    }
}

/// Copy the characters `v[lo..hi]` into a fresh vector.
pub fn copy_range(v: &Vec<char>, lo: usize, hi: usize) -> (r: Vec<char>)
    requires
        lo <= hi <= v@.len(),
    ensures
        r@ == v@.subrange(lo as int, hi as int),
{
    let mut r: Vec<char> = Vec::new();
    let mut i: usize = lo;
    while i < hi
        invariant
            lo <= i <= hi <= v@.len(),
            r@ == v@.subrange(lo as int, i as int),
        decreases hi - i,
    {
        r.push(v[i]);
        proof {
            assert(v@.subrange(lo as int, i + 1 as int) =~= v@.subrange(lo as int, i as int).push(
                v@[i as int],
            ));
        }
        i = i + 1;
    }
    r
}

/// The position of the first `/` at or after `lo` and before `hi`, or `hi`
/// when there is none.
pub fn find_slash(v: &Vec<char>, lo: usize, hi: usize) -> (r: usize)
    requires
        lo <= hi <= v@.len(),
    ensures
        lo <= r <= hi,
        forall|j: int| lo <= j < r ==> v@[j] != '/',
        r < hi ==> v@[r as int] == '/',
{
    let mut i: usize = lo;
    while i < hi
        invariant
            lo <= i <= hi <= v@.len(),
            forall|j: int| lo <= j < i ==> v@[j] != '/',
        decreases hi - i,
    {
        if v[i] == '/' {
            return i;
        }
        i = i + 1;
    }
    i
}

/// A text without separators is a single component.
pub proof fn lemma_split_slash_whole(s: Seq<char>)
    requires
        slash_free(s),
    ensures
        split_slash(s) == seq![s],
    decreases s.len(),
{
    if s.len() == 0 {
        assert(split_slash(s) =~~= seq![s]);
    } else {
        assert(s.skip(1).len() < s.len());
        assert(slash_free(s.skip(1)));
        lemma_split_slash_whole(s.skip(1));
        let rest = split_slash(s.skip(1));
        assert(rest == seq![s.skip(1)]);
        assert(seq![s[0]] + rest[0] =~= s);
        assert(rest.skip(1) =~= Seq::<Seq<char>>::empty());
        assert(split_slash(s) =~= seq![s]);
    }
}

/// Joining concatenated component lists joins the two texts around a `/`.
pub proof fn lemma_join_concat(a: Seq<Seq<char>>, b: Seq<Seq<char>>)
    requires
        a.len() > 0,
        b.len() > 0,
    ensures
        join_slash(a + b) == join_slash(a) + seq!['/'] + join_slash(b),
    decreases a.len(),
{
    if a.len() == 1 {
        assert((a + b)[0] == a[0]);
        assert((a + b).skip(1) =~= b);
        assert(join_slash(a) == a[0]);
        assert(join_slash(a + b) == a[0] + seq!['/'] + join_slash(b));
    } else {
        lemma_join_concat(a.skip(1), b);
        assert((a + b)[0] == a[0]);
        assert((a + b).skip(1) =~= a.skip(1) + b);
        assert(join_slash(a + b) == a[0] + seq!['/'] + (join_slash(a.skip(1)) + seq!['/']
            + join_slash(b)));
        assert(a[0] + seq!['/'] + (join_slash(a.skip(1)) + seq!['/'] + join_slash(b)) =~= (a[0]
            + seq!['/'] + join_slash(a.skip(1))) + seq!['/'] + join_slash(b));
    }
}

} // verus!
