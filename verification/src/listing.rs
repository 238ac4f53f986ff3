//! The order of a merged listing: entries sort by their name with the
//! trailing `/` ignored, a directory entry standing immediately before the
//! file entry of the same name; deduplication then removes repeats and
//! file entries shadowed by a directory of the same name.

use vstd::prelude::*;

use crate::path::PathBuf;

verus! {

/// Lexicographic order on texts, by scalar value.
pub open spec fn lex_lt(a: Seq<char>, b: Seq<char>) -> bool
    decreases a.len(),
{
    &&& b.len() > 0
    &&& {
        ||| a.len() == 0
        ||| (a[0] as u32) < (b[0] as u32)
        ||| (a[0] == b[0] && lex_lt(a.skip(1), b.skip(1)))
    }
}

/// The entry's name ends with `/`: it denotes a directory.
pub open spec fn has_slash(s: Seq<char>) -> bool {
    s.len() > 0 && s[s.len() - 1] == '/'
}

/// The entry's name with a trailing `/` removed.
pub open spec fn strip_slash(s: Seq<char>) -> Seq<char> {
    if has_slash(s) {
        s.take(s.len() - 1)
    } else {
        s
    }
}

/// The strict order a merged listing is sorted by: by stripped name, the
/// directory form strictly before the file form of the same name.
pub open spec fn entry_lt(a: Seq<char>, b: Seq<char>) -> bool {
    ||| lex_lt(strip_slash(a), strip_slash(b))
    ||| (strip_slash(a) == strip_slash(b) && has_slash(a) && !has_slash(b))
}

pub open spec fn entry_le(a: Seq<char>, b: Seq<char>) -> bool {
    entry_lt(a, b) || a == b
}

/// Some entry of the listing has exactly this text.
pub open spec fn in_listing(s: Seq<PathBuf>, x: Seq<char>) -> bool {
    exists|i: int| 0 <= i < s.len() && s[i]@ == x
}

pub proof fn lemma_lex_irrefl(a: Seq<char>)
    ensures
        !lex_lt(a, a),
    decreases a.len(),
{
    if a.len() > 0 {
        lemma_lex_irrefl(a.skip(1));
    }
}

pub proof fn lemma_lex_trichotomy(a: Seq<char>, b: Seq<char>)
    ensures
        lex_lt(a, b) || lex_lt(b, a) || a == b,
    decreases a.len(),
{
    if a.len() == 0 {
        if b.len() == 0 {
            assert(a =~= b);
        }
    } else if b.len() == 0 {
    } else if (a[0] as u32) < (b[0] as u32) || (b[0] as u32) < (a[0] as u32) {
    } else {
        assert(a[0] == b[0]) by {
            vstd::utf8::char_u32_cast(a[0], a[0] as u32);
            vstd::utf8::char_u32_cast(b[0], b[0] as u32);
        }
        lemma_lex_trichotomy(a.skip(1), b.skip(1));
        if a.skip(1) == b.skip(1) {
            assert(a.skip(1).len() == a.len() - 1);
            assert(b.skip(1).len() == b.len() - 1);
            assert(a.len() == b.len());
            assert forall|i: int| 0 <= i < a.len() implies a[i] == b[i] by {
                if i > 0 {
                    assert(a[i] == a.skip(1)[i - 1]);
                    assert(b[i] == b.skip(1)[i - 1]);
                }
            }
            assert(a =~= b);
        }
    }
}

pub proof fn lemma_lex_trans(a: Seq<char>, b: Seq<char>, c: Seq<char>)
    requires
        lex_lt(a, b),
        lex_lt(b, c),
    ensures
        lex_lt(a, c),
    decreases a.len(),
{
    if a.len() == 0 {
    } else {
        assert(b.len() > 0);
        if (a[0] as u32) < (b[0] as u32) {
            if (b[0] as u32) < (c[0] as u32) {
            } else {
                assert(b[0] == c[0]) by {
                    vstd::utf8::char_u32_cast(b[0], b[0] as u32);
                    vstd::utf8::char_u32_cast(c[0], c[0] as u32);
                }
            }
        } else {
            assert(a[0] == b[0]) by {
                vstd::utf8::char_u32_cast(a[0], a[0] as u32);
                vstd::utf8::char_u32_cast(b[0], b[0] as u32);
            }
            if (b[0] as u32) < (c[0] as u32) {
            } else {
                assert(b[0] == c[0]) by {
                    vstd::utf8::char_u32_cast(b[0], b[0] as u32);
                    vstd::utf8::char_u32_cast(c[0], c[0] as u32);
                }
                lemma_lex_trans(a.skip(1), b.skip(1), c.skip(1));
            }
        }
    }
}

pub proof fn lemma_lex_asym(a: Seq<char>, b: Seq<char>)
    requires
        lex_lt(a, b),
    ensures
        !lex_lt(b, a),
{
    if lex_lt(b, a) {
        lemma_lex_trans(a, b, a);
        lemma_lex_irrefl(a);
    }
}

/// A strict prefix of a text stands strictly before it.
pub proof fn lemma_lex_prefix(a: Seq<char>, k: int)
    requires
        0 <= k < a.len(),
    ensures
        lex_lt(a.take(k), a),
        !lex_lt(a, a.take(k)),
    decreases k,
{
    if k == 0 {
        assert(a.take(0).len() == 0);
        if lex_lt(a, a.take(0)) {
            assert(a.take(0).len() > 0);
        }
    } else {
        lemma_lex_prefix(a.skip(1), k - 1);
        assert(a.take(k)[0] == a[0]);
        assert(a.take(k).skip(1) =~= a.skip(1).take(k - 1));
        lemma_lex_irrefl(a);
    }
}

/// If an entry has a trailing slash, it is exactly its stripped name plus
/// the slash; if not, it is its stripped name.
pub proof fn lemma_strip_shape(a: Seq<char>)
    ensures
        has_slash(a) ==> a == strip_slash(a) + seq!['/'],
        !has_slash(a) ==> a == strip_slash(a),
{
    if has_slash(a) {
        assert(a =~= a.take(a.len() - 1) + seq!['/']);
    }
}

pub proof fn lemma_entry_trichotomy(a: Seq<char>, b: Seq<char>)
    ensures
        entry_lt(a, b) || entry_lt(b, a) || a == b,
{
    lemma_lex_trichotomy(strip_slash(a), strip_slash(b));
    if !lex_lt(strip_slash(a), strip_slash(b)) && !lex_lt(strip_slash(b), strip_slash(a)) {
        assert(strip_slash(a) == strip_slash(b));
        if has_slash(a) == has_slash(b) {
            lemma_strip_shape(a);
            lemma_strip_shape(b);
            assert(a == b);
        }
    }
}

pub proof fn lemma_entry_lt_trans(a: Seq<char>, b: Seq<char>, c: Seq<char>)
    requires
        entry_lt(a, b),
        entry_lt(b, c),
    ensures
        entry_lt(a, c),
{
    let sa = strip_slash(a);
    let sb = strip_slash(b);
    let sc = strip_slash(c);
    if lex_lt(sa, sb) && lex_lt(sb, sc) {
        lemma_lex_trans(sa, sb, sc);
    } else if lex_lt(sa, sb) {
        assert(sb == sc);
    } else {
        assert(sa == sb);
    }
}

pub proof fn lemma_entry_lt_asym(a: Seq<char>, b: Seq<char>)
    requires
        entry_lt(a, b),
    ensures
        !entry_lt(b, a),
        a != b,
{
    let sa = strip_slash(a);
    let sb = strip_slash(b);
    if lex_lt(sa, sb) {
        lemma_lex_asym(sa, sb);
        if a == b {
            lemma_lex_irrefl(sa);
        }
    }
}

pub proof fn lemma_entry_le_trans(a: Seq<char>, b: Seq<char>, c: Seq<char>)
    requires
        entry_le(a, b),
        entry_le(b, c),
    ensures
        entry_le(a, c),
{
    if entry_lt(a, b) && entry_lt(b, c) {
        lemma_entry_lt_trans(a, b, c);
    }
}

/// Decide `lex_lt(a@.take(sa), b@.take(sb))`.
pub(crate) fn lex_lt_exec(a: &Vec<char>, sa: usize, b: &Vec<char>, sb: usize) -> (r: bool)
    requires
        sa <= a@.len(),
        sb <= b@.len(),
    ensures
        r == lex_lt(a@.take(sa as int), b@.take(sb as int)),
{
    let ghost x = a@.take(sa as int);
    let ghost y = b@.take(sb as int);
    let mut i: usize = 0;
    while i < sa && i < sb && a[i] == b[i]
        invariant
            0 <= i <= sa <= a@.len(),
            i <= sb <= b@.len(),
            forall|k: int| 0 <= k < i ==> a@[k] == b@[k],
        decreases sa - i,
    {
        i = i + 1;
    }
    proof {
        lemma_lex_common_prefix(x, y, i as int);
    }
    if i == sa {
        proof {
            assert(x.skip(i as int).len() == 0);
            assert(lex_lt(x.skip(i as int), y.skip(i as int)) == (y.skip(i as int).len() > 0));
        }
        i < sb
    } else if i == sb {
        proof {
            assert(y.skip(i as int).len() == 0);
            assert(!lex_lt(x.skip(i as int), y.skip(i as int)));
        }
        false
    } else {
        let ca = a[i];
        let cb = b[i];
        proof {
            assert(x.skip(i as int)[0] == a@[i as int]);
            assert(y.skip(i as int)[0] == b@[i as int]);
            assert(ca != cb);
            assert(lex_lt(x.skip(i as int), y.skip(i as int)) == ((ca as u32) < (cb as u32)));
        }
        (ca as u32) < (cb as u32)
    }
}

/// Texts with a common prefix compare as their remainders do.
proof fn lemma_lex_common_prefix(x: Seq<char>, y: Seq<char>, i: int)
    requires
        0 <= i <= x.len(),
        i <= y.len(),
        forall|k: int| 0 <= k < i ==> x[k] == y[k],
    ensures
        lex_lt(x, y) == lex_lt(x.skip(i), y.skip(i)),
    decreases i,
{
    if i == 0 {
        assert(x.skip(0) =~= x);
        assert(y.skip(0) =~= y);
    } else {
        assert(x.len() > 0 && y.len() > 0);
        assert(x[0] == y[0]);
        assert(x.skip(1).len() >= i - 1);
        assert(forall|k: int| 0 <= k < i - 1 ==> x.skip(1)[k] == y.skip(1)[k]);
        lemma_lex_common_prefix(x.skip(1), y.skip(1), i - 1);
        assert(x.skip(1).skip(i - 1) =~= x.skip(i));
        assert(y.skip(1).skip(i - 1) =~= y.skip(i));
        assert(lex_lt(x, y) == (y.len() > 0 && lex_lt(x.skip(1), y.skip(1))));
        assert(lex_lt(x.skip(1), y.skip(1)) ==> y.skip(1).len() > 0);
        assert(lex_lt(x, y) == lex_lt(x.skip(1), y.skip(1)));
    }
}

/// Decide `entry_le(a@, b@)`.
pub fn entry_le_exec(a: &PathBuf, b: &PathBuf) -> (r: bool)
    ensures
        r == entry_le(a@, b@),
{
    let ac = a.as_path().chars_ref();
    let bc = b.as_path().chars_ref();
    let an = ac.len();
    let bn = bc.len();
    let aslash = an > 0 && ac[an - 1] == '/';
    let bslash = bn > 0 && bc[bn - 1] == '/';
    let sa: usize = if aslash {
        an - 1
    } else {
        an
    };
    let sb: usize = if bslash {
        bn - 1
    } else {
        bn
    };
    proof {
        assert(aslash == has_slash(a@));
        assert(bslash == has_slash(b@));
        assert(ac@.take(sa as int) == strip_slash(a@));
        assert(bc@.take(sb as int) == strip_slash(b@));
    }
    if lex_lt_exec(ac, sa, bc, sb) {
        true
    } else if lex_lt_exec(bc, sb, ac, sa) {
        false
    } else {
        proof {
            lemma_lex_trichotomy(strip_slash(a@), strip_slash(b@));
            assert(strip_slash(a@) == strip_slash(b@));
            if aslash == bslash {
                lemma_strip_shape(a@);
                lemma_strip_shape(b@);
                assert(a@ == b@);
            }
        }
        aslash || !bslash
    }
}

/// Sort a merged listing by the entry order. The set of entry texts is kept.
pub fn sort_entries(v: Vec<PathBuf>) -> (r: Vec<PathBuf>)
    ensures
        forall|i: int, j: int| 0 <= i < j < r@.len() ==> entry_le(r@[i]@, r@[j]@),
        forall|x: Seq<char>| in_listing(r@, x) <==> in_listing(v@, x),
{
    let ghost orig = v@;
    let mut rest = v;
    let mut out: Vec<PathBuf> = Vec::new();
    while rest.len() > 0
        invariant
            forall|i: int, j: int| 0 <= i < j < out@.len() ==> entry_le(out@[i]@, out@[j]@),
            forall|x: Seq<char>|
                (in_listing(out@, x) || in_listing(rest@, x)) <==> in_listing(orig, x),
        decreases rest@.len(),
    {
        let ghost out_before = out@;
        let ghost rest_before = rest@;
        let x = rest.remove(0);
        proof {
            assert(forall|y: Seq<char>|
                in_listing(rest_before, y) == (rest_before[0]@ == y || in_listing(rest@, y))) by {
                assert forall|y: Seq<char>|
                    in_listing(rest_before, y) == (rest_before[0]@ == y || in_listing(
                        rest@,
                        y,
                    )) by {
                    if in_listing(rest_before, y) {
                        let i = choose|i: int|
                            0 <= i < rest_before.len() && rest_before[i]@ == y;
                        if i > 0 {
                            assert(rest@[i - 1]@ == y);
                        }
                    }
                    if in_listing(rest@, y) {
                        let i = choose|i: int| 0 <= i < rest@.len() && rest@[i]@ == y;
                        assert(rest_before[i + 1]@ == y);
                    }
                    if rest_before[0]@ == y {
                        assert(in_listing(rest_before, y));
                    }
                }
            }
        }
        let mut pos: usize = 0;
        while pos < out.len() && entry_le_exec(&out[pos], &x)
            invariant
                0 <= pos <= out@.len(),
                forall|q: int| 0 <= q < pos ==> entry_le(out@[q]@, x@),
            decreases out@.len() - pos,
        {
            pos = pos + 1;
        }
        proof {
            if pos < out@.len() {
                assert(!entry_le(out@[pos as int]@, x@));
                lemma_entry_trichotomy(out@[pos as int]@, x@);
                assert(entry_lt(x@, out@[pos as int]@));
            }
        }
        out.insert(pos, x);
        proof {
            let outv = out@;
            assert(outv.len() == out_before.len() + 1);
            assert(forall|q: int| 0 <= q < pos ==> outv[q] == out_before[q]);
            assert(outv[pos as int]@ == x@);
            assert(forall|q: int| pos < q < outv.len() ==> outv[q] == out_before[q - 1]);
            assert forall|i: int, j: int| 0 <= i < j < outv.len() implies entry_le(
                outv[i]@,
                outv[j]@,
            ) by {
                if i < pos && j < pos {
                } else if i < pos && j == pos {
                    assert(entry_le(out_before[i]@, x@));
                } else if i < pos && j > pos {
                    assert(entry_le(out_before[i]@, out_before[j - 1]@));
                } else if i == pos && j > pos {
                    assert(entry_lt(x@, out_before[pos as int]@));
                    if j - 1 > pos {
                        assert(entry_le(out_before[pos as int]@, out_before[j - 1]@));
                        lemma_entry_le_trans(x@, out_before[pos as int]@, out_before[j - 1]@);
                    }
                } else {
                    assert(entry_le(out_before[i - 1]@, out_before[j - 1]@));
                }
            }
            assert forall|y: Seq<char>|
                (in_listing(outv, y) || in_listing(rest@, y)) <==> in_listing(orig, y) by {
                assert(in_listing(outv, y) == (in_listing(out_before, y) || x@ == y)) by {
                    if in_listing(outv, y) {
                        let i = choose|i: int| 0 <= i < outv.len() && outv[i]@ == y;
                        if i < pos {
                            assert(out_before[i]@ == y);
                        } else if i > pos {
                            assert(out_before[i - 1]@ == y);
                        }
                    }
                    if in_listing(out_before, y) {
                        let i = choose|i: int|
                            0 <= i < out_before.len() && out_before[i]@ == y;
                        if i < pos {
                            assert(outv[i]@ == y);
                        } else {
                            assert(outv[i + 1]@ == y);
                        }
                    }
                    if x@ == y {
                        assert(outv[pos as int]@ == y);
                    }
                }
            }
        }
    }
    out
}

/// `big` is exactly `small` with a trailing `/` appended.
fn is_dir_form_of(big: &PathBuf, small: &PathBuf) -> (r: bool)
    ensures
        r == (big@ == small@ + seq!['/']),
{
    let bc = big.as_path().chars_ref();
    let sc = small.as_path().chars_ref();
    let bn = bc.len();
    let sn = sc.len();
    if bn == 0 || bn - 1 != sn {
        proof {
            if big@ == small@ + seq!['/'] {
                assert(big@.len() == small@.len() + 1);
            }
        }
        return false;
    }
    if bc[bn - 1] != '/' {
        proof {
            if big@ == small@ + seq!['/'] {
                assert(big@[big@.len() - 1] == '/');
            }
        }
        return false;
    }
    let mut i: usize = 0;
    while i < sn
        invariant
            0 <= i <= sn,
            bn == sn + 1,
            sn == small@.len(),
            bn == big@.len(),
            bc@ == big@,
            sc@ == small@,
            forall|k: int| 0 <= k < i ==> big@[k] == small@[k],
        decreases sn - i,
    {
        if bc[i] != sc[i] {
            proof {
                if big@ == small@ + seq!['/'] {
                    assert(big@[i as int] == small@[i as int]);
                }
            }
            return false;
        }
        i = i + 1;
    }
    proof {
        assert(big@ =~= small@ + seq!['/']);
    }
    true
}

/// Deduplicate a sorted listing: drop an entry that repeats its predecessor,
/// and a file entry whose predecessor is the directory form of the same
/// name. The result is strictly sorted, keeps every directory entry, and
/// holds no file entry whose directory form is also present.
pub fn dedup_entries(v: Vec<PathBuf>) -> (r: Vec<PathBuf>)
    requires
        forall|i: int, j: int| 0 <= i < j < v@.len() ==> entry_le(v@[i]@, v@[j]@),
    ensures
        forall|i: int, j: int| 0 <= i < j < r@.len() ==> entry_lt(r@[i]@, r@[j]@),
        forall|i: int, j: int|
            0 <= i < r@.len() && 0 <= j < r@.len() ==> !(!has_slash(r@[j]@) && r@[i]@ == r@[j]@
                + seq!['/']),
        forall|x: Seq<char>| in_listing(r@, x) ==> in_listing(v@, x),
        forall|x: Seq<char>| has_slash(x) && in_listing(v@, x) ==> in_listing(r@, x),
        forall|x: Seq<char>|
            !has_slash(x) && in_listing(v@, x) && !in_listing(v@, x + seq!['/']) ==> in_listing(
                r@,
                x,
            ),
{
    let ghost orig = v@;
    let mut rest = v;
    let mut out: Vec<PathBuf> = Vec::new();
    proof {
        assert(forall|w: int| 0 <= w < rest@.len() ==> in_listing(orig, #[trigger] rest@[w]@));
    }
    while rest.len() > 0
        invariant
            forall|i: int, j: int| 0 <= i < j < out@.len() ==> entry_lt(out@[i]@, out@[j]@),
            forall|i: int, j: int|
                0 <= i < out@.len() && 0 <= j < out@.len() ==> !(!has_slash(out@[j]@) && out@[i]@
                    == out@[j]@ + seq!['/']),
            forall|i: int, j: int| 0 <= i < j < rest@.len() ==> entry_le(rest@[i]@, rest@[j]@),
            forall|q: int, w: int|
                0 <= q < out@.len() && 0 <= w < rest@.len() ==> entry_le(out@[q]@, rest@[w]@),
            forall|x: Seq<char>| in_listing(out@, x) ==> in_listing(orig, x),
            forall|w: int| 0 <= w < rest@.len() ==> in_listing(orig, #[trigger] rest@[w]@),
            forall|x: Seq<char>|
                has_slash(x) && in_listing(orig, x) ==> in_listing(out@, x) || in_listing(rest@, x),
            forall|x: Seq<char>|
                !has_slash(x) && in_listing(orig, x) && !in_listing(orig, x + seq!['/'])
                    ==> in_listing(out@, x) || in_listing(rest@, x),
        decreases rest@.len(),
    {
        let ghost out_before = out@;
        let ghost rest_before = rest@;
        let x = rest.remove(0);
        proof {
            assert(forall|w: int| 0 <= w < rest@.len() ==> rest@[w] == rest_before[w + 1]);
            assert(forall|y: Seq<char>|
                in_listing(rest_before, y) ==> (rest_before[0]@ == y || in_listing(rest@, y))) by {
                assert forall|y: Seq<char>|
                    in_listing(rest_before, y) implies (rest_before[0]@ == y || in_listing(
                    rest@,
                    y,
                )) by {
                    let i = choose|i: int| 0 <= i < rest_before.len() && rest_before[i]@ == y;
                    if i > 0 {
                        assert(rest@[i - 1]@ == y);
                    }
                }
            }
            assert(in_listing(orig, x@)) by {
                assert(in_listing(orig, rest_before[0]@));
            }
        }
        let n = out.len();
        let mut skip = false;
        if n > 0 {
            let last = &out[n - 1];
            if *last == x {
                skip = true;
                proof {
                    assert(out_before[n - 1]@ == x@);
                    assert(in_listing(out_before, x@));
                }
            } else if is_dir_form_of(last, &x) {
                skip = true;
                proof {
                    assert(out_before[n - 1]@ == x@ + seq!['/']);
                    assert(!has_slash(x@)) by {
                        if has_slash(x@) {
                            let lastv = out_before[n - 1]@;
                            assert(entry_le(lastv, x@));
                            assert(has_slash(lastv));
                            assert(strip_slash(lastv) =~= x@);
                            assert(strip_slash(x@) == x@.take(x@.len() - 1));
                            lemma_lex_prefix(x@, x@.len() - 1);
                            // lastv's stripped name is x itself; x's stripped
                            // name is a strict prefix of x, so lastv cannot
                            // stand at or before x in the entry order.
                            assert(!lex_lt(strip_slash(lastv), strip_slash(x@)));
                            assert(strip_slash(lastv) != strip_slash(x@));
                            assert(lastv != x@);
                            assert(false);
                        }
                    }
                }
            }
        }
        if !skip {
            proof {
                let lastv = if out_before.len() > 0 {
                    out_before[out_before.len() - 1]@
                } else {
                    x@
                };
                if out_before.len() > 0 {
                    assert(entry_le(lastv, x@));
                    assert(lastv != x@);
                    assert(entry_lt(lastv, x@));
                }
                assert forall|q: int| 0 <= q < out_before.len() implies entry_lt(
                    out_before[q]@,
                    x@,
                ) by {
                    if q < out_before.len() - 1 {
                        assert(entry_lt(out_before[q]@, lastv));
                        lemma_entry_lt_trans(out_before[q]@, lastv, x@);
                    }
                }
                assert forall|q: int| 0 <= q < out_before.len() implies !(!has_slash(x@)
                    && out_before[q]@ == x@ + seq!['/']) && !(!has_slash(out_before[q]@) && x@
                    == out_before[q]@ + seq!['/']) by {
                    let y = out_before[q]@;
                    if !has_slash(x@) && y == x@ + seq!['/'] {
                        assert(has_slash(y));
                        assert(strip_slash(y) =~= x@);
                        assert(strip_slash(x@) == x@);
                        if q == out_before.len() - 1 {
                            // the directory-form check would have skipped
                            assert(false);
                        } else {
                            assert(entry_lt(y, lastv));
                            assert(entry_lt(lastv, x@));
                            let sy = strip_slash(y);
                            let sl = strip_slash(lastv);
                            let sx = strip_slash(x@);
                            assert(sy == sx);
                            if lex_lt(sy, sl) {
                                if lex_lt(sl, sx) {
                                    lemma_lex_trans(sy, sl, sx);
                                    lemma_lex_irrefl(sx);
                                } else {
                                    assert(sl == sx);
                                    lemma_lex_irrefl(sx);
                                }
                            } else {
                                assert(sy == sl && has_slash(y) && !has_slash(lastv));
                                if lex_lt(sl, sx) {
                                    lemma_lex_irrefl(sx);
                                } else {
                                    assert(sl == sx && has_slash(lastv));
                                }
                            }
                        }
                    }
                    if !has_slash(y) && x@ == y + seq!['/'] {
                        assert(has_slash(x@));
                        assert(strip_slash(x@) =~= y);
                        assert(strip_slash(y) == y);
                        assert(entry_lt(x@, y)) by {
                            lemma_lex_irrefl(y);
                        }
                        assert(entry_le(y, x@));
                        lemma_entry_lt_asym(x@, y);
                        assert(y != x@) by {
                            if y == x@ {
                                assert(x@.len() == y.len() + 1);
                            }
                        }
                        assert(false);
                    }
                }
            }
            out.push(x);
            proof {
                assert(forall|q: int| 0 <= q < out_before.len() ==> out@[q] == out_before[q]);
                assert(out@[out@.len() - 1]@ == rest_before[0]@);
            }
        }
        proof {
            assert forall|y: Seq<char>|
                has_slash(y) && in_listing(orig, y) implies in_listing(out@, y) || in_listing(
                rest@,
                y,
            ) by {
                if in_listing(out_before, y) {
                    let i = choose|i: int| 0 <= i < out_before.len() && out_before[i]@ == y;
                    assert(out@[i]@ == y);
                } else if in_listing(rest_before, y) {
                    if rest_before[0]@ == y && !in_listing(rest@, y) {
                        if skip {
                            assert(in_listing(out_before, y));
                            assert(false);
                        } else {
                            assert(out@[out@.len() - 1]@ == y);
                        }
                    }
                }
            }
            assert forall|x2: Seq<char>| in_listing(out@, x2) implies in_listing(orig, x2) by {
                if !in_listing(out_before, x2) {
                    let i = choose|i: int| 0 <= i < out@.len() && out@[i]@ == x2;
                    if i < out_before.len() {
                        assert(in_listing(out_before, x2));
                    }
                }
            }
            assert forall|y: Seq<char>|
                !has_slash(y) && in_listing(orig, y) && !in_listing(orig, y + seq!['/'])
                    implies in_listing(out@, y) || in_listing(rest@, y) by {
                if in_listing(out_before, y) {
                    let i = choose|i: int| 0 <= i < out_before.len() && out_before[i]@ == y;
                    assert(out@[i]@ == y);
                } else if in_listing(rest_before, y) {
                    if rest_before[0]@ == y && !in_listing(rest@, y) {
                        if skip {
                            // Skipping the file entry means its predecessor
                            // was either the same entry (kept in the output)
                            // or its directory form, which would make the
                            // entry shadowed.
                            if out_before.len() > 0 && out_before[out_before.len() - 1]@ == y {
                                assert(in_listing(out@, y));
                            } else {
                                assert(out_before[out_before.len() - 1]@ == y + seq!['/']);
                                assert(in_listing(orig, y + seq!['/']));
                                assert(false);
                            }
                        } else {
                            assert(out@[out@.len() - 1]@ == y);
                        }
                    }
                }
            }
        }
    }
    out
}

pub proof fn lemma_in_listing_grow(a: Seq<PathBuf>, b: Seq<PathBuf>, x: Seq<char>)
    requires
        in_listing(a, x),
    ensures
        in_listing(a + b, x),
{
    let i = choose|i: int| 0 <= i < a.len() && a[i]@ == x;
    assert((a + b)[i]@ == x);
}

pub proof fn lemma_in_listing_push(a: Seq<PathBuf>, p: PathBuf, x: Seq<char>)
    requires
        in_listing(a, x) || p@ == x,
    ensures
        in_listing(a.push(p), x),
{
    if p@ == x {
        assert(a.push(p)[a.len() as int]@ == x);
    } else {
        let i = choose|i: int| 0 <= i < a.len() && a[i]@ == x;
        assert(a.push(p)[i]@ == x);
    }
}

} // verus!
