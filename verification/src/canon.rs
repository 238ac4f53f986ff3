//! Canonical form of path text: the normalization rules (elide `.`, resolve
//! `..`, decompose every name), the validity predicate that every constructed
//! path satisfies, and the verified normalizer.

use vstd::prelude::*;

use crate::errors::PathFromStrError;
use crate::name::name_err;
use crate::name::plain_name;
use crate::norm::nfd_seq;
use crate::text::components_of;
use crate::text::ends_with;
use crate::text::interior;
use crate::text::is_abs;
use crate::text::is_dir;
use crate::text::join_slash;
use crate::text::slash_free;
use crate::text::split_slash;
use crate::text::copy_range;
use crate::text::find_slash;
use crate::norm::decompose_range;

verus! {

/// Remove trailing characters until the text ends with `/` or is empty.
pub open spec fn drop_to_slash(s: Seq<char>) -> Seq<char>
    decreases s.len(),
{
    if s.len() == 0 {
        s
    } else if s[s.len() - 1] == '/' {
        s
    } else {
        drop_to_slash(s.take(s.len() - 1))
    }
}

/// Remove the innermost component of a text that ends with `/`: drop that
/// final `/`, then drop back to the previous `/` (kept) or to emptiness.
pub open spec fn pop_comp(s: Seq<char>) -> Seq<char> {
    if s.len() == 0 {
        s
    } else {
        drop_to_slash(s.take(s.len() - 1))
    }
}

/// Why a raw component is rejected, if it is: an empty component stands for
/// two adjacent separators; any other component except `.` and `..` must,
/// after decomposition, break none of the name rules.
pub open spec fn comp_err(c: Seq<char>) -> Option<PathFromStrError> {
    if c == seq!['.'] || c == seq!['.', '.'] {
        None
    } else if c.len() == 0 {
        Some(PathFromStrError::DoubleSlash)
    } else {
        name_err(nfd_seq(c))
    }
}

/// The first rejected component's error, scanning left to right.
pub open spec fn first_comp_err(cs: Seq<Seq<char>>) -> Option<PathFromStrError>
    decreases cs.len(),
{
    if cs.len() == 0 {
        None
    } else if comp_err(cs[0]) is Some {
        comp_err(cs[0])
    } else {
        first_comp_err(cs.skip(1))
    }
}

/// One step of the canonical build: `.` is elided; `..` extends a leading
/// `..` run, fails at the root (`None`), or pops the innermost component;
/// a name is decomposed and appended with a trailing `/`.
pub open spec fn build_step(acc: Seq<char>, c: Seq<char>) -> Option<Seq<char>> {
    if c == seq!['.'] {
        Some(acc)
    } else if c == seq!['.', '.'] {
        if acc.len() == 0 || ends_with(acc, seq!['.', '.', '/']) {
            Some(acc + seq!['.', '.', '/'])
        } else if acc == seq!['/'] {
            None
        } else {
            Some(pop_comp(acc))
        }
    } else {
        Some(acc + nfd_seq(c) + seq!['/'])
    }
}

/// The canonical build folded over all components. `None` means the path
/// tried to escape the root.
pub open spec fn build_all(acc: Seq<char>, cs: Seq<Seq<char>>) -> Option<Seq<char>>
    decreases cs.len(),
{
    if cs.len() == 0 {
        Some(acc)
    } else {
        match build_step(acc, cs[0]) {
            None => None,
            Some(a) => build_all(a, cs.skip(1)),
        }
    }
}

/// What `try_from_str` returns for any input text: the canonical form, or the
/// error determined by the first check that fails.
pub open spec fn norm_path(s: Seq<char>) -> Result<Seq<char>, PathFromStrError> {
    if s.len() == 0 || s == seq!['/'] {
        Ok(s)
    } else if s == seq!['/', '/'] {
        Err(PathFromStrError::DoubleSlash)
    } else if s == seq!['.', '.'] || ends_with(s, seq!['/', '.', '.']) {
        Err(PathFromStrError::DotDotFile)
    } else {
        let cs = components_of(s);
        if first_comp_err(cs) is Some {
            Err(first_comp_err(cs)->Some_0)
        } else {
            let init: Seq<char> = if is_abs(s) {
                seq!['/']
            } else {
                Seq::<char>::empty()
            };
            match build_all(init, cs) {
                None => Err(PathFromStrError::EscapedRoot),
                Some(acc) => {
                    if !is_dir(s) && ends_with(acc, seq!['.', '.', '/']) {
                        Err(PathFromStrError::DotDotFile)
                    } else if is_dir(s) {
                        Ok(acc)
                    } else if acc.len() > 0 {
                        Ok(acc.take(acc.len() - 1))
                    } else {
                        Ok(acc)
                    }
                },
            }
        }
    }
}

/// The invariant of every constructed path: empty, the root, or a text whose
/// components are a leading `..` run (relative paths only, and never the last
/// component of a file path) followed by plain, decomposition-stable names.
pub open spec fn valid_path(s: Seq<char>) -> bool {
    if s.len() == 0 {
        true
    } else if s == seq!['/'] {
        true
    } else {
        let cs = components_of(s);
        &&& cs.len() > 0
        &&& forall|i: int|
            0 <= i < cs.len() && cs[i] != seq!['.', '.'] ==> plain_name(#[trigger] cs[i]) && nfd_seq(
                cs[i],
            ) == cs[i]
        &&& forall|i: int|
            0 <= i < cs.len() && #[trigger] cs[i] == seq!['.', '.'] ==> !is_abs(s) && (forall|
                j: int,
            |
                0 <= j < i ==> cs[j] == seq!['.', '.'])
        &&& (!is_dir(s) ==> cs[cs.len() - 1] != seq!['.', '.'])
    }
}

/// The components laid out with a `/` after each one.
pub open spec fn cat_comps(cs: Seq<Seq<char>>) -> Seq<char>
    decreases cs.len(),
{
    if cs.len() == 0 {
        Seq::<char>::empty()
    } else {
        cs[0] + seq!['/'] + cat_comps(cs.skip(1))
    }
}

/// The accumulator the canonical build maintains: the optional root `/`,
/// then each built component with a `/` after it.
pub open spec fn repr(abs: bool, cs: Seq<Seq<char>>) -> Seq<char> {
    if abs {
        seq!['/'] + cat_comps(cs)
    } else {
        cat_comps(cs)
    }
}

pub proof fn lemma_cat_comps_snoc(cs: Seq<Seq<char>>, c: Seq<char>)
    ensures
        cat_comps(cs.push(c)) == cat_comps(cs) + c + seq!['/'],
    decreases cs.len(),
{
    if cs.len() == 0 {
        assert(cs.push(c)[0] == c);
        assert(cs.push(c).skip(1) =~= Seq::<Seq<char>>::empty());
        assert(cat_comps(Seq::<Seq<char>>::empty()) == Seq::<char>::empty());
        assert(cat_comps(cs.push(c)) == c + seq!['/'] + Seq::<char>::empty());
        assert(c + seq!['/'] + Seq::<char>::empty() =~= Seq::<char>::empty() + c + seq!['/']);
    } else {
        lemma_cat_comps_snoc(cs.skip(1), c);
        assert(cs.push(c).skip(1) =~= cs.skip(1).push(c));
        assert(cat_comps(cs.push(c)) == cs[0] + seq!['/'] + (cat_comps(cs.skip(1)) + c + seq![
            '/',
        ]));
        assert(cs[0] + seq!['/'] + (cat_comps(cs.skip(1)) + c + seq!['/']) =~= (cs[0] + seq!['/']
            + cat_comps(cs.skip(1))) + c + seq!['/']);
    }
}

pub proof fn lemma_cat_vs_join(cs: Seq<Seq<char>>)
    requires
        cs.len() > 0,
    ensures
        cat_comps(cs) == join_slash(cs) + seq!['/'],
    decreases cs.len(),
{
    if cs.len() == 1 {
        assert(cat_comps(cs.skip(1)) == Seq::<char>::empty());
        assert(cs[0] + seq!['/'] + Seq::<char>::empty() =~= cs[0] + seq!['/']);
    } else {
        lemma_cat_vs_join(cs.skip(1));
        assert(cs[0] + seq!['/'] + (join_slash(cs.skip(1)) + seq!['/']) =~= (cs[0] + seq!['/']
            + join_slash(cs.skip(1))) + seq!['/']);
    }
}

pub proof fn lemma_drop_to_slash_strip(base: Seq<char>, comp: Seq<char>)
    requires
        slash_free(comp),
        base.len() == 0 || base[base.len() - 1] == '/',
    ensures
        drop_to_slash(base + comp) == base,
    decreases comp.len(),
{
    if comp.len() == 0 {
        assert(base + comp =~= base);
    } else {
        let t = base + comp;
        assert(t[t.len() - 1] == comp[comp.len() - 1]);
        assert(comp[comp.len() - 1] != '/');
        assert(t.take(t.len() - 1) =~= base + comp.take(comp.len() - 1));
        assert(slash_free(comp.take(comp.len() - 1)));
        lemma_drop_to_slash_strip(base, comp.take(comp.len() - 1));
    }
}

/// Popping the innermost component of a built accumulator removes exactly the
/// last built component.
pub proof fn lemma_pop_repr(abs: bool, cs: Seq<Seq<char>>)
    requires
        cs.len() > 0,
        slash_free(cs[cs.len() - 1]),
    ensures
        pop_comp(repr(abs, cs)) == repr(abs, cs.take(cs.len() - 1)),
{
    let front = cs.take(cs.len() - 1);
    let last = cs[cs.len() - 1];
    assert(cs == front.push(last));
    lemma_cat_comps_snoc(front, last);
    let r = repr(abs, cs);
    let rf = repr(abs, front);
    assert(r =~= rf + last + seq!['/']);
    assert(r.len() > 0);
    assert(r.take(r.len() - 1) =~= rf + last);
    assert(rf.len() == 0 || rf[rf.len() - 1] == '/') by {
        if front.len() == 0 {
            assert(cat_comps(front) == Seq::<char>::empty());
            if abs {
                assert(rf =~= seq!['/']);
            } else {
                assert(rf =~= Seq::<char>::empty());
            }
        } else {
            lemma_cat_vs_join(front);
            assert(cat_comps(front).len() > 0);
            assert(cat_comps(front)[cat_comps(front).len() - 1] == '/');
            assert(rf[rf.len() - 1] == '/');
        }
    }
    lemma_drop_to_slash_strip(rf, last);
}

pub proof fn lemma_join_split(cs: Seq<Seq<char>>)
    requires
        cs.len() >= 1,
        forall|k: int| 0 <= k < cs.len() ==> #[trigger] slash_free(cs[k]),
    ensures
        split_slash(join_slash(cs)) == cs,
    decreases cs.len(),
{
    if cs.len() == 1 {
        crate::text::lemma_split_slash_whole(cs[0]);
        assert(seq![cs[0]] =~= cs);
    } else {
        let j = join_slash(cs);
        let c0 = cs[0];
        let rest = join_slash(cs.skip(1));
        assert(j == c0 + seq!['/'] + rest);
        assert(j[c0.len() as int] == '/');
        assert(slash_free(cs[0]));
        assert(forall|k: int| 0 <= k < c0.len() ==> j[k] == c0[k]);
        crate::text::lemma_split_slash_step(j, c0.len() as int);
        assert(j.take(c0.len() as int) =~= c0);
        assert(j.skip(c0.len() as int + 1) =~= rest);
        assert(forall|k: int| 0 <= k < cs.skip(1).len() ==> #[trigger] slash_free(cs.skip(1)[k]));
        lemma_join_split(cs.skip(1));
        assert(seq![c0] + split_slash(rest) =~= cs);
    }
}

pub proof fn lemma_join_first(cs: Seq<Seq<char>>)
    requires
        cs.len() >= 1,
    ensures
        crate::text::starts_with(join_slash(cs), cs[0]),
    decreases cs.len(),
{
    if cs.len() == 1 {
        assert(join_slash(cs).take(cs[0].len() as int) =~= cs[0]);
    } else {
        assert(join_slash(cs).take(cs[0].len() as int) =~= cs[0]);
    }
}

pub proof fn lemma_join_last(cs: Seq<Seq<char>>)
    requires
        cs.len() >= 1,
    ensures
        ends_with(join_slash(cs), cs[cs.len() - 1]),
        cs.len() > 1 ==> ends_with(join_slash(cs), seq!['/'] + cs[cs.len() - 1]),
    decreases cs.len(),
{
    let j = join_slash(cs);
    let last = cs[cs.len() - 1];
    if cs.len() == 1 {
        assert(j.skip(j.len() - last.len()) =~= last);
    } else {
        lemma_join_last(cs.skip(1));
        let rest = join_slash(cs.skip(1));
        assert(cs.skip(1)[cs.skip(1).len() - 1] == last);
        assert(rest.skip(rest.len() - last.len()) == last);
        assert(j == cs[0] + seq!['/'] + rest);
        assert(j.skip(j.len() - last.len()) =~= rest.skip(rest.len() - last.len()));
        if cs.len() > 2 {
            assert(rest.skip(rest.len() - (seq!['/'] + last).len()) == seq!['/'] + last);
            assert(j.skip(j.len() - (seq!['/'] + last).len()) =~= rest.skip(
                rest.len() - (seq!['/'] + last).len(),
            ));
        } else {
            assert(rest =~= last);
            assert(j.skip(j.len() - (seq!['/'] + last).len()) =~= seq!['/'] + last);
        }
    }
}

/// A path text that is neither empty nor the bare root reassembles from its
/// absoluteness, its interior, and its directory-ness.
pub proof fn lemma_interior_recompose(s: Seq<char>)
    requires
        s.len() > 0,
        s != seq!['/'],
    ensures
        s == (if is_abs(s) {
            seq!['/']
        } else {
            Seq::<char>::empty()
        }) + interior(s) + (if is_dir(s) {
            seq!['/']
        } else {
            Seq::<char>::empty()
        }),
{
    let pre: Seq<char> = if is_abs(s) {
        seq!['/']
    } else {
        Seq::<char>::empty()
    };
    let suf: Seq<char> = if is_dir(s) {
        seq!['/']
    } else {
        Seq::<char>::empty()
    };
    if is_abs(s) && is_dir(s) {
        if s.len() == 1 {
            assert(s =~= seq!['/']);
        }
        assert(s.len() >= 2);
        assert(pre + interior(s) + suf =~= s);
    } else {
        assert(pre + interior(s) + suf =~= s);
    }
}

pub proof fn lemma_cat_comps_len(cs: Seq<Seq<char>>)
    requires
        forall|k: int| 0 <= k < cs.len() ==> #[trigger] cs[k].len() > 0,
    ensures
        cs.len() > 0 ==> cat_comps(cs).len() >= 2,
        cs.len() > 0 ==> cat_comps(cs)[cat_comps(cs).len() - 1] == '/',
        cs.len() == 0 ==> cat_comps(cs).len() == 0,
{
    if cs.len() > 0 {
        lemma_cat_vs_join(cs);
        lemma_join_last(cs);
        let j = join_slash(cs);
        let last = cs[cs.len() - 1];
        assert(j.skip(j.len() - last.len()) == last);
        assert(j.len() >= last.len());
        assert(last.len() > 0);
        assert(cat_comps(cs).len() == j.len() + 1);
        assert(cat_comps(cs)[cat_comps(cs).len() - 1] == '/');
    }
}

/// When every built component is `..` or a plain name, the accumulator ends
/// with `../` exactly when the last built component is `..`.
pub proof fn lemma_repr_ends_dotdot(abs: bool, cs: Seq<Seq<char>>)
    requires
        forall|k: int|
            0 <= k < cs.len() ==> #[trigger] cs[k] == seq!['.', '.'] || plain_name(cs[k]),
    ensures
        ends_with(repr(abs, cs), seq!['.', '.', '/']) <==> (cs.len() > 0 && cs[cs.len() - 1]
            == seq!['.', '.']),
{
    let r = repr(abs, cs);
    if cs.len() == 0 {
        assert(cat_comps(cs).len() == 0);
        assert(r.len() <= 1);
        assert(!ends_with(r, seq!['.', '.', '/']));
    } else {
        let front = cs.take(cs.len() - 1);
        let last = cs[cs.len() - 1];
        assert(cs == front.push(last));
        lemma_cat_comps_snoc(front, last);
        let rf = repr(abs, front);
        assert(r =~= rf + last + seq!['/']);
        if last == seq!['.', '.'] {
            assert(r.skip(r.len() - 3) =~= seq!['.', '.', '/']);
            assert(ends_with(r, seq!['.', '.', '/']));
        } else {
            assert(plain_name(last));
            crate::name::lemma_plain_name_facts(last);
            assert(r[r.len() - 2] == last[last.len() - 1]);
            assert(last[last.len() - 1] != '.');
            if ends_with(r, seq!['.', '.', '/']) {
                assert(r.len() >= 3);
                assert(r.skip(r.len() - 3) == seq!['.', '.', '/']);
                assert(r.skip(r.len() - 3)[1] == r[r.len() - 2]);
                assert(r[r.len() - 2] == '.');
                assert(false);
            }
        }
    }
}

/// The canonical text assembled from built components: its shape facts and
/// its components.
pub proof fn lemma_components_of_repr(abs: bool, cs: Seq<Seq<char>>, dir: bool)
    requires
        cs.len() > 0,
        forall|k: int| 0 <= k < cs.len() ==> #[trigger] cs[k].len() > 0,
        forall|k: int| 0 <= k < cs.len() ==> #[trigger] slash_free(cs[k]),
    ensures
        ({
            let t = if dir {
                repr(abs, cs)
            } else {
                repr(abs, cs).take(repr(abs, cs).len() - 1)
            };
            &&& t.len() > 0
            &&& t != seq!['/']
            &&& is_abs(t) == abs
            &&& is_dir(t) == dir
            &&& components_of(t) == cs
        }),
{
    lemma_cat_vs_join(cs);
    lemma_cat_comps_len(cs);
    lemma_join_first(cs);
    lemma_join_last(cs);
    let j = join_slash(cs);
    let pre: Seq<char> = if abs {
        seq!['/']
    } else {
        Seq::<char>::empty()
    };
    assert(repr(abs, cs) =~= pre + j + seq!['/']);
    assert(j.len() >= cs[0].len());
    assert(j.take(cs[0].len() as int) == cs[0]);
    assert(cs[0].len() > 0);
    assert(j[0] == j.take(cs[0].len() as int)[0]);
    assert(j[0] == cs[0][0]);
    assert(slash_free(cs[0]));
    assert(cs[0][0] != '/');
    let last = cs[cs.len() - 1];
    assert(j.skip(j.len() - last.len()) == last);
    assert(j[j.len() - 1] == last[last.len() - 1]);
    assert(slash_free(cs[cs.len() - 1]));
    assert(last[last.len() - 1] != '/');
    assert(j[j.len() - 1] != '/');
    let t = if dir {
        repr(abs, cs)
    } else {
        repr(abs, cs).take(repr(abs, cs).len() - 1)
    };
    if !dir {
        assert(t =~= pre + j);
    }
    assert(t.len() > 0);
    assert(is_abs(t) == abs);
    assert(is_dir(t) == dir);
    assert(t != seq!['/']) by {
        if dir {
            assert(t.len() >= 2);
            if abs {
            } else {
                assert(t[0] != '/');
            }
        } else {
            assert(t[t.len() - 1] != '/');
        }
    }
    assert(interior(t) =~= j);
    assert(interior(t).len() > 0);
    lemma_join_split(cs);
    assert(components_of(t) == cs);
}

pub proof fn lemma_first_comp_err_concat(a: Seq<Seq<char>>, b: Seq<Seq<char>>)
    requires
        first_comp_err(a) is None,
    ensures
        first_comp_err(a + b) == first_comp_err(b),
    decreases a.len(),
{
    if a.len() == 0 {
        assert(a + b =~= b);
    } else {
        assert(comp_err(a[0]) is None);
        assert((a + b)[0] == a[0]);
        assert((a + b).skip(1) =~= a.skip(1) + b);
        lemma_first_comp_err_concat(a.skip(1), b);
    }
}

pub proof fn lemma_first_comp_err_all_pass(cs: Seq<Seq<char>>)
    requires
        forall|k: int| 0 <= k < cs.len() ==> #[trigger] comp_err(cs[k]) is None,
    ensures
        first_comp_err(cs) is None,
    decreases cs.len(),
{
    if cs.len() > 0 {
        assert(comp_err(cs[0]) is None);
        assert(forall|k: int|
            0 <= k < cs.skip(1).len() ==> #[trigger] comp_err(cs.skip(1)[k]) is None);
        lemma_first_comp_err_all_pass(cs.skip(1));
    }
}

/// Folding the canonical build over components that already have the valid
/// shape reproduces them verbatim.
pub proof fn lemma_build_valid(abs: bool, done: Seq<Seq<char>>, rem: Seq<Seq<char>>)
    requires
        forall|k: int|
            0 <= k < done.len() ==> (#[trigger] done[k] == seq!['.', '.'] || (plain_name(done[k])
                && nfd_seq(done[k]) == done[k])),
        forall|k: int|
            0 <= k < rem.len() ==> (#[trigger] rem[k] == seq!['.', '.'] || (plain_name(rem[k])
                && nfd_seq(rem[k]) == rem[k])),
        forall|k: int|
            0 <= k < done.len() && #[trigger] done[k] == seq!['.', '.'] ==> !abs && (forall|j: int|
                0 <= j < k ==> done[j] == seq!['.', '.']),
        forall|k: int|
            0 <= k < rem.len() && #[trigger] rem[k] == seq!['.', '.'] ==> !abs && (done.len() == 0
                || done[done.len() - 1] == seq!['.', '.']) && (forall|j: int|
                0 <= j < k ==> rem[j] == seq!['.', '.']),
    ensures
        build_all(repr(abs, done), rem) == Some(repr(abs, done + rem)),
    decreases rem.len(),
{
    if rem.len() == 0 {
        assert(done + rem =~= done);
    } else {
        let c = rem[0];
        let acc = repr(abs, done);
        let done2 = done.push(c);
        lemma_cat_comps_snoc(done, c);
        let step = build_step(acc, c);
        if c == seq!['.', '.'] {
            assert(!abs);
            lemma_repr_ends_dotdot(abs, done);
            if done.len() == 0 {
                assert(cat_comps(done).len() == 0);
                assert(acc.len() == 0);
                assert(step == Some(acc + seq!['.', '.', '/']));
                assert(acc + seq!['.', '.', '/'] =~= repr(abs, done2));
            } else {
                assert(done[done.len() - 1] == seq!['.', '.']);
                assert(ends_with(acc, seq!['.', '.', '/']));
                assert(step == Some(acc + seq!['.', '.', '/']));
                assert(acc + seq!['.', '.', '/'] =~= repr(abs, done2));
            }
        } else {
            assert(plain_name(c) && nfd_seq(c) == c);
            assert(c != seq!['.']) by {
                if c == seq!['.'] {
                    assert(c[0] == '.');
                    assert(crate::name::name_err(c) is Some);
                }
            }
            assert(step == Some(acc + nfd_seq(c) + seq!['/']));
            assert(acc + c + seq!['/'] =~= repr(abs, done2));
        }
        assert(step == Some(repr(abs, done2)));
        assert(forall|k: int|
            0 <= k < done2.len() && #[trigger] done2[k] == seq!['.', '.'] ==> !abs && (forall|
                j: int,
            |
                0 <= j < k ==> done2[j] == seq!['.', '.'])) by {
            assert forall|k: int|
                0 <= k < done2.len() && #[trigger] done2[k] == seq!['.', '.'] implies !abs && (
            forall|j: int| 0 <= j < k ==> done2[j] == seq!['.', '.']) by {
                if k < done.len() {
                    assert(done[k] == seq!['.', '.']);
                    assert(forall|j: int| 0 <= j < k ==> done2[j] == done[j]);
                } else {
                    assert(done2[k] == c);
                    assert(rem[0] == seq!['.', '.']);
                    assert(done.len() == 0 || done[done.len() - 1] == seq!['.', '.']);
                    assert forall|j: int| 0 <= j < k implies done2[j] == seq!['.', '.'] by {
                        assert(done2[j] == done[j]);
                        if done.len() > 0 && done[done.len() - 1] == seq!['.', '.'] {
                            assert(done[j] == seq!['.', '.']);
                        }
                    }
                }
            }
        }
        assert(forall|k: int|
            0 <= k < rem.skip(1).len() && #[trigger] rem.skip(1)[k] == seq!['.', '.'] ==> !abs && (
        done2.len() == 0 || done2[done2.len() - 1] == seq!['.', '.']) && (forall|j: int|
            0 <= j < k ==> rem.skip(1)[j] == seq!['.', '.'])) by {
            assert forall|k: int|
                0 <= k < rem.skip(1).len() && #[trigger] rem.skip(1)[k] == seq!['.', '.'] implies
            !abs && (done2.len() == 0 || done2[done2.len() - 1] == seq!['.', '.']) && (forall|
                j: int,
            |
                0 <= j < k ==> rem.skip(1)[j] == seq!['.', '.']) by {
                assert(rem.skip(1)[k] == rem[k + 1]);
                assert(rem[k + 1] == seq!['.', '.']);
                assert(forall|j: int| 0 <= j < k + 1 ==> rem[j] == seq!['.', '.']);
                assert(rem[0] == seq!['.', '.']);
                assert(done2[done2.len() - 1] == c);
                assert(forall|j: int| 0 <= j < k ==> rem.skip(1)[j] == rem[j + 1]);
            }
        }
        assert(forall|k: int|
            0 <= k < done2.len() ==> (#[trigger] done2[k] == seq!['.', '.'] || (plain_name(done2[k])
                && nfd_seq(done2[k]) == done2[k])));
        assert(forall|k: int|
            0 <= k < rem.skip(1).len() ==> (#[trigger] rem.skip(1)[k] == seq!['.', '.'] || (
            plain_name(rem.skip(1)[k]) && nfd_seq(rem.skip(1)[k]) == rem.skip(1)[k])));
        lemma_build_valid(abs, done2, rem.skip(1));
        assert(done2 + rem.skip(1) =~= done + rem);
        assert(build_all(acc, rem) == build_all(repr(abs, done2), rem.skip(1)));
    }
}

/// Idempotence: any text that satisfies the path invariant normalizes to
/// itself. With `try_from_str`'s contract this says that reparsing the text
/// of a constructed path succeeds and yields the same canonical text.
pub proof fn lemma_valid_roundtrip(s: Seq<char>)
    requires
        valid_path(s),
    ensures
        norm_path(s) == Ok::<Seq<char>, PathFromStrError>(s),
{
    if s.len() == 0 || s == seq!['/'] {
    } else {
        let cs = components_of(s);
        assert(cs.len() > 0);
        assert forall|k: int| 0 <= k < cs.len() implies #[trigger] cs[k].len() > 0 && slash_free(
            cs[k],
        ) by {
            if cs[k] == seq!['.', '.'] {
                assert(cs[k].len() == 2);
                assert(forall|i: int| 0 <= i < 2 ==> seq!['.', '.'][i] != '/');
            } else {
                assert(plain_name(cs[k]));
                crate::name::lemma_plain_name_facts(cs[k]);
            }
        }
        if s == seq!['/', '/'] {
            assert(interior(s) =~= Seq::<char>::empty());
            assert(false);
        }
        assert(interior(s).len() > 0) by {
            if interior(s).len() == 0 {
                assert(cs.len() == 0);
            }
        }
        assert(cs == split_slash(interior(s)));
        crate::text::lemma_split_slash_basic(interior(s));
        let j = join_slash(cs);
        assert(j == interior(s));
        lemma_interior_recompose(s);
        lemma_join_last(cs);
        let last = cs[cs.len() - 1];
        let lastchar = s[s.len() - 1];
        assert(lastchar != '.') by {
            if is_dir(s) {
                assert(lastchar == '/');
            } else {
                assert(last != seq!['.', '.']);
                assert(plain_name(last));
                crate::name::lemma_plain_name_facts(last);
                assert(s =~= (if is_abs(s) {
                    seq!['/']
                } else {
                    Seq::<char>::empty()
                }) + j);
                assert(lastchar == j[j.len() - 1]);
                assert(j.skip(j.len() - last.len()) == last);
                assert(j[j.len() - 1] == last[last.len() - 1]);
            }
        }
        assert(s != seq!['.', '.']) by {
            if s == seq!['.', '.'] {
                assert(lastchar == '.');
            }
        }
        assert(!ends_with(s, seq!['/', '.', '.'])) by {
            if ends_with(s, seq!['/', '.', '.']) {
                assert(s.skip(s.len() - 3) == seq!['/', '.', '.']);
                assert(s.skip(s.len() - 3)[2] == s[s.len() - 1]);
                assert(lastchar == '.');
            }
        }
        assert forall|k: int| 0 <= k < cs.len() implies #[trigger] comp_err(cs[k]) is None by {
            if cs[k] == seq!['.', '.'] {
            } else {
                assert(plain_name(cs[k]) && nfd_seq(cs[k]) == cs[k]);
                assert(cs[k] != seq!['.']);
                assert(name_err(nfd_seq(cs[k])) is None);
            }
        }
        lemma_first_comp_err_all_pass(cs);
        let abs = is_abs(s);
        let init: Seq<char> = if abs {
            seq!['/']
        } else {
            Seq::<char>::empty()
        };
        assert(init == repr(abs, Seq::<Seq<char>>::empty())) by {
            assert(cat_comps(Seq::<Seq<char>>::empty()) == Seq::<char>::empty());
            if abs {
                assert(seq!['/'] + Seq::<char>::empty() =~= seq!['/']);
            } else {
                assert(repr(abs, Seq::<Seq<char>>::empty()) =~= init);
            }
        }
        assert(forall|k: int|
            0 <= k < cs.len() ==> (#[trigger] cs[k] == seq!['.', '.'] || (plain_name(cs[k])
                && nfd_seq(cs[k]) == cs[k])));
        lemma_build_valid(abs, Seq::<Seq<char>>::empty(), cs);
        assert(Seq::<Seq<char>>::empty() + cs =~= cs);
        assert(build_all(init, cs) == Some(repr(abs, cs)));
        let acc = repr(abs, cs);
        lemma_repr_ends_dotdot(abs, cs);
        lemma_cat_vs_join(cs);
        assert(acc =~= (if abs {
            seq!['/']
        } else {
            Seq::<char>::empty()
        }) + j + seq!['/']);
        if is_dir(s) {
            assert(acc =~= s);
        } else {
            assert(last != seq!['.', '.']);
            assert(!ends_with(acc, seq!['.', '.', '/']));
            assert(acc.len() > 0);
            assert(acc.take(acc.len() - 1) =~= s);
        }
    }
}

pub proof fn lemma_first_comp_err_single(c: Seq<char>)
    ensures
        first_comp_err(seq![c]) == comp_err(c),
{
    assert(seq![c][0] == c);
    assert(seq![c].skip(1) =~= Seq::<Seq<char>>::empty());
    assert(first_comp_err(Seq::<Seq<char>>::empty()) is None);
}

pub proof fn lemma_cat_comps_len_weak(cs: Seq<Seq<char>>)
    requires
        cs.len() > 0,
    ensures
        cat_comps(cs).len() >= 1,
{
    assert(cat_comps(cs) == cs[0] + seq!['/'] + cat_comps(cs.skip(1)));
}

/// The early checks of `norm_path` all passed.
pub open spec fn not_special(s: Seq<char>) -> bool {
    &&& s.len() > 0
    &&& s != seq!['/']
    &&& s != seq!['/', '/']
    &&& s != seq!['.', '.']
    &&& !ends_with(s, seq!['/', '.', '.'])
}

/// Whether the accumulator ends with `../`, checked on the characters.
fn ends_dotdot_slash(acc: &Vec<char>) -> (r: bool)
    ensures
        r == ends_with(acc@, seq!['.', '.', '/']),
{
    let n = acc.len();
    let r = n >= 3 && acc[n - 3] == '.' && acc[n - 2] == '.' && acc[n - 1] == '/';
    proof {
        if r {
            assert(acc@.skip(acc@.len() - 3) =~= seq!['.', '.', '/']);
        } else {
            if ends_with(acc@, seq!['.', '.', '/']) {
                assert(acc@.skip(acc@.len() - 3) == seq!['.', '.', '/']);
                assert(acc@[acc@.len() - 3] == '.');
                assert(acc@[acc@.len() - 2] == '.');
                assert(acc@[acc@.len() - 1] == '/');
            }
        }
    }
    r
}
/// The initial accumulator of the canonical build.
pub open spec fn init_acc(abs: bool) -> Seq<char> {
    if abs {
        seq!['/']
    } else {
        Seq::<char>::empty()
    }
}

/// The shape of the components the canonical build has appended: each is
/// `..` or a plain, decomposition-stable name, and the `..`s form a leading
/// run of a relative path.
pub open spec fn built_ok(abs: bool, b: Seq<Seq<char>>) -> bool {
    &&& forall|k: int|
        0 <= k < b.len() ==> (#[trigger] b[k] == seq!['.', '.'] || (plain_name(b[k]) && nfd_seq(
            b[k],
        ) == b[k]))
    &&& forall|k: int|
        0 <= k < b.len() && #[trigger] b[k] == seq!['.', '.'] ==> !abs && (forall|m: int|
            0 <= m < k ==> b[m] == seq!['.', '.'])
}

/// First pass of normalization: classify every component of `src[lo..hi]`
/// and report the first broken rule.
#[verifier::loop_isolation(false)]
#[verifier::rlimit(60)]
fn validate_comps(src: &Vec<char>, lo: usize, hi: usize) -> (r: Option<PathFromStrError>)
    requires
        lo <= hi <= src@.len(),
    ensures
        match r {
            None => first_comp_err(split_slash(src@.subrange(lo as int, hi as int))) is None,
            Some(e) => first_comp_err(split_slash(src@.subrange(lo as int, hi as int))) == Some(e),
        },
{
    let ghost cs = split_slash(src@.subrange(lo as int, hi as int));
    let mut i: usize = lo;
    let ghost mut done: Seq<Seq<char>> = Seq::<Seq<char>>::empty();
    proof {
        assert(cs == done + split_slash(src@.subrange(i as int, hi as int))) by {
            assert(done + cs =~= cs);
        }
    }
    let mut finished = false;
    while !finished
        invariant
            lo <= i <= hi,
            !finished ==> cs == done + split_slash(src@.subrange(i as int, hi as int)),
            first_comp_err(done) is None,
            finished ==> cs == done,
        decreases (if finished { 0int } else { hi - i + 1 }),
    {
        let j = find_slash(src, i, hi);
        let ghost rem = split_slash(src@.subrange(i as int, hi as int));
        let ghost comp = src@.subrange(i as int, j as int);
        proof {
            let sub = src@.subrange(i as int, hi as int);
            if j < hi {
                assert(sub[j - i] == '/');
                assert(forall|k: int| 0 <= k < j - i ==> sub[k] != '/');
                crate::text::lemma_split_slash_step(sub, j - i);
                assert(sub.take(j - i) =~= comp);
                assert(sub.skip(j - i + 1) =~= src@.subrange(j + 1, hi as int));
                assert(rem == seq![comp] + split_slash(src@.subrange(j + 1, hi as int)));
                assert(rem.skip(1) =~= split_slash(src@.subrange(j + 1, hi as int)));
            } else {
                assert(comp =~= sub);
                assert(slash_free(comp));
                crate::text::lemma_split_slash_whole(comp);
                assert(rem =~= seq![comp]);
            }
            assert(rem.len() > 0 && rem[0] == comp);
        }
        let is_dot = j - i == 1 && src[i] == '.';
        let is_dd = j - i == 2 && src[i] == '.' && src[i + 1] == '.';
        proof {
            if is_dot {
                assert(comp =~= seq!['.']);
            } else if comp == seq!['.'] {
                assert(comp.len() == 1 && comp[0] == '.');
                assert(src@[i as int] == '.');
            }
            if is_dd {
                assert(comp =~= seq!['.', '.']);
            } else if comp == seq!['.', '.'] {
                assert(comp.len() == 2 && comp[0] == '.' && comp[1] == '.');
                assert(src@[i as int] == '.' && src@[i as int + 1] == '.');
            }
        }
        if !is_dot && !is_dd {
            if j == i {
                proof {
                    assert(comp =~= Seq::<char>::empty());
                    assert(comp_err(comp) == Some(PathFromStrError::DoubleSlash));
                    lemma_first_comp_err_concat(done, rem);
                    assert(first_comp_err(cs) == Some(PathFromStrError::DoubleSlash));
                }
                return Some(PathFromStrError::DoubleSlash);
            }
            let d = decompose_range(src, i, j);
            let verdict = crate::name::check_name(&d);
            match verdict {
                Some(e) => {
                    proof {
                        assert(comp_err(comp) == Some(e));
                        lemma_first_comp_err_concat(done, rem);
                        assert(first_comp_err(cs) == Some(e));
                    }
                    return Some(e);
                },
                None => {
                    proof {
                        assert(comp_err(comp) is None);
                    }
                },
            }
        }
        proof {
            assert(comp_err(comp) is None);
            let done_old = done;
            done = done.push(comp);
            assert(done =~= done_old + seq![comp]);
            lemma_first_comp_err_concat(done_old, seq![comp]);
            lemma_first_comp_err_single(comp);
            assert(first_comp_err(done) is None);
            if j == hi {
                assert(cs =~= done);
            } else {
                assert(cs =~= done + split_slash(src@.subrange(j + 1, hi as int)));
            }
        }
        if j == hi {
            finished = true;
        } else {
            i = j + 1;
        }
    }
    None
}

/// Second pass of normalization: fold the canonical build over the
/// components of `src[lo..hi]`, all of which have already been validated.
#[verifier::loop_isolation(false)]
#[verifier::rlimit(100)]
#[verifier::spinoff_prover]
fn build_comps(src: &Vec<char>, lo: usize, hi: usize, abs: bool) -> (r: Result<
    Vec<char>,
    PathFromStrError,
>)
    requires
        lo <= hi <= src@.len(),
        first_comp_err(split_slash(src@.subrange(lo as int, hi as int))) is None,
    ensures
        match r {
            Ok(t) => build_all(init_acc(abs), split_slash(src@.subrange(lo as int, hi as int)))
                == Some(t@) && (exists|b: Seq<Seq<char>>|
                t@ == #[trigger] repr(abs, b) && built_ok(abs, b)),
            Err(e) => e == PathFromStrError::EscapedRoot && build_all(
                init_acc(abs),
                split_slash(src@.subrange(lo as int, hi as int)),
            ) is None,
        },
{
    let ghost cs = split_slash(src@.subrange(lo as int, hi as int));
    let ghost init = init_acc(abs);
    let mut acc: Vec<char> = Vec::new();
    if abs {
        acc.push('/');
    }
    let ghost mut built: Seq<Seq<char>> = Seq::<Seq<char>>::empty();
    let mut i2: usize = lo;
    proof {
        assert(cat_comps(built) == Seq::<char>::empty());
        assert(acc@ == repr(abs, built)) by {
            if abs {
                assert(seq!['/'] + Seq::<char>::empty() =~= seq!['/']);
                assert(Seq::<char>::empty().push('/') =~= seq!['/']);
            }
        }
        assert(acc@ == init);
    }
    let mut finished = false;
    while !finished
        invariant
            lo <= i2 <= hi,
            !finished ==> build_all(init, cs) == build_all(
                acc@,
                split_slash(src@.subrange(i2 as int, hi as int)),
            ),
            !finished ==> first_comp_err(split_slash(src@.subrange(i2 as int, hi as int))) is None,
            acc@ == repr(abs, built),
            built_ok(abs, built),
            finished ==> build_all(init, cs) == Some(acc@),
        decreases (if finished { 0int } else { hi - i2 + 1 }),
    {
        let ghost acc_head = acc@;
        let j = find_slash(src, i2, hi);
        let ghost rem = split_slash(src@.subrange(i2 as int, hi as int));
        let ghost comp = src@.subrange(i2 as int, j as int);
        proof {
            let sub = src@.subrange(i2 as int, hi as int);
            if j < hi {
                assert(sub[j - i2] == '/');
                assert(forall|k: int| 0 <= k < j - i2 ==> sub[k] != '/');
                crate::text::lemma_split_slash_step(sub, j - i2);
                assert(sub.take(j - i2) =~= comp);
                assert(sub.skip(j - i2 + 1) =~= src@.subrange(j + 1, hi as int));
                assert(rem == seq![comp] + split_slash(src@.subrange(j + 1, hi as int)));
                assert(rem.skip(1) =~= split_slash(src@.subrange(j + 1, hi as int)));
            } else {
                assert(comp =~= sub);
                assert(slash_free(comp));
                crate::text::lemma_split_slash_whole(comp);
                assert(rem =~= seq![comp]);
                assert(rem.skip(1) =~= Seq::<Seq<char>>::empty());
            }
            assert(rem.len() > 0 && rem[0] == comp);
            assert(comp_err(comp) is None) by {
                if comp_err(comp) is Some {
                    assert(first_comp_err(rem) == comp_err(comp));
                }
            }
        }
        let is_dot = j - i2 == 1 && src[i2] == '.';
        let is_dd = j - i2 == 2 && src[i2] == '.' && src[i2 + 1] == '.';
        proof {
            if is_dot {
                assert(comp =~= seq!['.']);
            } else if comp == seq!['.'] {
                assert(comp.len() == 1 && comp[0] == '.');
                assert(src@[i2 as int] == '.');
            }
            if is_dd {
                assert(comp =~= seq!['.', '.']);
            } else if comp == seq!['.', '.'] {
                assert(comp.len() == 2 && comp[0] == '.' && comp[1] == '.');
                assert(src@[i2 as int] == '.' && src@[i2 as int + 1] == '.');
            }
        }
        if is_dot {
            proof {
                assert(build_step(acc_head, comp) == Some(acc_head));
            }
        } else if is_dd {
            if acc.len() == 0 {
                acc.push('.');
                acc.push('.');
                acc.push('/');
                proof {
                    assert(acc@ =~= acc_head + seq!['.', '.', '/']);
                    assert(build_step(acc_head, comp) == Some(acc_head + seq!['.', '.', '/']));
                    let old_built = built;
                    assert(!abs) by {
                        if abs {
                            assert(repr(abs, old_built).len() >= 1);
                        }
                    }
                    assert(old_built.len() == 0) by {
                        if old_built.len() > 0 {
                            lemma_cat_comps_len_weak(old_built);
                        }
                    }
                    built = built.push(seq!['.', '.']);
                    lemma_cat_comps_snoc(old_built, seq!['.', '.']);
                    assert(acc@ =~= repr(abs, built));
                    assert(built_ok(abs, built));
                }
            } else if ends_dotdot_slash(&acc) {
                acc.push('.');
                acc.push('.');
                acc.push('/');
                proof {
                    assert(acc@ =~= acc_head + seq!['.', '.', '/']);
                    assert(build_step(acc_head, comp) == Some(acc_head + seq!['.', '.', '/']));
                    let old_built = built;
                    lemma_repr_ends_dotdot(abs, old_built);
                    assert(old_built.len() > 0 && old_built[old_built.len() - 1] == seq!['.', '.']);
                    assert(!abs);
                    built = built.push(seq!['.', '.']);
                    lemma_cat_comps_snoc(old_built, seq!['.', '.']);
                    assert(acc@ =~= repr(abs, built));
                    assert(built_ok(abs, built)) by {
                        assert forall|k: int|
                            0 <= k < built.len() && #[trigger] built[k] == seq!['.', '.'] implies
                        !abs && (forall|m: int| 0 <= m < k ==> built[m] == seq!['.', '.']) by {
                            assert forall|m: int| 0 <= m < k implies built[m] == seq!['.', '.'] by {
                                if k < old_built.len() {
                                    assert(old_built[k] == seq!['.', '.']);
                                    assert(built[m] == old_built[m]);
                                } else {
                                    assert(old_built[old_built.len() - 1] == seq!['.', '.']);
                                    if m < old_built.len() - 1 {
                                        assert(old_built[m] == seq!['.', '.']);
                                    }
                                    assert(built[m] == old_built[m]);
                                }
                            }
                        }
                    }
                }
            } else if acc.len() == 1 && acc[0] == '/' {
                proof {
                    assert(acc_head =~= seq!['/']);
                    assert(build_step(acc_head, comp) is None);
                    assert(build_all(acc_head, rem) is None);
                    assert(build_all(init, cs) is None);
                }
                return Err(PathFromStrError::EscapedRoot);
            } else {
                proof {
                    assert(acc_head != seq!['/']) by {
                        if acc_head == seq!['/'] {
                            assert(acc_head.len() == 1 && acc_head[0] == '/');
                        }
                    }
                    assert(build_step(acc_head, comp) == Some(pop_comp(acc_head)));
                }
                let ghost acc0 = acc@;
                acc.pop();
                proof {
                    assert(acc@ == acc0.take(acc0.len() - 1));
                    assert(drop_to_slash(acc@) == pop_comp(acc0));
                }
                while acc.len() > 0 && acc[acc.len() - 1] != '/'
                    invariant
                        drop_to_slash(acc@) == pop_comp(acc0),
                    decreases acc@.len(),
                {
                    proof {
                        assert(drop_to_slash(acc@) == drop_to_slash(acc@.take(acc@.len() - 1)));
                    }
                    acc.pop();
                }
                proof {
                    assert(drop_to_slash(acc@) == acc@);
                    assert(acc@ == pop_comp(acc0));
                    let old_built = built;
                    assert(old_built.len() > 0) by {
                        if old_built.len() == 0 {
                            assert(cat_comps(old_built).len() == 0);
                            if abs {
                                assert(acc0 =~= seq!['/']);
                            } else {
                                assert(acc0.len() == 0);
                            }
                        }
                    }
                    assert(slash_free(old_built[old_built.len() - 1])) by {
                        if old_built[old_built.len() - 1] == seq!['.', '.'] {
                            assert(forall|w: int| 0 <= w < 2 ==> seq!['.', '.'][w] != '/');
                        } else {
                            crate::name::lemma_plain_name_facts(old_built[old_built.len() - 1]);
                        }
                    }
                    lemma_pop_repr(abs, old_built);
                    built = built.take(built.len() - 1);
                    assert(acc@ == repr(abs, built));
                    assert(forall|k: int| 0 <= k < built.len() ==> built[k] == old_built[k]);
                    assert(built_ok(abs, built));
                }
            }
        } else {
            let mut d = decompose_range(src, i2, j);
            proof {
                assert(comp.len() > 0) by {
                    if comp.len() == 0 {
                        assert(comp_err(comp) == Some(PathFromStrError::DoubleSlash));
                    }
                }
                assert(name_err(nfd_seq(comp)) is None);
                assert(d@ == nfd_seq(comp));
                assert(plain_name(d@)) by {
                    assert(d@.len() > 0);
                    if d@ == seq!['.'] {
                        assert(d@[0] == '.');
                        assert(name_err(d@) is Some);
                    }
                    if d@ == seq!['.', '.'] {
                        assert(d@[0] == '.');
                        assert(name_err(d@) is Some);
                    }
                }
                assert(build_step(acc_head, comp) == Some(acc_head + nfd_seq(comp) + seq!['/']));
            }
            let ghost dv = d@;
            acc.append(&mut d);
            acc.push('/');
            proof {
                assert(acc@ =~= acc_head + dv + seq!['/']);
                let old_built = built;
                built = built.push(dv);
                lemma_cat_comps_snoc(old_built, dv);
                assert(acc@ =~= repr(abs, built));
                assert(nfd_seq(dv) == dv);
                assert(built_ok(abs, built)) by {
                    assert(dv != seq!['.', '.']);
                    assert forall|k: int|
                        0 <= k < built.len() && #[trigger] built[k] == seq!['.', '.'] implies !abs
                        && (forall|m: int| 0 <= m < k ==> built[m] == seq!['.', '.']) by {
                        assert(k < old_built.len());
                        assert(old_built[k] == seq!['.', '.']);
                        assert(forall|m: int| 0 <= m < k ==> old_built[m] == built[m]);
                    }
                }
            }
        }
        proof {
            assert(build_step(acc_head, comp) == Some(acc@));
            assert(build_all(acc_head, rem) == build_all(acc@, rem.skip(1)));
            assert(first_comp_err(rem.skip(1)) is None) by {
                if j < hi {
                    assert(first_comp_err(rem) == first_comp_err(rem.skip(1)));
                }
            }
            if j == hi {
                assert(rem.skip(1) =~= Seq::<Seq<char>>::empty());
                assert(build_all(acc@, rem.skip(1)) == Some(acc@));
                assert(build_all(init, cs) == Some(acc@));
            }
        }
        if j == hi {
            finished = true;
        } else {
            i2 = j + 1;
        }
    }
    proof {
        assert(exists|b: Seq<Seq<char>>| acc@ == #[trigger] repr(abs, b) && built_ok(abs, b)) by {
            assert(acc@ == repr(abs, built) && built_ok(abs, built));
        }
    }
    Ok(acc)
}

/// Normalize a text into canonical path form, or return the error determined
/// by the first failing check. On success the result is exactly `norm_path`
/// of the input and satisfies the path invariant.
#[verifier::loop_isolation(false)]
#[verifier::rlimit(100)]
#[verifier::spinoff_prover]
pub fn normalize_chars(src: &Vec<char>) -> (r: Result<Vec<char>, PathFromStrError>)
    ensures
        match r {
            Ok(t) => norm_path(src@) == Ok::<Seq<char>, PathFromStrError>(t@) && valid_path(t@),
            Err(e) => norm_path(src@) == Err::<Seq<char>, PathFromStrError>(e),
        },
{
    let n = src.len();
    if n == 0 {
        let r = copy_range(src, 0, 0);
        proof {
            assert(src@.subrange(0, 0) =~= src@);
        }
        return Ok(r);
    }
    if n == 1 && src[0] == '/' {
        let r = copy_range(src, 0, 1);
        proof {
            assert(src@ =~= seq!['/']);
            assert(src@.subrange(0, 1) =~= src@);
        }
        return Ok(r);
    }
    proof {
        if src@ == seq!['/'] {
            assert(src@.len() == 1 && src@[0] == '/');
        }
    }
    if n == 2 && src[0] == '/' && src[1] == '/' {
        proof {
            assert(src@ =~= seq!['/', '/']);
        }
        return Err(PathFromStrError::DoubleSlash);
    }
    proof {
        if src@ == seq!['/', '/'] {
            assert(src@.len() == 2 && src@[0] == '/' && src@[1] == '/');
        }
    }
    if n == 2 && src[0] == '.' && src[1] == '.' {
        proof {
            assert(src@ =~= seq!['.', '.']);
        }
        return Err(PathFromStrError::DotDotFile);
    }
    if n >= 3 && src[n - 3] == '/' && src[n - 2] == '.' && src[n - 1] == '.' {
        proof {
            assert(src@.skip(src@.len() - 3) =~= seq!['/', '.', '.']);
            assert(ends_with(src@, seq!['/', '.', '.']));
        }
        return Err(PathFromStrError::DotDotFile);
    }
    proof {
        if src@ == seq!['.', '.'] {
            assert(src@.len() == 2 && src@[0] == '.' && src@[1] == '.');
        }
        if ends_with(src@, seq!['/', '.', '.']) {
            assert(src@.skip(src@.len() - 3) == seq!['/', '.', '.']);
            assert(src@[src@.len() - 3] == src@.skip(src@.len() - 3)[0]);
            assert(src@[src@.len() - 2] == src@.skip(src@.len() - 3)[1]);
            assert(src@[src@.len() - 1] == src@.skip(src@.len() - 3)[2]);
        }
        assert(not_special(src@));
    }
    let abs = src[0] == '/';
    let dir = src[n - 1] == '/';
    let lo: usize = if abs {
        1
    } else {
        0
    };
    let hi: usize = if dir {
        n - 1
    } else {
        n
    };
    proof {
        assert(abs == is_abs(src@));
        assert(dir == is_dir(src@));
        assert(lo < hi) by {
            if abs && dir {
                if n == 2 {
                    assert(src@ =~= seq!['/', '/']);
                }
            } else if !abs && dir {
                if n == 1 {
                    assert(src@[0] == '/');
                }
            }
        }
        let t = if is_abs(src@) {
            src@.skip(1)
        } else {
            src@
        };
        assert(t =~= src@.subrange(lo as int, src@.len() as int));
        if dir {
            assert(t.len() > 0 && t[t.len() - 1] == '/');
            assert(t.take(t.len() - 1) =~= src@.subrange(lo as int, hi as int));
        } else {
            assert(!(t.len() > 0 && t[t.len() - 1] == '/'));
        }
        assert(interior(src@) == src@.subrange(lo as int, hi as int));
    }
    let ghost inter = src@.subrange(lo as int, hi as int);
    let ghost cs = split_slash(inter);
    proof {
        assert(inter.len() > 0);
        assert(components_of(src@) == cs);
    }
    match validate_comps(src, lo, hi) {
        Some(e) => {
            proof {
                assert(norm_path(src@) == Err::<Seq<char>, PathFromStrError>(e));
            }
            return Err(e);
        },
        None => {},
    }
    let mut acc = match build_comps(src, lo, hi, abs) {
        Err(e) => {
            proof {
                assert(norm_path(src@) == Err::<Seq<char>, PathFromStrError>(e));
            }
            return Err(e);
        },
        Ok(acc) => acc,
    };
    let ghost built = choose|b: Seq<Seq<char>>| acc@ == #[trigger] repr(abs, b) && built_ok(
        abs,
        b,
    );
    proof {
        assert(acc@ == repr(abs, built) && built_ok(abs, built));
        assert(norm_path(src@) == {
            if !is_dir(src@) && ends_with(acc@, seq!['.', '.', '/']) {
                Err::<Seq<char>, PathFromStrError>(PathFromStrError::DotDotFile)
            } else if is_dir(src@) {
                Ok::<Seq<char>, PathFromStrError>(acc@)
            } else if acc@.len() > 0 {
                Ok::<Seq<char>, PathFromStrError>(acc@.take(acc@.len() - 1))
            } else {
                Ok::<Seq<char>, PathFromStrError>(acc@)
            }
        });
    }
    if !dir {
        if ends_dotdot_slash(&acc) {
            return Err(PathFromStrError::DotDotFile);
        }
        let ghost before = acc@;
        acc.pop();
        proof {
            if before.len() > 0 {
                assert(acc@ == before.take(before.len() - 1));
            } else {
                assert(acc@ == before);
            }
        }
    }
    proof {
        lemma_repr_ends_dotdot(abs, built);
        if built.len() == 0 {
            assert(cat_comps(built).len() == 0);
            if abs {
                assert(repr(abs, built) =~= seq!['/']);
                if dir {
                    assert(acc@ =~= seq!['/']);
                } else {
                    assert(acc@ =~= Seq::<char>::empty());
                }
            } else {
                assert(repr(abs, built).len() == 0);
                assert(acc@ =~= Seq::<char>::empty());
            }
            assert(valid_path(acc@));
        } else {
            assert(forall|k: int| 0 <= k < built.len() ==> #[trigger] built[k].len() > 0) by {
                assert forall|k: int| 0 <= k < built.len() implies #[trigger] built[k].len()
                    > 0 by {
                    if built[k] != seq!['.', '.'] {
                        assert(plain_name(built[k]));
                    }
                }
            }
            assert(forall|k: int| 0 <= k < built.len() ==> #[trigger] slash_free(built[k])) by {
                assert forall|k: int| 0 <= k < built.len() implies #[trigger] slash_free(
                    built[k],
                ) by {
                    if built[k] == seq!['.', '.'] {
                        assert(forall|w: int| 0 <= w < 2 ==> seq!['.', '.'][w] != '/');
                    } else {
                        crate::name::lemma_plain_name_facts(built[k]);
                    }
                }
            }
            lemma_components_of_repr(abs, built, dir);
            let t = if dir {
                repr(abs, built)
            } else {
                repr(abs, built).take(repr(abs, built).len() - 1)
            };
            assert(acc@ == t) by {
                if dir {
                } else {
                    lemma_cat_comps_len(built);
                    assert(repr(abs, built).len() > 0);
                }
            }
            assert(valid_path(acc@)) by {
                assert(components_of(t) == built);
                assert(is_abs(t) == abs);
                assert(is_dir(t) == dir);
                if !dir {
                    assert(!ends_with(repr(abs, built), seq!['.', '.', '/']));
                    assert(built[built.len() - 1] != seq!['.', '.']);
                }
            }
        }
    }
    Ok(acc)
}

/// No component of a path that satisfies the path invariant breaks any of
/// the rules that would have made construction fail: every component is
/// either `..` (in a leading run of a relative path) or a non-empty name
/// that passes the start-character, end-character, content and
/// reserved-name checks.
pub proof fn lemma_valid_components(s: Seq<char>)
    requires
        valid_path(s),
    ensures
        forall|i: int|
            0 <= i < components_of(s).len() ==> {
                ||| #[trigger] components_of(s)[i] == seq!['.', '.']
                ||| (components_of(s)[i].len() > 0 && components_of(s)[i] != seq!['.'] && name_err(
                    components_of(s)[i],
                ) is None)
            },
{
    if s.len() == 0 || s == seq!['/'] {
    } else {
        assert forall|i: int| 0 <= i < components_of(s).len() implies {
            ||| #[trigger] components_of(s)[i] == seq!['.', '.']
            ||| (components_of(s)[i].len() > 0 && components_of(s)[i] != seq!['.'] && name_err(
                components_of(s)[i],
            ) is None)
        } by {
            let c = components_of(s)[i];
            if c != seq!['.', '.'] {
                assert(plain_name(c));
            }
        }
    }
}

/// A valid path that is neither empty nor the root is the assembly of its
/// absoluteness, its components and its directory-ness, and its components
/// are non-empty and separator-free.
pub proof fn lemma_valid_structure(s: Seq<char>)
    requires
        valid_path(s),
        s.len() > 0,
        s != seq!['/'],
    ensures
        components_of(s).len() > 0,
        forall|k: int|
            0 <= k < components_of(s).len() ==> (#[trigger] components_of(s)[k]).len() > 0
                && slash_free(components_of(s)[k]),
        is_dir(s) ==> s == repr(is_abs(s), components_of(s)),
        !is_dir(s) ==> s == repr(is_abs(s), components_of(s)).take(
            repr(is_abs(s), components_of(s)).len() - 1,
        ),
{
    let cs = components_of(s);
    assert forall|k: int| 0 <= k < cs.len() implies (#[trigger] cs[k]).len() > 0 && slash_free(
        cs[k],
    ) by {
        if cs[k] == seq!['.', '.'] {
            assert(forall|w: int| 0 <= w < 2 ==> seq!['.', '.'][w] != '/');
        } else {
            assert(plain_name(cs[k]));
            crate::name::lemma_plain_name_facts(cs[k]);
        }
    }
    if s == seq!['/', '/'] {
        assert(interior(s) =~= Seq::<char>::empty());
        assert(false);
    }
    assert(interior(s).len() > 0) by {
        if interior(s).len() == 0 {
            assert(cs.len() == 0);
        }
    }
    crate::text::lemma_split_slash_basic(interior(s));
    assert(join_slash(cs) == interior(s));
    lemma_interior_recompose(s);
    lemma_cat_vs_join(cs);
    if is_dir(s) {
        assert(s =~= repr(is_abs(s), cs));
    } else {
        assert(repr(is_abs(s), cs).len() > 0);
        assert(s =~= repr(is_abs(s), cs).take(repr(is_abs(s), cs).len() - 1));
    }
}

/// Removing the innermost component of a valid path (not empty, not the
/// root) leaves a valid directory path with the same absoluteness and one
/// component fewer.
pub proof fn lemma_pop_comp_valid(s: Seq<char>)
    requires
        valid_path(s),
        s.len() > 0,
        s != seq!['/'],
    ensures
        pop_comp(s) == repr(is_abs(s), components_of(s).take(components_of(s).len() - 1)),
        valid_path(pop_comp(s)),
        is_dir(pop_comp(s)),
        is_abs(pop_comp(s)) == is_abs(s),
        components_of(pop_comp(s)) == components_of(s).take(components_of(s).len() - 1),
{
    let cs = components_of(s);
    let abs = is_abs(s);
    let front = cs.take(cs.len() - 1);
    lemma_valid_structure(s);
    if is_dir(s) {
        assert(s == repr(abs, cs));
        lemma_pop_repr(abs, cs);
    } else {
        // The text is the accumulator form minus its final `/`; dropping the
        // last character of the text and stripping back to the previous `/`
        // removes exactly the last component.
        let last = cs[cs.len() - 1];
        assert(cs == front.push(last));
        lemma_cat_comps_snoc(front, last);
        let rf = repr(abs, front);
        assert(repr(abs, cs) =~= rf + last + seq!['/']);
        assert(s == repr(abs, cs).take(repr(abs, cs).len() - 1));
        assert(s =~= rf + last);
        assert(last.len() > 0);
        assert(s.take(s.len() - 1) =~= rf + last.take(last.len() - 1));
        assert(rf.len() == 0 || rf[rf.len() - 1] == '/') by {
            if front.len() == 0 {
                assert(cat_comps(front) == Seq::<char>::empty());
                if abs {
                    assert(rf =~= seq!['/']);
                } else {
                    assert(rf =~= Seq::<char>::empty());
                }
            } else {
                lemma_cat_comps_len(front);
            }
        }
        assert(slash_free(last.take(last.len() - 1)));
        lemma_drop_to_slash_strip(rf, last.take(last.len() - 1));
        assert(pop_comp(s) == rf);
    }
    assert(pop_comp(s) == repr(abs, front));
    if front.len() == 0 {
        assert(cat_comps(front) == Seq::<char>::empty());
        if abs {
            assert(pop_comp(s) =~= seq!['/']);
        } else {
            assert(pop_comp(s) =~= Seq::<char>::empty());
        }
        assert(valid_path(pop_comp(s)));
        assert(components_of(pop_comp(s)) =~= front) by {
            if abs {
                assert(interior(seq!['/']) =~= Seq::<char>::empty());
            }
        }
    } else {
        lemma_components_of_repr(abs, front, true);
        assert(components_of(pop_comp(s)) == front);
        assert(valid_path(pop_comp(s))) by {
            assert(pop_comp(s) != seq!['/']);
            assert forall|i: int|
                0 <= i < front.len() && front[i] != seq!['.', '.'] implies plain_name(
                #[trigger] front[i],
            ) && crate::norm::nfd_seq(front[i]) == front[i] by {
                assert(front[i] == cs[i]);
            }
            assert forall|i: int|
                0 <= i < front.len() && #[trigger] front[i] == seq!['.', '.'] implies !is_abs(
                pop_comp(s),
            ) && (forall|j: int| 0 <= j < i ==> front[j] == seq!['.', '.']) by {
                assert(front[i] == cs[i]);
                assert(cs[i] == seq!['.', '.']);
                assert(!is_abs(s));
                assert(forall|j: int| 0 <= j < i ==> front[j] == cs[j]);
            }
        }
    }
}

} // verus!
