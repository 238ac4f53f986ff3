//! The read-only in-memory tree source: a prebuilt tree of files and
//! directories, built once from a listing of (path, bytes) pairs, suitable
//! for embedding static assets.

use vstd::prelude::*;

use crate::path::Path;
use crate::path::PathBuf;
use crate::source::DataFile;
use crate::source::FileHandle;
use crate::source::VFSSource;
use crate::source::VfsErrorKind;
use crate::canon::valid_path;
use crate::name::plain_name;
use crate::text::components_of;
use crate::text::is_abs;
use crate::text::is_dir;

verus! {

/// A node of the tree: a file with its contents, or a directory with its
/// named children.
pub enum Node {
    File(Vec<u8>),
    Dir(Vec<(Path, Node)>),
}

/// The read-only in-memory source.
pub struct Source {
    root: Node,
}

/// The first child of that name, scanning in stored order.
pub open spec fn lookup_child(cs: Seq<(Path, Node)>, name: Seq<char>) -> Option<Node>
    decreases cs.len(),
{
    if cs.len() == 0 {
        None
    } else if cs[0].0@ == name {
        Some(cs[0].1)
    } else {
        lookup_child(cs.skip(1), name)
    }
}

/// Walk the tree along a component list.
pub open spec fn resolve_node(n: Node, comps: Seq<Seq<char>>) -> Option<Node>
    decreases comps.len(),
{
    if comps.len() == 0 {
        Some(n)
    } else {
        match n {
            Node::File(_) => None,
            Node::Dir(cs) => match lookup_child(cs@, comps[0]) {
                None => None,
                Some(c) => resolve_node(c, comps.skip(1)),
            },
        }
    }
}

/// `a` is an initial run of `b`.
pub open spec fn weak_prefix(a: Seq<Seq<char>>, b: Seq<Seq<char>>) -> bool {
    a.len() <= b.len() && a == b.take(a.len() as int)
}

/// `a` is an initial run of `b` and shorter than it.
pub open spec fn strict_prefix(a: Seq<Seq<char>>, b: Seq<Seq<char>>) -> bool {
    weak_prefix(a, b) && a.len() < b.len()
}

/// The texts of the component lists of a component path vector.
pub open spec fn cviews(comps: Seq<Path>) -> Seq<Seq<char>> {
    comps.map_values(|p: Path| p@)
}

/// The components of the `i`-th entry's path.
pub open spec fn entry_comps(l: Seq<(Path, Vec<u8>)>, i: int) -> Seq<Seq<char>> {
    components_of(l[i].0@)
}

/// What a well-formed listing is: absolute valid paths below the root, no
/// data on directories, and — in listing order — no entry whose components
/// are an initial run of an earlier entry's, and no later entry reaching
/// through an earlier file entry.
pub open spec fn rom_listing_wf(l: Seq<(Path, Vec<u8>)>) -> bool {
    &&& forall|i: int|
        0 <= i < l.len() ==> valid_path(#[trigger] l[i].0@) && is_abs(l[i].0@) && l[i].0@ != seq![
            '/',
        ] && entry_comps(l, i).len() > 0
    &&& forall|i: int| 0 <= i < l.len() && is_dir(#[trigger] l[i].0@) ==> l[i].1@.len() == 0
    &&& forall|i: int, j: int|
        0 <= i < j < l.len() ==> !weak_prefix(
            #[trigger] entry_comps(l, j),
            #[trigger] entry_comps(l, i),
        )
    &&& forall|i: int, j: int|
        0 <= i < j < l.len() && !is_dir(l[i].0@) ==> !strict_prefix(
            #[trigger] entry_comps(l, i),
            #[trigger] entry_comps(l, j),
        )
}

/// What the built tree guarantees for the first `k` entries: a node stands
/// at exactly the component lists that lead into some entry; a file node
/// stands exactly at the file entries, with that entry's bytes.
pub open spec fn rom_tree_ok(root: Node, l: Seq<(Path, Vec<u8>)>, k: int) -> bool {
    &&& root is Dir
    &&& forall|c: Seq<Seq<char>>|
        c.len() > 0 ==> ((#[trigger] resolve_node(root, c)) is Some <==> exists|i: int|
            0 <= i < k && weak_prefix(c, #[trigger] entry_comps(l, i)))
    &&& forall|i: int|
        0 <= i < k && !is_dir(l[i].0@) ==> (resolve_node(root, #[trigger] entry_comps(l, i))
            matches Some(x) && (x matches Node::File(d) && d@ == l[i].1@))
    &&& forall|i: int|
        0 <= i < k && is_dir(l[i].0@) ==> (resolve_node(root, #[trigger] entry_comps(l, i))
            matches Some(x) && x is Dir)
    &&& forall|c: Seq<Seq<char>>|
        ((#[trigger] resolve_node(root, c)) matches Some(x) && x is File) ==> exists|i: int|
            0 <= i < k && !is_dir(l[i].0@) && c == entry_comps(l, i)
}

/// The children of a directory are strictly sorted by name.
pub open spec fn names_sorted(cs: Seq<(Path, Node)>) -> bool {
    forall|i: int, j: int|
        0 <= i < j < cs.len() ==> crate::listing::lex_lt(cs[i].0@, cs[j].0@)
}

/// Every directory reachable in the tree keeps its children sorted.
pub open spec fn all_dirs_sorted(n: Node) -> bool {
    forall|c: Seq<Seq<char>>|
        (#[trigger] resolve_node(n, c)) matches Some(Node::Dir(k)) ==> names_sorted(k@)
}

/// A child of a tree whose directories are all sorted is itself such a tree.
proof fn lemma_all_dirs_child(n: Node, x: Seq<char>, child: Node)
    requires
        all_dirs_sorted(n),
        n is Dir,
        resolve_node(n, seq![x]) == Some(child),
    ensures
        all_dirs_sorted(child),
{
    assert(seq![x].len() == 1 && seq![x][0] == x);
    assert(seq![x].skip(1) =~= Seq::<Seq<char>>::empty());
    assert forall|c: Seq<Seq<char>>| #![trigger resolve_node(child, c)]
        true implies ((resolve_node(child, c)) matches Some(Node::Dir(k)) ==> names_sorted(
        k@,
    )) by {
        lemma_resolve_shift(n, x, c);
        match n {
            Node::File(_) => {
                assert(false);
            },
            Node::Dir(cs) => {
                match lookup_child(cs@, x) {
                    None => {
                        assert(resolve_node(n, seq![x]) is None);
                        assert(false);
                    },
                    Some(ch) => {
                        assert(resolve_node(ch, seq![x].skip(1)) == Some(ch));
                        assert(resolve_node(n, seq![x]) == Some(ch));
                        assert(ch == child);
                    },
                }
                assert(resolve_node(n, seq![x] + c) == resolve_node(child, c));
            },
        }
    }
}

/// Sorted names are pairwise distinct.
proof fn lemma_names_sorted_distinct(cs: Seq<(Path, Node)>, i: int, j: int)
    requires
        names_sorted(cs),
        0 <= i < cs.len(),
        0 <= j < cs.len(),
        i != j,
    ensures
        cs[i].0@ != cs[j].0@,
{
    if i < j {
        crate::listing::lemma_lex_asym(cs[i].0@, cs[j].0@);
        if cs[i].0@ == cs[j].0@ {
            crate::listing::lemma_lex_irrefl(cs[i].0@);
        }
    } else {
        crate::listing::lemma_lex_asym(cs[j].0@, cs[i].0@);
        if cs[i].0@ == cs[j].0@ {
            crate::listing::lemma_lex_irrefl(cs[i].0@);
        }
    }
}

/// Each child of a directory whose tree keeps every directory sorted is
/// itself such a tree.
proof fn lemma_all_dirs_child_at(n: Node, q: int)
    requires
        all_dirs_sorted(n),
        n is Dir,
        0 <= q < (n->Dir_0)@.len(),
    ensures
        all_dirs_sorted((n->Dir_0)@[q].1),
{
    let kv = (n->Dir_0)@;
    assert(resolve_node(n, Seq::<Seq<char>>::empty()) == Some(n));
    assert(names_sorted(kv));
    assert forall|w: int| 0 <= w < q implies kv[w].0@ != kv[q].0@ by {
        lemma_names_sorted_distinct(kv, w, q);
    }
    lemma_lookup_found(kv, q);
    let x = kv[q].0@;
    assert(seq![x].skip(1) =~= Seq::<Seq<char>>::empty());
    assert(resolve_node(n, seq![x]) == Some(kv[q].1)) by {
        assert(resolve_node(kv[q].1, seq![x].skip(1)) == Some(kv[q].1));
    }
    lemma_all_dirs_child(n, x, kv[q].1);
}

/// A directory node whose own children are sorted and whose children are all
/// sorted trees is a sorted tree.
proof fn lemma_all_dirs_dir(r: Node)
    requires
        r is Dir,
        names_sorted((r->Dir_0)@),
        forall|q: int| 0 <= q < (r->Dir_0)@.len() ==> all_dirs_sorted(#[trigger] (r->Dir_0)@[q].1),
    ensures
        all_dirs_sorted(r),
{
    let kv = (r->Dir_0)@;
    assert forall|c: Seq<Seq<char>>| #![trigger resolve_node(r, c)]
        true implies ((resolve_node(r, c)) matches Some(Node::Dir(k)) ==> names_sorted(k@)) by {
        if c.len() > 0 {
            match lookup_child(kv, c[0]) {
                None => {
                    assert(resolve_node(r, c) is None);
                },
                Some(ch) => {
                    lemma_lookup_index(kv, c[0]);
                    let q = choose|q: int|
                        0 <= q < kv.len() && (#[trigger] kv[q].0)@ == c[0] && kv[q].1
                            == lookup_child(kv, c[0])->Some_0;
                    assert(all_dirs_sorted(kv[q].1));
                    assert(resolve_node(r, c) == resolve_node(ch, c.skip(1)));
                    assert(ch == kv[q].1);
                },
            }
        }
    }
}

/// Replacing the child at a position, keeping its name, keeps the names
/// sorted.
proof fn lemma_names_sorted_update(cs: Seq<(Path, Node)>, pos: int, c2: Node)
    requires
        names_sorted(cs),
        0 <= pos < cs.len(),
    ensures
        names_sorted(cs.update(pos, (cs[pos].0, c2))),
{
    let cs2 = cs.update(pos, (cs[pos].0, c2));
    assert forall|i: int, j: int| 0 <= i < j < cs2.len() implies crate::listing::lex_lt(
        cs2[i].0@,
        cs2[j].0@,
    ) by {
        assert(cs2[i].0 == cs[i].0);
        assert(cs2[j].0 == cs[j].0);
    }
}

/// Inserting a fresh name between the smaller and the larger names keeps the
/// names sorted.
proof fn lemma_names_sorted_insert(cs: Seq<(Path, Node)>, pos: int, pair: (Path, Node))
    requires
        names_sorted(cs),
        0 <= pos <= cs.len(),
        forall|q: int| 0 <= q < pos ==> crate::listing::lex_lt((#[trigger] cs[q].0)@, pair.0@),
        forall|q: int|
            pos <= q < cs.len() ==> crate::listing::lex_lt(pair.0@, (#[trigger] cs[q].0)@),
    ensures
        names_sorted(cs.insert(pos, pair)),
{
    let cs2 = cs.insert(pos, pair);
    assert forall|i: int, j: int| 0 <= i < j < cs2.len() implies crate::listing::lex_lt(
        cs2[i].0@,
        cs2[j].0@,
    ) by {
        if i < pos && j < pos {
            assert(cs2[i].0 == cs[i].0 && cs2[j].0 == cs[j].0);
        } else if i < pos && j == pos {
            assert(cs2[i].0 == cs[i].0 && cs2[j] == pair);
        } else if i < pos && j > pos {
            assert(cs2[i].0 == cs[i].0 && cs2[j].0 == cs[j - 1].0);
        } else if i == pos {
            assert(cs2[i] == pair && cs2[j].0 == cs[j - 1].0);
        } else {
            assert(cs2[i].0 == cs[i - 1].0 && cs2[j].0 == cs[j - 1].0);
        }
    }
}

/// A scan that stopped at the first larger name found the sorted position of
/// a fresh name.
proof fn lemma_insert_position(cs: Seq<(Path, Node)>, pos: int, name: Seq<char>)
    requires
        names_sorted(cs),
        0 <= pos <= cs.len(),
        forall|q: int| 0 <= q < pos ==> !crate::listing::lex_lt(name, (#[trigger] cs[q].0)@),
        pos < cs.len() ==> crate::listing::lex_lt(name, cs[pos as int].0@),
        forall|q: int| 0 <= q < cs.len() ==> (#[trigger] cs[q].0)@ != name,
    ensures
        forall|q: int| 0 <= q < pos ==> crate::listing::lex_lt((#[trigger] cs[q].0)@, name),
        forall|q: int| pos <= q < cs.len() ==> crate::listing::lex_lt(name, (#[trigger] cs[q].0)@),
{
    assert forall|q: int| 0 <= q < pos implies crate::listing::lex_lt(
        (#[trigger] cs[q].0)@,
        name,
    ) by {
        crate::listing::lemma_lex_trichotomy(cs[q].0@, name);
    }
    assert forall|q: int| pos <= q < cs.len() implies crate::listing::lex_lt(
        name,
        (#[trigger] cs[q].0)@,
    ) by {
        if q > pos {
            crate::listing::lemma_lex_trans(name, cs[pos as int].0@, cs[q].0@);
        }
    }
}

/// Like the push form: a fresh pair inserted anywhere is found by its name,
/// and every other name still finds what it found before.
proof fn lemma_lookup_insert(cs: Seq<(Path, Node)>, pos: int, pair: (Path, Node), x: Seq<char>)
    requires
        0 <= pos <= cs.len(),
        forall|q: int| 0 <= q < cs.len() ==> cs[q].0@ != pair.0@,
    ensures
        lookup_child(cs.insert(pos, pair), pair.0@) == Some(pair.1),
        x != pair.0@ ==> lookup_child(cs.insert(pos, pair), x) == lookup_child(cs, x),
    decreases pos,
{
    let cs2 = cs.insert(pos, pair);
    if pos == 0 {
        assert(cs2[0] == pair);
        assert(cs2.skip(1) =~= cs);
    } else {
        assert(cs.len() > 0);
        assert(cs2[0] == cs[0]);
        assert(cs2.skip(1) =~= cs.skip(1).insert(pos - 1, pair));
        assert(forall|q: int| 0 <= q < cs.skip(1).len() ==> cs.skip(1)[q] == cs[q + 1]);
        lemma_lookup_insert(cs.skip(1), pos - 1, pair, x);
        assert(cs[0].0@ != pair.0@);
        assert(lookup_child(cs2, pair.0@) == lookup_child(cs.skip(1).insert(pos - 1, pair), pair.0@));
        if x != pair.0@ {
            if cs[0].0@ == x {
                assert(lookup_child(cs2, x) == Some(cs[0].1));
                assert(lookup_child(cs, x) == Some(cs[0].1));
            } else {
                assert(lookup_child(cs2, x) == lookup_child(cs.skip(1).insert(pos - 1, pair), x));
                assert(lookup_child(cs, x) == lookup_child(cs.skip(1), x));
            }
        }
    }
}

proof fn lemma_prefix_shift(a: Seq<Seq<char>>, b: Seq<Seq<char>>)
    requires
        a.len() > 0,
        b.len() > 0,
        a[0] == b[0],
    ensures
        weak_prefix(a, b) == weak_prefix(a.skip(1), b.skip(1)),
        strict_prefix(a, b) == strict_prefix(a.skip(1), b.skip(1)),
{
    if weak_prefix(a, b) {
        assert(a.skip(1) =~= b.skip(1).take(a.skip(1).len() as int));
    }
    if weak_prefix(a.skip(1), b.skip(1)) {
        assert(a.skip(1).len() == a.len() - 1);
        assert(a.len() <= b.len());
        assert forall|i: int| 0 <= i < a.len() implies a[i] == b.take(a.len() as int)[i] by {
            if i > 0 {
                assert(a[i] == a.skip(1)[i - 1]);
                assert(a.skip(1)[i - 1] == b.skip(1).take(a.skip(1).len() as int)[i - 1]);
                assert(b.skip(1)[i - 1] == b[i]);
            }
        }
        assert(a =~= b.take(a.len() as int));
    }
}

proof fn lemma_lookup_all_miss(cs: Seq<(Path, Node)>, name: Seq<char>)
    requires
        forall|q: int| 0 <= q < cs.len() ==> cs[q].0@ != name,
    ensures
        lookup_child(cs, name) is None,
    decreases cs.len(),
{
    if cs.len() > 0 {
        assert(forall|q: int| 0 <= q < cs.skip(1).len() ==> cs.skip(1)[q] == cs[q + 1]);
        lemma_lookup_all_miss(cs.skip(1), name);
    }
}

proof fn lemma_lookup_found(cs: Seq<(Path, Node)>, pos: int)
    requires
        0 <= pos < cs.len(),
        forall|q: int| 0 <= q < pos ==> cs[q].0@ != cs[pos].0@,
    ensures
        lookup_child(cs, cs[pos].0@) == Some(cs[pos].1),
    decreases pos,
{
    if pos > 0 {
        assert(forall|q: int| 0 <= q < cs.skip(1).len() ==> cs.skip(1)[q] == cs[q + 1]);
        lemma_lookup_found(cs.skip(1), pos - 1);
    }
}

proof fn lemma_lookup_update(cs: Seq<(Path, Node)>, pos: int, c2: Node, x: Seq<char>)
    requires
        0 <= pos < cs.len(),
        forall|q: int| 0 <= q < pos ==> cs[q].0@ != cs[pos].0@,
    ensures
        lookup_child(cs.update(pos, (cs[pos].0, c2)), cs[pos].0@) == Some(c2),
        x != cs[pos].0@ ==> lookup_child(cs.update(pos, (cs[pos].0, c2)), x) == lookup_child(
            cs,
            x,
        ),
    decreases pos,
{
    let cs2 = cs.update(pos, (cs[pos].0, c2));
    if pos == 0 {
        assert(cs2[0].0 == cs[0].0);
        assert(cs2[0].1 == c2);
        if x != cs[pos].0@ {
            assert(cs2.skip(1) =~= cs.skip(1));
        }
    } else {
        assert(cs2[0] == cs[0]);
        assert(cs2.skip(1) =~= cs.skip(1).update(pos - 1, (cs[pos].0, c2)));
        assert(forall|q: int| 0 <= q < cs.skip(1).len() ==> cs.skip(1)[q] == cs[q + 1]);
        lemma_lookup_update(cs.skip(1), pos - 1, c2, x);
    }
}

proof fn lemma_lookup_push(cs: Seq<(Path, Node)>, pair: (Path, Node), x: Seq<char>)
    requires
        forall|q: int| 0 <= q < cs.len() ==> cs[q].0@ != pair.0@,
    ensures
        lookup_child(cs.push(pair), pair.0@) == Some(pair.1),
        x != pair.0@ ==> lookup_child(cs.push(pair), x) == lookup_child(cs, x),
    decreases cs.len(),
{
    if cs.len() == 0 {
        assert(cs.push(pair)[0] == pair);
        assert(lookup_child(Seq::<(Path, Node)>::empty(), x) is None);
        if x != pair.0@ {
            assert(cs.push(pair).skip(1) =~= Seq::<(Path, Node)>::empty());
            assert(lookup_child(cs.push(pair), x) == lookup_child(
                Seq::<(Path, Node)>::empty(),
                x,
            ));
        }
    } else {
        assert(cs.push(pair)[0] == cs[0]);
        assert(cs.push(pair).skip(1) =~= cs.skip(1).push(pair));
        assert(forall|q: int| 0 <= q < cs.skip(1).len() ==> cs.skip(1)[q] == cs[q + 1]);
        lemma_lookup_push(cs.skip(1), pair, x);
        assert(cs[0].0@ != pair.0@);
        assert(lookup_child(cs.push(pair), pair.0@) == lookup_child(
            cs.skip(1).push(pair),
            pair.0@,
        ));
        if x != pair.0@ {
            if cs[0].0@ == x {
                assert(lookup_child(cs.push(pair), x) == Some(cs[0].1));
                assert(lookup_child(cs, x) == Some(cs[0].1));
            } else {
                assert(lookup_child(cs.push(pair), x) == lookup_child(cs.skip(1).push(pair), x));
                assert(lookup_child(cs, x) == lookup_child(cs.skip(1), x));
            }
        }
    }
}

/// Copy a byte vector.
fn copy_bytes(v: &Vec<u8>) -> (r: Vec<u8>)
    ensures
        r@ == v@,
{
    let mut r: Vec<u8> = Vec::new();
    let mut i: usize = 0;
    while i < v.len()
        invariant
            0 <= i <= v@.len(),
            r@ == v@.take(i as int),
        decreases v@.len() - i,
    {
        r.push(v[i]);
        proof {
            assert(v@.take(i + 1 as int) =~= v@.take(i as int).push(v@[i as int]));
        }
        i = i + 1;
    }
    proof {
        assert(v@.take(v@.len() as int) =~= v@);
    }
    r
}

/// Copy a path.
fn copy_path(p: &Path) -> (r: Path)
    ensures
        r@ == p@,
{
    let c = p.chars_ref();
    let n = c.len();
    let piece = crate::text::copy_range(c, 0, n);
    proof {
        assert(c@.subrange(0, c@.len() as int) =~= c@);
    }
    Path::from_path_chars(piece)
}

/// The components of a path, as a vector.
fn comps_vec(p: &Path) -> (r: Vec<Path>)
    ensures
        cviews(r@) == components_of(p@),
{
    let mut it = p.components();
    let mut r: Vec<Path> = Vec::new();
    proof {
        assert(cviews(r@) + it@ =~= components_of(p@));
    }
    loop
        invariant_except_break
            cviews(r@) + it@ == components_of(p@),
        ensures
            cviews(r@) == components_of(p@),
        decreases it@.len(),
    {
        let nx = it.next();
        match nx {
            None => {
                proof {
                    assert(cviews(r@) + it@ =~= cviews(r@));
                }
                break ;
            },
            Some(c) => {
                let ghost rb = r@;
                r.push(c);
                proof {
                    assert(cviews(r@) =~= cviews(rb).push(r@[r@.len() - 1]@));
                    assert(cviews(r@) + it@ =~= components_of(p@));
                }
            },
        }
    }
    r
}

/// Build a fresh chain of directories for `comps[idx..]`, ending in the
/// entry's leaf: a file with the bytes, or an empty directory.
fn build_chain(comps: &Vec<Path>, idx: usize, data: &Vec<u8>, isdir: bool) -> (r: Node)
    requires
        idx <= comps@.len(),
    ensures
        ({
            let rest = cviews(comps@).skip(idx as int);
            forall|c: Seq<Seq<char>>|
                {
                    &&& (strict_prefix(c, rest) ==> ((#[trigger] resolve_node(r, c)) matches Some(
                        x,
                    ) && x is Dir))
                    &&& (c == rest ==> (if isdir {
                        resolve_node(r, c) matches Some(x) && (x matches Node::Dir(k) && k@.len()
                            == 0)
                    } else {
                        resolve_node(r, c) matches Some(x) && (x matches Node::File(d) && d@
                            == data@)
                    }))
                    &&& (!weak_prefix(c, rest) ==> resolve_node(r, c) is None)
                }
        }),
        all_dirs_sorted(r),
    decreases comps@.len() - idx,
{
    let ghost rest = cviews(comps@).skip(idx as int);
    if idx == comps.len() {
        proof {
            assert(rest =~= Seq::<Seq<char>>::empty());
        }
        if isdir {
            let kids0: Vec<(Path, Node)> = Vec::new();
            let ghost k0 = kids0@;
            let r = Node::Dir(kids0);
            proof {
                assert(k0.len() == 0);
                assert forall|c: Seq<Seq<char>>| #![trigger resolve_node(r, c)]
                    c.len() > 0 implies resolve_node(r, c) is None by {
                    lemma_lookup_all_miss(k0, c[0]);
                    assert(lookup_child(k0, c[0]) is None);
                    assert(resolve_node(r, c) is None);
                }
                assert forall|c: Seq<Seq<char>>| #![trigger resolve_node(r, c)]
                    c.len() == 0 implies resolve_node(r, c) == Some(r) && c == rest by {
                    assert(c =~= rest);
                }
                assert(forall|c: Seq<Seq<char>>|
                    weak_prefix(c, rest) ==> c.len() == 0 && c == rest) by {
                    assert forall|c: Seq<Seq<char>>|
                        weak_prefix(c, rest) implies c.len() == 0 && c == rest by {
                        assert(c.len() <= rest.len());
                        assert(c =~= rest);
                    }
                }
                lemma_all_dirs_dir(r);
            }
            r
        } else {
            let r = Node::File(copy_bytes(data));
            proof {
                assert forall|c: Seq<Seq<char>>| #![trigger resolve_node(r, c)]
                    c.len() > 0 implies resolve_node(r, c) is None by {
                }
                assert forall|c: Seq<Seq<char>>| #![trigger resolve_node(r, c)]
                    c.len() == 0 implies resolve_node(r, c) == Some(r) && c == rest by {
                    assert(c =~= rest);
                }
                assert(forall|c: Seq<Seq<char>>|
                    weak_prefix(c, rest) ==> c.len() == 0 && c == rest) by {
                    assert forall|c: Seq<Seq<char>>|
                        weak_prefix(c, rest) implies c.len() == 0 && c == rest by {
                        assert(c.len() <= rest.len());
                        assert(c =~= rest);
                    }
                }
                assert forall|c: Seq<Seq<char>>| #![trigger resolve_node(r, c)]
                    true implies ((resolve_node(r, c)) matches Some(Node::Dir(k))
                    ==> names_sorted(k@)) by {
                    if c.len() == 0 {
                        assert(resolve_node(r, c) == Some(r));
                    }
                }
            }
            r
        }
    } else {
        let name = copy_path(&comps[idx]);
        let child = build_chain(comps, idx + 1, data, isdir);
        let ghost rest2 = cviews(comps@).skip(idx as int + 1);
        let mut kids: Vec<(Path, Node)> = Vec::new();
        kids.push((name, child));
        let r = Node::Dir(kids);
        proof {
            assert(rest.len() > 0);
            assert(rest[0] == comps@[idx as int]@);
            assert(rest.skip(1) =~= rest2);
            let pair = (name, child);
            assert forall|c: Seq<Seq<char>>| true implies {
                &&& (strict_prefix(c, rest) ==> ((#[trigger] resolve_node(r, c)) matches Some(
                    x,
                ) && x is Dir))
                &&& (c == rest ==> (if isdir {
                    resolve_node(r, c) matches Some(x) && (x matches Node::Dir(k) && k@.len() == 0)
                } else {
                    resolve_node(r, c) matches Some(x) && (x matches Node::File(d) && d@ == data@)
                }))
                &&& (!weak_prefix(c, rest) ==> resolve_node(r, c) is None)
            } by {
                if c.len() == 0 {
                    assert(strict_prefix(c, rest)) by {
                        assert(c =~= rest.take(0));
                    }
                    assert(resolve_node(r, c) == Some(r));
                } else {
                    assert(kids@ =~= Seq::<(Path, Node)>::empty().push(pair));
                    lemma_lookup_push(Seq::<(Path, Node)>::empty(), pair, c[0]);
                    if c[0] == name@ {
                        assert(lookup_child(kids@, c[0]) == Some(child));
                        assert(resolve_node(r, c) == resolve_node(child, c.skip(1)));
                        assert(c[0] == rest[0]);
                        lemma_prefix_shift(c, rest);
                        if c == rest {
                            assert(c.skip(1) =~= rest2);
                        } else if strict_prefix(c, rest) {
                            assert(strict_prefix(c.skip(1), rest2));
                        } else {
                            assert(!weak_prefix(c, rest)) by {
                                if weak_prefix(c, rest) {
                                    if c.len() == rest.len() {
                                        assert(rest.take(c.len() as int) =~= rest);
                                    }
                                }
                            }
                            assert(!weak_prefix(c.skip(1), rest2)) by {
                                if weak_prefix(c.skip(1), rest2) {
                                    assert(weak_prefix(c.skip(1), rest.skip(1)));
                                    assert(weak_prefix(c, rest));
                                }
                            }
                        }
                    } else {
                        assert(lookup_child(kids@, c[0]) is None) by {
                            lemma_lookup_all_miss(kids@, c[0]);
                        }
                        assert(resolve_node(r, c) is None);
                        assert(!weak_prefix(c, rest)) by {
                            if weak_prefix(c, rest) {
                                assert(c[0] == rest.take(c.len() as int)[0]);
                                assert(c[0] == rest[0]);
                            }
                        }
                    }
                }
            }
            assert(names_sorted(kids@)) by {
                assert(kids@.len() == 1);
            }
            assert forall|q: int| 0 <= q < kids@.len() implies all_dirs_sorted(
                #[trigger] kids@[q].1,
            ) by {
                assert(kids@[q].1 == child);
            }
            lemma_all_dirs_dir(r);
        }
        r
    }
}

proof fn lemma_weak_prefix_trans(a: Seq<Seq<char>>, b: Seq<Seq<char>>, c: Seq<Seq<char>>)
    requires
        weak_prefix(a, b),
        weak_prefix(b, c),
    ensures
        weak_prefix(a, c),
{
    assert forall|i: int| 0 <= i < a.len() implies a[i] == c.take(a.len() as int)[i] by {
        assert(a[i] == b.take(a.len() as int)[i]);
        assert(b[i] == c.take(b.len() as int)[i]);
    }
    assert(a =~= c.take(a.len() as int));
}

/// Resolving through a directory's child shortens the walk by one step.
proof fn lemma_resolve_shift(n: Node, x: Seq<char>, t: Seq<Seq<char>>)
    requires
        n is Dir,
    ensures
        resolve_node(n, seq![x] + t) == (match n {
            Node::Dir(cs) => match lookup_child(cs@, x) {
                None => None,
                Some(child) => resolve_node(child, t),
            },
            Node::File(_) => None,
        }),
{
    let c = seq![x] + t;
    assert(c.len() > 0);
    assert(c[0] == x);
    assert(c.skip(1) =~= t);
}

/// Insert the entry whose remaining components are `comps[idx..]` into a
/// directory node in which nothing stands at or under that place yet.
#[verifier::loop_isolation(false)]
#[verifier::rlimit(100)]
#[verifier::spinoff_prover]
fn insert_at(node: Node, comps: &Vec<Path>, idx: usize, data: &Vec<u8>, isdir: bool) -> (r: Node)
    requires
        idx < comps@.len(),
        node is Dir,
        all_dirs_sorted(node),
        forall|m: int|
            idx <= m <= comps@.len() ==> !((#[trigger] resolve_node(
                node,
                cviews(comps@).subrange(idx as int, m),
            )) matches Some(x) && x is File),
        resolve_node(node, cviews(comps@).skip(idx as int)) is None,
    ensures
        r is Dir,
        ({
            let rest = cviews(comps@).skip(idx as int);
            forall|c: Seq<Seq<char>>|
                #![trigger resolve_node(r, c)]
                {
                    &&& (strict_prefix(c, rest) ==> (resolve_node(r, c) matches Some(x)
                        && x is Dir))
                    &&& (c == rest ==> (if isdir {
                        resolve_node(r, c) matches Some(x) && (x matches Node::Dir(k) && k@.len()
                            == 0)
                    } else {
                        resolve_node(r, c) matches Some(x) && (x matches Node::File(d) && d@
                            == data@)
                    }))
                    &&& (strict_prefix(rest, c) ==> resolve_node(r, c) is None)
                    &&& (!weak_prefix(c, rest) && !weak_prefix(rest, c) ==> resolve_node(r, c)
                        == resolve_node(node, c))
                }
        }),
        all_dirs_sorted(r),
    decreases comps@.len() - idx,
{
    let total = comps.len();
    let ghost rest = cviews(comps@).skip(idx as int);
    proof {
        assert(rest.len() > 0);
        assert(rest[0] == comps@[idx as int]@);
        assert(idx < total);
    }
    match node {
        Node::File(_) => {
            proof {
                assert(false);
            }
            unreached()
        },
        Node::Dir(mut cs) => {
            let ghost csv0 = cs@;
            let ghost node0 = Node::Dir(cs);
            proof {
                assert(node0 == node);
                assert(resolve_node(node, Seq::<Seq<char>>::empty()) == Some(node));
                assert(names_sorted(csv0));
                assert((node->Dir_0)@ == csv0);
            }
            let n = cs.len();
            let mut pos: usize = 0;
            while pos < n && !(cs[pos].0 == comps[idx])
                invariant
                    0 <= pos <= n,
                    n == cs@.len(),
                    cs@ == csv0,
                    forall|q: int| 0 <= q < pos ==> csv0[q].0@ != comps@[idx as int]@,
                decreases n - pos,
            {
                pos = pos + 1;
            }
            let ghost namev = comps@[idx as int]@;
            if pos < n {
                proof {
                    assert(csv0[pos as int].0@ == namev);
                    lemma_lookup_found(csv0, pos as int);
                    assert(lookup_child(csv0, namev) == Some(csv0[pos as int].1));
                    let child = csv0[pos as int].1;
                    // The entry cannot end here: something already stands at
                    // this name.
                    assert(idx + 1 < comps@.len()) by {
                        if idx + 1 == comps@.len() {
                            assert(rest =~= seq![namev]);
                            assert(seq![namev] + Seq::<Seq<char>>::empty() =~= rest);
                            lemma_resolve_shift(node, namev, Seq::<Seq<char>>::empty());
                            assert(resolve_node(node, rest) == Some(child));
                        }
                    }
                    // The child on the way down is a directory.
                    assert(cviews(comps@).subrange(idx as int, idx + 1) =~= seq![namev]);
                    assert(seq![namev] + Seq::<Seq<char>>::empty() =~= cviews(comps@).subrange(
                        idx as int,
                        idx + 1,
                    ));
                    lemma_resolve_shift(node, namev, Seq::<Seq<char>>::empty());
                    assert(resolve_node(node, cviews(comps@).subrange(idx as int, idx + 1))
                        == Some(child));
                    assert(child is Dir);
                    // What holds of the child along the remaining components.
                    assert forall|m: int| idx + 1 <= m <= comps@.len() implies !((
                    #[trigger] resolve_node(child, cviews(comps@).subrange(idx + 1, m)))
                        matches Some(x) && x is File) by {
                        assert(seq![namev] + cviews(comps@).subrange(idx + 1, m) =~= cviews(
                            comps@,
                        ).subrange(idx as int, m));
                        lemma_resolve_shift(node, namev, cviews(comps@).subrange(idx + 1, m));
                    }
                    assert(resolve_node(child, cviews(comps@).skip(idx as int + 1)) is None) by {
                        assert(seq![namev] + cviews(comps@).skip(idx as int + 1) =~= rest);
                        lemma_resolve_shift(node, namev, cviews(comps@).skip(idx as int + 1));
                    }
                    lemma_all_dirs_child_at(node, pos as int);
                    assert(all_dirs_sorted(child));
                }
                let pair = cs.remove(pos);
                let child2 = insert_at(pair.1, comps, idx + 1, data, isdir);
                cs.insert(pos, (pair.0, child2));
                let ghost csv2 = cs@;
                let r = Node::Dir(cs);
                proof {
                    let child = csv0[pos as int].1;
                    let rest2 = cviews(comps@).skip(idx as int + 1);
                    assert(rest.skip(1) =~= rest2);
                    assert(csv2 =~= csv0.update(pos as int, (csv0[pos as int].0, child2)));
                    lemma_lookup_found(csv0, pos as int);
                    lemma_names_sorted_update(csv0, pos as int, child2);
                    assert(names_sorted(csv2));
                    assert forall|q: int| 0 <= q < csv2.len() implies all_dirs_sorted(
                        #[trigger] csv2[q].1,
                    ) by {
                        if q == pos {
                            assert(csv2[q].1 == child2);
                        } else {
                            assert(csv2[q].1 == csv0[q].1);
                            lemma_all_dirs_child_at(node, q);
                        }
                    }
                    assert((r->Dir_0)@ == csv2);
                    lemma_all_dirs_dir(r);
                    assert forall|c: Seq<Seq<char>>|
                        #![trigger resolve_node(r, c)]
                        {
                            &&& (strict_prefix(c, rest) ==> (resolve_node(r, c) matches Some(x)
                                && x is Dir))
                            &&& (c == rest ==> (if isdir {
                                resolve_node(r, c) matches Some(x) && (x matches Node::Dir(k)
                                    && k@.len() == 0)
                            } else {
                                resolve_node(r, c) matches Some(x) && (x matches Node::File(d)
                                    && d@ == data@)
                            }))
                            &&& (strict_prefix(rest, c) ==> resolve_node(r, c) is None)
                            &&& (!weak_prefix(c, rest) && !weak_prefix(rest, c) ==> resolve_node(
                                r,
                                c,
                            ) == resolve_node(node, c))
                        } by {
                        if c.len() == 0 {
                            assert(strict_prefix(c, rest)) by {
                                assert(c =~= rest.take(0));
                            }
                            assert(resolve_node(r, c) == Some(r));
                            assert(weak_prefix(c, rest));
                        } else {
                            lemma_lookup_update(csv0, pos as int, child2, c[0]);
                            if c[0] == namev {
                                assert(lookup_child(csv2, c[0]) == Some(child2));
                                assert(seq![c[0]] + c.skip(1) =~= c);
                                lemma_resolve_shift(r, c[0], c.skip(1));
                                assert(resolve_node(r, c) == resolve_node(child2, c.skip(1)));
                                lemma_resolve_shift(node, c[0], c.skip(1));
                                assert(resolve_node(node, c) == resolve_node(child, c.skip(1)));
                                lemma_prefix_shift(c, rest);
                                lemma_prefix_shift(rest, c);
                                if c == rest {
                                    assert(c.skip(1) =~= rest2);
                                } else if strict_prefix(c, rest) {
                                    assert(strict_prefix(c.skip(1), rest2));
                                } else if strict_prefix(rest, c) {
                                    assert(strict_prefix(rest.skip(1), c.skip(1)));
                                    assert(strict_prefix(rest2, c.skip(1)));
                                } else {
                                    assert(!weak_prefix(c, rest)) by {
                                        if weak_prefix(c, rest) {
                                            if c.len() == rest.len() {
                                                assert(rest.take(c.len() as int) =~= rest);
                                            }
                                        }
                                    }
                                    assert(!weak_prefix(rest, c)) by {
                                        if weak_prefix(rest, c) {
                                            if c.len() == rest.len() {
                                                assert(c.take(rest.len() as int) =~= c);
                                            }
                                        }
                                    }
                                    assert(!weak_prefix(c.skip(1), rest2) && !weak_prefix(
                                        rest2,
                                        c.skip(1),
                                    )) by {
                                        if weak_prefix(c.skip(1), rest2) {
                                            assert(weak_prefix(c.skip(1), rest.skip(1)));
                                            assert(weak_prefix(c, rest));
                                        }
                                        if weak_prefix(rest2, c.skip(1)) {
                                            assert(weak_prefix(rest.skip(1), c.skip(1)));
                                            assert(weak_prefix(rest, c));
                                        }
                                    }
                                    assert(resolve_node(child2, c.skip(1)) == resolve_node(
                                        child,
                                        c.skip(1),
                                    ));
                                }
                            } else {
                                assert(lookup_child(csv2, c[0]) == lookup_child(csv0, c[0]));
                                assert(seq![c[0]] + c.skip(1) =~= c);
                                lemma_resolve_shift(r, c[0], c.skip(1));
                                lemma_resolve_shift(node, c[0], c.skip(1));
                                assert(resolve_node(r, c) == resolve_node(node, c));
                                assert(!weak_prefix(c, rest)) by {
                                    if weak_prefix(c, rest) {
                                        assert(c[0] == rest.take(c.len() as int)[0]);
                                    }
                                }
                                assert(!weak_prefix(rest, c)) by {
                                    if weak_prefix(rest, c) {
                                        assert(rest[0] == c.take(rest.len() as int)[0]);
                                    }
                                }
                            }
                        }
                    }
                }
                r
            } else {
                proof {
                    lemma_lookup_all_miss(csv0, namev);
                }
                let chain = build_chain(comps, idx + 1, data, isdir);
                let nm = copy_path(&comps[idx]);
                let ghost pairg = (nm, chain);
                // keep the children sorted: scan for the first larger name
                let n2 = cs.len();
                let mut pos2: usize = 0;
                let mut placed = false;
                while !placed && pos2 < n2
                    invariant
                        0 <= pos2 <= n2,
                        n2 == cs@.len(),
                        cs@ == csv0,
                        forall|q: int|
                            0 <= q < pos2 ==> !crate::listing::lex_lt(
                                namev,
                                (#[trigger] csv0[q].0)@,
                            ),
                        placed ==> pos2 < n2 && crate::listing::lex_lt(
                            namev,
                            csv0[pos2 as int].0@,
                        ),
                    decreases n2 - pos2 + (if placed {
                        0int
                    } else {
                        1int
                    }),
                {
                    let bc = cs[pos2].0.chars_ref();
                    let blen = bc.len();
                    let ac = comps[idx].chars_ref();
                    let alen = ac.len();
                    let lt = crate::listing::lex_lt_exec(ac, alen, bc, blen);
                    proof {
                        assert(ac@.take(alen as int) =~= namev);
                        assert(bc@.take(blen as int) =~= csv0[pos2 as int].0@);
                    }
                    if lt {
                        placed = true;
                    } else {
                        pos2 = pos2 + 1;
                    }
                }
                proof {
                    lemma_insert_position(csv0, pos2 as int, namev);
                }
                cs.insert(pos2, (nm, chain));
                let ghost csv2 = cs@;
                let r = Node::Dir(cs);
                proof {
                    let rest2 = cviews(comps@).skip(idx as int + 1);
                    assert(rest.skip(1) =~= rest2);
                    assert(csv2 =~= csv0.insert(pos2 as int, pairg));
                    assert(pairg.0@ == namev);
                    lemma_names_sorted_insert(csv0, pos2 as int, pairg);
                    assert(names_sorted(csv2));
                    assert forall|q: int| 0 <= q < csv2.len() implies all_dirs_sorted(
                        #[trigger] csv2[q].1,
                    ) by {
                        if q == pos2 {
                            assert(csv2[q].1 == chain);
                        } else if q < pos2 {
                            assert(csv2[q].1 == csv0[q].1);
                            lemma_all_dirs_child_at(node, q);
                        } else {
                            assert(csv2[q].1 == csv0[q - 1].1);
                            lemma_all_dirs_child_at(node, q - 1);
                        }
                    }
                    assert((r->Dir_0)@ == csv2);
                    lemma_all_dirs_dir(r);
                    assert forall|c: Seq<Seq<char>>|
                        #![trigger resolve_node(r, c)]
                        {
                            &&& (strict_prefix(c, rest) ==> (resolve_node(r, c) matches Some(x)
                                && x is Dir))
                            &&& (c == rest ==> (if isdir {
                                resolve_node(r, c) matches Some(x) && (x matches Node::Dir(k)
                                    && k@.len() == 0)
                            } else {
                                resolve_node(r, c) matches Some(x) && (x matches Node::File(d)
                                    && d@ == data@)
                            }))
                            &&& (strict_prefix(rest, c) ==> resolve_node(r, c) is None)
                            &&& (!weak_prefix(c, rest) && !weak_prefix(rest, c) ==> resolve_node(
                                r,
                                c,
                            ) == resolve_node(node, c))
                        } by {
                        if c.len() == 0 {
                            assert(strict_prefix(c, rest)) by {
                                assert(c =~= rest.take(0));
                            }
                            assert(resolve_node(r, c) == Some(r));
                            assert(weak_prefix(c, rest));
                        } else {
                            lemma_lookup_insert(csv0, pos2 as int, pairg, c[0]);
                            if c[0] == namev {
                                assert(lookup_child(csv2, c[0]) == Some(chain));
                                assert(seq![c[0]] + c.skip(1) =~= c);
                                lemma_resolve_shift(r, c[0], c.skip(1));
                                assert(resolve_node(r, c) == resolve_node(chain, c.skip(1)));
                                lemma_resolve_shift(node, c[0], c.skip(1));
                                assert(resolve_node(node, c) is None);
                                lemma_prefix_shift(c, rest);
                                if c == rest {
                                    assert(c.skip(1) =~= rest2);
                                } else if strict_prefix(c, rest) {
                                    assert(strict_prefix(c.skip(1), rest2));
                                } else {
                                    assert(!weak_prefix(c, rest)) by {
                                        if weak_prefix(c, rest) {
                                            if c.len() == rest.len() {
                                                assert(rest.take(c.len() as int) =~= rest);
                                            }
                                        }
                                    }
                                    assert(!weak_prefix(c.skip(1), rest2)) by {
                                        if weak_prefix(c.skip(1), rest2) {
                                            assert(weak_prefix(c.skip(1), rest.skip(1)));
                                            assert(weak_prefix(c, rest));
                                        }
                                    }
                                    assert(resolve_node(chain, c.skip(1)) is None);
                                    assert(resolve_node(r, c) is None);
                                }
                            } else {
                                assert(lookup_child(csv2, c[0]) == lookup_child(csv0, c[0]));
                                assert(seq![c[0]] + c.skip(1) =~= c);
                                lemma_resolve_shift(r, c[0], c.skip(1));
                                lemma_resolve_shift(node, c[0], c.skip(1));
                                assert(resolve_node(r, c) == resolve_node(node, c));
                                assert(!weak_prefix(c, rest)) by {
                                    if weak_prefix(c, rest) {
                                        assert(c[0] == rest.take(c.len() as int)[0]);
                                    }
                                }
                                assert(!weak_prefix(rest, c)) by {
                                    if weak_prefix(rest, c) {
                                        assert(rest[0] == c.take(rest.len() as int)[0]);
                                    }
                                }
                            }
                        }
                    }
                }
                r
            }
        },
    }
}

/// What each child of a directory contributes to a listing: its name, with
/// `/` appended when the child is itself a directory (names of a well-built
/// tree are in file form).
pub open spec fn listing_of(cs: Seq<(Path, Node)>) -> Seq<Seq<char>> {
    cs.map_values(
        |p: (Path, Node)|
            p.0@ + (if p.1 is Dir && !is_dir(p.0@) {
                seq!['/']
            } else {
                Seq::<char>::empty()
            }),
    )
}

/// A found child stands at some index.
pub proof fn lemma_lookup_index(cs: Seq<(Path, Node)>, name: Seq<char>)
    requires
        lookup_child(cs, name) is Some,
    ensures
        exists|q: int|
            0 <= q < cs.len() && (#[trigger] cs[q].0)@ == name && cs[q].1 == lookup_child(
                cs,
                name,
            )->Some_0,
    decreases cs.len(),
{
    if cs.len() > 0 {
        if cs[0].0@ == name {
            assert(cs[0].0@ == name && cs[0].1 == lookup_child(cs, name)->Some_0);
        } else {
            lemma_lookup_index(cs.skip(1), name);
            let q = choose|q: int|
                0 <= q < cs.skip(1).len() && (#[trigger] cs.skip(1)[q].0)@ == name && cs.skip(
                    1,
                )[q].1 == lookup_child(cs.skip(1), name)->Some_0;
            assert(cs[q + 1].0@ == name && cs[q + 1].1 == lookup_child(cs, name)->Some_0);
        }
    }
}

/// Resolving one more component steps through the directory reached so far.
pub proof fn lemma_resolve_snoc(n: Node, a: Seq<Seq<char>>, x: Seq<char>)
    ensures
        resolve_node(n, a.push(x)) == (match resolve_node(n, a) {
            Some(p) => match p {
                Node::Dir(cs) => lookup_child(cs@, x),
                Node::File(_) => None,
            },
            None => None,
        }),
    decreases a.len(),
{
    if a.len() == 0 {
        assert(a.push(x).len() == 1);
        assert(a.push(x)[0] == x);
        assert(a.push(x).skip(1) =~= Seq::<Seq<char>>::empty());
        match n {
            Node::File(_) => {},
            Node::Dir(cs) => {
                match lookup_child(cs@, x) {
                    None => {},
                    Some(c) => {
                        assert(resolve_node(n, a.push(x)) == resolve_node(
                            c,
                            Seq::<Seq<char>>::empty(),
                        ));
                    },
                }
            },
        }
    } else {
        assert(a.push(x)[0] == a[0]);
        assert(a.push(x).skip(1) =~= a.skip(1).push(x));
        match n {
            Node::File(_) => {},
            Node::Dir(cs) => {
                match lookup_child(cs@, a[0]) {
                    None => {},
                    Some(c) => {
                        lemma_resolve_snoc(c, a.skip(1), x);
                    },
                }
            },
        }
    }
}

impl Source {
    /// The root of the tree.
    pub closed spec fn root_spec(&self) -> Node {
        self.root
    }

    /// Build the tree from a listing of (path, bytes) pairs. The listing
    /// must be well formed; what the built tree then holds is exactly what
    /// `rom_tree_ok` states.
    #[verifier::loop_isolation(false)]
    #[verifier::rlimit(100)]
    #[verifier::spinoff_prover]
    pub fn new(listing: &Vec<(Path, Vec<u8>)>) -> (r: Source)
        requires
            rom_listing_wf(listing@),
        ensures
            rom_tree_ok(r.root_spec(), listing@, listing@.len() as int),
            all_dirs_sorted(r.root_spec()),
    {
        let ghost l = listing@;
        let kids0: Vec<(Path, Node)> = Vec::new();
        let ghost k0 = kids0@;
        let mut root = Node::Dir(kids0);
        proof {
            assert(k0.len() == 0);
            assert forall|c: Seq<Seq<char>>| #![trigger resolve_node(root, c)]
                c.len() > 0 implies resolve_node(root, c) is None by {
                lemma_lookup_all_miss(k0, c[0]);
            }
            assert(rom_tree_ok(root, l, 0));
            assert forall|c: Seq<Seq<char>>| #![trigger resolve_node(root, c)]
                true implies ((resolve_node(root, c)) matches Some(Node::Dir(k))
                ==> names_sorted(k@)) by {
                if c.len() == 0 {
                    assert(resolve_node(root, c) == Some(root));
                }
            }
            assert(all_dirs_sorted(root));
        }
        let total = listing.len();
        let mut k: usize = 0;
        while k < total
            invariant
                0 <= k <= total,
                rom_tree_ok(root, l, k as int),
                all_dirs_sorted(root),
            decreases total - k,
        {
            let comps = comps_vec(&listing[k].0);
            let isdir = listing[k].0.is_directory();
            let ghost ck = entry_comps(l, k as int);
            proof {
                assert(cviews(comps@) == ck);
                assert(ck.len() > 0);
                assert(cviews(comps@).skip(0) =~= ck);
                // Nothing on the way down is a file.
                assert forall|m: int| 0 <= m <= comps@.len() implies !((#[trigger] resolve_node(
                    root,
                    cviews(comps@).subrange(0, m),
                )) matches Some(x) && x is File) by {
                    let pre = cviews(comps@).subrange(0, m);
                    if resolve_node(root, pre) matches Some(x) && x is File {
                        let j = choose|j: int|
                            0 <= j < k && !is_dir(l[j].0@) && pre == #[trigger] entry_comps(l, j);
                        assert(weak_prefix(entry_comps(l, j), ck)) by {
                            assert(pre =~= ck.take(m));
                        }
                        if entry_comps(l, j).len() == ck.len() {
                            assert(weak_prefix(ck, entry_comps(l, j))) by {
                                assert(ck =~= entry_comps(l, j).take(ck.len() as int));
                            }
                            assert(false);
                        } else {
                            assert(strict_prefix(entry_comps(l, j), ck));
                            assert(false);
                        }
                    }
                }
                // Nothing stands at the entry's own place yet.
                assert(resolve_node(root, cviews(comps@).skip(0)) is None) by {
                    if resolve_node(root, ck) is Some {
                        let j = choose|j: int|
                            0 <= j < k && weak_prefix(ck, #[trigger] entry_comps(l, j));
                        assert(false);
                    }
                }
            }
            let ghost old_root = root;
            root = insert_at(root, &comps, 0, &listing[k].1, isdir);
            proof {
                let rest = cviews(comps@).skip(0);
                assert(rest == ck);
                // The characterization extends to the new entry.
                assert forall|c: Seq<Seq<char>>|
                    c.len() > 0 implies ((#[trigger] resolve_node(root, c)) is Some <==> exists|
                    i: int,
                |
                    0 <= i < k + 1 && weak_prefix(c, #[trigger] entry_comps(l, i))) by {
                    if weak_prefix(c, ck) {
                        assert(resolve_node(root, c) is Some) by {
                            if c.len() == ck.len() {
                                assert(ck.take(c.len() as int) =~= ck);
                                assert(c == ck);
                            } else {
                                assert(strict_prefix(c, ck));
                            }
                        }
                        assert(weak_prefix(c, entry_comps(l, k as int)));
                    } else if weak_prefix(ck, c) {
                        assert(strict_prefix(ck, c)) by {
                            if ck.len() == c.len() {
                                assert(c.take(ck.len() as int) =~= c);
                                assert(weak_prefix(c, ck));
                            }
                        }
                        assert(resolve_node(root, c) is None);
                        assert forall|i: int| 0 <= i < k + 1 implies !weak_prefix(
                            c,
                            #[trigger] entry_comps(l, i),
                        ) by {
                            if weak_prefix(c, entry_comps(l, i)) {
                                lemma_weak_prefix_trans(ck, c, entry_comps(l, i));
                                if i < k {
                                    assert(false);
                                } else {
                                    assert(weak_prefix(ck, entry_comps(l, k as int)));
                                    assert(c.len() > ck.len());
                                    assert(entry_comps(l, i).len() >= c.len());
                                    assert(false);
                                }
                            }
                        }
                    } else {
                        assert(resolve_node(root, c) == resolve_node(old_root, c));
                        if resolve_node(root, c) is Some {
                            let j = choose|j: int|
                                0 <= j < k && weak_prefix(c, #[trigger] entry_comps(l, j));
                            assert(weak_prefix(c, entry_comps(l, j)));
                        }
                        if exists|i: int|
                            0 <= i < k + 1 && weak_prefix(c, #[trigger] entry_comps(l, i)) {
                            let i = choose|i: int|
                                0 <= i < k + 1 && weak_prefix(c, #[trigger] entry_comps(l, i));
                            if i == k {
                                assert(weak_prefix(c, ck));
                                assert(false);
                            } else {
                                assert(resolve_node(old_root, c) is Some);
                            }
                        }
                    }
                }
                // Files stand exactly at the file entries.
                assert forall|i: int|
                    0 <= i < k + 1 && !is_dir(l[i].0@) implies (resolve_node(
                    root,
                    #[trigger] entry_comps(l, i),
                ) matches Some(x) && (x matches Node::File(d) && d@ == l[i].1@)) by {
                    let ci = entry_comps(l, i);
                    if i == k {
                        assert(ci == ck);
                    } else {
                        assert(!weak_prefix(ci, ck) || !weak_prefix(ck, ci) || ci == ck);
                        if weak_prefix(ci, ck) {
                            if ci.len() == ck.len() {
                                assert(weak_prefix(ck, ci)) by {
                                    assert(ck =~= ci.take(ck.len() as int));
                                }
                                assert(false);
                            } else {
                                assert(strict_prefix(ci, ck));
                                assert(false);
                            }
                        } else if weak_prefix(ck, ci) {
                            assert(false);
                        } else {
                            assert(resolve_node(root, ci) == resolve_node(old_root, ci));
                        }
                    }
                }
                assert forall|i: int|
                    0 <= i < k + 1 && is_dir(l[i].0@) implies (resolve_node(
                    root,
                    #[trigger] entry_comps(l, i),
                ) matches Some(x) && x is Dir) by {
                    let ci = entry_comps(l, i);
                    if i == k {
                        assert(ci == ck);
                    } else {
                        if weak_prefix(ci, ck) {
                            if ci.len() == ck.len() {
                                assert(weak_prefix(ck, ci)) by {
                                    assert(ck =~= ci.take(ck.len() as int));
                                }
                                assert(false);
                            } else {
                                assert(strict_prefix(ci, ck));
                            }
                        } else if weak_prefix(ck, ci) {
                            assert(false);
                        } else {
                            assert(resolve_node(root, ci) == resolve_node(old_root, ci));
                        }
                    }
                }
                assert forall|c: Seq<Seq<char>>|
                    ((#[trigger] resolve_node(root, c)) matches Some(x) && x is File) implies
                exists|i: int|
                    0 <= i < k + 1 && !is_dir(l[i].0@) && c == entry_comps(l, i) by {
                    if c.len() == 0 {
                        assert(resolve_node(root, c) == Some(root));
                    } else {
                        if weak_prefix(c, ck) {
                            if c.len() == ck.len() {
                                assert(ck.take(c.len() as int) =~= ck);
                                assert(c == ck);
                                if isdir {
                                    assert(false);
                                } else {
                                    assert(!is_dir(l[k as int].0@) && c == entry_comps(
                                        l,
                                        k as int,
                                    ));
                                }
                            } else {
                                assert(strict_prefix(c, ck));
                                assert(false);
                            }
                        } else if weak_prefix(ck, c) {
                            assert(strict_prefix(ck, c)) by {
                                if ck.len() == c.len() {
                                    assert(c.take(ck.len() as int) =~= c);
                                    assert(weak_prefix(c, ck));
                                }
                            }
                            assert(false);
                        } else {
                            assert(resolve_node(root, c) == resolve_node(old_root, c));
                            let j = choose|j: int|
                                0 <= j < k && !is_dir(l[j].0@) && c == #[trigger] entry_comps(
                                    l,
                                    j,
                                );
                            assert(!is_dir(l[j].0@) && c == entry_comps(l, j));
                        }
                    }
                }
                assert(rom_tree_ok(root, l, k + 1));
            }
            k = k + 1;
        }
        Source { root }
    }
}

/// Walk a node along `comps[idx..]`, borrowing the node reached.
fn resolve_from<'a>(n: &'a Node, comps: &Vec<Path>, idx: usize) -> (r: Option<&'a Node>)
    requires
        idx <= comps@.len(),
    ensures
        match r {
            Some(x) => resolve_node(*n, cviews(comps@).skip(idx as int)) == Some(*x),
            None => resolve_node(*n, cviews(comps@).skip(idx as int)) is None,
        },
    decreases comps@.len() - idx,
{
    let ghost rest = cviews(comps@).skip(idx as int);
    if idx == comps.len() {
        proof {
            assert(rest =~= Seq::<Seq<char>>::empty());
        }
        Some(n)
    } else {
        proof {
            assert(rest.len() > 0);
            assert(rest[0] == comps@[idx as int]@);
            assert(rest.skip(1) =~= cviews(comps@).skip(idx as int + 1));
        }
        match n {
            Node::File(_) => None,
            Node::Dir(cs) => {
                let m = cs.len();
                let mut pos: usize = 0;
                while pos < m && !(cs[pos].0 == comps[idx])
                    invariant
                        0 <= pos <= m,
                        m == cs@.len(),
                        idx < comps@.len(),
                        forall|q: int| 0 <= q < pos ==> cs@[q].0@ != comps@[idx as int]@,
                    decreases m - pos,
                {
                    pos = pos + 1;
                }
                if pos < m {
                    proof {
                        lemma_lookup_found(cs@, pos as int);
                    }
                    resolve_from(&cs[pos].1, comps, idx + 1)
                } else {
                    proof {
                        lemma_lookup_all_miss(cs@, comps@[idx as int]@);
                    }
                    None
                }
            },
        }
    }
}

/// An open in-memory file: a cursor over a copy of the bytes.
pub struct MemFile {
    data: Vec<u8>,
    pos: usize,
}

impl MemFile {
    /// The bytes of the file.
    pub closed spec fn bytes(&self) -> Seq<u8> {
        self.data@
    }

    /// The read position, clamped to the data's end.
    pub closed spec fn position(&self) -> int {
        if self.pos as int <= self.data@.len() {
            self.pos as int
        } else {
            self.data@.len() as int
        }
    }

    /// A cursor at the start of the given bytes.
    pub fn new(data: Vec<u8>) -> (r: MemFile)
        ensures
            r.bytes() == data@,
            r.position() == 0,
    {
        MemFile { data, pos: 0 }
    }
}

impl DataFile for MemFile {
    fn read_all(&mut self) -> (r: Result<Vec<u8>, VfsErrorKind>)
        ensures
            (r matches Ok(b) && b@ == old(self).bytes().skip(old(self).position())),
            final(self).bytes() == old(self).bytes(),
            final(self).position() == old(self).bytes().len(),
    {
        let mut out: Vec<u8> = Vec::new();
        let mut i: usize = self.pos;
        let n = self.data.len();
        if i > n {
            i = n;
        }
        let ghost start = i as int;
        proof {
            assert(start == old(self).position());
            assert(self.data@.subrange(start, start) =~= Seq::<u8>::empty());
        }
        while i < n
            invariant
                0 <= start <= i <= n,
                n == self.data@.len(),
                self.data@ == old(self).data@,
                self.pos == old(self).pos,
                out@ == self.data@.subrange(start, i as int),
            decreases n - i,
        {
            out.push(self.data[i]);
            proof {
                assert(self.data@.subrange(start, i + 1 as int) =~= self.data@.subrange(
                    start,
                    i as int,
                ).push(self.data@[i as int]));
            }
            i = i + 1;
        }
        self.pos = n;
        proof {
            assert(out@ =~= old(self).bytes().skip(old(self).position()));
        }
        Ok(out)
    }

    fn seek_to(&mut self, p: u64) -> (r: Result<(), VfsErrorKind>)
        ensures
            r is Ok,
            final(self).bytes() == old(self).bytes(),
            final(self).position() == (if p as int <= old(self).bytes().len() {
                p as int
            } else {
                old(self).bytes().len() as int
            }),
    {
        let n = self.data.len();
        if p >= n as u64 {
            self.pos = n;
        } else {
            self.pos = p as usize;
        }
        Ok(())
    }
}

impl Source {
    /// Open a file of the tree as a cursor over a copy of its bytes:
    /// success exactly at file nodes, `IsADirectory` exactly at directory
    /// nodes, `NotFound` exactly when resolution fails.
    pub fn open_node(&self, path: &Path) -> (r: Result<FileHandle, VfsErrorKind>)
        ensures
            ({
                let res = resolve_node(self.root_spec(), components_of(path@));
                &&& (r is Ok <==> res is Some && res->Some_0 is File)
                &&& (r == Err::<FileHandle, VfsErrorKind>(VfsErrorKind::IsADirectory) <==> res
                    is Some && res->Some_0 is Dir)
                &&& (r == Err::<FileHandle, VfsErrorKind>(VfsErrorKind::NotFound) <==> res
                    is None)
            }),
    {
        let comps = comps_vec(path);
        proof {
            assert(cviews(comps@).skip(0) =~= cviews(comps@));
        }
        match resolve_from(&self.root, &comps, 0) {
            None => Err(VfsErrorKind::NotFound),
            Some(n) => match n {
                Node::File(d) => {
                    let bytes = copy_bytes(d);
                    Ok(FileHandle::new(MemFile::new(bytes)))
                },
                Node::Dir(_) => Err(VfsErrorKind::IsADirectory),
            },
        }
    }

    /// List a directory of the tree: exactly each child's name, in the
    /// children's stored order (sorted by name), with `/` appended for child
    /// directories. Success exactly at directory nodes, `NotADirectory`
    /// exactly at file nodes, `NotFound` exactly when resolution fails.
    pub fn ls_node(&self, path: &Path) -> (r: Result<Vec<PathBuf>, VfsErrorKind>)
        ensures
            ({
                let res = resolve_node(self.root_spec(), components_of(path@));
                &&& (r matches Ok(v) ==> (res matches Some(n) && (n matches Node::Dir(cs)
                    && v@.map_values(|p: PathBuf| p@) == listing_of(cs@))))
                &&& (r is Ok <==> res is Some && res->Some_0 is Dir)
                &&& (r == Err::<Vec<PathBuf>, VfsErrorKind>(VfsErrorKind::NotADirectory) <==> res
                    is Some && res->Some_0 is File)
                &&& (r == Err::<Vec<PathBuf>, VfsErrorKind>(VfsErrorKind::NotFound) <==> res
                    is None)
            }),
    {
        let comps = comps_vec(path);
        proof {
            assert(cviews(comps@).skip(0) =~= cviews(comps@));
        }
        match resolve_from(&self.root, &comps, 0) {
            None => Err(VfsErrorKind::NotFound),
            Some(n) => match n {
                Node::File(_) => Err(VfsErrorKind::NotADirectory),
                Node::Dir(cs) => {
                    let m = cs.len();
                    let mut out: Vec<PathBuf> = Vec::new();
                    let mut q: usize = 0;
                    while q < m
                        invariant
                            0 <= q <= m,
                            m == cs@.len(),
                            out@.map_values(|p: PathBuf| p@) == listing_of(cs@).take(q as int),
                        decreases m - q,
                    {
                        let mut pb = cs[q].0.to_path_buf();
                        let isd = match &cs[q].1 {
                            Node::Dir(_) => true,
                            Node::File(_) => false,
                        };
                        if isd && !pb.as_path().is_directory() {
                            pb.make_file_into_dir();
                        }
                        let ghost ob = out@;
                        out.push(pb);
                        proof {
                            assert(out@.map_values(|p: PathBuf| p@) =~= ob.map_values(
                                |p: PathBuf| p@,
                            ).push(pb@));
                            assert(listing_of(cs@).take(q + 1) =~= listing_of(cs@).take(
                                q as int,
                            ).push(listing_of(cs@)[q as int]));
                            assert(pb@ == listing_of(cs@)[q as int]) by {
                                if cs@[q as int].1 is Dir && !is_dir(cs@[q as int].0@) {
                                } else {
                                    assert(pb@ == cs@[q as int].0@ + Seq::<char>::empty());
                                    assert(cs@[q as int].0@ + Seq::<char>::empty() =~= cs@[
                                        q as int].0@);
                                }
                            }
                        }
                        q = q + 1;
                    }
                    proof {
                        assert(listing_of(cs@).take(m as int) =~= listing_of(cs@));
                    }
                    Ok(out)
                },
            },
        }
    }
}

impl Source {
    /// The tree is read-only: every update is refused.
    pub fn update_node(&self, _path: &Path, _data: &[u8]) -> (r: Result<(), VfsErrorKind>)
        ensures
            r == Err::<(), VfsErrorKind>(VfsErrorKind::ReadOnlyFilesystem),
    {
        Err(VfsErrorKind::ReadOnlyFilesystem)
    }
}

impl VFSSource for Source {
    fn open(&self, path: &Path) -> (r: Result<FileHandle, VfsErrorKind>)
        ensures
            ({
                let res = resolve_node(self.root_spec(), components_of(path@));
                &&& (r is Ok <==> res is Some && res->Some_0 is File)
                &&& (r == Err::<FileHandle, VfsErrorKind>(VfsErrorKind::IsADirectory) <==> res
                    is Some && res->Some_0 is Dir)
                &&& (r == Err::<FileHandle, VfsErrorKind>(VfsErrorKind::NotFound) <==> res
                    is None)
            }),
    {
        self.open_node(path)
    }

    fn ls(&self, path: &Path) -> (r: Result<Vec<PathBuf>, VfsErrorKind>)
        ensures
            ({
                let res = resolve_node(self.root_spec(), components_of(path@));
                &&& (r matches Ok(v) ==> (res matches Some(n) && (n matches Node::Dir(cs)
                    && v@.map_values(|p: PathBuf| p@) == listing_of(cs@))))
                &&& (r is Ok <==> res is Some && res->Some_0 is Dir)
                &&& (r == Err::<Vec<PathBuf>, VfsErrorKind>(VfsErrorKind::NotADirectory) <==> res
                    is Some && res->Some_0 is File)
                &&& (r == Err::<Vec<PathBuf>, VfsErrorKind>(VfsErrorKind::NotFound) <==> res
                    is None)
            }),
    {
        self.ls_node(path)
    }

    fn update(&self, path: &Path, data: &[u8]) -> (r: Result<(), VfsErrorKind>)
        ensures
            r == Err::<(), VfsErrorKind>(VfsErrorKind::ReadOnlyFilesystem),
    {
        self.update_node(path, data)
    }
}

/// For every entry of a constructed in-memory source, the listing of the
/// entry's parent directory contains the entry's final component, in
/// directory form exactly when the entry is a directory.
pub proof fn lemma_rom_listing_contains(root: Node, l: Seq<(Path, Vec<u8>)>, i: int)
    requires
        rom_listing_wf(l),
        rom_tree_ok(root, l, l.len() as int),
        0 <= i < l.len(),
    ensures
        ({
            let comps = entry_comps(l, i);
            let pc = comps.take(comps.len() - 1);
            &&& resolve_node(root, pc) is Some
            &&& resolve_node(root, pc)->Some_0 is Dir
            &&& exists|q: int|
                0 <= q < listing_of(resolve_node(root, pc)->Some_0->Dir_0@).len() && #[trigger] listing_of(
                    resolve_node(root, pc)->Some_0->Dir_0@,
                )[q] == comps[comps.len() - 1] + (if is_dir(l[i].0@) {
                    seq!['/']
                } else {
                    Seq::<char>::empty()
                })
        }),
{
    let comps = entry_comps(l, i);
    let pc = comps.take(comps.len() - 1);
    let last = comps[comps.len() - 1];
    assert(comps.len() > 0);
    assert(weak_prefix(pc, comps)) by {
        assert(pc =~= comps.take(pc.len() as int));
    }
    assert(resolve_node(root, pc) is Some) by {
        if pc.len() > 0 {
            assert(weak_prefix(pc, entry_comps(l, i)));
        } else {
            assert(resolve_node(root, pc) == Some(root));
        }
    }
    assert(resolve_node(root, pc)->Some_0 is Dir) by {
        if pc.len() == 0 {
            assert(resolve_node(root, pc) == Some(root));
        } else {
            if resolve_node(root, pc)->Some_0 is File {
                let j = choose|j: int|
                    0 <= j < l.len() && !is_dir(l[j].0@) && pc == #[trigger] entry_comps(l, j);
                assert(weak_prefix(entry_comps(l, j), entry_comps(l, i)));
                assert(entry_comps(l, j).len() < entry_comps(l, i).len());
                assert(strict_prefix(entry_comps(l, j), entry_comps(l, i)));
                if j < i {
                    assert(false);
                } else if j > i {
                    assert(false);
                } else {
                    assert(false);
                }
            }
        }
    }
    assert(comps == pc.push(last)) by {
        assert(pc.push(last) =~= comps);
    }
    lemma_resolve_snoc(root, pc, last);
    assert(resolve_node(root, comps) is Some) by {
        if is_dir(l[i].0@) {
            assert(resolve_node(root, #[trigger] entry_comps(l, i)) matches Some(x) && x is Dir);
        } else {
            assert(resolve_node(root, #[trigger] entry_comps(l, i)) matches Some(x)
                && x is File);
        }
    }
    let cs = resolve_node(root, pc)->Some_0->Dir_0;
    assert(lookup_child(cs@, last) is Some);
    lemma_lookup_index(cs@, last);
    let q = choose|q: int|
        0 <= q < cs@.len() && (#[trigger] cs@[q].0)@ == last && cs@[q].1 == lookup_child(
            cs@,
            last,
        )->Some_0;
    assert(cs@[q].1 == resolve_node(root, comps)->Some_0);
    assert(!is_dir(last)) by {
        assert(valid_path(l[i].0@) && is_abs(l[i].0@) && l[i].0@ != seq!['/']);
        assert(l[i].0@.len() > 0);
        assert(last != seq!['.', '.']) by {
            if last == seq!['.', '.'] {
                assert(!is_abs(l[i].0@));
            }
        }
        assert(plain_name(last));
        crate::name::lemma_plain_name_facts(last);
        assert(last[last.len() - 1] != '/');
    }
    assert(listing_of(cs@)[q] == cs@[q].0@ + (if cs@[q].1 is Dir && !is_dir(cs@[q].0@) {
        seq!['/']
    } else {
        Seq::<char>::empty()
    }));
    if is_dir(l[i].0@) {
        assert(resolve_node(root, comps)->Some_0 is Dir);
        assert(listing_of(cs@)[q] == last + seq!['/']);
    } else {
        assert(resolve_node(root, comps)->Some_0 is File);
        assert(listing_of(cs@)[q] == last + Seq::<char>::empty());
    }
}

} // verus!
