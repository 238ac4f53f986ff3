//! The path types: `Path`, an immutable validated path value, and `PathBuf`,
//! an owned path that can be extended and truncated through methods that
//! preserve the path invariant.

use vstd::prelude::*;

use crate::canon::norm_path;
use crate::canon::drop_to_slash;
use crate::canon::pop_comp;
use crate::canon::valid_path;
use crate::canon::repr;
use crate::canon::cat_comps;
use crate::canon::lemma_cat_vs_join;
use crate::canon::lemma_components_of_repr;
use crate::canon::lemma_pop_comp_valid;
use crate::canon::lemma_valid_structure;
use crate::name::plain_name;
use crate::text::join_slash;
use crate::text::lemma_join_concat;
use crate::text::slash_free;
use crate::errors::PathFromStrError;
use crate::errors::PathJoinError;
use crate::norm::chars_to_string;
use crate::norm::str_to_chars;
use crate::text::components_of;
use crate::text::copy_range;
use crate::text::find_slash;
use crate::text::is_abs;
use crate::text::is_dir;
use crate::text::split_slash;
use crate::text::starts_with;

verus! {

/// A path in the virtual hierarchy. The text is held in canonical form when
/// the value was made by validation; see `valid_path` for what that means.
#[derive(Debug)]
pub struct Path {
    chars: Vec<char>,
}

impl View for Path {
    type V = Seq<char>;

    closed spec fn view(&self) -> Seq<char> {
        self.chars@
    }
}

impl Path {
    /// Wrap already-prepared characters, for the crate's own algorithms.
    pub(crate) fn from_path_chars(chars: Vec<char>) -> (r: Path)
        ensures
            r@ == chars@,
    {
        Path { chars }
    }

    /// The characters of the path, for the crate's own algorithms.
    pub(crate) fn chars_ref(&self) -> (r: &Vec<char>)
        ensures
            r@ == self@,
    {
        &self.chars
    }

    /// Take a text as a path without rechecking it. Intended for constants
    /// whose validity was established elsewhere; every other caller should
    /// use `try_from_str`.
    pub fn from_str_preverified(s: &str) -> (r: Path)
        ensures
            r@ == s@,
    {
        Path { chars: str_to_chars(s) }
    }

    /// Validate and normalize a string into a path. The string must already
    /// be a valid path text.
    pub fn from_str(s: &str) -> (r: Path)
        requires
            norm_path(s@) is Ok,
        ensures
            Ok::<Seq<char>, PathFromStrError>(r@) == norm_path(s@),
            valid_path(r@),
    {
        match Path::try_from_str(s) {
            Ok(p) => p,
            Err(_) => unreached(),
        }
    }

    /// Validate and normalize a string into a path: elide `.` components,
    /// resolve `..`, decompose every name into normalization form D, and
    /// reject any component that breaks a rule, with the error determined by
    /// the first failing check.
    pub fn try_from_str(s: &str) -> (r: Result<Path, PathFromStrError>)
        ensures
            match r {
                Ok(p) => norm_path(s@) == Ok::<Seq<char>, PathFromStrError>(p@) && valid_path(p@),
                Err(e) => norm_path(s@) == Err::<Seq<char>, PathFromStrError>(e),
            },
    {
        let chars = str_to_chars(s);
        match crate::canon::normalize_chars(&chars) {
            Ok(t) => Ok(Path { chars: t }),
            Err(e) => Err(e),
        }
    }

    /// The text of the path.
    pub fn as_str(&self) -> (r: String)
        ensures
            r@ == self@,
    {
        chars_to_string(&self.chars)
    }

    /// Whether a string already is canonical path text: validation would
    /// accept it and give it back unchanged, with nothing to elide, resolve
    /// or decompose.
    pub fn is_canonical(s: &str) -> (r: bool)
        ensures
            r == (norm_path(s@) == Ok::<Seq<char>, PathFromStrError>(s@)),
    {
        let chars = str_to_chars(s);
        match crate::canon::normalize_chars(&chars) {
            Err(_) => false,
            Ok(t) => chars_eq(&t, &chars),
        }
    }

    /// An owned copy of this path.
    pub fn to_path_buf(&self) -> (r: PathBuf)
        ensures
            r@ == self@,
    {
        let n = self.chars.len();
        let c = copy_range(&self.chars, 0, n);
        proof {
            assert(self.chars@.subrange(0, self.chars@.len() as int) =~= self.chars@);
        }
        PathBuf { path: Path { chars: c } }
    }

    /// True iff the path is absolute (begins with `/`).
    pub fn is_absolute(&self) -> (r: bool)
        ensures
            r == is_abs(self@),
    {
        self.chars.len() > 0 && self.chars[0] == '/'
    }

    /// True iff the path is relative (does not begin with `/`).
    pub fn is_relative(&self) -> (r: bool)
        ensures
            r == !is_abs(self@),
    {
        !self.is_absolute()
    }

    /// True iff the path denotes a directory (is empty or ends with `/`).
    pub fn is_directory(&self) -> (r: bool)
        ensures
            r == is_dir(self@),
    {
        let n = self.chars.len();
        n == 0 || self.chars[n - 1] == '/'
    }

    /// The components of this path: the `/`-separated pieces of its
    /// interior. An empty path has no components.
    pub fn components(&self) -> (r: PathComponents)
        ensures
            r@ == components_of(self@),
    {
        let n = self.chars.len();
        let lo: usize = if n > 0 && self.chars[0] == '/' {
            1
        } else {
            0
        };
        let hi: usize = if n > lo && self.chars[n - 1] == '/' {
            n - 1
        } else {
            n
        };
        proof {
            let t = if is_abs(self@) {
                self@.skip(1)
            } else {
                self@
            };
            assert(t =~= self@.subrange(lo as int, n as int));
            if n > lo && self@[n - 1] == '/' {
                assert(t.len() > 0 && t[t.len() - 1] == '/');
                assert(t.take(t.len() - 1) =~= self@.subrange(lo as int, hi as int));
            } else {
                assert(!(t.len() > 0 && t[t.len() - 1] == '/'));
            }
            assert(crate::text::interior(self@) == self@.subrange(lo as int, hi as int));
        }
        let mut items: Vec<Path> = Vec::new();
        if lo == hi {
            proof {
                assert(crate::text::interior(self@).len() == 0);
                assert(items@.map_values(|p: Path| p@) =~= components_of(self@));
            }
            let back = items.len();
            return PathComponents { items, front: 0, back };
        }
        let ghost cs = split_slash(self@.subrange(lo as int, hi as int));
        proof {
            assert(components_of(self@) == cs);
        }
        let mut i: usize = lo;
        let mut finished = false;
        proof {
            assert(items@.map_values(|p: Path| p@) + cs =~= cs);
        }
        while !finished
            invariant
                lo <= i <= hi <= self.chars@.len(),
                !finished ==> cs == items@.map_values(|p: Path| p@) + split_slash(
                    self@.subrange(i as int, hi as int),
                ),
                finished ==> cs == items@.map_values(|p: Path| p@),
            decreases (if finished {
                0int
            } else {
                hi - i + 1
            }),
        {
            let j = find_slash(&self.chars, i, hi);
            let ghost rem = split_slash(self@.subrange(i as int, hi as int));
            let ghost comp = self@.subrange(i as int, j as int);
            proof {
                let sub = self@.subrange(i as int, hi as int);
                if j < hi {
                    assert(sub[j - i] == '/');
                    assert(forall|k: int| 0 <= k < j - i ==> sub[k] != '/');
                    crate::text::lemma_split_slash_step(sub, j - i);
                    assert(sub.take(j - i) =~= comp);
                    assert(sub.skip(j - i + 1) =~= self@.subrange(j + 1, hi as int));
                    assert(rem == seq![comp] + split_slash(self@.subrange(j + 1, hi as int)));
                } else {
                    assert(comp =~= sub);
                    assert(crate::text::slash_free(comp));
                    crate::text::lemma_split_slash_whole(comp);
                    assert(rem =~= seq![comp]);
                }
            }
            let piece = copy_range(&self.chars, i, j);
            let ghost items_old = items@;
            items.push(Path { chars: piece });
            proof {
                assert(items@.map_values(|p: Path| p@) =~= items_old.map_values(|p: Path| p@).push(
                    comp,
                ));
                if j == hi {
                    assert(cs =~= items@.map_values(|p: Path| p@));
                } else {
                    assert(items_old.map_values(|p: Path| p@).push(comp) + split_slash(
                        self@.subrange(j + 1, hi as int),
                    ) =~= items_old.map_values(|p: Path| p@) + rem);
                    assert(cs =~= items@.map_values(|p: Path| p@) + split_slash(
                        self@.subrange(j + 1, hi as int),
                    ));
                }
            }
            if j == hi {
                finished = true;
            } else {
                i = j + 1;
            }
        }
        let back = items.len();
        PathComponents { items, front: 0, back }
    }
}

/// An iterator over the components of a path, from either end.
pub struct PathComponents {
    items: Vec<Path>,
    front: usize,
    back: usize,
}

impl View for PathComponents {
    type V = Seq<Seq<char>>;

    closed spec fn view(&self) -> Seq<Seq<char>> {
        if self.front <= self.back <= self.items@.len() {
            self.items@.map_values(|p: Path| p@).subrange(self.front as int, self.back as int)
        } else {
            Seq::<Seq<char>>::empty()
        }
    }
}

impl PathComponents {
    /// The next component from the front, if any remain.
    pub fn next(&mut self) -> (r: Option<Path>)
        ensures
            old(self)@.len() == 0 ==> r is None && final(self)@ == old(self)@,
            old(self)@.len() > 0 ==> (r matches Some(p) && p@ == old(self)@[0] && final(self)@
                == old(self)@.skip(1)),
    {
        if self.front < self.back && self.back <= self.items.len() {
            let p = &self.items[self.front];
            let n = p.chars.len();
            let c = copy_range(&p.chars, 0, n);
            proof {
                assert(p.chars@.subrange(0, p.chars@.len() as int) =~= p.chars@);
            }
            self.front = self.front + 1;
            proof {
                assert(final(self)@ =~= old(self)@.skip(1));
            }
            Some(Path { chars: c })
        } else {
            None
        }
    }

    /// The next component from the back, if any remain.
    pub fn next_back(&mut self) -> (r: Option<Path>)
        ensures
            old(self)@.len() == 0 ==> r is None && final(self)@ == old(self)@,
            old(self)@.len() > 0 ==> (r matches Some(p) && p@ == old(self)@[old(self)@.len() - 1]
                && final(self)@ == old(self)@.take(old(self)@.len() - 1)),
    {
        if self.front < self.back && self.back <= self.items.len() {
            self.back = self.back - 1;
            let p = &self.items[self.back];
            let n = p.chars.len();
            let c = copy_range(&p.chars, 0, n);
            proof {
                assert(p.chars@.subrange(0, p.chars@.len() as int) =~= p.chars@);
                assert(final(self)@ =~= old(self)@.take(old(self)@.len() - 1));
            }
            Some(Path { chars: c })
        } else {
            None
        }
    }
}

/// An owned path. It dereferences conceptually to `Path`: `as_path` borrows
/// the same value.
#[derive(Debug)]
pub struct PathBuf {
    path: Path,
}

impl View for PathBuf {
    type V = Seq<char>;

    closed spec fn view(&self) -> Seq<char> {
        self.path@
    }
}

/// The text with every trailing `/` removed.
pub open spec fn trim_slashes(s: Seq<char>) -> Seq<char>
    decreases s.len(),
{
    if s.len() > 0 && s[s.len() - 1] == '/' {
        trim_slashes(s.take(s.len() - 1))
    } else {
        s
    }
}

/// The parent directory's text: drop trailing separators, then drop the
/// innermost name, keeping the separator before it. The empty path and the
/// root have no parent and return themselves.
pub open spec fn parent_of(s: Seq<char>) -> Seq<char> {
    if s == seq!['/'] {
        s
    } else {
        drop_to_slash(trim_slashes(s))
    }
}

/// The suffix of a name after its last `.`, or the whole name when it has
/// no `.`.
pub open spec fn ext_of(c: Seq<char>) -> Seq<char>
    decreases c.len(),
{
    if c.len() == 0 {
        c
    } else if c[c.len() - 1] == '.' {
        Seq::<char>::empty()
    } else {
        ext_of(c.take(c.len() - 1)).push(c[c.len() - 1])
    }
}

/// `other` (a directory path) reaches `self`: `self` begins with `other`'s
/// text minus its trailing `/`, and a `/` stands at that boundary in `self`.
pub open spec fn reaches_below(s: Seq<char>, other: Seq<char>) -> bool {
    &&& other.len() > 0
    &&& is_dir(other)
    &&& s.len() >= other.len()
    &&& s.take(other.len() - 1) == other.take(other.len() - 1)
    &&& s[other.len() - 1] == '/'
}

/// The popping phase of a join: consume leading `../` components of `rel`,
/// each removing the innermost component of `base`; fail (`None`) at the
/// root, stop at the empty base.
pub open spec fn join_pops(base: Seq<char>, rel: Seq<char>) -> Option<(Seq<char>, Seq<char>)>
    decreases rel.len(),
{
    if starts_with(rel, seq!['.', '.', '/']) {
        if base == seq!['/'] {
            None
        } else if base.len() == 0 {
            Some((base, rel))
        } else {
            join_pops(pop_comp(base), rel.skip(3))
        }
    } else {
        Some((base, rel))
    }
}

/// What joining `rel` onto `base` yields: the error for an absolute `rel` or
/// a file base without leading `../`, the escape error when `..` would rise
/// above the root, else the popped base with the remainder appended.
pub open spec fn join_path(base: Seq<char>, rel: Seq<char>) -> Result<Seq<char>, PathJoinError> {
    if is_abs(rel) {
        Err(PathJoinError::PathNotRelative)
    } else if is_dir(base) || starts_with(rel, seq!['.', '.', '/']) {
        match join_pops(base, rel) {
            None => Err(PathJoinError::EscapedRoot),
            Some((b, r)) => Ok(b + r),
        }
    } else {
        Err(PathJoinError::BasePathNotDir)
    }
}

proof fn lemma_ext_no_dot(c: Seq<char>)
    requires
        forall|i: int| 0 <= i < c.len() ==> c[i] != '.',
    ensures
        ext_of(c) == c,
    decreases c.len(),
{
    if c.len() > 0 {
        assert(c[c.len() - 1] != '.');
        lemma_ext_no_dot(c.take(c.len() - 1));
        assert(c.take(c.len() - 1).push(c[c.len() - 1]) =~= c);
    }
}

proof fn lemma_ext_after_dot(c: Seq<char>, p: int)
    requires
        0 <= p < c.len(),
        c[p] == '.',
        forall|i: int| p < i < c.len() ==> c[i] != '.',
    ensures
        ext_of(c) == c.skip(p + 1),
    decreases c.len(),
{
    if p == c.len() - 1 {
        assert(c.skip(p + 1) =~= Seq::<char>::empty());
    } else {
        assert(c[c.len() - 1] != '.');
        lemma_ext_after_dot(c.take(c.len() - 1), p);
        assert(c.take(c.len() - 1).skip(p + 1).push(c[c.len() - 1]) =~= c.skip(p + 1));
    }
}

/// Compare two character vectors for equality of their texts.
fn chars_eq(a: &Vec<char>, b: &Vec<char>) -> (r: bool)
    ensures
        r == (a@ == b@),
{
    if a.len() != b.len() {
        proof {
            assert(a@ != b@);
        }
        return false;
    }
    let mut i: usize = 0;
    while i < a.len()
        invariant
            0 <= i <= a@.len(),
            a@.len() == b@.len(),
            forall|k: int| 0 <= k < i ==> a@[k] == b@[k],
        decreases a@.len() - i,
    {
        if a[i] != b[i] {
            proof {
                assert(a@[i as int] != b@[i as int]);
            }
            return false;
        }
        i = i + 1;
    }
    proof {
        assert(a@ =~= b@);
    }
    true
}

impl Path {
    /// The path to the parent directory of this path. The empty path and the
    /// root have no parent and return themselves.
    pub fn parent(&self) -> (r: Path)
        ensures
            r@ == parent_of(self@),
    {
        let n = self.chars.len();
        if n == 1 && self.chars[0] == '/' {
            proof {
                assert(self@ =~= seq!['/']);
            }
            let c = copy_range(&self.chars, 0, n);
            proof {
                assert(self.chars@.subrange(0, 1) =~= self@);
            }
            return Path { chars: c };
        }
        proof {
            assert(self@ != seq!['/']) by {
                if self@ == seq!['/'] {
                    assert(self@.len() == 1 && self@[0] == '/');
                }
            }
        }
        let mut c = copy_range(&self.chars, 0, n);
        proof {
            assert(self.chars@.subrange(0, self.chars@.len() as int) =~= self@);
            assert(trim_slashes(c@) == trim_slashes(self@));
        }
        while c.len() > 0 && c[c.len() - 1] == '/'
            invariant
                trim_slashes(c@) == trim_slashes(self@),
            decreases c@.len(),
        {
            proof {
                assert(trim_slashes(c@) == trim_slashes(c@.take(c@.len() - 1)));
            }
            c.pop();
        }
        proof {
            assert(trim_slashes(c@) == c@);
            assert(drop_to_slash(c@) == parent_of(self@));
        }
        while c.len() > 0 && c[c.len() - 1] != '/'
            invariant
                drop_to_slash(c@) == parent_of(self@),
            decreases c@.len(),
        {
            proof {
                assert(drop_to_slash(c@) == drop_to_slash(c@.take(c@.len() - 1)));
            }
            c.pop();
        }
        proof {
            assert(drop_to_slash(c@) == c@);
        }
        Path { chars: c }
    }

    /// The "dot extension" of the last component: the suffix after its last
    /// `.`, the whole component when it has none, and nothing when the path
    /// has no components.
    pub fn extension(&self) -> (r: Option<String>)
        ensures
            components_of(self@).len() == 0 ==> r is None,
            components_of(self@).len() > 0 ==> (r matches Some(e) && e@ == ext_of(
                components_of(self@)[components_of(self@).len() - 1],
            )),
    {
        let mut it = self.components();
        match it.next_back() {
            None => None,
            Some(last) => {
                let c = &last.chars;
                let n = c.len();
                let mut k: usize = n;
                while k > 0 && c[k - 1] != '.'
                    invariant
                        0 <= k <= c@.len(),
                        forall|i: int| k <= i < c@.len() ==> c@[i] != '.',
                    decreases k,
                {
                    k = k - 1;
                }
                if k == 0 {
                    proof {
                        lemma_ext_no_dot(c@);
                        assert(c@.subrange(0, c@.len() as int) =~= c@);
                    }
                    let piece = copy_range(c, 0, n);
                    Some(chars_to_string(&piece))
                } else {
                    proof {
                        assert(c@[k - 1] == '.');
                        lemma_ext_after_dot(c@, k - 1);
                    }
                    let piece = copy_range(c, k, n);
                    proof {
                        assert(c@.subrange(k as int, c@.len() as int) =~= c@.skip(k as int));
                    }
                    Some(chars_to_string(&piece))
                }
            },
        }
    }

    /// If `other` (a directory path) is a prefix of this path, the remainder
    /// of this path below `other`, as an absolute path; `None` otherwise.
    pub fn with_prefix_absolute(&self, other: &Path) -> (r: Option<Path>)
        ensures
            r is Some <==> reaches_below(self@, other@),
            (r matches Some(p) ==> p@ == self@.skip(other@.len() - 1)),
    {
        let m = other.chars.len();
        if m == 0 {
            return None;
        }
        if other.chars[m - 1] != '/' {
            proof {
                assert(!is_dir(other@));
            }
            return None;
        }
        let n = self.chars.len();
        if n < m {
            return None;
        }
        let mut k: usize = 0;
        while k < m - 1
            invariant
                0 <= k <= m - 1,
                m == other@.len() <= self@.len(),
                forall|i: int| 0 <= i < k ==> self@[i] == other@[i],
            decreases m - 1 - k,
        {
            if self.chars[k] != other.chars[k] {
                proof {
                    if self@.take(other@.len() - 1) == other@.take(other@.len() - 1) {
                        assert(self@.take(other@.len() - 1)[k as int] == other@.take(
                            other@.len() - 1,
                        )[k as int]);
                    }
                }
                return None;
            }
            k = k + 1;
        }
        if self.chars[m - 1] != '/' {
            return None;
        }
        proof {
            assert(self@.take(other@.len() - 1) =~= other@.take(other@.len() - 1));
            assert(reaches_below(self@, other@));
        }
        let piece = copy_range(&self.chars, m - 1, n);
        proof {
            assert(self@.subrange(m - 1 as int, n as int) =~= self@.skip(other@.len() - 1));
        }
        Some(Path { chars: piece })
    }
}

impl PartialEq for Path {
    /// Paths are equal iff their canonical texts are equal, codepoint by
    /// codepoint.
    fn eq(&self, other: &Path) -> (r: bool) {
        chars_eq(&self.chars, &other.chars)
    }
}

impl Eq for Path {

}

impl vstd::std_specs::cmp::PartialEqSpecImpl for Path {
    open spec fn obeys_eq_spec() -> bool {
        true
    }

    open spec fn eq_spec(&self, other: &Path) -> bool {
        self@ == other@
    }
}

impl PartialEq for PathBuf {
    /// Owned paths compare like the paths they hold.
    fn eq(&self, other: &PathBuf) -> (r: bool) {
        chars_eq(&self.path.chars, &other.path.chars)
    }
}

impl Eq for PathBuf {

}

impl vstd::std_specs::cmp::PartialEqSpecImpl for PathBuf {
    open spec fn obeys_eq_spec() -> bool {
        true
    }

    open spec fn eq_spec(&self, other: &PathBuf) -> bool {
        self@ == other@
    }
}

/// Relies on `Vec::reserve_exact`: it affects capacity only, never contents.
#[verifier::external_body]
fn vec_reserve_exact(v: &mut Vec<char>, additional: usize)
    ensures
        final(v)@ == old(v)@,
{
    v.reserve_exact(additional)
}

/// Relies on `Vec::shrink_to_fit`: it affects capacity only, never contents.
#[verifier::external_body]
fn vec_shrink_to_fit(v: &mut Vec<char>)
    ensures
        final(v)@ == old(v)@,
{
    v.shrink_to_fit()
}

impl PathBuf {
    /// A new, empty path.
    pub fn new() -> (r: PathBuf)
        ensures
            r@ == Seq::<char>::empty(),
    {
        PathBuf { path: Path { chars: Vec::new() } }
    }

    /// A new, empty path with room for `capacity` characters.
    pub fn with_capacity(capacity: usize) -> (r: PathBuf)
        ensures
            r@ == Seq::<char>::empty(),
    {
        PathBuf { path: Path { chars: Vec::with_capacity(capacity) } }
    }

    /// Validate and normalize a string into an owned path. The string must
    /// already be a valid path text.
    pub fn from_str(s: &str) -> (r: PathBuf)
        requires
            norm_path(s@) is Ok,
        ensures
            Ok::<Seq<char>, PathFromStrError>(r@) == norm_path(s@),
            valid_path(r@),
    {
        PathBuf { path: Path::from_str(s) }
    }

    /// Validate and normalize a string into an owned path.
    pub fn try_from_str(s: &str) -> (r: Result<PathBuf, PathFromStrError>)
        ensures
            match r {
                Ok(p) => norm_path(s@) == Ok::<Seq<char>, PathFromStrError>(p@) && valid_path(p@),
                Err(e) => norm_path(s@) == Err::<Seq<char>, PathFromStrError>(e),
            },
    {
        match Path::try_from_str(s) {
            Ok(p) => Ok(PathBuf { path: p }),
            Err(e) => Err(e),
        }
    }

    /// Borrow this owned path as a `Path`.
    pub fn as_path(&self) -> (r: &Path)
        ensures
            r@ == self@,
    {
        &self.path
    }

    /// The text of the path.
    pub fn as_str(&self) -> (r: String)
        ensures
            r@ == self@,
    {
        self.path.as_str()
    }

    /// Extend `self` by a relative path. `self` must be a directory or the
    /// relative path must begin with `../`, and the join must not escape the
    /// root; use `try_join` when that is not known.
    pub fn join(&mut self, moar: &Path)
        requires
            join_path(old(self)@, moar@) is Ok,
        ensures
            Ok::<Seq<char>, PathJoinError>(final(self)@) == join_path(old(self)@, moar@),
    {
        match self.try_join(moar) {
            Ok(()) => (),
            Err(_) => unreached(),
        }
    }

    /// Extend `self` by a relative path: leading `../` components pop the
    /// innermost components of `self` (failing at the root, stopping at the
    /// empty path), and the remainder is appended. On the escape error `self`
    /// is left at the root; on the other errors it is unchanged.
    pub fn try_join(&mut self, moar: &Path) -> (r: Result<(), PathJoinError>)
        ensures
            match r {
                Ok(()) => join_path(old(self)@, moar@) == Ok::<Seq<char>, PathJoinError>(
                    final(self)@,
                ),
                Err(e) => join_path(old(self)@, moar@) == Err::<Seq<char>, PathJoinError>(e) && (e
                    == PathJoinError::EscapedRoot ==> final(self)@ == seq!['/']) && (e
                    != PathJoinError::EscapedRoot ==> final(self)@ == old(self)@),
            },
    {
        if moar.is_absolute() {
            return Err(PathJoinError::PathNotRelative);
        }
        let mlen = moar.chars.len();
        let has_dd = mlen >= 3 && moar.chars[0] == '.' && moar.chars[1] == '.' && moar.chars[2]
            == '/';
        proof {
            if has_dd {
                assert(moar@.take(3) =~= seq!['.', '.', '/']);
            } else if starts_with(moar@, seq!['.', '.', '/']) {
                assert(moar@.take(3) == seq!['.', '.', '/']);
                assert(moar@[0] == '.' && moar@[1] == '.' && moar@[2] == '/');
            }
            assert(has_dd == starts_with(moar@, seq!['.', '.', '/']));
        }
        if self.path.is_directory() || has_dd {
            let mut k: usize = 0;
            let mut halted = false;
            proof {
                assert(moar@.skip(0) =~= moar@);
            }
            while !halted && mlen - k >= 3 && self.path.chars.len() > 0 && (moar.chars[k] == '.'
                && moar.chars[k + 1] == '.' && moar.chars[k + 2] == '/')
                invariant
                    0 <= k <= mlen == moar@.len(),
                    join_pops(old(self)@, moar@) == join_pops(self@, moar@.skip(k as int)),
                decreases mlen - k,
            {
                proof {
                    assert(moar@.skip(k as int).take(3) =~= seq!['.', '.', '/']);
                    assert(starts_with(moar@.skip(k as int), seq!['.', '.', '/']));
                }
                if self.path.chars.len() == 1 && self.path.chars[0] == '/' {
                    proof {
                        assert(self@ =~= seq!['/']);
                        assert(join_pops(self@, moar@.skip(k as int)) is None);
                        assert(join_path(old(self)@, moar@) == Err::<Seq<char>, PathJoinError>(
                            PathJoinError::EscapedRoot,
                        ));
                    }
                    return Err(PathJoinError::EscapedRoot);
                }
                proof {
                    assert(self@ != seq!['/']) by {
                        if self@ == seq!['/'] {
                            assert(self@.len() == 1 && self@[0] == '/');
                        }
                    }
                    assert(self@.len() > 0);
                }
                let ghost b0 = self@;
                self.path.chars.pop();
                proof {
                    assert(self@ == b0.take(b0.len() - 1));
                    assert(drop_to_slash(self@) == pop_comp(b0));
                }
                while self.path.chars.len() > 0 && self.path.chars[self.path.chars.len() - 1] != '/'
                    invariant
                        drop_to_slash(self@) == pop_comp(b0),
                    decreases self@.len(),
                {
                    proof {
                        assert(drop_to_slash(self@) == drop_to_slash(self@.take(self@.len() - 1)));
                    }
                    self.path.chars.pop();
                }
                proof {
                    assert(drop_to_slash(self@) == self@);
                    assert(self@ == pop_comp(b0));
                    assert(moar@.skip(k as int).skip(3) =~= moar@.skip(k as int + 3));
                    assert(join_pops(b0, moar@.skip(k as int)) == join_pops(
                        self@,
                        moar@.skip(k as int + 3),
                    ));
                }
                k = k + 3;
            }
            proof {
                let rel2 = moar@.skip(k as int);
                if self@.len() == 0 {
                    assert(self@ != seq!['/']);
                    assert(join_pops(self@, rel2) == Some((self@, rel2)));
                } else {
                    assert(!(mlen - k >= 3 && moar@[k as int] == '.' && moar@[k as int + 1] == '.'
                        && moar@[k as int + 2] == '/'));
                    assert(!starts_with(rel2, seq!['.', '.', '/'])) by {
                        if starts_with(rel2, seq!['.', '.', '/']) {
                            assert(rel2.take(3) == seq!['.', '.', '/']);
                            assert(rel2[0] == '.' && rel2[1] == '.' && rel2[2] == '/');
                            assert(moar@[k as int] == '.' && moar@[k as int + 1] == '.' && moar@[
                                k as int + 2] == '/');
                        }
                    }
                    assert(join_pops(self@, rel2) == Some((self@, rel2)));
                }
            }
            let mut piece = copy_range(&moar.chars, k, mlen);
            proof {
                assert(moar@.subrange(k as int, mlen as int) =~= moar@.skip(k as int));
            }
            self.path.chars.append(&mut piece);
            proof {
                assert(join_path(old(self)@, moar@) == Ok::<Seq<char>, PathJoinError>(
                    final(self)@,
                ));
            }
            Ok(())
        } else {
            Err(PathJoinError::BasePathNotDir)
        }
    }

    /// Like `join`, but an absolute path replaces `self` instead. The join
    /// must succeed; use `try_join_or_replace` when that is not known.
    pub fn join_or_replace(&mut self, moar: &Path)
        requires
            is_abs(moar@) || join_path(old(self)@, moar@) is Ok,
        ensures
            is_abs(moar@) ==> final(self)@ == moar@,
            !is_abs(moar@) ==> Ok::<Seq<char>, PathJoinError>(final(self)@) == join_path(
                old(self)@,
                moar@,
            ),
    {
        match self.try_join_or_replace(moar) {
            Ok(()) => (),
            Err(_) => unreached(),
        }
    }

    /// Like `try_join`, but an absolute path replaces `self` instead.
    pub fn try_join_or_replace(&mut self, moar: &Path) -> (r: Result<(), PathJoinError>)
        ensures
            is_abs(moar@) ==> r is Ok && final(self)@ == moar@,
            !is_abs(moar@) ==> match r {
                Ok(()) => join_path(old(self)@, moar@) == Ok::<Seq<char>, PathJoinError>(
                    final(self)@,
                ),
                Err(e) => join_path(old(self)@, moar@) == Err::<Seq<char>, PathJoinError>(e) && (e
                    == PathJoinError::EscapedRoot ==> final(self)@ == seq!['/']) && (e
                    != PathJoinError::EscapedRoot ==> final(self)@ == old(self)@),
            },
    {
        if moar.is_absolute() {
            self.path.chars.clear();
            let n = moar.chars.len();
            let mut piece = copy_range(&moar.chars, 0, n);
            self.path.chars.append(&mut piece);
            proof {
                assert(moar@.subrange(0, moar@.len() as int) =~= moar@);
                assert(final(self)@ =~= moar@);
            }
            Ok(())
        } else {
            self.try_join(moar)
        }
    }

    /// Remove the innermost component. True iff there was one to remove:
    /// false on the empty path and the root, which are left unchanged.
    pub fn up_one_level(&mut self) -> (r: bool)
        ensures
            r == !(old(self)@.len() == 0 || old(self)@ == seq!['/']),
            r ==> final(self)@ == pop_comp(old(self)@),
            !r ==> final(self)@ == old(self)@,
    {
        let n = self.path.chars.len();
        if n == 0 || (n == 1 && self.path.chars[0] == '/') {
            proof {
                if n == 1 {
                    assert(old(self)@ =~= seq!['/']);
                }
            }
            return false;
        }
        proof {
            assert(old(self)@ != seq!['/']) by {
                if old(self)@ == seq!['/'] {
                    assert(old(self)@.len() == 1 && old(self)@[0] == '/');
                }
            }
        }
        let ghost b0 = self@;
        self.path.chars.pop();
        proof {
            assert(self@ == b0.take(b0.len() - 1));
            assert(drop_to_slash(self@) == pop_comp(b0));
        }
        while self.path.chars.len() > 0 && self.path.chars[self.path.chars.len() - 1] != '/'
            invariant
                drop_to_slash(self@) == pop_comp(b0),
            decreases self@.len(),
        {
            proof {
                assert(drop_to_slash(self@) == drop_to_slash(self@.take(self@.len() - 1)));
            }
            self.path.chars.pop();
        }
        proof {
            assert(drop_to_slash(self@) == self@);
        }
        true
    }

    /// Ask the underlying buffer to reserve room for at least `s` more
    /// characters.
    pub fn reserve(&mut self, s: usize)
        ensures
            final(self)@ == old(self)@,
    {
        self.path.chars.reserve(s);
    }

    /// Ask the underlying buffer to reserve room for exactly `s` more
    /// characters.
    pub fn reserve_exact(&mut self, s: usize)
        ensures
            final(self)@ == old(self)@,
    {
        vec_reserve_exact(&mut self.path.chars, s);
    }

    /// Ask the underlying buffer to give surplus room back.
    pub fn shrink_to_fit(&mut self)
        ensures
            final(self)@ == old(self)@,
    {
        vec_shrink_to_fit(&mut self.path.chars);
    }

    /// Turn a path to a file (e.g. `foo`) into the path to the directory of
    /// the same name (e.g. `foo/`).
    pub fn make_file_into_dir(&mut self)
        requires
            !is_dir(old(self)@),
        ensures
            final(self)@ == old(self)@ + seq!['/'],
    {
        self.path.chars.push('/');
        proof {
            assert(final(self)@ =~= old(self)@ + seq!['/']);
        }
    }
}

/// A path is absolute or relative, and never both; the empty path counts as
/// relative. `is_absolute` and `is_relative` answer by this same predicate.
pub proof fn lemma_absolute_xor_relative(p: &Path)
    ensures
        is_abs(p@) != !is_abs(p@),
        p@.len() == 0 ==> !is_abs(p@),
{
}

/// The first component of a non-empty valid relative path is `..` exactly
/// when the text begins with `../`.
proof fn lemma_leading_dotdot(r: Seq<char>)
    requires
        valid_path(r),
        !is_abs(r),
        r.len() > 0,
    ensures
        starts_with(r, seq!['.', '.', '/']) <==> components_of(r)[0] == seq!['.', '.'],
{
    let rc = components_of(r);
    assert(r != seq!['/']);
    lemma_valid_structure(r);
    assert(rc.len() > 0);
    crate::canon::lemma_join_first(rc);
    let j = join_slash(rc);
    let suf: Seq<char> = if is_dir(r) {
        seq!['/']
    } else {
        Seq::<char>::empty()
    };
    assert(r =~= repr(false, rc) + Seq::<char>::empty() || true);
    let body = if is_dir(r) {
        repr(false, rc)
    } else {
        repr(false, rc).take(repr(false, rc).len() - 1)
    };
    assert(r == body);
    lemma_cat_vs_join(rc);
    assert(repr(false, rc) =~= j + seq!['/']);
    if is_dir(r) {
        assert(r =~= j + seq!['/']);
    } else {
        assert(r =~= j);
    }
    assert(j.take(rc[0].len() as int) == rc[0]);
    if rc[0] == seq!['.', '.'] {
        assert(j.len() >= 2);
        assert(j[0] == '.' && j[1] == '.');
        if rc.len() == 1 {
            assert(j == rc[0]);
            if is_dir(r) {
                assert(r.take(3) =~= seq!['.', '.', '/']);
                assert(starts_with(r, seq!['.', '.', '/']));
            } else {
                assert(r == seq!['.', '.']) by {
                    assert(r =~= seq!['.', '.']);
                }
                assert(rc[rc.len() - 1] == seq!['.', '.']);
                assert(false);
            }
        } else {
            crate::text::lemma_join_concat(rc.take(1), rc.skip(1));
            assert(rc.take(1) + rc.skip(1) =~= rc);
            assert(join_slash(rc.take(1)) == rc.take(1)[0]);
            assert(rc.take(1)[0] == rc[0]);
            assert(j == rc[0] + seq!['/'] + join_slash(rc.skip(1)));
            assert(j[2] == '/');
            assert(r.take(3) =~= seq!['.', '.', '/']);
            assert(starts_with(r, seq!['.', '.', '/']));
        }
    } else {
        assert(plain_name(rc[0]));
        crate::name::lemma_plain_name_facts(rc[0]);
        if starts_with(r, seq!['.', '.', '/']) {
            assert(r.take(3) == seq!['.', '.', '/']);
            assert(r[0] == '.' && r[1] == '.' && r[2] == '/');
            assert(j[0] == rc[0][0]);
            if rc[0].len() == 1 {
                assert(rc[0] =~= seq!['.']);
                assert(rc[0][0] == '.');
                assert(false);
            } else if rc[0].len() == 2 {
                assert(rc[0][0] == j[0] && rc[0][1] == j[1]);
                assert(rc[0] =~= seq!['.', '.']);
                assert(false);
            } else {
                assert(rc[0][2] == j[2]) by {
                    assert(j.take(rc[0].len() as int)[2] == rc[0][2]);
                }
                assert(rc[0][2] == '/');
                assert(false);
            }
        }
    }
}

/// Dropping the leading `../` of a valid relative path leaves a valid
/// relative path with the same directory-ness and one component fewer.
proof fn lemma_skip_dotdot(r: Seq<char>)
    requires
        valid_path(r),
        !is_abs(r),
        starts_with(r, seq!['.', '.', '/']),
    ensures
        valid_path(r.skip(3)),
        !is_abs(r.skip(3)),
        is_dir(r.skip(3)) == is_dir(r) || r.skip(3).len() == 0,
        components_of(r.skip(3)) == components_of(r).skip(1),
{
    let rc = components_of(r);
    lemma_leading_dotdot(r);
    assert(rc[0] == seq!['.', '.']);
    lemma_valid_structure(r);
    lemma_cat_vs_join(rc);
    let j = join_slash(rc);
    if rc.len() == 1 {
        assert(j == rc[0]);
        if is_dir(r) {
            assert(r =~= seq!['.', '.', '/']);
            assert(r.skip(3) =~= Seq::<char>::empty());
            assert(components_of(r.skip(3)) =~= rc.skip(1));
        } else {
            assert(r =~= seq!['.', '.']);
            assert(rc[rc.len() - 1] == seq!['.', '.']);
            assert(false);
        }
    } else {
        lemma_join_concat(rc.take(1), rc.skip(1));
        assert(rc.take(1) + rc.skip(1) =~= rc);
        assert(join_slash(rc.take(1)) == rc.take(1)[0]);
        assert(rc.take(1)[0] == rc[0]);
        assert(j == rc[0] + seq!['/'] + join_slash(rc.skip(1)));
        let j2 = join_slash(rc.skip(1));
        let rc2 = rc.skip(1);
        assert(rc2.len() > 0);
        assert forall|k: int| 0 <= k < rc2.len() implies (#[trigger] rc2[k]).len() > 0
            && slash_free(rc2[k]) by {
            assert(rc2[k] == rc[k + 1]);
        }
        lemma_components_of_repr(false, rc2, is_dir(r));
        lemma_cat_vs_join(rc2);
        let t = if is_dir(r) {
            repr(false, rc2)
        } else {
            repr(false, rc2).take(repr(false, rc2).len() - 1)
        };
        assert(r.skip(3) == t) by {
            if is_dir(r) {
                assert(r =~= j + seq!['/']);
                assert(r.skip(3) =~= j2 + seq!['/']);
                assert(t =~= j2 + seq!['/']);
            } else {
                assert(r =~= j);
                assert(r.skip(3) =~= j2);
                assert(t =~= j2);
            }
        }
        assert(components_of(r.skip(3)) == rc2);
        assert(is_dir(r.skip(3)) == is_dir(r));
        assert(!is_abs(r.skip(3)));
        assert(valid_path(r.skip(3))) by {
            assert(r.skip(3).len() > 0);
            assert(r.skip(3) != seq!['/']) by {
                if r.skip(3) == seq!['/'] {
                    assert(is_abs(r.skip(3)));
                }
            }
            assert forall|i: int|
                0 <= i < rc2.len() && rc2[i] != seq!['.', '.'] implies plain_name(
                #[trigger] rc2[i],
            ) && crate::norm::nfd_seq(rc2[i]) == rc2[i] by {
                assert(rc2[i] == rc[i + 1]);
            }
            assert forall|i: int|
                0 <= i < rc2.len() && #[trigger] rc2[i] == seq!['.', '.'] implies !is_abs(
                r.skip(3),
            ) && (forall|m: int| 0 <= m < i ==> rc2[m] == seq!['.', '.']) by {
                assert(rc2[i] == rc[i + 1]);
                assert(rc[i + 1] == seq!['.', '.']);
                assert(forall|m: int| 0 <= m < i + 1 ==> rc[m] == seq!['.', '.']);
                assert(forall|m: int| 0 <= m < i ==> rc2[m] == rc[m + 1]);
            }
            if !is_dir(r.skip(3)) {
                assert(rc2[rc2.len() - 1] == rc[rc.len() - 1]);
            }
        }
    }
}

/// Appending a valid relative path with no `..` components onto a valid
/// directory path yields a valid path.
#[verifier::rlimit(100)]
#[verifier::spinoff_prover]
proof fn lemma_concat_valid(b: Seq<char>, r: Seq<char>)
    requires
        valid_path(b),
        is_dir(b),
        valid_path(r),
        !is_abs(r),
        forall|i: int| 0 <= i < components_of(r).len() ==> components_of(r)[i] != seq!['.', '.'],
    ensures
        valid_path(b + r),
{
    if r.len() == 0 {
        assert(b + r =~= b);
    } else if b.len() == 0 {
        assert(b + r =~= r);
    } else {
        let rc = components_of(r);
        assert(r != seq!['/']);
        lemma_valid_structure(r);
        assert(rc.len() > 0);
        lemma_cat_vs_join(rc);
        let jr = join_slash(rc);
        assert(r == (if is_dir(r) {
            jr + seq!['/']
        } else {
            jr
        })) by {
            if is_dir(r) {
                assert(repr(false, rc) =~= jr + seq!['/']);
            } else {
                assert(repr(false, rc).take(repr(false, rc).len() - 1) =~= jr);
            }
        }
        let abs_b = is_abs(b);
        let pre: Seq<char> = if abs_b {
            seq!['/']
        } else {
            Seq::<char>::empty()
        };
        let bc = components_of(b);
        let all = if b == seq!['/'] {
            rc
        } else {
            bc + rc
        };
        assert forall|k: int| 0 <= k < all.len() implies (#[trigger] all[k]).len() > 0
            && slash_free(all[k]) by {
            lemma_valid_structure(r);
            if b != seq!['/'] {
                lemma_valid_structure(b);
                if k < bc.len() {
                    assert(all[k] == bc[k]);
                } else {
                    assert(all[k] == rc[k - bc.len()]);
                }
            }
        }
        lemma_components_of_repr(abs_b, all, is_dir(r));
        lemma_cat_vs_join(all);
        let t = if is_dir(r) {
            repr(abs_b, all)
        } else {
            repr(abs_b, all).take(repr(abs_b, all).len() - 1)
        };
        assert(b + r == t) by {
            if b == seq!['/'] {
                assert(abs_b);
                assert(all == rc);
                if is_dir(r) {
                    assert(t =~= seq!['/'] + jr + seq!['/']);
                    assert(b + r =~= seq!['/'] + jr + seq!['/']);
                } else {
                    assert(t =~= seq!['/'] + jr);
                    assert(b + r =~= seq!['/'] + jr);
                }
            } else {
                lemma_valid_structure(b);
                assert(bc.len() > 0);
                assert(b == repr(abs_b, bc));
                lemma_cat_vs_join(bc);
                lemma_join_concat(bc, rc);
                assert(join_slash(all) == join_slash(bc) + seq!['/'] + jr);
                if is_dir(r) {
                    assert(t =~= pre + (join_slash(bc) + seq!['/'] + jr) + seq!['/']);
                    assert(b + r =~= pre + (join_slash(bc) + seq!['/'] + jr) + seq!['/']);
                } else {
                    assert(t =~= pre + (join_slash(bc) + seq!['/'] + jr));
                    assert(b + r =~= pre + (join_slash(bc) + seq!['/'] + jr));
                }
            }
        }
        assert(components_of(b + r) == all);
        assert(is_abs(b + r) == abs_b);
        assert(is_dir(b + r) == is_dir(r));
        assert(valid_path(b + r)) by {
            assert(b + r != seq!['/']) by {
                assert((b + r).len() > 0);
                if b + r == seq!['/'] {
                    assert(components_of(seq!['/']).len() == 0) by {
                        assert(crate::text::interior(seq!['/']) =~= Seq::<char>::empty());
                    }
                }
            }
            assert forall|i: int|
                0 <= i < all.len() && all[i] != seq!['.', '.'] implies plain_name(
                #[trigger] all[i],
            ) && crate::norm::nfd_seq(all[i]) == all[i] by {
                if b != seq!['/'] && i < bc.len() {
                    assert(all[i] == bc[i]);
                } else if b != seq!['/'] {
                    assert(all[i] == rc[i - bc.len()]);
                } else {
                    assert(all[i] == rc[i]);
                }
            }
            assert forall|i: int|
                0 <= i < all.len() && #[trigger] all[i] == seq!['.', '.'] implies !is_abs(b + r)
                && (forall|m: int| 0 <= m < i ==> all[m] == seq!['.', '.']) by {
                if b == seq!['/'] {
                    assert(all[i] == rc[i]);
                    assert(false);
                } else if i >= bc.len() {
                    assert(all[i] == rc[i - bc.len()]);
                    assert(false);
                } else {
                    assert(all[i] == bc[i]);
                    assert(!is_abs(b));
                    assert(forall|m: int| 0 <= m < i ==> bc[m] == seq!['.', '.']);
                    assert(forall|m: int| 0 <= m < i ==> all[m] == bc[m]);
                }
            }
            if !is_dir(b + r) {
                assert(!is_dir(r));
                assert(all[all.len() - 1] == rc[rc.len() - 1]);
            }
        }
    }
}

/// The popping phase of a successful join yields a pair whose concatenation
/// is a valid path.
proof fn lemma_join_pops_valid(b: Seq<char>, r: Seq<char>)
    requires
        valid_path(b),
        valid_path(r),
        !is_abs(r),
        is_dir(b) || starts_with(r, seq!['.', '.', '/']),
    ensures
        (join_pops(b, r) matches Some(p) ==> valid_path(p.0 + p.1)),
    decreases r.len(),
{
    if starts_with(r, seq!['.', '.', '/']) {
        if b == seq!['/'] {
        } else if b.len() == 0 {
            assert(join_pops(b, r) == Some((b, r)));
            assert(b + r =~= r);
        } else {
            lemma_pop_comp_valid(b);
            lemma_skip_dotdot(r);
            lemma_join_pops_valid(pop_comp(b), r.skip(3));
            assert(join_pops(b, r) == join_pops(pop_comp(b), r.skip(3)));
        }
    } else {
        assert(join_pops(b, r) == Some((b, r)));
        if r.len() == 0 {
            assert(b + r =~= b);
        } else {
            lemma_leading_dotdot(r);
            assert(components_of(r)[0] != seq!['.', '.']);
            assert forall|i: int| 0 <= i < components_of(r).len() implies components_of(r)[i]
                != seq!['.', '.'] by {
                if components_of(r)[i] == seq!['.', '.'] {
                    assert(components_of(r)[0] == seq!['.', '.']);
                }
            }
            lemma_concat_valid(b, r);
        }
    }
}

/// If joining a valid relative path onto a valid path succeeds, the result
/// satisfies all the path invariants.
pub proof fn lemma_join_preserves_valid(base: Seq<char>, rel: Seq<char>)
    requires
        valid_path(base),
        valid_path(rel),
        join_path(base, rel) is Ok,
    ensures
        valid_path(join_path(base, rel)->Ok_0),
{
    assert(!is_abs(rel));
    lemma_join_pops_valid(base, rel);
}

} // verus!
