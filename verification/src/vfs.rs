//! The union-mount engine: an ordered registry of (mount point, source)
//! pairs. `open` and `update` resolve to a single winner, traversing the
//! mounts newest first; `ls` merges the listings of every applicable mount,
//! oldest first, synthesizes the directories implied by deeper mount
//! anchors, and sorts and deduplicates the union.

use vstd::prelude::*;

use crate::listing::dedup_entries;
use crate::listing::entry_lt;
use crate::listing::has_slash;
use crate::listing::in_listing;
use crate::listing::lemma_in_listing_grow;
use crate::listing::lemma_in_listing_push;
use crate::listing::sort_entries;
use crate::path::Path;
use crate::path::PathBuf;
use crate::path::reaches_below;
use crate::source::FileHandle;
use crate::source::SourceBox;
use crate::source::VfsErrorKind;
use crate::text::components_of;
use crate::text::is_abs;
use crate::text::is_dir;

verus! {

/// One entry of the mount table.
struct Mount {
    point: PathBuf,
    source: SourceBox,
}

/// The virtual filesystem: a union of sources anchored at mount points.
/// Later mounts override earlier ones at file granularity.
pub struct VFS {
    mounts: Vec<Mount>,
}

/// Some mount point is at or above the path: the path falls under it.
pub open spec fn claims_path(points: Seq<Seq<char>>, p: Seq<char>) -> bool {
    exists|i: int| 0 <= i < points.len() && reaches_below(p, points[i])
}

/// Some mount point is strictly below the path.
pub open spec fn anchors_below(points: Seq<Seq<char>>, p: Seq<char>) -> bool {
    exists|i: int| 0 <= i < points.len() && reaches_below(points[i], p)
}

/// The listing entry synthesized for a mount anchored strictly below the
/// listed directory: the first component of the mount point's remainder,
/// as a directory entry.
pub open spec fn phantom_entry(point: Seq<char>, path: Seq<char>) -> Seq<char> {
    components_of(point.skip(path.len() - 1))[0] + seq!['/']
}

/// The mount at `point` contributes a synthesized entry to a listing of
/// `path`: it is anchored strictly below `path` and the first component of
/// the remainder is a name.
pub open spec fn contributes_phantom(point: Seq<char>, path: Seq<char>) -> bool {
    &&& reaches_below(point, path)
    &&& components_of(point.skip(path.len() - 1)).len() > 0
    &&& components_of(point.skip(path.len() - 1))[0].len() > 0
}

impl VFS {
    /// The mount points, in mount order.
    pub closed spec fn points(&self) -> Seq<Seq<char>> {
        self.mounts@.map_values(|m: Mount| m.point@)
    }

    /// A virtual filesystem with no mounts.
    pub fn new() -> (r: VFS)
        ensures
            r.points() == Seq::<Seq<char>>::empty(),
    {
        let r = VFS { mounts: Vec::new() };
        proof {
            assert(r.points() =~= Seq::<Seq<char>>::empty());
        }
        r
    }

    /// Anchor a source at a mount point, which must be an absolute directory
    /// path. The new mount is appended: it takes priority over every earlier
    /// mount for `open` and `update`.
    pub fn mount(&mut self, point: PathBuf, source: SourceBox) -> (r: Result<(), VfsErrorKind>)
        ensures
            match r {
                Ok(()) => is_abs(point@) && is_dir(point@) && final(self).points() == old(
                    self,
                ).points().push(point@),
                Err(e) => {
                    &&& !(is_abs(point@) && is_dir(point@))
                    &&& final(self).points() == old(self).points()
                    &&& (e == VfsErrorKind::Other <==> !is_abs(point@))
                    &&& (e == VfsErrorKind::NotADirectory <==> is_abs(point@) && !is_dir(point@))
                },
            },
    {
        if !point.as_path().is_absolute() {
            return Err(VfsErrorKind::Other);
        }
        if !point.as_path().is_directory() {
            return Err(VfsErrorKind::NotADirectory);
        }
        let ghost before = self.points();
        let m = Mount { point, source };
        self.mounts.push(m);
        proof {
            assert(final(self).points() =~= before.push(m.point@));
        }
        Ok(())
    }

    /// Open the file at an absolute file path. Mounts are tried newest
    /// first; the first claiming source that does not report `NotFound`
    /// decides the outcome. When no mount claims the path, `NotFound`.
    pub fn open(&self, path: &Path) -> (r: Result<FileHandle, VfsErrorKind>)
        ensures
            !is_abs(path@) ==> r == Err::<FileHandle, VfsErrorKind>(VfsErrorKind::Other),
            is_abs(path@) && is_dir(path@) ==> r == Err::<FileHandle, VfsErrorKind>(
                VfsErrorKind::IsADirectory,
            ),
            is_abs(path@) && !is_dir(path@) && !claims_path(self.points(), path@) ==> r == Err::<
                FileHandle,
                VfsErrorKind,
            >(VfsErrorKind::NotFound),
            r is Ok ==> is_abs(path@) && !is_dir(path@) && claims_path(self.points(), path@),
    {
        if !path.is_absolute() {
            return Err(VfsErrorKind::Other);
        }
        if path.is_directory() {
            return Err(VfsErrorKind::IsADirectory);
        }
        let n = self.mounts.len();
        let mut i: usize = n;
        while i > 0
            invariant
                0 <= i <= n,
                n == self.mounts@.len(),
                is_abs(path@),
                !is_dir(path@),
            decreases i,
        {
            i = i - 1;
            let m = &self.mounts[i];
            match path.with_prefix_absolute(m.point.as_path()) {
                None => {},
                Some(suffix) => {
                    proof {
                        assert(self.points()[i as int] == m.point@);
                        assert(claims_path(self.points(), path@)) by {
                            assert(reaches_below(path@, self.points()[i as int]));
                        }
                        assert(suffix@.len() > 0);
                        assert(suffix@[0] == path@[m.point@.len() - 1]);
                        assert(is_abs(suffix@));
                        assert(suffix@[suffix@.len() - 1] == path@[path@.len() - 1]);
                        assert(!is_dir(suffix@));
                    }
                    let verdict = m.source.open(&suffix);
                    match verdict {
                        Ok(h) => {
                            return Ok(h);
                        },
                        Err(e) => {
                            if e == VfsErrorKind::NotFound {
                            } else {
                                return Err(e);
                            }
                        },
                    }
                },
            }
        }
        Err(VfsErrorKind::NotFound)
    }

    /// Atomically replace the file at an absolute file path. Mounts are
    /// tried newest first; only `ReadOnlyFilesystem` falls through to an
    /// older mount, so only the newest writable mount under which the path
    /// falls is tried. When no mount claims the path, `ReadOnlyFilesystem`.
    pub fn update(&self, path: &Path, data: &[u8]) -> (r: Result<(), VfsErrorKind>)
        ensures
            !is_abs(path@) ==> r == Err::<(), VfsErrorKind>(VfsErrorKind::Other),
            is_abs(path@) && is_dir(path@) ==> r == Err::<(), VfsErrorKind>(
                VfsErrorKind::IsADirectory,
            ),
            is_abs(path@) && !is_dir(path@) && !claims_path(self.points(), path@) ==> r == Err::<
                (),
                VfsErrorKind,
            >(VfsErrorKind::ReadOnlyFilesystem),
            r is Ok ==> is_abs(path@) && !is_dir(path@) && claims_path(self.points(), path@),
    {
        if !path.is_absolute() {
            return Err(VfsErrorKind::Other);
        }
        if path.is_directory() {
            return Err(VfsErrorKind::IsADirectory);
        }
        let n = self.mounts.len();
        let mut i: usize = n;
        while i > 0
            invariant
                0 <= i <= n,
                n == self.mounts@.len(),
                is_abs(path@),
                !is_dir(path@),
            decreases i,
        {
            i = i - 1;
            let m = &self.mounts[i];
            match path.with_prefix_absolute(m.point.as_path()) {
                None => {},
                Some(suffix) => {
                    proof {
                        assert(self.points()[i as int] == m.point@);
                        assert(claims_path(self.points(), path@)) by {
                            assert(reaches_below(path@, self.points()[i as int]));
                        }
                        assert(suffix@.len() > 0);
                        assert(suffix@[0] == path@[m.point@.len() - 1]);
                        assert(is_abs(suffix@));
                        assert(suffix@[suffix@.len() - 1] == path@[path@.len() - 1]);
                        assert(!is_dir(suffix@));
                    }
                    let verdict = m.source.update(&suffix, data);
                    match verdict {
                        Err(e) => {
                            if e == VfsErrorKind::ReadOnlyFilesystem {
                            } else {
                                return Err(e);
                            }
                        },
                        Ok(()) => {
                            return Ok(());
                        },
                    }
                },
            }
        }
        Err(VfsErrorKind::ReadOnlyFilesystem)
    }

    /// List the union of the entries under an absolute directory path.
    /// Mounts are consulted oldest first; every claiming source contributes
    /// its entries, every mount anchored strictly below the path contributes
    /// the synthesized directory implied by its anchor, and the union is
    /// sorted and deduplicated, a directory entry shadowing the file entry
    /// of the same name.
    pub fn ls(&self, path: &Path) -> (r: Result<Vec<PathBuf>, VfsErrorKind>)
        ensures
            !is_abs(path@) ==> r == Err::<Vec<PathBuf>, VfsErrorKind>(VfsErrorKind::Other),
            is_abs(path@) && !is_dir(path@) ==> r == Err::<Vec<PathBuf>, VfsErrorKind>(
                VfsErrorKind::NotADirectory,
            ),
            (r matches Ok(v) ==> {
                &&& forall|i: int, j: int| 0 <= i < j < v@.len() ==> entry_lt(v@[i]@, v@[j]@)
                &&& forall|i: int, j: int|
                    0 <= i < v@.len() && 0 <= j < v@.len() ==> !(!has_slash(v@[j]@) && v@[i]@
                        == v@[j]@ + seq!['/'])
                &&& forall|k: int|
                    0 <= k < self.points().len() && contributes_phantom(
                        #[trigger] self.points()[k],
                        path@,
                    ) ==> in_listing(v@, phantom_entry(self.points()[k], path@))
            }),
            is_abs(path@) && is_dir(path@) && !claims_path(self.points(), path@) && !anchors_below(
                self.points(),
                path@,
            ) ==> r == Err::<Vec<PathBuf>, VfsErrorKind>(VfsErrorKind::NotFound),
            is_abs(path@) && is_dir(path@) && !claims_path(self.points(), path@) && (exists|k: int|
                0 <= k < self.points().len() && contributes_phantom(
                    #[trigger] self.points()[k],
                    path@,
                )) ==> r is Ok,
    {
        if !path.is_absolute() {
            return Err(VfsErrorKind::Other);
        }
        if !path.is_directory() {
            return Err(VfsErrorKind::NotADirectory);
        }
        let n = self.mounts.len();
        let mut result: Vec<PathBuf> = Vec::new();
        let mut any_succeeded = false;
        let mut failed_with_not_dir = false;
        let mut i: usize = 0;
        while i < n
            invariant
                0 <= i <= n,
                n == self.mounts@.len(),
                is_abs(path@),
                is_dir(path@),
                forall|k: int|
                    0 <= k < i && contributes_phantom(#[trigger] self.points()[k], path@)
                        ==> in_listing(result@, phantom_entry(self.points()[k], path@)),
                failed_with_not_dir ==> claims_path(self.points(), path@),
                any_succeeded ==> claims_path(self.points(), path@) || anchors_below(
                    self.points(),
                    path@,
                ),
                (exists|k: int|
                    0 <= k < i && contributes_phantom(#[trigger] self.points()[k], path@))
                    ==> any_succeeded,
            decreases n - i,
        {
            let m = &self.mounts[i];
            proof {
                assert(self.points()[i as int] == m.point@);
            }
            match path.with_prefix_absolute(m.point.as_path()) {
                None => {},
                Some(suffix) => {
                    proof {
                        assert(claims_path(self.points(), path@)) by {
                            assert(reaches_below(path@, self.points()[i as int]));
                        }
                        assert(suffix@.len() > 0);
                        assert(suffix@[0] == path@[m.point@.len() - 1]);
                        assert(is_abs(suffix@));
                        assert(suffix@[suffix@.len() - 1] == path@[path@.len() - 1]);
                        assert(is_dir(suffix@));
                    }
                    let verdict = m.source.ls(&suffix);
                    match verdict {
                        Ok(mut entries) => {
                            let ghost before = result@;
                            result.append(&mut entries);
                            any_succeeded = true;
                            proof {
                                assert forall|k: int|
                                    0 <= k < i && contributes_phantom(
                                        #[trigger] self.points()[k],
                                        path@,
                                    ) implies in_listing(
                                    result@,
                                    phantom_entry(self.points()[k], path@),
                                ) by {
                                    lemma_in_listing_grow(
                                        before,
                                        result@.skip(before.len() as int),
                                        phantom_entry(self.points()[k], path@),
                                    );
                                    assert(before + result@.skip(before.len() as int) =~= result@);
                                }
                            }
                        },
                        Err(e) => {
                            if e == VfsErrorKind::NotFound {
                            } else if e == VfsErrorKind::NotADirectory {
                                failed_with_not_dir = true;
                            } else {
                                return Err(e);
                            }
                        },
                    }
                },
            }
            match m.point.as_path().with_prefix_absolute(path) {
                None => {
                    proof {
                        assert(!contributes_phantom(self.points()[i as int], path@));
                    }
                },
                Some(sfx2) => {
                    proof {
                        assert(anchors_below(self.points(), path@)) by {
                            assert(reaches_below(self.points()[i as int], path@));
                        }
                        assert(sfx2@ == m.point@.skip(path@.len() - 1));
                    }
                    let mut comps = sfx2.components();
                    let first = comps.next();
                    match first {
                        None => {
                            proof {
                                assert(!contributes_phantom(self.points()[i as int], path@));
                            }
                        },
                        Some(c) => {
                            proof {
                                assert(c@ == components_of(sfx2@)[0]);
                            }
                            if c.is_directory() {
                                proof {
                                    assert(c@.len() == 0) by {
                                        if c@.len() > 0 {
                                            crate::text::lemma_split_slash_basic(
                                                crate::text::interior(sfx2@),
                                            );
                                            assert(crate::text::slash_free(
                                                components_of(sfx2@)[0],
                                            ));
                                            assert(c@[c@.len() - 1] != '/');
                                        }
                                    }
                                    assert(!contributes_phantom(self.points()[i as int], path@));
                                }
                            } else {
                                let mut buf = c.to_path_buf();
                                buf.make_file_into_dir();
                                let ghost rbefore = result@;
                                let ghost bufv = buf@;
                                result.push(buf);
                                any_succeeded = true;
                                proof {
                                    let ph = phantom_entry(self.points()[i as int], path@);
                                    assert(bufv == c@ + seq!['/']);
                                    assert(bufv == ph);
                                    assert(result@ == rbefore.push(buf));
                                    assert forall|k: int|
                                        0 <= k < i + 1 && contributes_phantom(
                                            #[trigger] self.points()[k],
                                            path@,
                                        ) implies in_listing(
                                        result@,
                                        phantom_entry(self.points()[k], path@),
                                    ) by {
                                        if k < i {
                                            assert(in_listing(
                                                rbefore,
                                                phantom_entry(self.points()[k], path@),
                                            ));
                                        }
                                        lemma_in_listing_push(
                                            rbefore,
                                            buf,
                                            phantom_entry(self.points()[k], path@),
                                        );
                                    }
                                }
                            }
                        },
                    }
                },
            }
            proof {
                if contributes_phantom(self.points()[i as int], path@) {
                    assert(in_listing(result@, phantom_entry(self.points()[i as int], path@)));
                }
            }
            i = i + 1;
        }
        if !any_succeeded {
            proof {
                assert(!(exists|k: int|
                    0 <= k < self.points().len() && contributes_phantom(
                        #[trigger] self.points()[k],
                        path@,
                    )));
            }
            if failed_with_not_dir {
                return Err(VfsErrorKind::NotADirectory);
            } else {
                return Err(VfsErrorKind::NotFound);
            }
        }
        let sorted = sort_entries(result);
        let deduped = dedup_entries(sorted);
        proof {
            assert forall|k: int|
                0 <= k < self.points().len() && contributes_phantom(
                    #[trigger] self.points()[k],
                    path@,
                ) implies in_listing(deduped@, phantom_entry(self.points()[k], path@)) by {
                let ph = phantom_entry(self.points()[k], path@);
                assert(has_slash(ph)) by {
                    assert(ph[ph.len() - 1] == '/');
                }
            }
        }
        Ok(deduped)
    }
}

} // verus!
