//! The file map and storage model: piece-space I/O over one or more output
//! files.
//!
//! Piece space is the byte range `[0, total_length)` obtained by laying the
//! output files back to back. This module owns the mapping from piece-space
//! offsets to per-file offsets and the current bytes of every file. The
//! caller that touches the disk mirrors these buffers file by file: the
//! contracts here describe exactly which bytes every operation reads or
//! writes, so the on-disk layout follows the verified model.

use vstd::prelude::*;
use crate::torrent::{Torrent, sum_entry_lengths, lemma_sum_entry_lengths_nonneg};
use crate::hashing::{sha1_of, sha1_matches};

verus! {

/// A storage failure.
#[derive(Debug, Clone, Copy, PartialEq, Eq, Structural)]
pub enum StorageError {
    /// The piece index is outside the torrent's piece table.
    InvalidPieceIndex,
    /// The piece's bytes do not hash to its declared digest.
    HashMismatch(usize),
    /// A file needed by a read is absent or shorter than the read requires.
    MissingOrShortFile(usize),
}

/// One output file: its path components under the download directory, its
/// starting offset in piece space, its length, and whether a complete copy
/// is already present.
#[derive(Debug, Clone)]
pub struct FileMapping {
    /// Path components, download directory first.
    pub path: Vec<String>,
    /// Starting byte offset in piece space: the prefix sum of the lengths
    /// of the files before this one.
    pub start_offset: usize,
    /// Length of this file in bytes.
    pub length: usize,
    /// Whether the file exists on disk with exactly `length` bytes.
    pub is_complete: bool,
}

/// A piece write order: which piece, and the bytes to store.
#[derive(Debug, Clone)]
pub struct PieceWrite {
    pub piece_index: usize,
    pub data: Vec<u8>,
}

/// The storage layer for one torrent: the file map and the bytes each file
/// currently holds. A file's buffer may be shorter than its declared length
/// (absent or partially written file); writes extend it.
#[derive(Debug)]
pub struct FileStorage {
    /// Base directory the files live under.
    pub download_dir: String,
    /// The torrent this storage serves.
    pub torrent: Torrent,
    /// One mapping per output file, back to back in piece space.
    pub file_map: Vec<FileMapping>,
    /// The bytes each file currently holds; `contents[i]` belongs to
    /// `file_map[i]` and never exceeds its declared length.
    pub contents: Vec<Vec<u8>>,
    /// Total payload length: the end of piece space.
    pub total_length: usize,
}

/// Consecutive mappings: each file starts where the previous one ends.
pub open spec fn contiguous(map: Seq<FileMapping>) -> bool {
    forall|i: int| 0 <= i < map.len() - 1
        ==> (#[trigger] map[i + 1].start_offset) == map[i].start_offset + map[i].length
}

/// Offset `off` falls inside mapping `m`.
pub open spec fn in_file(m: FileMapping, off: int) -> bool {
    m.start_offset <= off < m.start_offset + m.length
}

/// The index of the mapping that holds offset `off`: the first whose end
/// lies beyond it. Zero-length files hold no offset and are skipped.
pub open spec fn owner_of(map: Seq<FileMapping>, off: int) -> int
    decreases map.len(),
{
    if map.len() == 0 {
        0
    } else if off < map[0].start_offset + map[0].length {
        0
    } else {
        1 + owner_of(map.drop_first(), off)
    }
}

/// Earlier mappings end no later than later ones start.
pub proof fn lemma_offsets_ordered(map: Seq<FileMapping>, i: int, j: int)
    requires
        contiguous(map),
        0 <= i < j < map.len(),
    ensures
        map[i].start_offset + map[i].length <= map[j].start_offset,
    decreases j - i,
{
    if j == i + 1 {
        assert(map[i + 1].start_offset == map[i].start_offset + map[i].length);
    } else {
        lemma_offsets_ordered(map, i, j - 1);
        assert(map[j - 1 + 1].start_offset
            == map[j - 1].start_offset + map[j - 1].length);
        assert(j - 1 + 1 == j);
    }
}

/// The owner of an offset inside mapping `i` is `i` itself.
pub proof fn lemma_owner_of_in_file(map: Seq<FileMapping>, i: int, off: int)
    requires
        contiguous(map),
        0 <= i < map.len(),
        in_file(map[i], off),
    ensures
        owner_of(map, off) == i,
    decreases i,
{
    if i == 0 {
        assert(off < map[0].start_offset + map[0].length);
    } else {
        lemma_offsets_ordered(map, 0, i);
        assert(!(off < map[0].start_offset + map[0].length));
        let rest = map.drop_first();
        assert(contiguous(rest)) by {
            assert forall|k: int| 0 <= k < rest.len() - 1 implies
                (#[trigger] rest[k + 1].start_offset) == rest[k].start_offset + rest[k].length by {
                assert(rest[k + 1] == map[k + 2]);
                assert(rest[k] == map[k + 1]);
            }
        }
        assert(rest[i - 1] == map[i]);
        lemma_owner_of_in_file(rest, i - 1, off);
    }
}

impl FileStorage {
    /// The storage invariant: the torrent is well formed, the mappings tile
    /// piece space exactly, and each file's buffer stays within its length.
    pub open spec fn wf(self) -> bool {
        &&& self.torrent.wf()
        &&& self.total_length == self.torrent.length
        &&& self.contents@.len() == self.file_map@.len()
        &&& self.file_map@.len() >= 1
        &&& self.file_map@[0].start_offset == 0
        &&& contiguous(self.file_map@)
        &&& self.file_map@.last().start_offset + self.file_map@.last().length
                == self.total_length
        &&& forall|i: int| 0 <= i < self.file_map@.len()
                ==> (#[trigger] self.contents@[i])@.len() <= self.file_map@[i].length
    }

    /// The byte stored at piece-space offset `off`: `None` when the owning
    /// file does not (yet) hold that offset.
    pub open spec fn byte_at(self, off: int) -> Option<u8> {
        let i = owner_of(self.file_map@, off);
        if 0 <= off < self.total_length {
            let rel = off - self.file_map@[i].start_offset;
            if rel < self.contents@[i]@.len() {
                Some(self.contents@[i]@[rel])
            } else {
                None
            }
        } else {
            None
        }
    }

    /// The bytes of the piece-space range `[start, end)`, or `None` when any
    /// byte of it is not present.
    pub open spec fn spec_read_range(self, start: int, end: int) -> Option<Seq<u8>> {
        if forall|o: int| start <= o < end ==> (#[trigger] self.byte_at(o)) is Some {
            Some(Seq::new((end - start) as nat, |k: int| self.byte_at(start + k)->0))
        } else {
            None
        }
    }

    /// The bytes of piece `i`, when every one of them is present.
    pub open spec fn spec_piece_bytes(self, i: int) -> Option<Seq<u8>> {
        self.spec_read_range(
            self.torrent.spec_piece_start(i),
            self.torrent.spec_piece_start(i) + self.torrent.spec_piece_size(i),
        )
    }

    /// Piece `i` is stored and verifies: all of its bytes are present and
    /// they hash to the declared digest.
    pub open spec fn spec_piece_ok(self, i: int) -> bool {
        match self.spec_piece_bytes(i) {
            Some(d) => sha1_of(d) == self.torrent.pieces@[i]@,
            None => false,
        }
    }

    /// Builds the file map of a torrent under a download directory: one
    /// mapping at `download_dir / name` for a single-file torrent, one per
    /// declared file under the root `download_dir / name` otherwise, laid
    /// back to back in piece space.
    #[verifier::loop_isolation(false)]
    pub fn build_file_map(torrent: &Torrent, download_dir: &String) -> (r: Vec<FileMapping>)
        requires
            torrent.wf(),
        ensures
            r@.len() >= 1,
            r@[0].start_offset == 0,
            contiguous(r@),
            r@.last().start_offset + r@.last().length == torrent.length,
            forall|i: int| 0 <= i < r@.len() ==> !(#[trigger] r@[i]).is_complete,
            match torrent.files {
                None => {
                    &&& r@.len() == 1
                    &&& r@[0].length == torrent.length
                    &&& r@[0].path.deep_view() == seq![download_dir@, torrent.name@]
                },
                Some(fs) => {
                    &&& r@.len() == fs@.len()
                    &&& forall|i: int| 0 <= i < fs@.len()
                            ==> (#[trigger] r@[i]).length == fs@[i].length
                    &&& forall|i: int| 0 <= i < fs@.len()
                            ==> (#[trigger] r@[i]).path.deep_view()
                                == seq![download_dir@, torrent.name@] + fs@[i].path.deep_view()
                },
            },
    {
        let mut map: Vec<FileMapping> = Vec::new();
        match &torrent.files {
            None => {
                let mut path: Vec<String> = Vec::new();
                path.push(download_dir.clone());
                path.push(torrent.name.clone());
                proof {
                    assert(path.deep_view() =~= seq![download_dir@, torrent.name@]);
                }
                map.push(FileMapping {
                    path,
                    start_offset: 0,
                    length: torrent.length,
                    is_complete: false,
                });
                map
            },
            Some(fs) => {
                let ghost es = fs.deep_view();
                let n: usize = fs.len();
                let mut offset: usize = 0;
                let mut k: usize = 0;
                proof {
                    assert(es.skip(0) =~= es);
                    assert(sum_entry_lengths(es) == torrent.length as int);
                    assert(forall|i: int| 0 <= i < es.len()
                        ==> (#[trigger] es[i]).1 == fs@[i].length as int);
                }
                while k < n
                    invariant
                        n == fs@.len(),
                        es == fs.deep_view(),
                        es.len() == n,
                        forall|i: int| 0 <= i < es.len()
                            ==> (#[trigger] es[i]).1 == fs@[i].length as int,
                        forall|i: int| 0 <= i < es.len() ==> (#[trigger] es[i]).1 >= 0,
                        k <= n,
                        map@.len() == k,
                        offset as int + sum_entry_lengths(es.skip(k as int))
                            == torrent.length as int,
                        k == 0 ==> offset == 0,
                        k > 0 ==> map@[0].start_offset == 0,
                        k > 0 ==> map@.last().start_offset + map@.last().length == offset,
                        contiguous(map@),
                        forall|i: int| 0 <= i < k ==> !(#[trigger] map@[i]).is_complete,
                        forall|i: int| 0 <= i < k
                            ==> (#[trigger] map@[i]).length == fs@[i].length,
                        forall|i: int| 0 <= i < k
                            ==> (#[trigger] map@[i]).path.deep_view()
                                == seq![download_dir@, torrent.name@] + fs@[i].path.deep_view(),
                    decreases n - k,
                {
                    proof {
                        assert(es.skip(k as int)[0] == es[k as int]);
                        assert(es.skip(k as int).drop_first() =~= es.skip(k + 1));
                        lemma_entry_lengths_suffix_nonneg(es, k + 1);
                    }
                    let mut path: Vec<String> = Vec::new();
                    path.push(download_dir.clone());
                    path.push(torrent.name.clone());
                    let comps: &Vec<String> = &fs[k].path;
                    let m: usize = comps.len();
                    let mut j: usize = 0;
                    while j < m
                        invariant
                            m == comps@.len(),
                            j <= m,
                            path.deep_view() == seq![download_dir@, torrent.name@]
                                + comps.deep_view().take(j as int),
                        decreases m - j,
                    {
                        let ghost before = path.deep_view();
                        path.push(comps[j].clone());
                        proof {
                            assert(path.deep_view() =~= before.push(comps@[j as int]@));
                            assert(comps.deep_view().take(j + 1)
                                =~= comps.deep_view().take(j as int).push(comps@[j as int]@));
                            assert(path.deep_view() =~= seq![download_dir@, torrent.name@]
                                + comps.deep_view().take(j + 1));
                        }
                        j = j + 1;
                    }
                    proof {
                        assert(comps.deep_view().take(m as int) =~= comps.deep_view());
                        assert(es[k as int].1 == fs@[k as int].length as int);
                    }
                    let entry = FileMapping {
                        path,
                        start_offset: offset,
                        length: fs[k].length,
                        is_complete: false,
                    };
                    let ghost before_map = map@;
                    map.push(entry);
                    offset = offset + fs[k].length;
                    k = k + 1;
                }
                proof {
                    assert(es.skip(n as int) =~= Seq::<(Seq<Seq<char>>, int)>::empty());
                    assert(offset == torrent.length);
                    assert(n >= 1) by {
                        if n == 0 {
                            assert(sum_entry_lengths(es) == 0);
                        }
                    }
                }
                map
            },
        }
    }

    /// Creates the storage model for a torrent under a download directory:
    /// the file map as declared, every file initially absent.
    pub fn from(torrent: Torrent, download_dir: String) -> (r: FileStorage)
        requires
            torrent.wf(),
        ensures
            r.wf(),
            r.torrent == torrent,
            r.download_dir == download_dir,
            r.total_length == torrent.length,
            forall|i: int| 0 <= i < r.contents@.len() ==> (#[trigger] r.contents@[i])@.len() == 0,
            forall|i: int| 0 <= i < r.file_map@.len() ==> !(#[trigger] r.file_map@[i]).is_complete,
            forall|o: int| 0 <= o < r.total_length ==> (#[trigger] r.byte_at(o)) is None,
    {
        let file_map = Self::build_file_map(&torrent, &download_dir);
        let n: usize = file_map.len();
        let mut contents: Vec<Vec<u8>> = Vec::new();
        let mut k: usize = 0;
        while k < n
            invariant
                k <= n,
                contents@.len() == k,
                forall|i: int| 0 <= i < k ==> (#[trigger] contents@[i])@.len() == 0,
            decreases n - k,
        {
            contents.push(Vec::new());
            k = k + 1;
        }
        let total_length = torrent.length;
        let r = FileStorage { download_dir, torrent, file_map, contents, total_length };
        proof {
            assert forall|o: int| 0 <= o < r.total_length implies (#[trigger] r.byte_at(o)) is None by {
                lemma_owner_of_covered(r.file_map@, o, r.total_length as int);
            }
        }
        r
    }

    /// Installs the bytes a file already holds on disk, as found during
    /// startup: partial files are kept for overwrite at the right offsets,
    /// and the mapping is marked complete exactly when the size matches.
    pub fn restore_file(&mut self, file_index: usize, bytes: Vec<u8>)
        requires
            old(self).wf(),
            file_index < old(self).file_map@.len(),
            bytes@.len() <= old(self).file_map@[file_index as int].length,
        ensures
            final(self).wf(),
            final(self).torrent == old(self).torrent,
            final(self).download_dir == old(self).download_dir,
            final(self).total_length == old(self).total_length,
            final(self).contents@ == old(self).contents@.update(file_index as int, bytes),
            final(self).file_map@.len() == old(self).file_map@.len(),
            forall|i: int| 0 <= i < old(self).file_map@.len() && i != file_index
                ==> (#[trigger] final(self).file_map@[i]) == old(self).file_map@[i],
            final(self).file_map@[file_index as int].path
                == old(self).file_map@[file_index as int].path,
            final(self).file_map@[file_index as int].start_offset
                == old(self).file_map@[file_index as int].start_offset,
            final(self).file_map@[file_index as int].length
                == old(self).file_map@[file_index as int].length,
            final(self).file_map@[file_index as int].is_complete
                == (bytes@.len() == old(self).file_map@[file_index as int].length),
    {
        let complete: bool = bytes.len() == self.file_map[file_index].length;
        let mapping = self.file_map.remove(file_index);
        let updated = FileMapping {
            path: mapping.path,
            start_offset: mapping.start_offset,
            length: mapping.length,
            is_complete: complete,
        };
        self.file_map.insert(file_index, updated);
        self.contents.remove(file_index);
        self.contents.insert(file_index, bytes);
        proof {
            assert(final(self).file_map@
                =~= old(self).file_map@.update(file_index as int, updated));
            assert(final(self).contents@
                =~= old(self).contents@.update(file_index as int, bytes));
            assert(contiguous(final(self).file_map@)) by {
                assert forall|i: int| 0 <= i < final(self).file_map@.len() - 1 implies
                    (#[trigger] final(self).file_map@[i + 1].start_offset)
                        == final(self).file_map@[i].start_offset
                            + final(self).file_map@[i].length by {
                    assert(old(self).file_map@[i + 1].start_offset
                        == old(self).file_map@[i].start_offset + old(self).file_map@[i].length);
                }
            }
        }
    }
}

impl FileStorage {
    /// The piece-space boundary before mapping `i`: where it starts, or the
    /// end of piece space past the last mapping.
    pub open spec fn boundary(self, i: int) -> int {
        if i < self.file_map@.len() {
            self.file_map@[i].start_offset as int
        } else {
            self.total_length as int
        }
    }

    /// Every mapping ends where the next boundary lies, within piece space.
    proof fn lemma_mapping_end(self, i: int)
        requires
            self.wf(),
            0 <= i < self.file_map@.len(),
        ensures
            self.file_map@[i].start_offset + self.file_map@[i].length == self.boundary(i + 1),
            self.file_map@[i].start_offset + self.file_map@[i].length <= self.total_length,
    {
        let map = self.file_map@;
        let n = map.len() as int;
        if i == n - 1 {
            assert(map.last() == map[i]);
        } else {
            assert(map[i + 1].start_offset == map[i].start_offset + map[i].length);
            if i + 1 == n - 1 {
                assert(map.last() == map[i + 1]);
            } else {
                lemma_offsets_ordered(map, i + 1, n - 1);
                assert(map.last() == map[n - 1]);
            }
        }
    }

    /// The ordered overlaps of the piece-space range `[start, end)` with the
    /// file map: triples of mapping index, overlap start and overlap end.
    /// The overlaps are consecutive and cover the range exactly, without gap
    /// or duplication.
    #[verifier::loop_isolation(false)]
    pub fn get_affected_files(&self, start: usize, end: usize) -> (r: Vec<(usize, usize, usize)>)
        requires
            self.wf(),
            start <= end,
            end <= self.total_length,
        ensures
            forall|k: int| 0 <= k < r@.len() ==> {
                let e = #[trigger] r@[k];
                &&& (e.0 as int) < self.file_map@.len()
                &&& (start as int) < self.file_map@[e.0 as int].start_offset
                        + self.file_map@[e.0 as int].length
                &&& (self.file_map@[e.0 as int].start_offset as int) < end as int
                &&& e.1 as int == if start as int >= self.file_map@[e.0 as int].start_offset as int {
                        start as int
                    } else {
                        self.file_map@[e.0 as int].start_offset as int
                    }
                &&& e.2 as int == if end as int
                        <= self.file_map@[e.0 as int].start_offset + self.file_map@[e.0 as int].length {
                        end as int
                    } else {
                        self.file_map@[e.0 as int].start_offset + self.file_map@[e.0 as int].length
                    }
                &&& e.1 <= e.2
            },
            forall|k1: int, k2: int| 0 <= k1 < k2 < r@.len()
                ==> (#[trigger] r@[k1]).0 < (#[trigger] r@[k2]).0,
            start < end ==> r@.len() > 0,
            start < end ==> r@[0].1 == start,
            start < end ==> r@.last().2 == end,
            forall|k: int| 0 <= k < r@.len() - 1
                ==> (#[trigger] r@[k]).2 == r@[k + 1].1,
            start == end ==> r@.len() == 0,
    {
        let n: usize = self.file_map.len();
        let mut r: Vec<(usize, usize, usize)> = Vec::new();
        if start == end {
            return r;
        }
        let mut i: usize = 0;
        while i < n
            invariant
                i <= n,
                forall|k: int| 0 <= k < r@.len() ==> {
                    let e = #[trigger] r@[k];
                    &&& (e.0 as int) < i as int
                    &&& (start as int) < self.file_map@[e.0 as int].start_offset
                            + self.file_map@[e.0 as int].length
                    &&& (self.file_map@[e.0 as int].start_offset as int) < end as int
                    &&& e.1 as int == if start as int >= self.file_map@[e.0 as int].start_offset as int {
                            start as int
                        } else {
                            self.file_map@[e.0 as int].start_offset as int
                        }
                    &&& e.2 as int == if end as int
                            <= self.file_map@[e.0 as int].start_offset
                                + self.file_map@[e.0 as int].length {
                            end as int
                        } else {
                            self.file_map@[e.0 as int].start_offset
                                + self.file_map@[e.0 as int].length
                        }
                    &&& e.1 <= e.2
                },
                forall|k1: int, k2: int| 0 <= k1 < k2 < r@.len()
                    ==> (#[trigger] r@[k1]).0 < (#[trigger] r@[k2]).0,
                forall|k: int| 0 <= k < r@.len() - 1
                    ==> (#[trigger] r@[k]).2 == r@[k + 1].1,
                start < end,
                start < end && self.boundary(i as int) > start as int
                    ==> r@.len() > 0 && r@[0].1 == start
                        && r@.last().2 as int == if end as int <= self.boundary(i as int) {
                            end as int
                        } else {
                            self.boundary(i as int)
                        },
                start < end && self.boundary(i as int) <= start as int ==> r@.len() == 0,
            decreases n - i,
        {
            let fs: usize = self.file_map[i].start_offset;
            proof {
                self.lemma_mapping_end(i as int);
            }
            let fe: usize = fs + self.file_map[i].length;
            let ghost before = r@;
            if start < fe && end > fs {
                let os: usize = if start >= fs { start } else { fs };
                let oe: usize = if end <= fe { end } else { fe };
                r.push((i, os, oe));
                proof {
                    assert(r@ == before.push((i, os, oe)));
                    assert(r@.last() == (i, os, oe));
                    if before.len() > 0 {
                        // The previous overlap ended at this file's start.
                        assert(self.boundary(i as int) == fs);
                        assert(before.last().2 == os);
                        assert(r@[r@.len() - 2] == before.last());
                    } else {
                        assert(os == start);
                    }
                }
            } else {
                proof {
                    if start < end {
                        if end <= fs {
                            assert(self.boundary(i + 1) == fe);
                        } else {
                            assert(start >= fe);
                            assert(self.boundary(i as int) <= start as int);
                        }
                    }
                }
            }
            i = i + 1;
        }
        proof {
            assert(self.boundary(n as int) == self.total_length as int);
        }
        r
    }
}

/// Writes `data` into `file` at `offset`, zero-filling any gap between the
/// file's current end and the write position, exactly as a seek-and-write
/// extends a file on disk.
fn overwrite_range(file: &mut Vec<u8>, offset: usize, data: &[u8])
    requires
        offset + data@.len() <= usize::MAX,
    ensures
        final(file)@.len() == if old(file)@.len() >= offset + data@.len() {
            old(file)@.len() as int
        } else {
            offset + data@.len()
        },
        forall|j: int| 0 <= j < offset && j < old(file)@.len()
            ==> (#[trigger] final(file)@[j]) == old(file)@[j],
        forall|j: int| old(file)@.len() <= j < offset ==> (#[trigger] final(file)@[j]) == 0,
        forall|j: int| 0 <= j < data@.len()
            ==> (#[trigger] final(file)@[offset + j]) == data@[j],
        forall|j: int| offset + data@.len() <= j < old(file)@.len()
            ==> (#[trigger] final(file)@[j]) == old(file)@[j],
{
    while file.len() < offset
        invariant
            offset + data@.len() <= usize::MAX,
            old(file)@.len() <= file@.len() <= offset || file@ == old(file)@,
            forall|j: int| 0 <= j < old(file)@.len() && j < file@.len()
                ==> (#[trigger] file@[j]) == old(file)@[j],
            forall|j: int| old(file)@.len() <= j < file@.len()
                ==> (#[trigger] file@[j]) == 0,
        decreases offset - file@.len(),
    {
        file.push(0);
    }
    let dlen: usize = data.len();
    let mut j: usize = 0;
    while j < dlen
        invariant
            dlen == data@.len(),
            j <= dlen,
            offset + dlen <= usize::MAX,
            file@.len() >= offset + j,
            file@.len() == if old(file)@.len() >= offset + j as int {
                old(file)@.len() as int
            } else {
                offset + j
            },
            forall|i: int| 0 <= i < offset && i < old(file)@.len()
                ==> (#[trigger] file@[i]) == old(file)@[i],
            forall|i: int| old(file)@.len() <= i < offset ==> (#[trigger] file@[i]) == 0,
            forall|i: int| 0 <= i < j ==> (#[trigger] file@[offset + i]) == data@[i],
            forall|i: int| offset + dlen <= i < old(file)@.len()
                ==> (#[trigger] file@[i]) == old(file)@[i],
        decreases dlen - j,
    {
        if offset + j < file.len() {
            file[offset + j] = data[j];
        } else {
            file.push(data[j]);
        }
        j = j + 1;
    }
}

impl FileStorage {
    /// The piece-space bounds of piece `piece_index`: its starting offset
    /// and its byte length.
    fn piece_bounds(&self, piece_index: usize) -> (r: (usize, usize))
        requires
            self.wf(),
            piece_index < self.torrent.pieces@.len(),
        ensures
            r.0 as int == self.torrent.spec_piece_start(piece_index as int),
            r.1 as int == self.torrent.spec_piece_size(piece_index as int),
            r.0 + r.1 <= self.total_length,
            r.1 > 0,
    {
        proof {
            crate::torrent::lemma_piece_start_in_range(self.torrent, piece_index as int);
            crate::torrent::lemma_piece_size_bounds(self.torrent, piece_index as int);
        }
        let piece_start: usize = piece_index * self.torrent.piece_length;
        let count: usize = self.torrent.pieces.len();
        let piece_len: usize = if piece_index == count - 1 {
            self.total_length - piece_start
        } else {
            self.torrent.piece_length
        };
        (piece_start, piece_len)
    }

    /// Reads the bytes of one piece out of the affected files: exactly
    /// `piece_length` bytes, or the shorter last-piece length. Fails with
    /// the offending file's index when any file is absent or too short, and
    /// only then.
    #[verifier::loop_isolation(false)]
    pub fn read_piece(&self, piece_index: usize) -> (r: Result<Vec<u8>, StorageError>)
        requires
            self.wf(),
        ensures
            piece_index >= self.torrent.pieces@.len()
                <==> r == Err::<Vec<u8>, StorageError>(StorageError::InvalidPieceIndex),
            r matches Ok(d) ==> self.spec_piece_bytes(piece_index as int) == Some(d@),
            piece_index < self.torrent.pieces@.len()
                && self.spec_piece_bytes(piece_index as int) is Some ==> r is Ok,
            r is Err && piece_index < self.torrent.pieces@.len()
                ==> self.spec_piece_bytes(piece_index as int) is None
                    && r matches Err(StorageError::MissingOrShortFile(_)),
    {
        if piece_index >= self.torrent.pieces.len() {
            return Err(StorageError::InvalidPieceIndex);
        }
        let (piece_start, piece_len) = self.piece_bounds(piece_index);
        let piece_end: usize = piece_start + piece_len;
        let affected = self.get_affected_files(piece_start, piece_end);
        let m: usize = affected.len();
        let mut buf: Vec<u8> = Vec::new();
        let mut k: usize = 0;
        while k < m
            invariant
                m == affected@.len(),
                k <= m,
                buf@.len() == (if k == 0 { piece_start as int } else { affected@[k - 1].2 as int })
                    - piece_start,
                forall|o: int| piece_start <= o < piece_start + buf@.len()
                    ==> (#[trigger] self.byte_at(o)) == Some(buf@[o - piece_start]),
            decreases m - k,
        {
            let (fi, os, oe) = affected[k];
            let fs: usize = self.file_map[fi].start_offset;
            proof {
                self.lemma_mapping_end(fi as int);
                if k > 0 {
                    assert(affected@[k - 1].2 == affected@[k as int].1);
                }
            }
            let read_start: usize = os - fs;
            let read_len: usize = oe - os;
            if self.contents[fi].len() < read_start + read_len {
                proof {
                    // The first missing byte of this file falls inside the
                    // requested range, so the range is not fully present.
                    let have = self.contents@[fi as int]@.len() as int;
                    let missing = fs + (if have >= read_start as int { have } else { read_start as int });
                    assert(os <= missing < oe);
                    assert(in_file(self.file_map@[fi as int], missing));
                    lemma_owner_of_in_file(self.file_map@, fi as int, missing);
                    assert(self.byte_at(missing) is None);
                    assert(self.spec_piece_bytes(piece_index as int) is None);
                }
                return Err(StorageError::MissingOrShortFile(fi));
            }
            let mut j: usize = 0;
            while j < read_len
                invariant
                    j <= read_len,
                    buf@.len() == os - piece_start + j,
                    self.contents@[fi as int]@.len() >= read_start + read_len,
                    forall|o: int| piece_start <= o < piece_start + buf@.len()
                        ==> (#[trigger] self.byte_at(o)) == Some(buf@[o - piece_start]),
                decreases read_len - j,
            {
                let b: u8 = self.contents[fi][read_start + j];
                buf.push(b);
                proof {
                    let o = os + j;
                    assert(in_file(self.file_map@[fi as int], o));
                    lemma_owner_of_in_file(self.file_map@, fi as int, o);
                    assert(self.byte_at(o) == Some(b));
                }
                j = j + 1;
            }
            k = k + 1;
        }
        proof {
            assert(buf@.len() == piece_end - piece_start);
            assert(self.spec_piece_bytes(piece_index as int) == Some(buf@)) by {
                assert(forall|o: int| piece_start <= o < piece_end
                    ==> (#[trigger] self.byte_at(o)) is Some);
                let d = self.spec_read_range(piece_start as int, piece_end as int)->0;
                assert(d =~= buf@);
            }
        }
        Ok(buf)
    }

    /// True exactly when `data` hashes to the digest declared for the piece.
    pub fn verify_piece_hash(&self, piece_index: usize, data: &[u8]) -> (r: Result<bool, StorageError>)
        requires
            self.wf(),
        ensures
            r is Err <==> piece_index >= self.torrent.pieces@.len(),
            r is Err ==> r == Err::<bool, StorageError>(StorageError::InvalidPieceIndex),
            r matches Ok(b)
                ==> (b <==> sha1_of(data@) == self.torrent.pieces@[piece_index as int]@),
    {
        if piece_index >= self.torrent.pieces.len() {
            return Err(StorageError::InvalidPieceIndex);
        }
        Ok(sha1_matches(data, self.torrent.pieces[piece_index].as_slice()))
    }

    /// Writes the slice of `data` for the overlap `[os, oe)` of one file,
    /// at the right offset within that file.
    #[verifier::spinoff_prover]
    fn write_chunk(&mut self, fi: usize, os: usize, oe: usize, data: &[u8], piece_start: usize)
        requires
            old(self).wf(),
            fi < old(self).file_map@.len(),
            piece_start <= os <= oe,
            old(self).file_map@[fi as int].start_offset <= os,
            oe <= old(self).file_map@[fi as int].start_offset
                + old(self).file_map@[fi as int].length,
            oe - piece_start <= data@.len(),
        ensures
            final(self).wf(),
            final(self).torrent == old(self).torrent,
            final(self).download_dir == old(self).download_dir,
            final(self).total_length == old(self).total_length,
            final(self).file_map@ == old(self).file_map@,
            forall|o: int| os <= o < oe
                ==> (#[trigger] final(self).byte_at(o)) == Some(data@[o - piece_start]),
            forall|o: int| 0 <= o < old(self).total_length && !(os <= o < oe)
                && (#[trigger] old(self).byte_at(o)) is Some
                ==> final(self).byte_at(o) == old(self).byte_at(o),
    {
        let fs: usize = self.file_map[fi].start_offset;
        proof {
            self.lemma_mapping_end(fi as int);
        }
        let write_start: usize = os - fs;
        let write_len: usize = oe - os;
        let slice_from: usize = os - piece_start;
        let chunk: &[u8] = vstd::slice::slice_subrange(data, slice_from, slice_from + write_len);
        let file: &mut Vec<u8> = &mut self.contents[fi];
        overwrite_range(file, write_start, chunk);
        proof {
            assert(self.contents@ == old(self).contents@.update(
                fi as int, self.contents@[fi as int]));
            let newf = self.contents@[fi as int]@;
            let oldf = old(self).contents@[fi as int]@;
            // The updated file still fits its declared length.
            assert(newf.len() <= self.file_map@[fi as int].length);
            // Bytes of this write land where they should.
            assert forall|o: int| os <= o < oe implies
                (#[trigger] self.byte_at(o)) == Some(data@[o - piece_start]) by {
                assert(in_file(self.file_map@[fi as int], o));
                lemma_owner_of_in_file(self.file_map@, fi as int, o);
                let jj = o - os;
                assert(newf[write_start + jj] == chunk@[jj]);
                assert(o - fs == write_start + jj);
            };
            // Bytes elsewhere that were present keep their values.
            assert forall|o: int| 0 <= o < old(self).total_length && !(os <= o < oe)
                && (#[trigger] old(self).byte_at(o)) is Some implies
                self.byte_at(o) == old(self).byte_at(o) by {
                lemma_owner_of_covered(self.file_map@, o, self.total_length as int);
                let owner = owner_of(self.file_map@, o);
                if owner == fi as int {
                    let rel = o - fs;
                    assert(0 <= rel < oldf.len());
                    assert(rel < write_start || rel >= write_start + write_len);
                    assert(newf[rel] == oldf[rel]);
                } else {
                    assert(self.contents@[owner] == old(self).contents@[owner]);
                }
            };
        }
    }

    /// Verifies a piece's bytes against its declared digest and writes them
    /// through the affected files at their offsets, zero-filling sparse
    /// regions, stopping at the end of piece space. Succeeds exactly when
    /// the index is valid and the hash matches; nothing changes otherwise.
    /// Once it succeeds, reading the piece back returns exactly `data`, and
    /// every piece-space byte that was present outside the written range
    /// keeps its value.
    #[verifier::loop_isolation(false)]
    #[verifier::rlimit(100)]
    pub fn write_piece(&mut self, piece_index: usize, data: &[u8]) -> (r: Result<(), StorageError>)
        requires
            old(self).wf(),
        ensures
            final(self).wf(),
            final(self).torrent == old(self).torrent,
            final(self).download_dir == old(self).download_dir,
            final(self).total_length == old(self).total_length,
            final(self).file_map@ == old(self).file_map@,
            r is Ok <==> piece_index < old(self).torrent.pieces@.len()
                && sha1_of(data@) == old(self).torrent.pieces@[piece_index as int]@,
            r is Err ==> *final(self) == *old(self)
                && (r == Err::<(), StorageError>(StorageError::InvalidPieceIndex)
                        <==> piece_index >= old(self).torrent.pieces@.len()),
            r is Ok ==> {
                let start = old(self).torrent.spec_piece_start(piece_index as int);
                let end = if start + data@.len() <= old(self).total_length {
                    start + data@.len()
                } else {
                    old(self).total_length as int
                };
                &&& forall|o: int| start <= o < end
                        ==> (#[trigger] final(self).byte_at(o)) == Some(data@[o - start])
                &&& forall|o: int| 0 <= o < old(self).total_length && !(start <= o < end)
                        && (#[trigger] old(self).byte_at(o)) is Some
                        ==> final(self).byte_at(o) == old(self).byte_at(o)
            },
            r is Ok && data@.len() == old(self).torrent.spec_piece_size(piece_index as int)
                ==> final(self).spec_piece_bytes(piece_index as int) == Some(data@),
    {
        if piece_index >= self.torrent.pieces.len() {
            return Err(StorageError::InvalidPieceIndex);
        }
        if !crate::hashing::sha1_matches(data, self.torrent.pieces[piece_index].as_slice()) {
            return Err(StorageError::HashMismatch(piece_index));
        }
        let (piece_start, piece_len) = self.piece_bounds(piece_index);
        let dlen: usize = data.len();
        let piece_end: usize = if dlen <= self.total_length - piece_start {
            piece_start + dlen
        } else {
            self.total_length
        };
        let affected = self.get_affected_files(piece_start, piece_end);
        let m: usize = affected.len();
        let ghost snap = *self;
        let mut k: usize = 0;
        while k < m
            invariant
                m == affected@.len(),
                k <= m,
                self.wf(),
                self.torrent == snap.torrent,
                self.download_dir == snap.download_dir,
                self.total_length == snap.total_length,
                self.file_map@ == snap.file_map@,
                forall|o: int| piece_start <= o
                    < (if k == 0 { piece_start as int } else { affected@[k - 1].2 as int })
                    ==> (#[trigger] self.byte_at(o)) == Some(data@[o - piece_start]),
                forall|o: int| 0 <= o < snap.total_length
                    && !(piece_start <= o
                        < (if k == 0 { piece_start as int } else { affected@[k - 1].2 as int }))
                    && (#[trigger] snap.byte_at(o)) is Some
                    ==> self.byte_at(o) == snap.byte_at(o),
            decreases m - k,
        {
            let (fi, os, oe) = affected[k];
            proof {
                if k > 0 {
                    assert(affected@[k - 1].2 == affected@[k as int].1);
                }
            }
            let ghost before = *self;
            self.write_chunk(fi, os, oe, data, piece_start);
            proof {
                // Stitch this chunk onto what the earlier iterations wrote.
                let cov = if k == 0 { piece_start as int } else { affected@[k - 1].2 as int };
                assert(cov == os);
                assert forall|o: int| piece_start <= o < oe implies
                    (#[trigger] self.byte_at(o)) == Some(data@[o - piece_start]) by {
                    if o < os {
                        assert(before.byte_at(o) == Some(data@[o - piece_start]));
                        assert(self.byte_at(o) == before.byte_at(o));
                    }
                };
                assert forall|o: int| 0 <= o < snap.total_length && !(piece_start <= o < oe)
                    && (#[trigger] snap.byte_at(o)) is Some implies
                    self.byte_at(o) == snap.byte_at(o) by {
                    assert(before.byte_at(o) == snap.byte_at(o));
                    assert(self.byte_at(o) == before.byte_at(o));
                };
            }
            k = k + 1;
        }
        proof {
            if piece_start < piece_end {
                assert(affected@[m - 1].2 == piece_end);
            }
            if data@.len() == snap.torrent.spec_piece_size(piece_index as int) {
                assert(piece_end == piece_start + dlen);
                assert(self.spec_piece_bytes(piece_index as int) == Some(data@)) by {
                    assert(forall|o: int| piece_start <= o < piece_end
                        ==> (#[trigger] self.byte_at(o)) is Some);
                    let d = self.spec_read_range(piece_start as int, piece_end as int)->0;
                    assert(d =~= data@);
                }
            }
        }
        Ok(())
    }
}

/// The number of pieces among `0 .. n` whose bytes are present and verify.
pub open spec fn spec_complete_count(s: FileStorage, n: int) -> int
    decreases n,
{
    if n <= 0 {
        0
    } else {
        spec_complete_count(s, n - 1) + if s.spec_piece_ok(n - 1) { 1int } else { 0int }
    }
}

impl FileStorage {
    /// Whether piece `piece_index` is already stored correctly: its bytes
    /// read back and hash to the declared digest. A missing or short file
    /// means `false`, not an error: this check drives resume detection.
    pub fn is_piece_complete(&self, piece_index: usize) -> (r: Result<bool, StorageError>)
        requires
            self.wf(),
        ensures
            r is Err <==> piece_index >= self.torrent.pieces@.len(),
            r is Err ==> r == Err::<bool, StorageError>(StorageError::InvalidPieceIndex),
            r matches Ok(b) ==> (b <==> self.spec_piece_ok(piece_index as int)),
    {
        if piece_index >= self.torrent.pieces.len() {
            return Err(StorageError::InvalidPieceIndex);
        }
        match self.read_piece(piece_index) {
            Ok(data) => match self.verify_piece_hash(piece_index, data.as_slice()) {
                Ok(b) => Ok(b),
                Err(e) => {
                    proof {
                        assert(false);
                    }
                    Err(e)
                },
            },
            Err(_) => Ok(false),
        }
    }

    /// How many pieces are already stored correctly, out of how many.
    #[verifier::loop_isolation(false)]
    pub fn get_completion_status(&self) -> (r: Result<(usize, usize), StorageError>)
        requires
            self.wf(),
        ensures
            r matches Ok(c) ==> c.1 == self.torrent.pieces@.len()
                && c.0 as int == spec_complete_count(*self, self.torrent.pieces@.len() as int),
            r is Ok,
    {
        let total: usize = self.torrent.pieces.len();
        let mut complete: usize = 0;
        let mut i: usize = 0;
        while i < total
            invariant
                total == self.torrent.pieces@.len(),
                i <= total,
                complete as int == spec_complete_count(*self, i as int),
                complete <= i,
            decreases total - i,
        {
            match self.is_piece_complete(i) {
                Ok(b) => {
                    if b {
                        complete = complete + 1;
                    }
                },
                Err(_) => {
                    proof {
                        assert(false);
                    }
                },
            }
            i = i + 1;
        }
        Ok((complete, total))
    }

    /// The indices of the pieces not yet stored correctly, in ascending
    /// order: exactly those whose bytes are absent or fail verification.
    #[verifier::loop_isolation(false)]
    pub fn get_missing_pieces(&self) -> (r: Result<Vec<usize>, StorageError>)
        requires
            self.wf(),
        ensures
            r is Ok,
            r matches Ok(v) ==> {
                &&& forall|k: int| 0 <= k < v@.len()
                        ==> (#[trigger] v@[k]) < self.torrent.pieces@.len()
                            && !self.spec_piece_ok(v@[k] as int)
                &&& forall|i: int| 0 <= i < self.torrent.pieces@.len() && !self.spec_piece_ok(i)
                        ==> v@.contains(i as usize)
                &&& forall|k1: int, k2: int| 0 <= k1 < k2 < v@.len()
                        ==> (#[trigger] v@[k1]) < (#[trigger] v@[k2])
            },
    {
        let total: usize = self.torrent.pieces.len();
        let mut missing: Vec<usize> = Vec::new();
        let mut i: usize = 0;
        while i < total
            invariant
                total == self.torrent.pieces@.len(),
                i <= total,
                forall|k: int| 0 <= k < missing@.len()
                    ==> (#[trigger] missing@[k]) < i && !self.spec_piece_ok(missing@[k] as int),
                forall|j: int| 0 <= j < i && !self.spec_piece_ok(j)
                    ==> missing@.contains(j as usize),
                forall|k1: int, k2: int| 0 <= k1 < k2 < missing@.len()
                    ==> (#[trigger] missing@[k1]) < (#[trigger] missing@[k2]),
            decreases total - i,
        {
            let ghost before = missing@;
            match self.is_piece_complete(i) {
                Ok(b) => {
                    if !b {
                        missing.push(i);
                        proof {
                            assert forall|j: int| 0 <= j < i + 1 && !self.spec_piece_ok(j)
                                implies missing@.contains(j as usize) by {
                                if j < i {
                                    assert(before.contains(j as usize));
                                    let w = choose|w: int| 0 <= w < before.len()
                                        && before[w] == j as usize;
                                    assert(missing@[w] == j as usize);
                                } else {
                                    assert(missing@[missing@.len() - 1] == i);
                                }
                            }
                        }
                    }
                },
                Err(_) => {
                    proof {
                        assert(false);
                    }
                },
            }
            i = i + 1;
        }
        Ok(missing)
    }

    /// The total payload length in bytes.
    pub fn get_total_bytes(&self) -> (r: usize)
        ensures
            r == self.total_length,
    {
        self.total_length
    }

    /// The base directory the files live under.
    pub fn get_download_dir(&self) -> (r: &String)
        ensures
            r == self.download_dir,
    {
        &self.download_dir
    }
}

/// A range whose bytes are all present and untouched reads the same before
/// and after an update elsewhere.
pub proof fn lemma_read_range_preserved(s1: FileStorage, s2: FileStorage, start: int, end: int)
    requires
        start <= end,
        s1.spec_read_range(start, end) is Some,
        forall|o: int| start <= o < end ==> s2.byte_at(o) == #[trigger] s1.byte_at(o),
    ensures
        s2.spec_read_range(start, end) == s1.spec_read_range(start, end),
{
    assert(forall|o: int| start <= o < end ==> (#[trigger] s1.byte_at(o)) is Some);
    assert forall|o: int| start <= o < end implies (#[trigger] s2.byte_at(o)) is Some by {
        assert(s1.byte_at(o) is Some);
        assert(s2.byte_at(o) == s1.byte_at(o));
    }
    let d1 = s1.spec_read_range(start, end)->0;
    let d2 = s2.spec_read_range(start, end)->0;
    assert(d1 =~= d2);
}

/// A suffix of nonnegative entries sums to something nonnegative.
proof fn lemma_entry_lengths_suffix_nonneg(es: Seq<(Seq<Seq<char>>, int)>, k: int)
    requires
        forall|i: int| 0 <= i < es.len() ==> (#[trigger] es[i]).1 >= 0,
        0 <= k <= es.len(),
    ensures
        sum_entry_lengths(es.skip(k)) >= 0,
{
    assert(forall|i: int| 0 <= i < es.skip(k).len() ==> (#[trigger] es.skip(k)[i]).1 >= 0);
    lemma_sum_entry_lengths_nonneg(es.skip(k));
}

/// In a contiguous map that starts at zero and ends at `total`, an offset in
/// range has its owner in range, holding it.
pub proof fn lemma_owner_of_covered(map: Seq<FileMapping>, off: int, total: int)
    requires
        contiguous(map),
        map.len() >= 1,
        map[0].start_offset == 0,
        map.last().start_offset + map.last().length == total,
        0 <= off < total,
    ensures
        0 <= owner_of(map, off) < map.len(),
        in_file(map[owner_of(map, off)], off),
    decreases map.len(),
{
    if off < map[0].start_offset + map[0].length {
        assert(owner_of(map, off) == 0);
    } else {
        let rest = map.drop_first();
        assert(map.len() >= 2) by {
            if map.len() == 1 {
                assert(map.last() == map[0]);
            }
        }
        assert(contiguous(rest)) by {
            assert forall|k: int| 0 <= k < rest.len() - 1 implies
                (#[trigger] rest[k + 1].start_offset)
                    == rest[k].start_offset + rest[k].length by {
                assert(rest[k + 1] == map[k + 2]);
                assert(rest[k] == map[k + 1]);
            }
        }
        assert(rest[0] == map[1]);
        assert(rest.last() == map.last());
        // Shift the frame: the rest covers [map[1].start_offset, total).
        lemma_owner_of_shifted(rest, off, total, map[1].start_offset as int);
        let i = owner_of(rest, off);
        assert(owner_of(map, off) == 1 + i);
        assert(map[1 + i] == rest[i]);
    }
}

/// The generalization that makes the induction go through: in a contiguous
/// map that starts at `base` and ends at `total`, an offset in that window
/// has its owner in range, holding it.
proof fn lemma_owner_of_shifted(map: Seq<FileMapping>, off: int, total: int, base: int)
    requires
        contiguous(map),
        map.len() >= 1,
        map[0].start_offset == base,
        map.last().start_offset + map.last().length == total,
        base <= off < total,
    ensures
        0 <= owner_of(map, off) < map.len(),
        in_file(map[owner_of(map, off)], off),
    decreases map.len(),
{
    if off < map[0].start_offset + map[0].length {
        assert(owner_of(map, off) == 0);
    } else {
        let rest = map.drop_first();
        assert(map.len() >= 2) by {
            if map.len() == 1 {
                assert(map.last() == map[0]);
            }
        }
        assert(contiguous(rest)) by {
            assert forall|k: int| 0 <= k < rest.len() - 1 implies
                (#[trigger] rest[k + 1].start_offset)
                    == rest[k].start_offset + rest[k].length by {
                assert(rest[k + 1] == map[k + 2]);
                assert(rest[k] == map[k + 1]);
            }
        }
        assert(rest[0] == map[1]);
        assert(rest.last() == map.last());
        lemma_owner_of_shifted(rest, off, total, map[1].start_offset as int);
        let i = owner_of(rest, off);
        assert(owner_of(map, off) == 1 + i);
        assert(map[1 + i] == rest[i]);
    }
}

} // verus!
