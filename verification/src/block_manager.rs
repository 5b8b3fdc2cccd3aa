//! The download coordinator: owns every piece and the storage handle, hands
//! out block requests, ingests received blocks, verifies completed pieces,
//! writes them through storage, and publishes progress.
//!
//! The coordinator is the sole mutator of piece state and the sole caller of
//! storage; peer I/O reaches it only as plain `Block` values. Its invariant
//! carries the hash gate: a piece is never `Verified` unless storage holds
//! bytes for it whose SHA-1 digest equals the declared one.

use vstd::prelude::*;
use std::collections::VecDeque;
use crate::torrent::Torrent;
use crate::files::FileStorage;
use crate::piece_manager::{
    Piece, PieceState, Block, BlockInfo, BlockFault, PieceError,
    blocks_disjoint, count_unexpired, spec_assembled, spec_ingest_blocks,
    MAX_PENDING_REQUESTS,
};
use crate::hashing::sha1_of;

verus! {

/// A coordinator-level failure.
#[derive(Debug, Clone, Copy, PartialEq, Eq, Structural)]
pub enum DownloadError {
    /// A block or request named a piece outside the torrent.
    InvalidPieceIndex,
    /// A block was rejected by its piece; it is neither credited nor
    /// retried, and will time out and be reissued naturally.
    InvalidBlock(BlockFault),
    /// Verification was asked for before every block arrived.
    PieceNotComplete,
    /// Two received blocks claim the same byte.
    OverlappingBlocks,
    /// The assembled piece did not hash to its declared digest; the piece is
    /// already reset and queued again.
    HashMismatch(usize),
}

/// An observable snapshot of download progress.
#[derive(Debug, Clone, Copy, Default)]
pub struct DownloadStats {
    /// Pieces in the torrent.
    pub total_pieces: usize,
    /// Pieces that reached `Complete` and were then verified and written.
    pub completed_pieces: usize,
    /// Pieces in state `Verified`.
    pub verified_pieces: usize,
    /// Hash verification failures seen so far.
    pub failed_pieces: usize,
    /// Total payload size in bytes.
    pub total_bytes: usize,
    /// Bytes of block data received and credited.
    pub downloaded_bytes: usize,
    /// When the download started, in caller's milliseconds.
    pub download_start: Option<u64>,
    /// When the last block arrived.
    pub last_update: Option<u64>,
}

impl DownloadStats {
    /// The estimated seconds left: the remaining bytes divided by the mean
    /// download rate so far, `None` while no rate can be computed.
    pub open spec fn spec_eta_seconds(self) -> Option<u64> {
        if self.download_start is Some && self.last_update is Some
            && self.last_update->0 > self.download_start->0
            && self.downloaded_bytes > 0
            && self.total_bytes > self.downloaded_bytes {
            let elapsed = self.last_update->0 - self.download_start->0;
            let remaining = self.total_bytes - self.downloaded_bytes;
            let eta = remaining * elapsed / (self.downloaded_bytes * 1000) as int;
            if eta > u64::MAX {
                Some(u64::MAX)
            } else {
                Some(eta as u64)
            }
        } else {
            None
        }
    }

    /// Estimated seconds until completion at the mean rate so far.
    pub fn eta_seconds(&self) -> (r: Option<u64>)
        ensures
            r == self.spec_eta_seconds(),
    {
        match (self.download_start, self.last_update) {
            (Some(start), Some(last)) => {
                if last > start && self.downloaded_bytes > 0
                    && self.total_bytes > self.downloaded_bytes {
                    let elapsed: u128 = (last - start) as u128;
                    let remaining: u128 = (self.total_bytes - self.downloaded_bytes) as u128;
                    let rate_divisor: u128 = self.downloaded_bytes as u128 * 1000;
                    proof {
                        assert(remaining * elapsed <= u128::MAX) by (nonlinear_arith)
                            requires
                                remaining < 340282366920938463463374607431768211455u128,
                                elapsed < 18446744073709551616u128,
                                remaining <= 18446744073709551615u128,
                        ;
                    }
                    let eta: u128 = remaining * elapsed / rate_divisor;
                    if eta > u64::MAX as u128 {
                        Some(u64::MAX)
                    } else {
                        Some(eta as u64)
                    }
                } else {
                    None
                }
            },
            _ => None,
        }
    }
}

/// How many of the first `n` pieces are in state `Verified`.
pub open spec fn count_verified(pieces: Seq<Piece>, n: int) -> int
    decreases n,
{
    if n <= 0 {
        0
    } else {
        count_verified(pieces, n - 1)
            + if pieces[n - 1].state == PieceState::Verified { 1int } else { 0int }
    }
}

/// Updating one piece moves the verified count by the difference at that
/// index alone.
pub proof fn lemma_count_verified_update(s1: Seq<Piece>, s2: Seq<Piece>, i: int, n: int)
    requires
        s1.len() == s2.len(),
        0 <= i < s1.len(),
        n <= s1.len(),
        forall|j: int| 0 <= j < s1.len() && j != i ==> s1[j] == s2[j],
    ensures
        count_verified(s2, n) == count_verified(s1, n)
            + if i < n {
                (if s2[i].state == PieceState::Verified { 1int } else { 0int })
                    - (if s1[i].state == PieceState::Verified { 1int } else { 0int })
            } else {
                0int
            },
    decreases n,
{
    if n > 0 {
        lemma_count_verified_update(s1, s2, i, n - 1);
    }
}

/// The count of verified pieces never exceeds the piece count.
pub proof fn lemma_count_verified_bound(pieces: Seq<Piece>, n: int)
    requires
        0 <= n <= pieces.len(),
    ensures
        0 <= count_verified(pieces, n) <= n,
    decreases n,
{
    if n > 0 {
        lemma_count_verified_bound(pieces, n - 1);
    }
}

/// A full verified count means every piece is `Verified`, and conversely.
proof fn lemma_count_verified_all(pieces: Seq<Piece>, n: int)
    requires
        0 <= n <= pieces.len(),
    ensures
        count_verified(pieces, n) == n
            <==> forall|i: int| 0 <= i < n
                ==> (#[trigger] pieces[i]).state == PieceState::Verified,
    decreases n,
{
    if n > 0 {
        lemma_count_verified_all(pieces, n - 1);
        lemma_count_verified_bound(pieces, n - 1);
    }
}

/// The bytes of the first `n` pieces that storage already holds verified:
/// what resume credits as downloaded.
pub open spec fn spec_verified_bytes(s: FileStorage, n: int) -> int
    decreases n,
{
    if n <= 0 {
        0
    } else {
        spec_verified_bytes(s, n - 1)
            + if s.spec_piece_ok(n - 1) { s.torrent.spec_piece_size(n - 1) } else { 0int }
    }
}

/// The resume credit stays within the sizes of the pieces counted.
proof fn lemma_verified_bytes_bounds(s: FileStorage, n: int)
    requires
        s.wf(),
        0 <= n <= s.torrent.pieces@.len(),
    ensures
        0 <= spec_verified_bytes(s, n) <= crate::torrent::sum_piece_sizes(s.torrent, n),
    decreases n,
{
    if n > 0 {
        lemma_verified_bytes_bounds(s, n - 1);
        crate::torrent::lemma_piece_size_bounds(s.torrent, n - 1);
    }
}

/// A prefix of the piece sizes sums to at most the payload length.
proof fn lemma_sum_piece_sizes_le(t: Torrent, n: int)
    requires
        t.wf(),
        0 <= n <= t.pieces@.len(),
    ensures
        crate::torrent::sum_piece_sizes(t, n) <= t.length as int,
    decreases t.pieces@.len() - n,
{
    if n == t.pieces@.len() {
        crate::torrent::lemma_piece_sizes_sum(t);
    } else {
        lemma_sum_piece_sizes_le(t, n + 1);
        crate::torrent::lemma_piece_size_bounds(t, n);
    }
}

/// The block coordinator: the single owner of the pieces and the storage.
#[derive(Debug)]
pub struct BlockManager {
    /// The torrent being downloaded.
    pub torrent: Torrent,
    /// One `Piece` per declared piece hash, in index order.
    pub pieces: Vec<Piece>,
    /// The storage layer the verified pieces are written through.
    pub storage: FileStorage,
    /// Pending piece indices, served front to back.
    pub download_queue: VecDeque<usize>,
    /// Progress snapshot.
    pub stats: DownloadStats,
}

impl BlockManager {
    /// The coordinator invariant. Besides shape (one accounting record per
    /// piece, sizes from the metainfo, stats counters consistent), it
    /// carries the hash gate: a `Verified` piece has its bytes in storage
    /// and they hash to the declared digest.
    pub open spec fn wf(self) -> bool {
        &&& self.torrent.wf()
        &&& self.storage.wf()
        &&& self.storage.torrent == self.torrent
        &&& self.pieces@.len() == self.torrent.pieces@.len()
        &&& forall|i: int| 0 <= i < self.pieces@.len()
                ==> (#[trigger] self.pieces@[i]).wf()
        &&& forall|i: int| 0 <= i < self.pieces@.len()
                ==> (#[trigger] self.pieces@[i]).index == i
        &&& forall|i: int| 0 <= i < self.pieces@.len()
                ==> (#[trigger] self.pieces@[i]).length as int
                    == self.torrent.spec_piece_size(i)
        &&& forall|i: int| 0 <= i < self.pieces@.len()
                ==> (#[trigger] self.pieces@[i]).hash@ == self.torrent.pieces@[i]@
        &&& self.stats.total_pieces == self.pieces@.len()
        &&& self.stats.total_bytes == self.torrent.length
        &&& self.stats.downloaded_bytes <= self.stats.total_bytes
        &&& self.stats.verified_pieces as int
                == count_verified(self.pieces@, self.pieces@.len() as int)
        &&& forall|i: int| 0 <= i < self.download_queue@.len()
                ==> (#[trigger] self.download_queue@[i]) < self.pieces@.len()
        // Hash-gated commit: `Verified` only with verifying bytes stored.
        &&& forall|i: int| 0 <= i < self.pieces@.len()
                && (#[trigger] self.pieces@[i]).state == PieceState::Verified
                ==> self.storage.spec_piece_ok(i)
    }

    /// Builds the accounting for every piece and scans storage for pieces
    /// already present and verifying, which resume as `Verified` with their
    /// bytes credited; the rest are queued for download in index order, all
    /// without any network activity.
    #[verifier::loop_isolation(false)]
    pub fn new(torrent: Torrent, storage: FileStorage) -> (r: BlockManager)
        requires
            torrent.wf(),
            storage.wf(),
            storage.torrent == torrent,
        ensures
            r.wf(),
            r.torrent == torrent,
            r.storage == storage,
            r.pieces@.len() == torrent.pieces@.len(),
            // Resume: exactly the pieces whose bytes are present and verify
            // come up `Verified`; the others are pending and queued.
            forall|i: int| 0 <= i < r.pieces@.len()
                ==> (#[trigger] r.pieces@[i]).state == (if storage.spec_piece_ok(i) {
                        PieceState::Verified
                    } else {
                        PieceState::Pending
                    }),
            forall|i: int| 0 <= i < r.pieces@.len() && !storage.spec_piece_ok(i)
                ==> r.download_queue@.contains(i as usize),
            forall|k: int| 0 <= k < r.download_queue@.len()
                ==> !storage.spec_piece_ok((#[trigger] r.download_queue@[k]) as int),
            r.stats.verified_pieces as int
                == crate::files::spec_complete_count(storage, torrent.pieces@.len() as int),
            // Resume credits exactly the bytes of the already-stored pieces,
            // and the queue serves the pending indices in ascending order.
            r.stats.downloaded_bytes as int
                == spec_verified_bytes(storage, torrent.pieces@.len() as int),
            forall|k1: int, k2: int| 0 <= k1 < k2 < r.download_queue@.len()
                ==> (#[trigger] r.download_queue@[k1]) < (#[trigger] r.download_queue@[k2]),
            r.stats.failed_pieces == 0,
            r.stats.total_pieces == torrent.pieces@.len(),
            r.stats.total_bytes == torrent.length,
    {
        let count: usize = torrent.pieces.len();
        let mut pieces: Vec<Piece> = Vec::new();
        let mut index: usize = 0;
        while index < count
            invariant
                count == torrent.pieces@.len(),
                torrent.wf(),
                index <= count,
                pieces@.len() == index,
                forall|i: int| 0 <= i < index ==> (#[trigger] pieces@[i]).wf(),
                forall|i: int| 0 <= i < index ==> (#[trigger] pieces@[i]).index == i,
                forall|i: int| 0 <= i < index
                    ==> (#[trigger] pieces@[i]).length as int == torrent.spec_piece_size(i),
                forall|i: int| 0 <= i < index
                    ==> (#[trigger] pieces@[i]).hash@ == torrent.pieces@[i]@,
                forall|i: int| 0 <= i < index
                    ==> (#[trigger] pieces@[i]).state == PieceState::Pending,
            decreases count - index,
        {
            proof {
                crate::torrent::lemma_piece_size_bounds(torrent, index as int);
                crate::torrent::lemma_piece_start_in_range(torrent, index as int);
            }
            let length: usize = if index == count - 1 {
                torrent.length - index * torrent.piece_length
            } else {
                torrent.piece_length
            };
            let hash: Vec<u8> = clone_hash(&torrent.pieces[index]);
            pieces.push(Piece::new(index, length, hash));
            index = index + 1;
        }
        let stats = DownloadStats {
            total_pieces: count,
            completed_pieces: 0,
            verified_pieces: 0,
            failed_pieces: 0,
            total_bytes: torrent.length,
            downloaded_bytes: 0,
            download_start: None,
            last_update: None,
        };
        let mut manager = BlockManager {
            torrent,
            pieces,
            storage,
            download_queue: VecDeque::new(),
            stats,
        };
        proof {
            assert(count_verified(manager.pieces@, 0) == 0);
            lemma_count_verified_pending(manager.pieces@, count as int);
        }
        manager.rebuild_download_queue();
        manager
    }

    /// Scans storage and sorts every piece into `Verified` (its bytes are
    /// present and verify; the bytes are credited) or the download queue, in
    /// index order. Run at construction, before any piece moves out of
    /// `Pending`.
    #[verifier::loop_isolation(false)]
    pub fn rebuild_download_queue(&mut self)
        requires
            old(self).wf(),
            forall|i: int| 0 <= i < old(self).pieces@.len()
                ==> (#[trigger] old(self).pieces@[i]).state == PieceState::Pending,
            old(self).stats.verified_pieces == 0,
            old(self).stats.downloaded_bytes == 0,
        ensures
            final(self).wf(),
            final(self).torrent == old(self).torrent,
            final(self).storage == old(self).storage,
            final(self).stats.total_pieces == old(self).stats.total_pieces,
            final(self).stats.total_bytes == old(self).stats.total_bytes,
            final(self).stats.failed_pieces == old(self).stats.failed_pieces,
            final(self).pieces@.len() == old(self).pieces@.len(),
            forall|i: int| 0 <= i < final(self).pieces@.len()
                ==> (#[trigger] final(self).pieces@[i]).state
                    == (if old(self).storage.spec_piece_ok(i) {
                        PieceState::Verified
                    } else {
                        PieceState::Pending
                    }),
            forall|i: int| 0 <= i < final(self).pieces@.len()
                && !old(self).storage.spec_piece_ok(i)
                ==> final(self).download_queue@.contains(i as usize),
            forall|k: int| 0 <= k < final(self).download_queue@.len()
                ==> !old(self).storage.spec_piece_ok(
                        (#[trigger] final(self).download_queue@[k]) as int),
            final(self).stats.verified_pieces as int
                == crate::files::spec_complete_count(
                    old(self).storage, old(self).pieces@.len() as int),
            // Resume credits exactly the bytes of the verified pieces.
            final(self).stats.downloaded_bytes as int
                == spec_verified_bytes(old(self).storage, old(self).pieces@.len() as int),
            // The queue holds the pending indices in ascending order.
            forall|k1: int, k2: int| 0 <= k1 < k2 < final(self).download_queue@.len()
                ==> (#[trigger] final(self).download_queue@[k1])
                    < (#[trigger] final(self).download_queue@[k2]),
    {
        self.download_queue.clear();
        let count: usize = self.pieces.len();
        let mut index: usize = 0;
        while index < count
            invariant
                count == self.pieces@.len(),
                index <= count,
                self.torrent == old(self).torrent,
                self.storage == old(self).storage,
                self.pieces@.len() == old(self).pieces@.len(),
                self.stats.total_pieces == old(self).stats.total_pieces,
                self.stats.total_bytes == old(self).stats.total_bytes,
                self.stats.failed_pieces == old(self).stats.failed_pieces,
                self.stats.completed_pieces == old(self).stats.completed_pieces,
                self.stats.download_start == old(self).stats.download_start,
                self.stats.last_update == old(self).stats.last_update,
                forall|i: int| 0 <= i < count ==> (#[trigger] self.pieces@[i]).wf(),
                forall|i: int| 0 <= i < count ==> (#[trigger] self.pieces@[i]).index == i,
                forall|i: int| 0 <= i < count
                    ==> (#[trigger] self.pieces@[i]).length == old(self).pieces@[i].length,
                forall|i: int| 0 <= i < count
                    ==> (#[trigger] self.pieces@[i]).hash == old(self).pieces@[i].hash,
                forall|i: int| 0 <= i < index
                    ==> (#[trigger] self.pieces@[i]).state
                        == (if old(self).storage.spec_piece_ok(i) {
                            PieceState::Verified
                        } else {
                            PieceState::Pending
                        }),
                forall|i: int| index <= i < count
                    ==> (#[trigger] self.pieces@[i]).state == PieceState::Pending,
                forall|i: int| 0 <= i < index && !old(self).storage.spec_piece_ok(i)
                    ==> self.download_queue@.contains(i as usize),
                forall|k: int| 0 <= k < self.download_queue@.len()
                    ==> (#[trigger] self.download_queue@[k]) < index
                        && !old(self).storage.spec_piece_ok(self.download_queue@[k] as int),
                self.stats.verified_pieces as int
                    == crate::files::spec_complete_count(old(self).storage, index as int),
                self.stats.verified_pieces <= index,
                self.stats.downloaded_bytes as int
                    == spec_verified_bytes(old(self).storage, index as int),
                forall|k1: int, k2: int| 0 <= k1 < k2 < self.download_queue@.len()
                    ==> (#[trigger] self.download_queue@[k1])
                        < (#[trigger] self.download_queue@[k2]),
            decreases count - index,
        {
            let ghost pre = self.pieces@;
            let complete: bool = match self.storage.is_piece_complete(index) {
                Ok(b) => b,
                Err(_) => {
                    proof {
                        assert(false);
                    }
                    false
                },
            };
            if complete {
                let piece: &mut Piece = &mut self.pieces[index];
                piece.state = PieceState::Verified;
                self.stats.verified_pieces = self.stats.verified_pieces + 1;
                let credit: usize = self.pieces[index].length;
                proof {
                    crate::torrent::lemma_piece_size_bounds(self.torrent, index as int);
                    crate::torrent::lemma_piece_start_in_range(self.torrent, index as int);
                    // The credit never overflows the payload: the verified
                    // bytes so far plus this piece stay within the sizes of
                    // the pieces seen, which stay within the total.
                    lemma_verified_bytes_bounds(old(self).storage, index as int);
                    lemma_sum_piece_sizes_le(self.torrent, index + 1);
                    crate::torrent::lemma_piece_size_bounds(old(self).storage.torrent, index as int);
                }
                if self.stats.downloaded_bytes <= self.torrent.length
                    && credit <= self.torrent.length - self.stats.downloaded_bytes {
                    self.stats.downloaded_bytes = self.stats.downloaded_bytes + credit;
                } else {
                    proof {
                        assert(false);
                    }
                    self.stats.downloaded_bytes = self.torrent.length;
                }
                proof {
                    assert(self.pieces@ =~= pre.update(
                        index as int, self.pieces@[index as int]));
                }
            } else {
                let ghost qbefore = self.download_queue@;
                self.download_queue.push_back(index);
                proof {
                    assert(self.download_queue@ == qbefore.push(index));
                    assert(self.download_queue@[self.download_queue@.len() - 1] == index);
                    assert forall|i: int| 0 <= i < index + 1
                        && !old(self).storage.spec_piece_ok(i) implies
                        self.download_queue@.contains(i as usize) by {
                        if i < index {
                            let k = choose|k: int| 0 <= k < qbefore.len()
                                && qbefore[k] == i as usize;
                            assert(self.download_queue@[k] == i as usize);
                        } else {
                            assert(self.download_queue@[self.download_queue@.len() - 1]
                                == i as usize);
                        }
                    }
                    assert forall|k1: int, k2: int|
                        0 <= k1 < k2 < self.download_queue@.len() implies
                        (#[trigger] self.download_queue@[k1])
                            < (#[trigger] self.download_queue@[k2]) by {
                        if k2 == self.download_queue@.len() - 1 {
                            assert(qbefore[k1] < index);
                        }
                    }
                }
            }
            index = index + 1;
        }
        proof {
            lemma_count_verified_matches(
                self.pieces@, old(self).storage, count as int);
            lemma_verified_bytes_bounds(old(self).storage, count as int);
            lemma_sum_piece_sizes_le(self.torrent, count as int);
        }
    }
}

impl BlockManager {
    /// Pops the next piece index to work on: the front of the queue, in the
    /// baseline sequential strategy.
    pub fn get_next_piece_to_download(&mut self) -> (r: Option<usize>)
        requires
            old(self).wf(),
        ensures
            final(self).wf(),
            old(self).download_queue@.len() == 0 ==> r is None
                && final(self).download_queue@ == old(self).download_queue@,
            old(self).download_queue@.len() > 0 ==> r == Some(old(self).download_queue@[0])
                && final(self).download_queue@ == old(self).download_queue@.drop_first(),
            final(self).pieces == old(self).pieces,
            final(self).storage == old(self).storage,
            final(self).torrent == old(self).torrent,
            final(self).stats == old(self).stats,
            r matches Some(i) ==> i < final(self).pieces@.len(),
    {
        self.download_queue.pop_front()
    }

    /// Delegates a block request to the piece, moving it from `Pending` to
    /// `InProgress` on the first call; `now` is the caller's millisecond
    /// clock, used to stamp the request and to reap timed-out ones. Returns
    /// `None` for an unknown index, at the pending cap, or when the piece
    /// has no block left to hand out.
    pub fn get_next_block_request(&mut self, piece_index: usize, now: u64) -> (r: Option<BlockInfo>)
        requires
            old(self).wf(),
        ensures
            final(self).wf(),
            final(self).torrent == old(self).torrent,
            final(self).storage == old(self).storage,
            final(self).download_queue == old(self).download_queue,
            final(self).stats == old(self).stats,
            piece_index >= old(self).pieces@.len() ==> r is None && *final(self) == *old(self),
            piece_index < old(self).pieces@.len() ==> {
                &&& final(self).pieces@.len() == old(self).pieces@.len()
                &&& forall|j: int| 0 <= j < old(self).pieces@.len() && j != piece_index
                        ==> (#[trigger] final(self).pieces@[j]) == old(self).pieces@[j]
                &&& final(self).pieces@[piece_index as int].state
                        == (if old(self).pieces@[piece_index as int].state == PieceState::Pending {
                            PieceState::InProgress
                        } else {
                            old(self).pieces@[piece_index as int].state
                        })
                &&& final(self).pieces@[piece_index as int].blocks
                        == old(self).pieces@[piece_index as int].blocks
            },
            r matches Some(b) ==> {
                &&& piece_index < old(self).pieces@.len()
                &&& b.piece_index == piece_index
                &&& old(self).pieces@[piece_index as int].is_declared_block(b)
                &&& final(self).pieces@[piece_index as int].requested_blocks@.contains((b, now))
                &&& !final(self).pieces@[piece_index as int].missing_blocks@.contains(b)
            },
            // The piece-level accounting, lifted: every expired request is
            // back among the missing or is the block handed out, unexpired
            // ones stay, nothing is handed out at the pending cap, and
            // `None` means the cap or an empty missing set.
            piece_index < old(self).pieces@.len() ==> {
                let p0 = old(self).pieces@[piece_index as int];
                let pf = final(self).pieces@[piece_index as int];
                &&& forall|j: int| 0 <= j < p0.requested_blocks@.len() ==> {
                        let pr = #[trigger] p0.requested_blocks@[j];
                        if Piece::spec_expired(pr.1, now) {
                            pf.missing_blocks@.contains(pr.0) || r == Some(pr.0)
                        } else {
                            pf.requested_blocks@.contains(pr)
                        }
                    }
                &&& forall|j: int| 0 <= j < p0.missing_blocks@.len()
                        ==> pf.missing_blocks@.contains(#[trigger] p0.missing_blocks@[j])
                            || r == Some(p0.missing_blocks@[j])
                &&& (r is None ==> pf.requested_blocks@.len() >= MAX_PENDING_REQUESTS
                        || pf.missing_blocks@.len() == 0)
                &&& (count_unexpired(p0.requested_blocks@, now) >= MAX_PENDING_REQUESTS
                        ==> r is None)
            },
    {
        if piece_index >= self.pieces.len() {
            return None;
        }
        let ghost pre = self.pieces@;
        let piece: &mut Piece = &mut self.pieces[piece_index];
        if piece.state == PieceState::Pending {
            piece.state = PieceState::InProgress;
        }
        let r = piece.get_next_block_request(now);
        proof {
            assert(self.pieces@ =~= pre.update(piece_index as int, self.pieces@[piece_index as int]));
            lemma_count_verified_update(
                pre, self.pieces@, piece_index as int, pre.len() as int);
        }
        r
    }

    /// Routes one received block to its piece. A block for an unknown piece
    /// or outside its piece is rejected and changes nothing; it is neither
    /// credited nor retried (its request will time out naturally). On
    /// success the bytes are credited, and if the piece just became
    /// `Complete` it is at once assembled, verified and written: a hash
    /// mismatch resets the piece to `Pending`, counts the failure, and puts
    /// the index back on the queue.
    pub fn handle_block_received(&mut self, block: Block) -> (r: Result<(), DownloadError>)
        requires
            old(self).wf(),
        ensures
            final(self).wf(),
            final(self).torrent == old(self).torrent,
            block.info.piece_index >= old(self).pieces@.len()
                <==> r == Err::<(), DownloadError>(DownloadError::InvalidPieceIndex),
            r == Err::<(), DownloadError>(DownloadError::InvalidPieceIndex)
                ==> *final(self) == *old(self),
            r matches Err(DownloadError::InvalidBlock(f)) ==> {
                &&& final(self).pieces@ == old(self).pieces@
                &&& final(self).storage == old(self).storage
                &&& final(self).stats == old(self).stats
                &&& final(self).download_queue == old(self).download_queue
                &&& f == BlockFault::OutOfBounds
                &&& block.info.begin + block.data@.len()
                        > old(self).torrent.spec_piece_size(block.info.piece_index as int)
            },
            r matches Err(DownloadError::HashMismatch(i)) ==> {
                &&& i == block.info.piece_index
                &&& final(self).pieces@[i as int].state == PieceState::Pending
                &&& final(self).storage == old(self).storage
                &&& final(self).download_queue@
                        == old(self).download_queue@.push(block.info.piece_index)
                &&& final(self).stats.failed_pieces as int
                        == vstd::math::min(
                            old(self).stats.failed_pieces + 1,
                            usize::MAX as int)
            },
            r is Ok ==> final(self).download_queue == old(self).download_queue
                && final(self).stats.failed_pieces == old(self).stats.failed_pieces,
            // A receipt for an already committed piece is dropped safely.
            ({
                let i = block.info.piece_index as int;
                block.info.piece_index < old(self).pieces@.len()
                    && old(self).pieces@[i].state == PieceState::Verified
                    ==> r is Ok && *final(self) == *old(self)
            }),
            // Otherwise the ingest is owed, not merely described: rejection
            // happens exactly on an out-of-bounds block; anything else is
            // credited and stored, and completing the piece forces the
            // verify-and-commit outcome.
            ({
                let i = block.info.piece_index as int;
                block.info.piece_index < old(self).pieces@.len()
                    && old(self).pieces@[i].state != PieceState::Verified ==> {
                    let p0 = old(self).pieces@[i];
                    let ib = spec_ingest_blocks(p0.blocks@, block);
                    let oob = block.info.begin + block.data@.len() > p0.length;
                    let completes = p0.spec_ingest_completes(block);
                    let dup = exists|j: int| 0 <= j < p0.blocks@.len()
                        && (#[trigger] p0.blocks@[j]).info.begin == block.info.begin;
                    &&& (r matches Err(DownloadError::InvalidBlock(_)) <==> oob)
                    &&& (!oob ==> final(self).stats.last_update == Some(block.received_at))
                    &&& (!oob ==> final(self).stats.downloaded_bytes as int
                            == vstd::math::min(
                                old(self).stats.downloaded_bytes
                                    + (if dup { 0int } else { block.data@.len() as int }),
                                old(self).stats.total_bytes as int))
                    &&& (!oob && !completes && p0.state != PieceState::Complete ==> {
                            &&& r is Ok
                            &&& final(self).pieces@[i].blocks@ == ib
                            &&& final(self).pieces@[i].missing_blocks == p0.missing_blocks
                            &&& final(self).pieces@[i].state == p0.state
                        })
                    &&& (!oob && !completes && p0.state == PieceState::Complete
                            ==> r == Err::<(), DownloadError>(DownloadError::PieceNotComplete))
                    &&& (!oob && completes && !blocks_disjoint(ib)
                            ==> r == Err::<(), DownloadError>(DownloadError::OverlappingBlocks))
                    &&& (!oob && completes && blocks_disjoint(ib) ==> {
                            &&& (r is Ok <==> sha1_of(spec_assembled(ib, p0.length as int))
                                    == p0.hash@)
                            &&& (r is Ok ==> final(self).pieces@[i].state == PieceState::Verified
                                    && final(self).storage.spec_piece_ok(i))
                            &&& (sha1_of(spec_assembled(ib, p0.length as int)) != p0.hash@
                                    ==> r == Err::<(), DownloadError>(DownloadError::HashMismatch(
                                        block.info.piece_index)))
                        })
                }
            }),
    {
        let piece_index: usize = block.info.piece_index;
        if piece_index >= self.pieces.len() {
            return Err(DownloadError::InvalidPieceIndex);
        }
        if self.pieces[piece_index].state == PieceState::Verified {
            // The piece is already committed: a late receipt is dropped
            // safely, neither credited nor an error.
            return Ok(());
        }
        let received_at: u64 = block.received_at;
        let data_len: usize = block.data.len();
        let ghost blk = block;
        let ghost pre = self.pieces@;
        let ghost p0 = self.pieces@[piece_index as int];
        let before_blocks: usize = self.pieces[piece_index].blocks.len();
        let piece: &mut Piece = &mut self.pieces[piece_index];
        match piece.add_block(block) {
            Ok(()) => {},
            Err(PieceError::InvalidBlock(f)) => {
                proof {
                    assert(self.pieces@ =~= pre);
                    assert(f == BlockFault::OutOfBounds);
                }
                return Err(DownloadError::InvalidBlock(f));
            },
            Err(e) => {
                proof {
                    assert(false);
                }
                return Err(DownloadError::PieceNotComplete);
            },
        }
        proof {
            assert(self.pieces@ =~= pre.update(piece_index as int, self.pieces@[piece_index as int]));
            lemma_count_verified_update(
                pre, self.pieces@, piece_index as int, pre.len() as int);
            // The ingested piece is exactly the spec-level insert of the
            // block, and it is complete exactly when the insert covers the
            // piece.
            let mid = self.pieces@[piece_index as int];
            assert(mid.blocks@ == spec_ingest_blocks(p0.blocks@, blk));
            assert(mid.spec_is_complete() <==> p0.spec_ingest_completes(blk));
        }
        // Credit newly stored bytes, bounded by the payload size, and stamp
        // the clock.
        if self.pieces[piece_index].blocks.len() > before_blocks {
            if data_len <= self.stats.total_bytes
                && self.stats.downloaded_bytes <= self.stats.total_bytes - data_len {
                self.stats.downloaded_bytes = self.stats.downloaded_bytes + data_len;
            } else {
                self.stats.downloaded_bytes = self.stats.total_bytes;
            }
        }
        if self.stats.download_start.is_none() {
            self.stats.download_start = Some(received_at);
        }
        self.stats.last_update = Some(received_at);
        let is_complete_now: bool = self.pieces[piece_index].state == PieceState::Complete;
        if is_complete_now {
            self.verify_and_write_piece(piece_index)
        } else {
            Ok(())
        }
    }

    /// Assembles a `Complete` piece, verifies its SHA-1 digest, and commits
    /// it: on a match the bytes go through storage and the piece becomes
    /// `Verified`; on a mismatch the piece is counted failed, reset to
    /// `Pending`, and queued again, with nothing written. A piece is never
    /// committed without the digest matching.
    #[verifier::rlimit(100)]
    pub fn verify_and_write_piece(&mut self, piece_index: usize) -> (r: Result<(), DownloadError>)
        requires
            old(self).wf(),
        ensures
            final(self).wf(),
            final(self).torrent == old(self).torrent,
            piece_index >= old(self).pieces@.len()
                <==> r == Err::<(), DownloadError>(DownloadError::InvalidPieceIndex),
            r == Err::<(), DownloadError>(DownloadError::InvalidPieceIndex)
                ==> *final(self) == *old(self),
            r == Err::<(), DownloadError>(DownloadError::PieceNotComplete)
                || r == Err::<(), DownloadError>(DownloadError::OverlappingBlocks)
                ==> *final(self) == *old(self),
            // Success: the assembled bytes hash to the declared digest and
            // sit in storage; the piece is committed.
            r is Ok ==> {
                let i = piece_index as int;
                &&& exists|d: Seq<u8>| {
                        &&& d.len() == old(self).torrent.spec_piece_size(i)
                        &&& #[trigger] sha1_of(d) == old(self).torrent.pieces@[i]@
                        &&& final(self).storage.spec_piece_bytes(i) == Some(d)
                    }
                &&& final(self).pieces@[i].state == PieceState::Verified
                &&& final(self).storage.spec_piece_ok(i)
                &&& final(self).stats.verified_pieces
                        == old(self).stats.verified_pieces + 1
                &&& final(self).download_queue == old(self).download_queue
                // Other pieces' stored bytes survive the write.
                &&& forall|j: int| 0 <= j < old(self).pieces@.len() && j != i
                        && old(self).storage.spec_piece_ok(j)
                        ==> final(self).storage.spec_piece_ok(j)
            },
            // Hash failure: recoverable; the piece is back in flight and
            // nothing was written.
            r matches Err(DownloadError::HashMismatch(i)) ==> {
                &&& i == piece_index
                &&& final(self).pieces@[i as int].state == PieceState::Pending
                &&& final(self).storage == old(self).storage
                &&& final(self).download_queue@ == old(self).download_queue@.push(piece_index)
                &&& final(self).stats.failed_pieces as int
                        == vstd::math::min(old(self).stats.failed_pieces + 1, usize::MAX as int)
            },
            r is Ok ==> final(self).stats.failed_pieces == old(self).stats.failed_pieces,
            !(r matches Err(DownloadError::InvalidBlock(_))),
            // Untouched parts of the snapshot survive.
            final(self).stats.total_pieces == old(self).stats.total_pieces,
            final(self).stats.total_bytes == old(self).stats.total_bytes,
            final(self).stats.downloaded_bytes == old(self).stats.downloaded_bytes,
            final(self).stats.last_update == old(self).stats.last_update,
            final(self).stats.download_start == old(self).stats.download_start,
            // The outcome is owed, not merely described: on a `Complete`
            // piece whose blocks are disjoint, success holds exactly when
            // the assembled bytes hash to the declared digest, and a
            // mismatch is reported as such.
            ({
                let p = old(self).pieces@[piece_index as int];
                piece_index < old(self).pieces@.len() && p.state == PieceState::Complete
                    && p.spec_is_complete() && p.spec_blocks_disjoint() ==> {
                    &&& (r is Ok <==> sha1_of(spec_assembled(p.blocks@, p.length as int))
                            == p.hash@)
                    &&& (sha1_of(spec_assembled(p.blocks@, p.length as int)) != p.hash@
                            ==> r == Err::<(), DownloadError>(
                                DownloadError::HashMismatch(piece_index)))
                }
            }),
            ({
                let p = old(self).pieces@[piece_index as int];
                piece_index < old(self).pieces@.len() && p.state == PieceState::Complete
                    && p.spec_is_complete() && !p.spec_blocks_disjoint()
                    ==> r == Err::<(), DownloadError>(DownloadError::OverlappingBlocks)
            }),
            ({
                let p = old(self).pieces@[piece_index as int];
                piece_index < old(self).pieces@.len() && p.state == PieceState::Complete
                    && !p.spec_is_complete()
                    ==> r == Err::<(), DownloadError>(DownloadError::PieceNotComplete)
            }),
            ({
                let p = old(self).pieces@[piece_index as int];
                piece_index < old(self).pieces@.len() && p.state != PieceState::Complete
                    ==> r == Err::<(), DownloadError>(DownloadError::PieceNotComplete)
                        && *final(self) == *old(self)
            }),
    {
        if piece_index >= self.pieces.len() {
            return Err(DownloadError::InvalidPieceIndex);
        }
        if !(self.pieces[piece_index].state == PieceState::Complete) {
            return Err(DownloadError::PieceNotComplete);
        }
        let data: Vec<u8> = match self.pieces[piece_index].assemble_piece() {
            Ok(d) => d,
            Err(PieceError::PieceNotComplete) => {
                return Err(DownloadError::PieceNotComplete);
            },
            Err(_) => {
                return Err(DownloadError::OverlappingBlocks);
            },
        };
        let ghost pre = self.pieces@;
        if !self.pieces[piece_index].verify_hash(data.as_slice()) {
            // Recoverable: count it, reset the piece, requeue it.
            if self.stats.failed_pieces < usize::MAX {
                self.stats.failed_pieces = self.stats.failed_pieces + 1;
            }
            let piece: &mut Piece = &mut self.pieces[piece_index];
            piece.state = PieceState::Failed;
            piece.reset();
            self.download_queue.push_back(piece_index);
            proof {
                assert(self.pieces@ =~= pre.update(
                    piece_index as int, self.pieces@[piece_index as int]));
                lemma_count_verified_update(
                    pre, self.pieces@, piece_index as int, pre.len() as int);
            }
            return Err(DownloadError::HashMismatch(piece_index));
        }
        let ghost old_storage = self.storage;
        match self.storage.write_piece(piece_index, data.as_slice()) {
            Ok(()) => {},
            Err(_) => {
                proof {
                    assert(false);
                }
                return Err(DownloadError::InvalidPieceIndex);
            },
        }
        let piece: &mut Piece = &mut self.pieces[piece_index];
        piece.state = PieceState::Verified;
        if self.stats.completed_pieces < usize::MAX {
            self.stats.completed_pieces = self.stats.completed_pieces + 1;
        }
        proof {
            assert(self.pieces@ =~= pre.update(
                piece_index as int, self.pieces@[piece_index as int]));
            lemma_count_verified_update(
                pre, self.pieces@, piece_index as int, pre.len() as int);
            lemma_count_verified_bound(pre, pre.len() as int);
            lemma_count_verified_missing_one(pre, pre.len() as int, piece_index as int);
        }
        self.stats.verified_pieces = self.stats.verified_pieces + 1;
        proof {
            let i = piece_index as int;
            let t = self.torrent;
            // The committed piece verifies in storage.
            assert(self.storage.spec_piece_bytes(i) == Some(data@));
            assert(self.storage.spec_piece_ok(i));
            // Every other piece's stored bytes survive: piece ranges are
            // pairwise disjoint, and the write touched only its own range.
            assert forall|j: int| 0 <= j < self.pieces@.len() && j != i
                && old_storage.spec_piece_ok(j) implies
                self.storage.spec_piece_ok(j) by {
                let s0 = t.spec_piece_start(j);
                let e0 = s0 + t.spec_piece_size(j);
                crate::torrent::lemma_piece_start_in_range(t, j);
                crate::torrent::lemma_piece_size_bounds(t, j);
                crate::torrent::lemma_piece_size_bounds(t, i);
                crate::torrent::lemma_piece_start_in_range(t, i);
                if j < i {
                    crate::torrent::lemma_piece_ranges_disjoint(t, j, i);
                } else {
                    crate::torrent::lemma_piece_ranges_disjoint(t, i, j);
                }
                assert forall|o: int| s0 <= o < e0 implies
                    self.storage.byte_at(o) == #[trigger] old_storage.byte_at(o) by {
                    assert(old_storage.byte_at(o) is Some);
                }
                crate::files::lemma_read_range_preserved(old_storage, self.storage, s0, e0);
            }
        }
        Ok(())
    }

    /// The lifecycle state of one piece, or `None` for an unknown index.
    pub fn get_piece_state(&self, piece_index: usize) -> (r: Option<PieceState>)
        ensures
            piece_index < self.pieces@.len()
                ==> r == Some(self.pieces@[piece_index as int].state),
            piece_index >= self.pieces@.len() ==> r is None,
    {
        if piece_index >= self.pieces.len() {
            return None;
        }
        Some(self.pieces[piece_index].state)
    }

    /// The current progress snapshot.
    pub fn get_stats(&self) -> (r: DownloadStats)
        ensures
            r == self.stats,
    {
        self.stats
    }

    /// Whether every piece has been verified and written: true exactly when
    /// each piece's state is `Verified`, and then, by the hash gate, storage
    /// holds every piece's bytes with matching digests.
    pub fn is_download_complete(&self) -> (r: bool)
        requires
            self.wf(),
        ensures
            r == (self.stats.verified_pieces == self.stats.total_pieces),
            r <==> forall|i: int| 0 <= i < self.pieces@.len()
                ==> (#[trigger] self.pieces@[i]).state == PieceState::Verified,
            r ==> forall|i: int| 0 <= i < self.pieces@.len()
                ==> #[trigger] self.storage.spec_piece_ok(i),
    {
        proof {
            lemma_count_verified_all(self.pieces@, self.pieces@.len() as int);
            assert forall|i: int|
                0 <= i < self.pieces@.len()
                    && self.pieces@[i].state == PieceState::Verified implies
                #[trigger] self.storage.spec_piece_ok(i) by {
                assert((#[trigger] self.pieces@[i]).state == PieceState::Verified);
            }
        }
        self.stats.verified_pieces == self.stats.total_pieces
    }

    /// Whether one piece is already verified and written.
    pub fn has_piece(&self, piece_index: usize) -> (r: bool)
        ensures
            r == (piece_index < self.pieces@.len()
                && self.pieces@[piece_index as int].state == PieceState::Verified),
    {
        if piece_index >= self.pieces.len() {
            return false;
        }
        self.pieces[piece_index].state == PieceState::Verified
    }

    /// How many pieces are not yet verified.
    pub fn get_missing_piece_count(&self) -> (r: usize)
        requires
            self.wf(),
        ensures
            r == self.stats.total_pieces - self.stats.verified_pieces,
    {
        proof {
            lemma_count_verified_bound(self.pieces@, self.pieces@.len() as int);
        }
        self.stats.total_pieces - self.stats.verified_pieces
    }
}

/// Hash-gated commit, as a statement of its own: in any well-formed
/// coordinator state, a piece in state `Verified` has its bytes in storage
/// and their SHA-1 digest equals the declared one. No operation of the
/// coordinator leaves `wf`, so no piece is ever committed another way.
pub proof fn lemma_verified_is_hash_gated(m: BlockManager, i: int)
    requires
        m.wf(),
        0 <= i < m.pieces@.len(),
        m.pieces@[i].state == PieceState::Verified,
    ensures
        m.storage.spec_piece_bytes(i) is Some,
        sha1_of(m.storage.spec_piece_bytes(i)->0) == m.torrent.pieces@[i]@,
{
    assert(m.storage.spec_piece_ok(i));
}

/// With one piece not `Verified`, the verified count stays below `n`.
proof fn lemma_count_verified_missing_one(pieces: Seq<Piece>, n: int, i: int)
    requires
        0 <= i < n <= pieces.len(),
        pieces[i].state != PieceState::Verified,
    ensures
        count_verified(pieces, n) < n,
    decreases n,
{
    if n - 1 > i {
        lemma_count_verified_missing_one(pieces, n - 1, i);
    } else {
        lemma_count_verified_bound(pieces, n - 1);
    }
}

/// All-pending pieces have a verified count of zero.
proof fn lemma_count_verified_pending(pieces: Seq<Piece>, n: int)
    requires
        0 <= n <= pieces.len(),
        forall|i: int| 0 <= i < pieces.len()
            ==> (#[trigger] pieces[i]).state == PieceState::Pending,
    ensures
        count_verified(pieces, n) == 0,
    decreases n,
{
    if n > 0 {
        lemma_count_verified_pending(pieces, n - 1);
    }
}

/// When each piece is `Verified` exactly where storage verifies it, the
/// verified count equals storage's complete count.
proof fn lemma_count_verified_matches(pieces: Seq<Piece>, storage: FileStorage, n: int)
    requires
        0 <= n <= pieces.len(),
        forall|i: int| 0 <= i < pieces.len()
            ==> ((#[trigger] pieces[i]).state == PieceState::Verified
                <==> storage.spec_piece_ok(i)),
    ensures
        count_verified(pieces, n) == crate::files::spec_complete_count(storage, n),
    decreases n,
{
    if n > 0 {
        lemma_count_verified_matches(pieces, storage, n - 1);
    }
}

/// Copies a 20-byte digest.
fn clone_hash(h: &Vec<u8>) -> (r: Vec<u8>)
    ensures
        r@ == h@,
{
    vstd::slice::slice_to_vec(h.as_slice())
}

} // verus!
