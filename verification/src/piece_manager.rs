//! Per-piece block accounting: the descriptors still missing, the requests
//! in flight with their timestamps, the blocks received, and the piece's
//! lifecycle state.
//!
//! Time is a millisecond counter supplied by the caller: every operation
//! that depends on the clock takes `now` or reads a block's receipt stamp,
//! so the logic is a function of its arguments.

use vstd::prelude::*;
use crate::hashing::{sha1_of, sha1_matches};

verus! {

/// Standard block size: the unit of peer request and response.
pub const BLOCK_SIZE: usize = 16384;

/// Most requests allowed in flight for one piece at a time.
pub const MAX_PENDING_REQUESTS: usize = 10;

/// How long a requested block may stay unanswered before it is returned to
/// the missing set, in milliseconds.
pub const REQUEST_TIMEOUT: u64 = 30000;

/// A block descriptor: which piece, where in it, and how many bytes.
#[derive(Debug, Clone, Copy, PartialEq, Eq, Hash, Structural)]
pub struct BlockInfo {
    pub piece_index: usize,
    /// Byte offset of the block inside its piece.
    pub begin: usize,
    /// Size of the block in bytes.
    pub length: usize,
}

impl BlockInfo {
    pub fn new(piece_index: usize, begin: usize, length: usize) -> (r: Self)
        ensures
            r.piece_index == piece_index,
            r.begin == begin,
            r.length == length,
    {
        Self { piece_index, begin, length }
    }
}

/// A received block: its descriptor, its bytes, and when it arrived
/// (milliseconds on the caller's clock).
#[derive(Debug, Clone)]
pub struct Block {
    pub info: BlockInfo,
    pub data: Vec<u8>,
    pub received_at: u64,
}

/// A piece's lifecycle.
#[derive(Debug, Clone, Copy, PartialEq, Eq, Structural)]
pub enum PieceState {
    /// Not started downloading.
    Pending,
    /// Currently being downloaded.
    InProgress,
    /// All blocks received, awaiting verification.
    Complete,
    /// Verified and written to storage; terminal.
    Verified,
    /// Failed hash verification; reset follows at once.
    Failed,
}

/// What was wrong with an ingested block.
#[derive(Debug, Clone, Copy, PartialEq, Eq, Structural)]
pub enum BlockFault {
    /// The block names another piece.
    WrongPiece,
    /// The block's bytes reach past the end of the piece.
    OutOfBounds,
}

/// A piece-level failure.
#[derive(Debug, Clone, Copy, PartialEq, Eq, Structural)]
pub enum PieceError {
    /// An ingested block was rejected; it is neither credited nor retried.
    InvalidBlock(BlockFault),
    /// Assembly was asked for before every block arrived.
    PieceNotComplete,
    /// Two received blocks claim the same byte: a programming error that
    /// must fail rather than silently overwrite.
    OverlappingBlocks,
}

/// One piece being downloaded.
#[derive(Debug)]
pub struct Piece {
    /// Index of this piece in the torrent.
    pub index: usize,
    /// Length of this piece in bytes.
    pub length: usize,
    /// Expected SHA-1 digest of the piece's bytes; 20 bytes.
    pub hash: Vec<u8>,
    /// Lifecycle state.
    pub state: PieceState,
    /// Received blocks, at most one per starting offset.
    pub blocks: Vec<Block>,
    /// Block descriptors not yet requested.
    pub missing_blocks: Vec<BlockInfo>,
    /// Requests in flight: descriptor and request timestamp.
    pub requested_blocks: Vec<(BlockInfo, u64)>,
    /// When the first block arrived.
    pub download_start: Option<u64>,
    /// When the last block arrived.
    pub download_complete: Option<u64>,
}

impl Piece {
    /// `b` is one of the descriptors this piece is divided into: aligned to
    /// the block size, inside the piece, of full size except at the end.
    pub open spec fn is_declared_block(self, b: BlockInfo) -> bool {
        &&& b.piece_index == self.index
        &&& b.begin % BLOCK_SIZE == 0
        &&& b.begin < self.length
        &&& b.length as int == if self.length - b.begin < BLOCK_SIZE {
                self.length - b.begin
            } else {
                BLOCK_SIZE as int
            }
    }

    /// The piece invariant: descriptors in the missing set and the request
    /// map are declared blocks, no descriptor appears twice or in both, and
    /// received blocks stay inside the piece, one per offset.
    pub open spec fn wf(self) -> bool {
        &&& self.hash@.len() == 20
        &&& self.length > 0
        &&& forall|i: int| 0 <= i < self.missing_blocks@.len()
                ==> self.is_declared_block(#[trigger] self.missing_blocks@[i])
        &&& forall|i: int, j: int| 0 <= i < j < self.missing_blocks@.len()
                ==> (#[trigger] self.missing_blocks@[i]).begin
                    != (#[trigger] self.missing_blocks@[j]).begin
        &&& forall|i: int| 0 <= i < self.requested_blocks@.len()
                ==> self.is_declared_block((#[trigger] self.requested_blocks@[i]).0)
        &&& forall|i: int, j: int| 0 <= i < j < self.requested_blocks@.len()
                ==> (#[trigger] self.requested_blocks@[i]).0.begin
                    != (#[trigger] self.requested_blocks@[j]).0.begin
        &&& forall|i: int, j: int|
                0 <= i < self.missing_blocks@.len() && 0 <= j < self.requested_blocks@.len()
                ==> (#[trigger] self.missing_blocks@[i]).begin
                    != (#[trigger] self.requested_blocks@[j]).0.begin
        &&& forall|i: int| 0 <= i < self.blocks@.len() ==> {
                let b = #[trigger] self.blocks@[i];
                b.info.piece_index == self.index
                    && b.info.begin + b.data@.len() <= self.length
            }
        &&& forall|i: int, j: int| 0 <= i < j < self.blocks@.len()
                ==> (#[trigger] self.blocks@[i]).info.begin
                    != (#[trigger] self.blocks@[j]).info.begin
    }

    /// The number of bytes received so far.
    pub open spec fn received_total(blocks: Seq<Block>) -> int
        decreases blocks,
    {
        if blocks.len() == 0 {
            0
        } else {
            blocks[0].data@.len() + Self::received_total(blocks.drop_first())
        }
    }

    /// Every declared block has been received and stored: nothing is
    /// missing, and the received bytes add up to the whole piece.
    pub open spec fn spec_is_complete(self) -> bool {
        self.missing_blocks@.len() == 0
            && Self::received_total(self.blocks@) == self.length as int
    }

    /// No two received blocks claim the same byte: any two with bytes at
    /// all sit in disjoint ranges.
    pub open spec fn spec_blocks_disjoint(self) -> bool {
        blocks_disjoint(self.blocks@)
    }

    /// A request made at `t` has gone unanswered too long by `now`.
    pub open spec fn spec_expired(t: u64, now: u64) -> bool {
        now > t + REQUEST_TIMEOUT
    }

    /// Ingesting `block` completes the piece: nothing is missing, and the
    /// received bytes after the insert add up to the whole piece.
    pub open spec fn spec_ingest_completes(self, block: Block) -> bool {
        self.missing_blocks@.len() == 0
            && Self::received_total(spec_ingest_blocks(self.blocks@, block)) == self.length as int
    }

    /// The missing set that covers the whole piece: one declared descriptor
    /// per block-size stride.
    #[verifier::loop_isolation(false)]
    fn build_missing(index: usize, length: usize) -> (r: Vec<BlockInfo>)
        requires
            length > 0,
        ensures
            r@.len() == (length - 1) as int / BLOCK_SIZE as int + 1,
            forall|k: int| 0 <= k < r@.len() ==> (#[trigger] r@[k]).piece_index == index,
            forall|k: int| 0 <= k < r@.len()
                ==> (#[trigger] r@[k]).begin == k * BLOCK_SIZE,
            forall|k: int| 0 <= k < r@.len() ==> (#[trigger] r@[k]).length as int
                == if length - r@[k].begin < BLOCK_SIZE {
                    length - r@[k].begin
                } else {
                    BLOCK_SIZE as int
                },
            forall|k: int| 0 <= k < r@.len() ==> (#[trigger] r@[k]).begin < length
                && r@[k].begin % BLOCK_SIZE == 0,
    {
        let nb: usize = (length - 1) / BLOCK_SIZE + 1;
        proof {
            vstd::arithmetic::div_mod::lemma_fundamental_div_mod(length - 1, BLOCK_SIZE as int);
            vstd::arithmetic::div_mod::lemma_mod_bound(length - 1, BLOCK_SIZE as int);
        }
        let mut r: Vec<BlockInfo> = Vec::new();
        let mut k: usize = 0;
        while k < nb
            invariant
                nb == (length - 1) as int / BLOCK_SIZE as int + 1,
                k <= nb,
                r@.len() == k,
                forall|i: int| 0 <= i < k ==> (#[trigger] r@[i]).piece_index == index,
                forall|i: int| 0 <= i < k ==> (#[trigger] r@[i]).begin == i * BLOCK_SIZE,
                forall|i: int| 0 <= i < k ==> (#[trigger] r@[i]).length as int
                    == if length - r@[i].begin < BLOCK_SIZE {
                        length - r@[i].begin
                    } else {
                        BLOCK_SIZE as int
                    },
                forall|i: int| 0 <= i < k ==> (#[trigger] r@[i]).begin < length
                    && r@[i].begin % BLOCK_SIZE == 0,
            decreases nb - k,
        {
            proof {
                let q = (length - 1) as int / BLOCK_SIZE as int;
                assert(k as int * BLOCK_SIZE <= q * BLOCK_SIZE) by (nonlinear_arith)
                    requires k as int <= q, BLOCK_SIZE >= 1,
                ;
                assert(q * BLOCK_SIZE <= length - 1) by {
                    vstd::arithmetic::div_mod::lemma_fundamental_div_mod(
                        length - 1, BLOCK_SIZE as int);
                    vstd::arithmetic::div_mod::lemma_mod_bound(length - 1, BLOCK_SIZE as int);
                }
                assert((k as int) * BLOCK_SIZE % BLOCK_SIZE as int == 0) by (nonlinear_arith)
                    requires BLOCK_SIZE >= 1,
                ;
            }
            let begin: usize = k * BLOCK_SIZE;
            let remaining: usize = length - begin;
            let block_length: usize = if remaining < BLOCK_SIZE { remaining } else { BLOCK_SIZE };
            r.push(BlockInfo { piece_index: index, begin, length: block_length });
            k = k + 1;
        }
        r
    }

    /// A fresh piece: pending, nothing received, nothing requested, and the
    /// missing set pre-populated to cover the piece.
    pub fn new(index: usize, length: usize, hash: Vec<u8>) -> (r: Self)
        requires
            length > 0,
            hash@.len() == 20,
        ensures
            r.wf(),
            r.index == index,
            r.length == length,
            r.hash == hash,
            r.state == PieceState::Pending,
            r.blocks@.len() == 0,
            r.requested_blocks@.len() == 0,
            r.missing_blocks@.len() == (length - 1) as int / BLOCK_SIZE as int + 1,
            forall|k: int| 0 <= k < r.missing_blocks@.len()
                ==> (#[trigger] r.missing_blocks@[k]).begin == k * BLOCK_SIZE,
            r.download_start is None,
            r.download_complete is None,
    {
        let missing_blocks = Self::build_missing(index, length);
        let r = Piece {
            index,
            length,
            hash,
            state: PieceState::Pending,
            blocks: Vec::new(),
            missing_blocks,
            requested_blocks: Vec::new(),
            download_start: None,
            download_complete: None,
        };
        proof {
            lemma_distinct_strides(r.missing_blocks@);
        }
        r
    }

    /// Whether every declared block has been received.
    #[verifier::loop_isolation(false)]
    pub fn is_complete(&self) -> (r: bool)
        requires
            self.wf(),
        ensures
            r == self.spec_is_complete(),
    {
        if self.missing_blocks.len() != 0 {
            return false;
        }
        let n: usize = self.blocks.len();
        let ghost bs = self.blocks@;
        let mut acc: u128 = 0;
        let mut i: usize = 0;
        proof {
            assert(bs.skip(0) =~= bs);
        }
        while i < n
            invariant
                n == bs.len(),
                bs == self.blocks@,
                i <= n,
                acc as int + Self::received_total(bs.skip(i as int))
                    == Self::received_total(bs),
                acc as int <= i as int * (self.length as int),
            decreases n - i,
        {
            proof {
                assert(bs.skip(i as int)[0] == bs[i as int]);
                assert(bs.skip(i as int).drop_first() =~= bs.skip(i + 1));
                assert(bs[i as int].data@.len() <= self.length);
                assert(i as int * (self.length as int) + self.length as int
                    == (i + 1) * (self.length as int)) by (nonlinear_arith);
                assert((i + 1) * (self.length as int) <= n as int * (self.length as int))
                    by (nonlinear_arith)
                    requires i + 1 <= n as int, self.length as int >= 0,
                ;
                assert(n as int * (self.length as int) < u128::MAX as int) by (nonlinear_arith)
                    requires
                        n as int <= usize::MAX as int,
                        self.length as int <= usize::MAX as int,
                        usize::MAX as int <= 18446744073709551615,
                ;
            }
            acc = acc + self.blocks[i].data.len() as u128;
            i = i + 1;
        }
        proof {
            assert(bs.skip(n as int) =~= Seq::<Block>::empty());
        }
        acc == self.length as u128
    }

    /// Returns the piece to `Pending` with nothing received or requested
    /// and the missing set repopulated to cover the piece, as after a hash
    /// failure.
    pub fn reset(&mut self)
        requires
            old(self).wf(),
        ensures
            final(self).wf(),
            final(self).index == old(self).index,
            final(self).length == old(self).length,
            final(self).hash == old(self).hash,
            final(self).state == PieceState::Pending,
            final(self).blocks@.len() == 0,
            final(self).requested_blocks@.len() == 0,
            final(self).missing_blocks@.len()
                == (old(self).length - 1) as int / BLOCK_SIZE as int + 1,
            forall|k: int| 0 <= k < final(self).missing_blocks@.len()
                ==> (#[trigger] final(self).missing_blocks@[k]).begin == k * BLOCK_SIZE,
            final(self).download_start is None,
            final(self).download_complete is None,
    {
        self.state = PieceState::Pending;
        self.blocks.clear();
        self.requested_blocks.clear();
        self.download_start = None;
        self.download_complete = None;
        self.missing_blocks = Self::build_missing(self.index, self.length);
        proof {
            lemma_distinct_strides(self.missing_blocks@);
        }
    }

    /// Hands out the next block to request. First every request older than
    /// the timeout returns to the missing set; then, below the pending cap,
    /// some missing block moves to the request map stamped `now` and is
    /// returned. The missing set here ascends by offset, so requests go out
    /// in order, but no caller may rely on that.
    #[verifier::loop_isolation(false)]
    pub fn get_next_block_request(&mut self, now: u64) -> (r: Option<BlockInfo>)
        requires
            old(self).wf(),
        ensures
            final(self).wf(),
            final(self).index == old(self).index,
            final(self).length == old(self).length,
            final(self).hash == old(self).hash,
            final(self).state == old(self).state,
            final(self).blocks == old(self).blocks,
            final(self).download_start == old(self).download_start,
            final(self).download_complete == old(self).download_complete,
            // Reaping: an expired request is back among the missing unless it
            // is the block handed out; an unexpired one stays.
            forall|j: int| 0 <= j < old(self).requested_blocks@.len() ==> {
                let p = #[trigger] old(self).requested_blocks@[j];
                if Self::spec_expired(p.1, now) {
                    final(self).missing_blocks@.contains(p.0) || r == Some(p.0)
                } else {
                    final(self).requested_blocks@.contains(p)
                }
            },
            // Whatever was missing stays missing unless it is handed out now.
            forall|j: int| 0 <= j < old(self).missing_blocks@.len()
                ==> final(self).missing_blocks@.contains(#[trigger] old(self).missing_blocks@[j])
                    || r == Some(old(self).missing_blocks@[j]),
            // The result is a declared block that was missing or expired; it
            // now sits in the request map stamped `now`, and nowhere else.
            r matches Some(b) ==> {
                &&& old(self).is_declared_block(b)
                &&& final(self).requested_blocks@.contains((b, now))
                &&& !final(self).missing_blocks@.contains(b)
                &&& old(self).missing_blocks@.contains(b)
                        || exists|i: int| 0 <= i < old(self).requested_blocks@.len()
                            && (#[trigger] old(self).requested_blocks@[i]).0 == b
                            && Self::spec_expired(old(self).requested_blocks@[i].1, now)
            },
            // Nothing is handed out only at the cap or when nothing is left.
            r is None ==> final(self).requested_blocks@.len() >= MAX_PENDING_REQUESTS
                || final(self).missing_blocks@.len() == 0,
            // And conversely: at the pending cap (after the reap) nothing is
            // handed out.
            count_unexpired(old(self).requested_blocks@, now) >= MAX_PENDING_REQUESTS
                ==> r is None,
            // No block appears among the missing out of nowhere.
            forall|j: int| 0 <= j < final(self).missing_blocks@.len() ==> {
                let b = #[trigger] final(self).missing_blocks@[j];
                old(self).missing_blocks@.contains(b)
                    || exists|i: int| 0 <= i < old(self).requested_blocks@.len()
                        && (#[trigger] old(self).requested_blocks@[i]).0 == b
                        && Self::spec_expired(old(self).requested_blocks@[i].1, now)
            },
            // Request entries are the unexpired old ones plus the one made.
            forall|j: int| 0 <= j < final(self).requested_blocks@.len() ==> {
                let p = #[trigger] final(self).requested_blocks@[j];
                (old(self).requested_blocks@.contains(p) && !Self::spec_expired(p.1, now))
                    || (r == Some(p.0) && p.1 == now)
            },
    {
        let ghost oldreq = self.requested_blocks@;
        let ghost oldmiss = self.missing_blocks@;
        let n: usize = self.requested_blocks.len();
        let mut kept: Vec<(BlockInfo, u64)> = Vec::new();
        let mut i: usize = 0;
        proof {
            assert(oldreq.take(0) =~= Seq::<(BlockInfo, u64)>::empty());
        }
        while i < n
            invariant
                n == oldreq.len(),
                oldreq == self.requested_blocks@,
                oldmiss == self.missing_blocks@,
                *self == *old(self),
                i <= n,
                forall|p: int| 0 <= p < kept@.len()
                    ==> oldreq.take(i as int).contains(#[trigger] kept@[p])
                        && !Self::spec_expired(kept@[p].1, now),
                forall|j: int| 0 <= j < i && !Self::spec_expired(oldreq[j].1, now)
                    ==> kept@.contains(#[trigger] oldreq[j]),
                kept@.len() == count_unexpired(oldreq.take(i as int), now),
                forall|p: int, q: int| 0 <= p < q < kept@.len()
                    ==> (#[trigger] kept@[p]).0.begin != (#[trigger] kept@[q]).0.begin,
            decreases n - i,
        {
            let (b, t) = self.requested_blocks[i];
            proof {
                assert(oldreq.take(i + 1).drop_last() =~= oldreq.take(i as int));
                assert(oldreq.take(i + 1).last() == oldreq[i as int]);
            }
            if t < now && now - t > REQUEST_TIMEOUT {
                proof {
                    assert(Self::spec_expired(t, now));
                    assert forall|p: int| 0 <= p < kept@.len() implies
                        oldreq.take(i + 1).contains(#[trigger] kept@[p]) by {
                        let j = choose|j: int| 0 <= j < i
                            && oldreq.take(i as int)[j] == kept@[p];
                        assert(oldreq.take(i + 1)[j] == kept@[p]);
                    }
                }
            } else {
                proof {
                    assert(!Self::spec_expired(t, now));
                    assert forall|p: int| 0 <= p < kept@.len() implies
                        (#[trigger] kept@[p]).0.begin != b.begin by {
                        let j = choose|j: int| 0 <= j < i
                            && oldreq.take(i as int)[j] == kept@[p];
                        assert(oldreq[j] == kept@[p]);
                        assert(oldreq[j].0.begin != oldreq[i as int].0.begin);
                    }
                }
                let ghost before = kept@;
                kept.push((b, t));
                proof {
                    assert(kept@[kept@.len() - 1] == oldreq[i as int]);
                    assert(oldreq.take(i + 1)[i as int] == oldreq[i as int]);
                    assert(oldreq.take(i + 1).contains(oldreq[i as int]));
                    assert forall|p: int| 0 <= p < before.len() implies
                        oldreq.take(i + 1).contains(#[trigger] kept@[p]) by {
                        let j = choose|j: int| 0 <= j < i
                            && oldreq.take(i as int)[j] == before[p];
                        assert(kept@[p] == before[p]);
                        assert(oldreq.take(i + 1)[j] == kept@[p]);
                    }
                    assert forall|j: int| 0 <= j < i + 1 && !Self::spec_expired(oldreq[j].1, now)
                        implies kept@.contains(#[trigger] oldreq[j]) by {
                        if j < i {
                            let p = choose|p: int| 0 <= p < before.len() && before[p] == oldreq[j];
                            assert(kept@[p] == oldreq[j]);
                        } else {
                            assert(kept@[kept@.len() - 1] == oldreq[j]);
                        }
                    }
                }
            }
            i = i + 1;
        }
        // Expired requests move back to the missing set, after the kept run
        // above so each is inserted at most once.
        let mut i2: usize = 0;
        while i2 < n
            invariant
                n == oldreq.len(),
                oldreq == old(self).requested_blocks@,
                self.index == old(self).index,
                self.length == old(self).length,
                self.hash == old(self).hash,
                self.state == old(self).state,
                self.blocks == old(self).blocks,
                self.requested_blocks@ == oldreq,
                self.download_start == old(self).download_start,
                self.download_complete == old(self).download_complete,
                i2 <= n,
                // Everything that was missing is still missing.
                forall|j: int| 0 <= j < oldmiss.len()
                    ==> self.missing_blocks@.contains(#[trigger] oldmiss[j]),
                // Expired prefix entries are now missing.
                forall|j: int| 0 <= j < i2 && Self::spec_expired(oldreq[j].1, now)
                    ==> self.missing_blocks@.contains((#[trigger] oldreq[j]).0),
                // Every missing block is an old one or an expired request.
                forall|j: int| 0 <= j < self.missing_blocks@.len() ==> {
                    let b = #[trigger] self.missing_blocks@[j];
                    oldmiss.contains(b)
                        || exists|q: int| 0 <= q < i2
                            && (#[trigger] oldreq[q]).0 == b
                            && Self::spec_expired(oldreq[q].1, now)
                },
                // Declaredness and distinctness survive.
                forall|j: int| 0 <= j < self.missing_blocks@.len()
                    ==> old(self).is_declared_block(#[trigger] self.missing_blocks@[j]),
                forall|p: int, q: int| 0 <= p < q < self.missing_blocks@.len()
                    ==> (#[trigger] self.missing_blocks@[p]).begin
                        != (#[trigger] self.missing_blocks@[q]).begin,
                // Kept (unexpired) begins stay distinct from missing begins.
                forall|p: int, j: int|
                    0 <= p < self.missing_blocks@.len() && 0 <= j < n
                        && !Self::spec_expired(oldreq[j].1, now)
                    ==> (#[trigger] self.missing_blocks@[p]).begin
                        != (#[trigger] oldreq[j]).0.begin,
            decreases n - i2,
        {
            let (b, t) = self.requested_blocks[i2];
            if t < now && now - t > REQUEST_TIMEOUT {
                // Insert unless an earlier duplicate already brought it back;
                // begins are unique across the request map, so a second
                // insertion cannot happen.
                let ghost before = self.missing_blocks@;
                self.missing_blocks.push(b);
                proof {
                    assert(self.missing_blocks@[self.missing_blocks@.len() - 1]
                        == oldreq[i2 as int].0);
                    assert forall|j: int| 0 <= j < oldmiss.len() implies
                        self.missing_blocks@.contains(#[trigger] oldmiss[j]) by {
                        let p = choose|p: int| 0 <= p < before.len() && before[p] == oldmiss[j];
                        assert(self.missing_blocks@[p] == oldmiss[j]);
                    }
                    assert forall|j: int| 0 <= j < i2 + 1 && Self::spec_expired(oldreq[j].1, now)
                        implies self.missing_blocks@.contains((#[trigger] oldreq[j]).0) by {
                        if j < i2 {
                            let p = choose|p: int| 0 <= p < before.len()
                                && before[p] == oldreq[j].0;
                            assert(self.missing_blocks@[p] == oldreq[j].0);
                        }
                    }
                    assert forall|p: int| 0 <= p < before.len() implies
                        (#[trigger] before[p]).begin != b.begin by {
                        if oldmiss.contains(before[p]) {
                            let q = choose|q: int| 0 <= q < oldmiss.len()
                                && oldmiss[q] == before[p];
                            assert(oldmiss[q].begin != oldreq[i2 as int].0.begin);
                        } else {
                            let q = choose|q: int| 0 <= q < i2 && oldreq[q].0 == before[p]
                                && Self::spec_expired(oldreq[q].1, now);
                            assert(oldreq[q].0.begin != oldreq[i2 as int].0.begin);
                        }
                    }
                }
            }
            i2 = i2 + 1;
        }
        proof {
            assert(oldreq.take(n as int) =~= oldreq);
        }
        self.requested_blocks = kept;
        proof {
            // The surviving request entries are unexpired old entries, so
            // they are declared, and their offsets avoid the missing set.
            assert forall|p: int| 0 <= p < self.requested_blocks@.len() implies
                old(self).is_declared_block((#[trigger] self.requested_blocks@[p]).0)
                    && oldreq.contains(self.requested_blocks@[p])
                    && !Self::spec_expired(self.requested_blocks@[p].1, now) by {
                let j = choose|j: int| 0 <= j < oldreq.len()
                    && oldreq[j] == self.requested_blocks@[p];
                assert(oldreq[j] == self.requested_blocks@[p]);
            }
            assert forall|p: int, q: int|
                0 <= p < self.missing_blocks@.len() && 0 <= q < self.requested_blocks@.len()
                implies (#[trigger] self.missing_blocks@[p]).begin
                    != (#[trigger] self.requested_blocks@[q]).0.begin by {
                let j = choose|j: int| 0 <= j < oldreq.len()
                    && oldreq[j] == self.requested_blocks@[q];
                assert(self.missing_blocks@[p].begin != oldreq[j].0.begin);
            }
        }
        if self.requested_blocks.len() >= MAX_PENDING_REQUESTS {
            return None;
        }
        if self.missing_blocks.len() == 0 {
            return None;
        }
        let ghost m_reaped = self.missing_blocks@;
        let b: BlockInfo = self.missing_blocks.remove(0);
        proof {
            assert(b == m_reaped[0]);
            assert(self.missing_blocks@ =~= m_reaped.subrange(1, m_reaped.len() as int));
            assert forall|p: int| 0 <= p < self.missing_blocks@.len() implies
                (#[trigger] self.missing_blocks@[p]) == m_reaped[p + 1] by {
            }
        }
        self.requested_blocks.push((b, now));
        proof {
            let reqn = self.requested_blocks@.len() as int;
            assert(self.requested_blocks@[reqn - 1] == (b, now));
            assert(!self.missing_blocks@.contains(b)) by {
                if self.missing_blocks@.contains(b) {
                    let p = choose|p: int| 0 <= p < self.missing_blocks@.len()
                        && self.missing_blocks@[p] == b;
                    assert(m_reaped[p + 1].begin == m_reaped[0].begin);
                }
            }
            // Old unexpired requests survive, now with the fresh entry after
            // them.
            assert forall|j: int| 0 <= j < oldreq.len()
                && !Self::spec_expired((#[trigger] oldreq[j]).1, now) implies
                self.requested_blocks@.contains(oldreq[j]) by {
                let p = choose|p: int| 0 <= p < kept@.len() && kept@[p] == oldreq[j];
                assert(self.requested_blocks@[p] == oldreq[j]);
            }
            // Old missing blocks either remain or are the one handed out.
            assert forall|j: int| 0 <= j < oldmiss.len() implies
                self.missing_blocks@.contains(#[trigger] oldmiss[j])
                    || Some(b) == Some::<BlockInfo>(oldmiss[j]) by {
                if oldmiss[j] != b {
                    let p = choose|p: int| 0 <= p < m_reaped.len()
                        && m_reaped[p] == oldmiss[j];
                    assert(p != 0);
                    assert(self.missing_blocks@[p - 1] == oldmiss[j]);
                }
            }
            // Expired requests either remain missing or are the one handed
            // out.
            assert forall|j: int| 0 <= j < oldreq.len()
                && Self::spec_expired((#[trigger] oldreq[j]).1, now) implies
                self.missing_blocks@.contains(oldreq[j].0)
                    || Some(b) == Some::<BlockInfo>(oldreq[j].0) by {
                if oldreq[j].0 != b {
                    let p = choose|p: int| 0 <= p < m_reaped.len()
                        && m_reaped[p] == oldreq[j].0;
                    assert(p != 0);
                    assert(self.missing_blocks@[p - 1] == oldreq[j].0);
                }
            }
        }
        Some(b)
    }

    /// Ingests one received block. A block naming another piece or reaching
    /// past the piece's end is rejected and changes nothing. Otherwise its
    /// request entry is dropped and the block is inserted at its offset,
    /// replacing whatever block sat there; re-delivery is never a failure.
    /// When the received bytes then cover the whole piece, the piece becomes
    /// `Complete`.
    #[verifier::loop_isolation(false)]
    pub fn add_block(&mut self, block: Block) -> (r: Result<(), PieceError>)
        requires
            old(self).wf(),
        ensures
            final(self).wf(),
            final(self).index == old(self).index,
            final(self).length == old(self).length,
            final(self).hash == old(self).hash,
            final(self).missing_blocks == old(self).missing_blocks,
            r is Ok <==> block.info.piece_index == old(self).index
                && block.info.begin + block.data@.len() <= old(self).length,
            r is Err ==> *final(self) == *old(self),
            r is Err ==> (r == Err::<(), PieceError>(PieceError::InvalidBlock(BlockFault::WrongPiece))
                <==> block.info.piece_index != old(self).index),
            r is Err ==> r == Err::<(), PieceError>(PieceError::InvalidBlock(BlockFault::WrongPiece))
                || r == Err::<(), PieceError>(PieceError::InvalidBlock(BlockFault::OutOfBounds)),
            r is Ok ==> {
                let dup = exists|j: int| 0 <= j < old(self).blocks@.len()
                    && (#[trigger] old(self).blocks@[j]).info.begin == block.info.begin;
                &&& final(self).blocks@ == spec_ingest_blocks(old(self).blocks@, block)
                // The request entry for this descriptor is gone; the rest
                // stay, with nothing added.
                &&& forall|j: int| 0 <= j < old(self).requested_blocks@.len()
                        && (#[trigger] old(self).requested_blocks@[j]).0 != block.info
                        ==> final(self).requested_blocks@.contains(old(self).requested_blocks@[j])
                &&& forall|j: int| 0 <= j < final(self).requested_blocks@.len()
                        ==> old(self).requested_blocks@.contains(
                                #[trigger] final(self).requested_blocks@[j])
                            && final(self).requested_blocks@[j].0 != block.info
                &&& final(self).state == if final(self).spec_is_complete() {
                        PieceState::Complete
                    } else {
                        old(self).state
                    }
                &&& final(self).download_start == if !dup && old(self).download_start is None {
                        Some(block.received_at)
                    } else {
                        old(self).download_start
                    }
                &&& final(self).download_complete == if final(self).spec_is_complete() {
                        Some(block.received_at)
                    } else {
                        old(self).download_complete
                    }
            },
    {
        if block.info.piece_index != self.index {
            return Err(PieceError::InvalidBlock(BlockFault::WrongPiece));
        }
        if block.info.begin > self.length || block.data.len() > self.length - block.info.begin {
            return Err(PieceError::InvalidBlock(BlockFault::OutOfBounds));
        }
        // Drop the in-flight request for this descriptor, if any.
        let ghost oldreq = self.requested_blocks@;
        let n: usize = self.requested_blocks.len();
        let mut kept: Vec<(BlockInfo, u64)> = Vec::new();
        let mut i: usize = 0;
        while i < n
            invariant
                n == oldreq.len(),
                oldreq == self.requested_blocks@,
                i <= n,
                forall|p: int| 0 <= p < kept@.len()
                    ==> oldreq.take(i as int).contains(#[trigger] kept@[p])
                        && kept@[p].0 != block.info,
                forall|j: int| 0 <= j < i && (#[trigger] oldreq[j]).0 != block.info
                    ==> kept@.contains(oldreq[j]),
                forall|p: int, q: int| 0 <= p < q < kept@.len()
                    ==> (#[trigger] kept@[p]).0.begin != (#[trigger] kept@[q]).0.begin,
            decreases n - i,
        {
            let entry = self.requested_blocks[i];
            if !(entry.0 == block.info) {
                proof {
                    assert forall|p: int| 0 <= p < kept@.len() implies
                        (#[trigger] kept@[p]).0.begin != entry.0.begin by {
                        let j = choose|j: int| 0 <= j < i
                            && oldreq.take(i as int)[j] == kept@[p];
                        assert(oldreq[j] == kept@[p]);
                        assert(oldreq[j].0.begin != oldreq[i as int].0.begin);
                    }
                }
                let ghost before = kept@;
                kept.push(entry);
                proof {
                    assert(kept@[kept@.len() - 1] == oldreq[i as int]);
                    assert(oldreq.take(i + 1)[i as int] == oldreq[i as int]);
                    assert(oldreq.take(i + 1).contains(oldreq[i as int]));
                    assert forall|p: int| 0 <= p < before.len() implies
                        oldreq.take(i + 1).contains(#[trigger] kept@[p]) by {
                        let j = choose|j: int| 0 <= j < i
                            && oldreq.take(i as int)[j] == before[p];
                        assert(kept@[p] == before[p]);
                        assert(oldreq.take(i + 1)[j] == kept@[p]);
                    }
                    assert forall|j: int| 0 <= j < i + 1 && (#[trigger] oldreq[j]).0 != block.info
                        implies kept@.contains(oldreq[j]) by {
                        if j < i {
                            let p = choose|p: int| 0 <= p < before.len() && before[p] == oldreq[j];
                            assert(kept@[p] == oldreq[j]);
                        } else {
                            assert(kept@[kept@.len() - 1] == oldreq[j]);
                        }
                    }
                }
            } else {
                proof {
                    assert forall|p: int| 0 <= p < kept@.len() implies
                        oldreq.take(i + 1).contains(#[trigger] kept@[p]) by {
                        let j = choose|j: int| 0 <= j < i
                            && oldreq.take(i as int)[j] == kept@[p];
                        assert(oldreq.take(i + 1)[j] == kept@[p]);
                    }
                }
            }
            i = i + 1;
        }
        proof {
            assert(oldreq.take(n as int) =~= oldreq);
        }
        self.requested_blocks = kept;
        proof {
            assert forall|p: int| 0 <= p < self.requested_blocks@.len() implies
                old(self).is_declared_block((#[trigger] self.requested_blocks@[p]).0) by {
                let j = choose|j: int| 0 <= j < oldreq.len()
                    && oldreq[j] == self.requested_blocks@[p];
                assert(oldreq[j] == self.requested_blocks@[p]);
            }
            assert forall|p: int, q: int|
                0 <= p < self.missing_blocks@.len() && 0 <= q < self.requested_blocks@.len()
                implies (#[trigger] self.missing_blocks@[p]).begin
                    != (#[trigger] self.requested_blocks@[q]).0.begin by {
                let j = choose|j: int| 0 <= j < oldreq.len()
                    && oldreq[j] == self.requested_blocks@[q];
                assert(self.missing_blocks@[p].begin != oldreq[j].0.begin);
            }
        }
        // Insert the block at its offset: replace the block already there,
        // append otherwise.
        let ghost oldblocks = self.blocks@;
        let m: usize = self.blocks.len();
        let mut found: bool = false;
        let mut fidx: usize = 0;
        let mut i2: usize = 0;
        while i2 < m
            invariant
                m == self.blocks@.len(),
                i2 <= m,
                found ==> fidx < i2
                    && self.blocks@[fidx as int].info.begin == block.info.begin,
                !found ==> forall|j: int| 0 <= j < i2
                    ==> (#[trigger] self.blocks@[j]).info.begin != block.info.begin,
            decreases m - i2,
        {
            if self.blocks[i2].info.begin == block.info.begin {
                found = true;
                fidx = i2;
            }
            i2 = i2 + 1;
        }
        let received_at: u64 = block.received_at;
        if found {
            self.blocks[fidx] = block;
            proof {
                assert(self.blocks@ == oldblocks.update(fidx as int, block));
                let j = choose|j: int| 0 <= j < oldblocks.len()
                    && (#[trigger] oldblocks[j]).info.begin == block.info.begin;
                assert(j == fidx) by {
                    if j != fidx {
                        assert(oldblocks[j].info.begin != oldblocks[fidx as int].info.begin);
                    }
                }
                assert(self.blocks@ == spec_ingest_blocks(oldblocks, block));
            }
        } else {
            self.blocks.push(block);
            if self.download_start.is_none() {
                self.download_start = Some(received_at);
            }
            proof {
                assert(self.blocks@ == spec_ingest_blocks(oldblocks, block));
            }
        }
        if self.is_complete() {
            self.state = PieceState::Complete;
            self.download_complete = Some(received_at);
        }
        Ok(())
    }

    /// Assembles the received blocks into one contiguous buffer of the
    /// piece's length, each block copied to its offset. Requires completion;
    /// two blocks claiming the same byte are a programming error and fail
    /// rather than silently overwrite, so it succeeds exactly when the piece
    /// is complete and its blocks are pairwise disjoint.
    #[verifier::loop_isolation(false)]
    pub fn assemble_piece(&self) -> (r: Result<Vec<u8>, PieceError>)
        requires
            self.wf(),
        ensures
            r is Ok <==> self.spec_is_complete() && self.spec_blocks_disjoint(),
            r matches Ok(d) ==> {
                &&& d@.len() == self.length
                &&& d@ == spec_assembled(self.blocks@, self.length as int)
                &&& forall|j: int, k: int|
                        0 <= j < self.blocks@.len()
                            && 0 <= k < self.blocks@[j].data@.len()
                        ==> #[trigger] d@[self.blocks@[j].info.begin + k]
                            == self.blocks@[j].data@[k]
            },
            r matches Err(e) ==> (e == PieceError::PieceNotComplete
                <==> !self.spec_is_complete()),
            r matches Err(e) ==> e == PieceError::PieceNotComplete
                || e == PieceError::OverlappingBlocks,
    {
        if !self.is_complete() {
            return Err(PieceError::PieceNotComplete);
        }
        let len: usize = self.length;
        let mut buf: Vec<u8> = Vec::new();
        let mut covered: Vec<bool> = Vec::new();
        let mut z: usize = 0;
        while z < len
            invariant
                z <= len,
                buf@.len() == z,
                covered@.len() == z,
                forall|p: int| 0 <= p < z ==> !(#[trigger] covered@[p]),
                forall|p: int| 0 <= p < z ==> (#[trigger] buf@[p]) == 0,
            decreases len - z,
        {
            buf.push(0);
            covered.push(false);
            z = z + 1;
        }
        let n: usize = self.blocks.len();
        let mut j: usize = 0;
        while j < n
            invariant
                n == self.blocks@.len(),
                j <= n,
                buf@.len() == len,
                covered@.len() == len,
                // A byte is covered exactly when one of the first `j` blocks
                // claims it.
                forall|p: int| 0 <= p < len ==> ((#[trigger] covered@[p]) <==> exists|i: int|
                    0 <= i < j && (#[trigger] self.blocks@[i]).info.begin <= p
                        < self.blocks@[i].info.begin + self.blocks@[i].data@.len()),
                // Placed bytes agree with their blocks.
                forall|i: int, k: int|
                    0 <= i < j && 0 <= k < self.blocks@[i].data@.len()
                    ==> #[trigger] buf@[self.blocks@[i].info.begin + k]
                        == self.blocks@[i].data@[k],
                // Untouched positions still hold their zero fill.
                forall|p: int| 0 <= p < len && !covered@[p] ==> (#[trigger] buf@[p]) == 0,
                // The first `j` blocks are pairwise disjoint.
                forall|i1: int, i2: int| 0 <= i1 < j && 0 <= i2 < j && i1 != i2 ==> {
                    let a = #[trigger] self.blocks@[i1];
                    let b = #[trigger] self.blocks@[i2];
                    a.data@.len() == 0 || b.data@.len() == 0
                        || a.info.begin + a.data@.len() <= b.info.begin
                        || b.info.begin + b.data@.len() <= a.info.begin
                },
            decreases n - j,
        {
            let begin: usize = self.blocks[j].info.begin;
            let blen: usize = self.blocks[j].data.len();
            let mut k: usize = 0;
            while k < blen
                invariant
                    n == self.blocks@.len(),
                    j < n,
                    begin == self.blocks@[j as int].info.begin,
                    blen == self.blocks@[j as int].data@.len(),
                    begin + blen <= len,
                    k <= blen,
                    buf@.len() == len,
                    covered@.len() == len,
                    // Coverage: the first `j` blocks plus this block's first
                    // `k` bytes.
                    forall|p: int| 0 <= p < len ==> ((#[trigger] covered@[p]) <==> {
                        ||| exists|i: int| 0 <= i < j
                                && (#[trigger] self.blocks@[i]).info.begin <= p
                                    < self.blocks@[i].info.begin + self.blocks@[i].data@.len()
                        ||| begin <= p < begin + k
                    }),
                    forall|i: int, kk: int|
                        0 <= i < j && 0 <= kk < self.blocks@[i].data@.len()
                        ==> #[trigger] buf@[self.blocks@[i].info.begin + kk]
                            == self.blocks@[i].data@[kk],
                    forall|kk: int| 0 <= kk < k
                        ==> buf@[begin + kk] == self.blocks@[j as int].data@[kk],
                    forall|p: int| 0 <= p < len && !covered@[p] ==> (#[trigger] buf@[p]) == 0,
                    // No overlap between this block's first `k` bytes and any
                    // earlier block.
                    forall|i: int| 0 <= i < j ==> {
                        let a = #[trigger] self.blocks@[i];
                        k == 0
                            || a.data@.len() == 0
                            || a.info.begin + a.data@.len() <= begin
                            || begin + k <= a.info.begin
                    },
                    forall|i1: int, i2: int| 0 <= i1 < j && 0 <= i2 < j && i1 != i2 ==> {
                        let a = #[trigger] self.blocks@[i1];
                        let b = #[trigger] self.blocks@[i2];
                        a.data@.len() == 0 || b.data@.len() == 0
                            || a.info.begin + a.data@.len() <= b.info.begin
                            || b.info.begin + b.data@.len() <= a.info.begin
                    },
                decreases blen - k,
            {
                let pos: usize = begin + k;
                if covered[pos] {
                    proof {
                        // An earlier block already claimed this byte, so the
                        // blocks are not pairwise disjoint.
                        let i = choose|i: int| 0 <= i < j
                            && (#[trigger] self.blocks@[i]).info.begin <= (pos as int)
                                < self.blocks@[i].info.begin + self.blocks@[i].data@.len();
                        assert(!self.spec_blocks_disjoint()) by {
                            let a = self.blocks@[i];
                            let b = self.blocks@[j as int];
                            assert(!(a.info.begin + a.data@.len() <= b.info.begin
                                || b.info.begin + b.data@.len() <= a.info.begin));
                        }
                    }
                    return Err(PieceError::OverlappingBlocks);
                }
                buf[pos] = self.blocks[j].data[k];
                covered[pos] = true;
                proof {
                    // No earlier block holds this byte, so each one's range
                    // still avoids the prefix written so far.
                    assert forall|i: int| 0 <= i < j implies {
                        let a = #[trigger] self.blocks@[i];
                        a.data@.len() == 0
                            || a.info.begin + a.data@.len() <= begin
                            || begin + k + 1 <= a.info.begin
                    } by {
                        let a = self.blocks@[i];
                        if a.data@.len() > 0 && !(a.info.begin + a.data@.len() <= begin) {
                            if a.info.begin <= pos as int {
                                assert(a.info.begin <= (pos as int)
                                    < a.info.begin + a.data@.len());
                                assert(false);
                            }
                        }
                    }
                }
                k = k + 1;
            }
            proof {
                // This block's whole range avoids every earlier one, so the
                // pairwise disjointness extends to it.
                assert forall|i1: int, i2: int|
                    0 <= i1 < j + 1 && 0 <= i2 < j + 1 && i1 != i2 implies {
                    let a = #[trigger] self.blocks@[i1];
                    let b = #[trigger] self.blocks@[i2];
                    a.data@.len() == 0 || b.data@.len() == 0
                        || a.info.begin + a.data@.len() <= b.info.begin
                        || b.info.begin + b.data@.len() <= a.info.begin
                } by {
                    if i1 == j || i2 == j {
                        let e = if i1 == j { self.blocks@[i2] } else { self.blocks@[i1] };
                        let c = self.blocks@[j as int];
                        if c.data@.len() > 0 {
                            assert(e.data@.len() == 0
                                || e.info.begin + e.data@.len() <= begin
                                || begin + blen <= e.info.begin);
                        }
                    }
                }
            }
            j = j + 1;
        }
        proof {
            // Each position of the buffer is the covering block's byte, or
            // the zero fill where no block reaches: exactly the assembly.
            assert(buf@ =~= spec_assembled(self.blocks@, self.length as int)) by {
                assert forall|p: int| 0 <= p < len implies
                    buf@[p] == spec_assembled(self.blocks@, self.length as int)[p] by {
                    if exists|i: int| 0 <= i < self.blocks@.len()
                        && block_covers(#[trigger] self.blocks@[i], p) {
                        let i = choose|i: int| 0 <= i < self.blocks@.len()
                            && block_covers(#[trigger] self.blocks@[i], p);
                        let kk = p - self.blocks@[i].info.begin;
                        assert(buf@[self.blocks@[i].info.begin + kk]
                            == self.blocks@[i].data@[kk]);
                    } else {
                        assert(!covered@[p]) by {
                            if covered@[p] {
                                let i = choose|i: int| 0 <= i < n
                                    && (#[trigger] self.blocks@[i]).info.begin <= p
                                        < self.blocks@[i].info.begin
                                            + self.blocks@[i].data@.len();
                                assert(block_covers(self.blocks@[i], p));
                            }
                        }
                    }
                }
            }
        }
        Ok(buf)
    }

    /// True exactly when `data` hashes to this piece's expected digest.
    pub fn verify_hash(&self, data: &[u8]) -> (r: bool)
        ensures
            r <==> sha1_of(data@) == self.hash@,
    {
        sha1_matches(data, self.hash.as_slice())
    }
}

/// No two blocks of the map claim the same byte: any two with bytes at all
/// sit in disjoint ranges.
pub open spec fn blocks_disjoint(blocks: Seq<Block>) -> bool {
    forall|i: int, j: int| 0 <= i < blocks.len() && 0 <= j < blocks.len()
        && i != j ==> {
        let a = #[trigger] blocks[i];
        let b = #[trigger] blocks[j];
        a.data@.len() == 0 || b.data@.len() == 0
            || a.info.begin + a.data@.len() <= b.info.begin
            || b.info.begin + b.data@.len() <= a.info.begin
    }
}

/// The received map after inserting `block` at its offset: the block at the
/// same offset is replaced if one is there, and appended otherwise.
pub open spec fn spec_ingest_blocks(blocks: Seq<Block>, block: Block) -> Seq<Block> {
    if exists|j: int| 0 <= j < blocks.len()
        && (#[trigger] blocks[j]).info.begin == block.info.begin {
        let j = choose|j: int| 0 <= j < blocks.len()
            && (#[trigger] blocks[j]).info.begin == block.info.begin;
        blocks.update(j, block)
    } else {
        blocks.push(block)
    }
}

/// `block` holds the piece-space byte at piece-relative position `p`.
pub open spec fn block_covers(b: Block, p: int) -> bool {
    b.info.begin <= p < b.info.begin + b.data@.len()
}

/// The bytes of a piece as its received blocks lay them out: each position
/// takes its byte from the block covering it (unique when the blocks are
/// disjoint), and zero where no block reaches.
pub open spec fn spec_assembled(blocks: Seq<Block>, length: int) -> Seq<u8> {
    Seq::new(length as nat, |p: int|
        if exists|j: int| 0 <= j < blocks.len() && block_covers(#[trigger] blocks[j], p) {
            let j = choose|j: int| 0 <= j < blocks.len()
                && block_covers(#[trigger] blocks[j], p);
            blocks[j].data@[p - blocks[j].info.begin]
        } else {
            0u8
        })
}

/// How many request entries are not yet expired at `now`: what the request
/// map holds right after the reap.
pub open spec fn count_unexpired(reqs: Seq<(BlockInfo, u64)>, now: u64) -> int
    decreases reqs,
{
    if reqs.len() == 0 {
        0
    } else {
        count_unexpired(reqs.drop_last(), now)
            + if Piece::spec_expired(reqs.last().1, now) { 0int } else { 1int }
    }
}

/// Descriptors at distinct block-size strides have distinct begins.
proof fn lemma_distinct_strides(s: Seq<BlockInfo>)
    requires
        forall|k: int| 0 <= k < s.len() ==> (#[trigger] s[k]).begin == k * BLOCK_SIZE,
    ensures
        forall|i: int, j: int| 0 <= i < j < s.len()
            ==> (#[trigger] s[i]).begin != (#[trigger] s[j]).begin,
{
    assert forall|i: int, j: int| 0 <= i < j < s.len() implies
        (#[trigger] s[i]).begin != (#[trigger] s[j]).begin by {
        assert(i * BLOCK_SIZE < j * BLOCK_SIZE) by (nonlinear_arith)
            requires i < j, BLOCK_SIZE >= 1,
        ;
    }
}

} // verus!
