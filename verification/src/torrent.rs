//! The metainfo model: the typed view of a torrent file.
//!
//! A metainfo file is a bencoded dictionary with an `announce` URL and an
//! `info` dictionary holding `name`, `piece length`, the concatenated
//! 20-byte piece hashes, and either a single `length` or a `files` list.
//! Each projector below is specified by a total spec-level counterpart, so
//! its contract says exactly which inputs succeed, what is returned, and
//! which failure names which field otherwise.

use vstd::prelude::*;
use vstd::utf8::{valid_utf8, decode_utf8};
use crate::bencode::{
    BencodeValue, BencodeError, dict_first, dict_get, encoded, encoded_pairs,
    lemma_dict_first_congruent, lemma_encoded_congruent, lemma_encoded_list_pointwise,
    lemma_encoded_pairs_pointwise,
};
use crate::hashing::{sha1_of, sha1_digest};
use crate::text::bytes_to_string;

verus! {

// --- Dictionary keys -----------------------------------------------------

/// The dictionary key `"announce"` as bytes.
pub open spec fn spec_key_announce() -> Seq<u8> {
    seq![97u8, 110u8, 110u8, 111u8, 117u8, 110u8, 99u8, 101u8]
}

fn key_announce() -> (r: &'static [u8])
    ensures
        r@ == spec_key_announce(),
{
    let r = "announce".as_bytes();
    proof {
        reveal_strlit("announce");
        assert(vstd::string::is_ascii("announce"));
        broadcast use vstd::string::is_ascii_spec_bytes;
        assert(r@ =~= spec_key_announce());
    }
    r
}

/// The dictionary key `"info"` as bytes.
pub open spec fn spec_key_info() -> Seq<u8> {
    seq![105u8, 110u8, 102u8, 111u8]
}

fn key_info() -> (r: &'static [u8])
    ensures
        r@ == spec_key_info(),
{
    let r = "info".as_bytes();
    proof {
        reveal_strlit("info");
        assert(vstd::string::is_ascii("info"));
        broadcast use vstd::string::is_ascii_spec_bytes;
        assert(r@ =~= spec_key_info());
    }
    r
}

/// The dictionary key `"name"` as bytes.
pub open spec fn spec_key_name() -> Seq<u8> {
    seq![110u8, 97u8, 109u8, 101u8]
}

fn key_name() -> (r: &'static [u8])
    ensures
        r@ == spec_key_name(),
{
    let r = "name".as_bytes();
    proof {
        reveal_strlit("name");
        assert(vstd::string::is_ascii("name"));
        broadcast use vstd::string::is_ascii_spec_bytes;
        assert(r@ =~= spec_key_name());
    }
    r
}

/// The dictionary key `"piece length"` as bytes.
pub open spec fn spec_key_piece_length() -> Seq<u8> {
    seq![112u8, 105u8, 101u8, 99u8, 101u8, 32u8, 108u8, 101u8, 110u8, 103u8, 116u8, 104u8]
}

fn key_piece_length() -> (r: &'static [u8])
    ensures
        r@ == spec_key_piece_length(),
{
    let r = "piece length".as_bytes();
    proof {
        reveal_strlit("piece length");
        assert(vstd::string::is_ascii("piece length"));
        broadcast use vstd::string::is_ascii_spec_bytes;
        assert(r@ =~= spec_key_piece_length());
    }
    r
}

/// The dictionary key `"pieces"` as bytes.
pub open spec fn spec_key_pieces() -> Seq<u8> {
    seq![112u8, 105u8, 101u8, 99u8, 101u8, 115u8]
}

fn key_pieces() -> (r: &'static [u8])
    ensures
        r@ == spec_key_pieces(),
{
    let r = "pieces".as_bytes();
    proof {
        reveal_strlit("pieces");
        assert(vstd::string::is_ascii("pieces"));
        broadcast use vstd::string::is_ascii_spec_bytes;
        assert(r@ =~= spec_key_pieces());
    }
    r
}

/// The dictionary key `"length"` as bytes.
pub open spec fn spec_key_length() -> Seq<u8> {
    seq![108u8, 101u8, 110u8, 103u8, 116u8, 104u8]
}

fn key_length() -> (r: &'static [u8])
    ensures
        r@ == spec_key_length(),
{
    let r = "length".as_bytes();
    proof {
        reveal_strlit("length");
        assert(vstd::string::is_ascii("length"));
        broadcast use vstd::string::is_ascii_spec_bytes;
        assert(r@ =~= spec_key_length());
    }
    r
}

/// The dictionary key `"files"` as bytes.
pub open spec fn spec_key_files() -> Seq<u8> {
    seq![102u8, 105u8, 108u8, 101u8, 115u8]
}

fn key_files() -> (r: &'static [u8])
    ensures
        r@ == spec_key_files(),
{
    let r = "files".as_bytes();
    proof {
        reveal_strlit("files");
        assert(vstd::string::is_ascii("files"));
        broadcast use vstd::string::is_ascii_spec_bytes;
        assert(r@ =~= spec_key_files());
    }
    r
}

/// The dictionary key `"path"` as bytes.
pub open spec fn spec_key_path() -> Seq<u8> {
    seq![112u8, 97u8, 116u8, 104u8]
}

fn key_path() -> (r: &'static [u8])
    ensures
        r@ == spec_key_path(),
{
    let r = "path".as_bytes();
    proof {
        reveal_strlit("path");
        assert(vstd::string::is_ascii("path"));
        broadcast use vstd::string::is_ascii_spec_bytes;
        assert(r@ =~= spec_key_path());
    }
    r
}

// --- Errors and types ----------------------------------------------------

/// The metainfo field a failure names.
#[derive(Debug, Clone, Copy, PartialEq, Eq, Structural)]
pub enum MetainfoField {
    Announce,
    Info,
    Name,
    PieceLength,
    Pieces,
    Length,
    Files,
}

/// Why a metainfo projection failed.
#[derive(Debug, Clone, Copy, PartialEq, Eq, Structural)]
pub enum MetainfoError {
    /// The input is not well-formed bencode.
    Syntax(BencodeError),
    /// The top-level value is not a dictionary.
    NotADictionary,
    /// A required field is absent.
    Missing(MetainfoField),
    /// A field is present but has the wrong shape or value.
    Malformed(MetainfoField),
}

/// One output file of a multi-file torrent: its path components under the
/// torrent's root directory, and its length in bytes.
#[derive(Debug, Clone)]
pub struct TorrentFile {
    pub path: Vec<String>,
    pub length: usize,
}

impl View for TorrentFile {
    type V = (Seq<Seq<char>>, int);

    open spec fn view(&self) -> (Seq<Seq<char>>, int) {
        (self.path.deep_view(), self.length as int)
    }
}

/// The typed view of a torrent file.
#[derive(Debug, Clone)]
pub struct Torrent {
    /// Tracker announce URL; non-empty.
    pub announce: String,
    /// SHA-1 of the bencoded `info` dictionary; 20 bytes.
    pub info_hash: Vec<u8>,
    /// Nominal size of every piece except possibly the last; positive.
    pub piece_length: usize,
    /// One 20-byte SHA-1 digest per piece, in piece-index order.
    pub pieces: Vec<Vec<u8>>,
    /// On-disk file or root-directory name; non-empty.
    pub name: String,
    /// Total payload length: the sum of all file lengths; positive.
    pub length: usize,
    /// `None` for a single-file torrent, the declared file list otherwise.
    pub files: Option<Vec<TorrentFile>>,
}

// --- Spec-level projection -----------------------------------------------

/// The pair list of the `info` dictionary, or the failure that looking it
/// up reports.
pub open spec fn spec_info(v: BencodeValue) -> Result<Seq<(Vec<u8>, BencodeValue)>, MetainfoError> {
    match v {
        BencodeValue::Dictionary(pairs) => match dict_first(pairs@, spec_key_info()) {
            Some(BencodeValue::Dictionary(ip)) => Ok(ip@),
            Some(_) => Err(MetainfoError::Malformed(MetainfoField::Info)),
            None => Err(MetainfoError::Missing(MetainfoField::Info)),
        },
        _ => Err(MetainfoError::NotADictionary),
    }
}

/// The announce URL: a non-empty UTF-8 byte string at the top level.
pub open spec fn spec_announce(v: BencodeValue) -> Result<Seq<char>, MetainfoError> {
    match v {
        BencodeValue::Dictionary(pairs) => match dict_first(pairs@, spec_key_announce()) {
            Some(BencodeValue::Bytes(b)) => if b@.len() > 0 && valid_utf8(b@) {
                Ok(decode_utf8(b@))
            } else {
                Err(MetainfoError::Malformed(MetainfoField::Announce))
            },
            Some(_) => Err(MetainfoError::Malformed(MetainfoField::Announce)),
            None => Err(MetainfoError::Missing(MetainfoField::Announce)),
        },
        _ => Err(MetainfoError::NotADictionary),
    }
}

/// The name: a non-empty UTF-8 byte string in the `info` dictionary.
pub open spec fn spec_name(v: BencodeValue) -> Result<Seq<char>, MetainfoError> {
    match spec_info(v) {
        Ok(ip) => match dict_first(ip, spec_key_name()) {
            Some(BencodeValue::Bytes(b)) => if b@.len() > 0 && valid_utf8(b@) {
                Ok(decode_utf8(b@))
            } else {
                Err(MetainfoError::Malformed(MetainfoField::Name))
            },
            Some(_) => Err(MetainfoError::Malformed(MetainfoField::Name)),
            None => Err(MetainfoError::Missing(MetainfoField::Name)),
        },
        Err(e) => Err(e),
    }
}

/// The piece length: a positive integer in the `info` dictionary that fits
/// the machine word.
pub open spec fn spec_piece_length(v: BencodeValue) -> Result<int, MetainfoError> {
    match spec_info(v) {
        Ok(ip) => match dict_first(ip, spec_key_piece_length()) {
            Some(BencodeValue::Integer(l)) => if 1 <= l as int <= usize::MAX as int {
                Ok(l as int)
            } else {
                Err(MetainfoError::Malformed(MetainfoField::PieceLength))
            },
            Some(_) => Err(MetainfoError::Malformed(MetainfoField::PieceLength)),
            None => Err(MetainfoError::Missing(MetainfoField::PieceLength)),
        },
        Err(e) => Err(e),
    }
}

/// The 20-byte chunks of a concatenated hash string.
pub open spec fn hash_chunks(b: Seq<u8>) -> Seq<Seq<u8>> {
    Seq::new((b.len() / 20) as nat, |i: int| b.subrange(20 * i, 20 * i + 20))
}

/// The piece hashes: a byte string in the `info` dictionary whose length is
/// a multiple of 20, split into 20-byte digests.
pub open spec fn spec_pieces(v: BencodeValue) -> Result<Seq<Seq<u8>>, MetainfoError> {
    match spec_info(v) {
        Ok(ip) => match dict_first(ip, spec_key_pieces()) {
            Some(BencodeValue::Bytes(b)) => if b@.len() % 20 == 0 {
                Ok(hash_chunks(b@))
            } else {
                Err(MetainfoError::Malformed(MetainfoField::Pieces))
            },
            Some(_) => Err(MetainfoError::Malformed(MetainfoField::Pieces)),
            None => Err(MetainfoError::Missing(MetainfoField::Pieces)),
        },
        Err(e) => Err(e),
    }
}

/// One entry of the `files` list: a dictionary with a machine-word `length`
/// and a non-empty `path` list of UTF-8 byte strings.
pub open spec fn spec_file_entry(fv: BencodeValue) -> Option<(Seq<Seq<char>>, int)> {
    match fv {
        BencodeValue::Dictionary(fd) => match (dict_first(fd@, spec_key_length()), dict_first(fd@, spec_key_path())) {
            (Some(BencodeValue::Integer(l)), Some(BencodeValue::List(pl))) => {
                if 0 <= l as int <= usize::MAX as int && pl@.len() > 0 {
                    match spec_path_segments(pl@) {
                        Some(segs) => Some((segs, l as int)),
                        None => None,
                    }
                } else {
                    None
                }
            },
            _ => None,
        },
        _ => None,
    }
}

/// The decoded path components of a `path` list, each a UTF-8 byte string.
pub open spec fn spec_path_segments(pl: Seq<BencodeValue>) -> Option<Seq<Seq<char>>>
    decreases pl,
{
    if pl.len() == 0 {
        Some(Seq::empty())
    } else {
        match pl[0] {
            BencodeValue::Bytes(b) => if valid_utf8(b@) {
                match spec_path_segments(pl.drop_first()) {
                    Some(rest) => Some(seq![decode_utf8(b@)] + rest),
                    None => None,
                }
            } else {
                None
            },
            _ => None,
        }
    }
}

/// All entries of a `files` list, in declared order.
pub open spec fn spec_files_entries(fl: Seq<BencodeValue>) -> Option<Seq<(Seq<Seq<char>>, int)>>
    decreases fl,
{
    if fl.len() == 0 {
        Some(Seq::empty())
    } else {
        match spec_file_entry(fl[0]) {
            Some(e) => match spec_files_entries(fl.drop_first()) {
                Some(rest) => Some(seq![e] + rest),
                None => None,
            },
            None => None,
        }
    }
}

/// The file list: absent for a single-file torrent, else the declared
/// entries in order.
pub open spec fn spec_files(v: BencodeValue) -> Result<Option<Seq<(Seq<Seq<char>>, int)>>, MetainfoError> {
    match spec_info(v) {
        Ok(ip) => match dict_first(ip, spec_key_files()) {
            None => Ok(None),
            Some(BencodeValue::List(fl)) => match spec_files_entries(fl@) {
                Some(es) => Ok(Some(es)),
                None => Err(MetainfoError::Malformed(MetainfoField::Files)),
            },
            Some(_) => Err(MetainfoError::Malformed(MetainfoField::Files)),
        },
        Err(e) => Err(e),
    }
}

/// The sum of the declared file lengths.
pub open spec fn sum_entry_lengths(es: Seq<(Seq<Seq<char>>, int)>) -> int
    decreases es,
{
    if es.len() == 0 {
        0
    } else {
        es[0].1 + sum_entry_lengths(es.drop_first())
    }
}

/// The total payload length: the single-file `length` integer where
/// present, otherwise the sum of the `files` lengths; positive and within
/// the machine word either way.
pub open spec fn spec_length(v: BencodeValue) -> Result<int, MetainfoError> {
    match spec_info(v) {
        Ok(ip) => match dict_first(ip, spec_key_length()) {
            Some(BencodeValue::Integer(l)) => if 1 <= l as int <= usize::MAX as int {
                Ok(l as int)
            } else {
                Err(MetainfoError::Malformed(MetainfoField::Length))
            },
            Some(_) => Err(MetainfoError::Malformed(MetainfoField::Length)),
            None => match spec_files(v) {
                Ok(Some(es)) => if 1 <= sum_entry_lengths(es) <= usize::MAX as int {
                    Ok(sum_entry_lengths(es))
                } else {
                    Err(MetainfoError::Malformed(MetainfoField::Length))
                },
                Ok(None) => Err(MetainfoError::Missing(MetainfoField::Length)),
                Err(e) => Err(e),
            },
        },
        Err(e) => Err(e),
    }
}

/// The info fingerprint: the SHA-1 of the canonical encoding of the `info`
/// dictionary. It depends on the `info` pairs alone, so it is stable across
/// repeated decodes and indifferent to the order of unrelated top-level
/// keys.
pub open spec fn spec_fingerprint(v: BencodeValue) -> Result<Seq<u8>, MetainfoError> {
    match spec_info(v) {
        Ok(ip) => Ok(sha1_of(seq![100u8] + encoded_pairs(ip) + seq![101u8])),
        Err(e) => Err(e),
    }
}

/// The fingerprint depends on the `info` dictionary alone: two metainfo
/// values with the same `info` pairs have the same fingerprint, whatever
/// their other top-level keys and whatever order those come in.
pub proof fn lemma_fingerprint_depends_on_info_only(v1: BencodeValue, v2: BencodeValue)
    requires
        spec_info(v1) is Ok,
        spec_info(v1) == spec_info(v2),
    ensures
        spec_fingerprint(v1) == spec_fingerprint(v2),
{
}

impl DeepView for TorrentFile {
    type V = (Seq<Seq<char>>, int);

    open spec fn deep_view(&self) -> (Seq<Seq<char>>, int) {
        self.view()
    }
}

/// The file list of a torrent as spec-level entries.
pub open spec fn files_view(of: Option<Vec<TorrentFile>>) -> Option<Seq<(Seq<Seq<char>>, int)>> {
    match of {
        None => None,
        Some(fs) => Some(fs.deep_view()),
    }
}

/// The sum of the entry lengths is nonnegative when every entry's is.
pub proof fn lemma_sum_entry_lengths_nonneg(es: Seq<(Seq<Seq<char>>, int)>)
    requires
        forall|i: int| 0 <= i < es.len() ==> (#[trigger] es[i]).1 >= 0,
    ensures
        sum_entry_lengths(es) >= 0,
    decreases es,
{
    if es.len() > 0 {
        assert(forall|i: int| 0 <= i < es.drop_first().len()
            ==> (#[trigger] es.drop_first()[i]).1 >= 0);
        lemma_sum_entry_lengths_nonneg(es.drop_first());
    }
}

// --- Piece sizing --------------------------------------------------------

impl Torrent {
    /// A well-formed torrent: the invariants of the metainfo data model.
    /// Every piece but the last has exactly `piece_length` bytes and the
    /// last has the remainder, so the piece count is forced by the double
    /// inequality below; a multi-file torrent's lengths sum to the total.
    pub open spec fn wf(self) -> bool {
        &&& self.announce@.len() > 0
        &&& self.name@.len() > 0
        &&& self.info_hash@.len() == 20
        &&& self.piece_length > 0
        &&& self.length > 0
        &&& forall|i: int| 0 <= i < self.pieces@.len()
                ==> (#[trigger] self.pieces@[i])@.len() == 20
        &&& self.pieces@.len() >= 1
        &&& (self.pieces@.len() - 1) * (self.piece_length as int) < self.length as int
        &&& self.length as int <= self.pieces@.len() * (self.piece_length as int)
        &&& match self.files {
                Some(fs) => sum_entry_lengths(fs.deep_view()) == self.length as int,
                None => true,
            }
    }

    /// The byte length of piece `i`: the nominal piece length for all but
    /// the last piece, the remainder for the last.
    pub open spec fn spec_piece_size(self, i: int) -> int {
        if i == self.pieces@.len() - 1 {
            self.length - (self.pieces@.len() - 1) * self.piece_length
        } else {
            self.piece_length as int
        }
    }

    /// The byte offset in piece space where piece `i` starts.
    pub open spec fn spec_piece_start(self, i: int) -> int {
        i * self.piece_length
    }
}

/// The sum of the sizes of pieces `0 .. n`.
pub open spec fn sum_piece_sizes(t: Torrent, n: int) -> int
    decreases n,
{
    if n <= 0 {
        0
    } else {
        sum_piece_sizes(t, n - 1) + t.spec_piece_size(n - 1)
    }
}

/// Every piece size is positive and at most the nominal piece length.
pub proof fn lemma_piece_size_bounds(t: Torrent, i: int)
    requires
        t.wf(),
        0 <= i < t.pieces@.len(),
    ensures
        0 < t.spec_piece_size(i) <= t.piece_length as int,
{
    let n = t.pieces@.len() as int;
    let pl = t.piece_length as int;
    if i == n - 1 {
        assert(t.length - (n - 1) * pl > 0);
        assert(t.length - (n - 1) * pl <= pl) by (nonlinear_arith)
            requires t.length as int <= n * pl, n >= 1,
        ;
    }
}

/// The number of pieces is the total length divided by the piece length,
/// rounded up.
pub proof fn lemma_piece_count_is_ceil(t: Torrent)
    requires
        t.wf(),
    ensures
        t.pieces@.len() as int
            == (t.length + t.piece_length - 1) as int / (t.piece_length as int),
{
    let n = t.pieces@.len() as int;
    let pl = t.piece_length as int;
    let l = t.length as int;
    let x = l + pl - 1;
    // x == pl * n + (x - n * pl), with the remainder in [0, pl).
    assert(x - n * pl >= 0) by (nonlinear_arith)
        requires x == l + pl - 1, (n - 1) * pl < l,
    ;
    assert(x - n * pl < pl) by (nonlinear_arith)
        requires x == l + pl - 1, l <= n * pl, pl >= 1,
    ;
    vstd::arithmetic::div_mod::lemma_fundamental_div_mod_converse(x, pl, n, x - n * pl);
}

/// The piece sizes sum to the total length: pieces partition piece space.
pub proof fn lemma_piece_sizes_sum(t: Torrent)
    requires
        t.wf(),
    ensures
        sum_piece_sizes(t, t.pieces@.len() as int) == t.length as int,
{
    let n = t.pieces@.len() as int;
    lemma_sum_piece_sizes_prefix(t, n - 1);
    assert(sum_piece_sizes(t, n) == sum_piece_sizes(t, n - 1) + t.spec_piece_size(n - 1));
}

/// The first `k` pieces, none of them the last, are all nominal size.
proof fn lemma_sum_piece_sizes_prefix(t: Torrent, k: int)
    requires
        t.wf(),
        0 <= k <= t.pieces@.len() - 1,
    ensures
        sum_piece_sizes(t, k) == k * (t.piece_length as int),
    decreases k,
{
    let pl = t.piece_length as int;
    if k == 0 {
        assert(sum_piece_sizes(t, 0) == 0);
        assert(0 * pl == 0) by (nonlinear_arith);
    } else {
        lemma_sum_piece_sizes_prefix(t, k - 1);
        assert(k - 1 < t.pieces@.len() - 1);
        assert(t.spec_piece_size(k - 1) == pl);
        assert(sum_piece_sizes(t, k) == sum_piece_sizes(t, k - 1) + t.spec_piece_size(k - 1));
        assert((k - 1) * pl + pl == k * pl) by (nonlinear_arith);
    }
}

/// Piece starts are ordered and in range: piece `i`'s range is
/// `[i * piece_length, i * piece_length + size(i))`, within the payload.
pub proof fn lemma_piece_start_in_range(t: Torrent, i: int)
    requires
        t.wf(),
        0 <= i < t.pieces@.len(),
    ensures
        0 <= t.spec_piece_start(i),
        t.spec_piece_start(i) + t.spec_piece_size(i) <= t.length as int,
        i < t.pieces@.len() - 1
            ==> t.spec_piece_start(i) + t.spec_piece_size(i) == t.spec_piece_start(i + 1),
{
    let n = t.pieces@.len() as int;
    let pl = t.piece_length as int;
    assert(i * pl >= 0) by (nonlinear_arith)
        requires i >= 0, pl > 0,
    ;
    if i == n - 1 {
        assert(i * pl + t.spec_piece_size(i) == t.length as int);
    } else {
        assert(i * pl + pl == (i + 1) * pl) by (nonlinear_arith);
        assert((i + 1) * pl <= n * pl) by (nonlinear_arith)
            requires i + 1 <= n, pl > 0,
        ;
        lemma_piece_count_is_ceil(t);
        assert((i + 1) * pl <= t.length as int || (i + 1) == n) by (nonlinear_arith)
            requires (n - 1) * pl < t.length as int, i + 1 <= n - 1 || i + 1 == n, pl > 0,
        ;
    }
}

/// Path lists whose elements have equal encodings decode to the same
/// segments.
proof fn lemma_path_segments_congruent(l1: Seq<BencodeValue>, l2: Seq<BencodeValue>)
    requires
        l1.len() == l2.len(),
        forall|i: int| 0 <= i < l1.len() ==> encoded(#[trigger] l1[i]) == encoded(l2[i]),
    ensures
        spec_path_segments(l1) == spec_path_segments(l2),
    decreases l1,
{
    if l1.len() > 0 {
        lemma_encoded_congruent(l1[0], l2[0]);
        assert(forall|i: int| 0 <= i < l1.drop_first().len()
            ==> encoded(#[trigger] l1.drop_first()[i]) == encoded(l2.drop_first()[i])) by {
            assert(forall|i: int| 0 <= i < l1.drop_first().len()
                ==> l1.drop_first()[i] == l1[i + 1] && l2.drop_first()[i] == l2[i + 1]);
        }
        lemma_path_segments_congruent(l1.drop_first(), l2.drop_first());
    }
}

/// File entries with equal encodings project to the same record.
proof fn lemma_file_entry_congruent(f1: BencodeValue, f2: BencodeValue)
    requires
        encoded(f1) == encoded(f2),
    ensures
        spec_file_entry(f1) == spec_file_entry(f2),
{
    lemma_encoded_congruent(f1, f2);
    match f1 {
        BencodeValue::Dictionary(d1) => {
            let d2 = f2->Dictionary_0;
            lemma_encoded_pairs_pointwise(d1@, d2@);
            lemma_dict_first_congruent(d1@, d2@, spec_key_length());
            lemma_dict_first_congruent(d1@, d2@, spec_key_path());
            match dict_first(d1@, spec_key_length()) {
                Some(w1) => {
                    lemma_encoded_congruent(w1, dict_first(d2@, spec_key_length())->0);
                },
                None => {},
            }
            match dict_first(d1@, spec_key_path()) {
                Some(w1) => {
                    let w2 = dict_first(d2@, spec_key_path())->0;
                    lemma_encoded_congruent(w1, w2);
                    if w1 is List {
                        lemma_encoded_list_pointwise(w1->List_0@, w2->List_0@);
                        lemma_path_segments_congruent(w1->List_0@, w2->List_0@);
                    }
                },
                None => {},
            }
        },
        _ => {},
    }
}

/// File lists whose elements have equal encodings project to the same
/// entries.
proof fn lemma_files_entries_congruent(l1: Seq<BencodeValue>, l2: Seq<BencodeValue>)
    requires
        l1.len() == l2.len(),
        forall|i: int| 0 <= i < l1.len() ==> encoded(#[trigger] l1[i]) == encoded(l2[i]),
    ensures
        spec_files_entries(l1) == spec_files_entries(l2),
    decreases l1,
{
    if l1.len() > 0 {
        lemma_file_entry_congruent(l1[0], l2[0]);
        assert(forall|i: int| 0 <= i < l1.drop_first().len()
            ==> encoded(#[trigger] l1.drop_first()[i]) == encoded(l2.drop_first()[i])) by {
            assert(forall|i: int| 0 <= i < l1.drop_first().len()
                ==> l1.drop_first()[i] == l1[i + 1] && l2.drop_first()[i] == l2[i + 1]);
        }
        lemma_files_entries_congruent(l1.drop_first(), l2.drop_first());
    }
}

/// The typed view of a metainfo file is a function of its bytes: two values
/// with the same canonical encoding project identically, field for field.
/// In particular the fingerprint is byte-identical across repeated decodes
/// of the same input.
pub proof fn lemma_projections_congruent(v1: BencodeValue, v2: BencodeValue)
    requires
        encoded(v1) == encoded(v2),
    ensures
        spec_info(v1) is Ok <==> spec_info(v2) is Ok,
        spec_announce(v1) == spec_announce(v2),
        spec_name(v1) == spec_name(v2),
        spec_piece_length(v1) == spec_piece_length(v2),
        spec_pieces(v1) == spec_pieces(v2),
        spec_length(v1) == spec_length(v2),
        spec_files(v1) == spec_files(v2),
        spec_fingerprint(v1) == spec_fingerprint(v2),
{
    lemma_encoded_congruent(v1, v2);
    match v1 {
        BencodeValue::Dictionary(p1) => {
            let p2 = v2->Dictionary_0;
            lemma_encoded_pairs_pointwise(p1@, p2@);
            lemma_dict_first_congruent(p1@, p2@, spec_key_announce());
            match dict_first(p1@, spec_key_announce()) {
                Some(w1) => {
                    lemma_encoded_congruent(w1, dict_first(p2@, spec_key_announce())->0);
                },
                None => {},
            }
            lemma_dict_first_congruent(p1@, p2@, spec_key_info());
            match dict_first(p1@, spec_key_info()) {
                Some(w1) => {
                    let w2 = dict_first(p2@, spec_key_info())->0;
                    lemma_encoded_congruent(w1, w2);
                    if w1 is Dictionary {
                        let ip1 = w1->Dictionary_0@;
                        let ip2 = w2->Dictionary_0@;
                        lemma_encoded_pairs_pointwise(ip1, ip2);
                        lemma_dict_first_congruent(ip1, ip2, spec_key_name());
                        match dict_first(ip1, spec_key_name()) {
                            Some(n1) => {
                                lemma_encoded_congruent(n1, dict_first(ip2, spec_key_name())->0);
                            },
                            None => {},
                        }
                        lemma_dict_first_congruent(ip1, ip2, spec_key_piece_length());
                        match dict_first(ip1, spec_key_piece_length()) {
                            Some(n1) => {
                                lemma_encoded_congruent(
                                    n1, dict_first(ip2, spec_key_piece_length())->0);
                            },
                            None => {},
                        }
                        lemma_dict_first_congruent(ip1, ip2, spec_key_pieces());
                        match dict_first(ip1, spec_key_pieces()) {
                            Some(n1) => {
                                lemma_encoded_congruent(
                                    n1, dict_first(ip2, spec_key_pieces())->0);
                            },
                            None => {},
                        }
                        lemma_dict_first_congruent(ip1, ip2, spec_key_length());
                        match dict_first(ip1, spec_key_length()) {
                            Some(n1) => {
                                lemma_encoded_congruent(
                                    n1, dict_first(ip2, spec_key_length())->0);
                            },
                            None => {},
                        }
                        lemma_dict_first_congruent(ip1, ip2, spec_key_files());
                        match dict_first(ip1, spec_key_files()) {
                            Some(n1) => {
                                let n2 = dict_first(ip2, spec_key_files())->0;
                                lemma_encoded_congruent(n1, n2);
                                if n1 is List {
                                    lemma_encoded_list_pointwise(n1->List_0@, n2->List_0@);
                                    lemma_files_entries_congruent(n1->List_0@, n2->List_0@);
                                }
                            },
                            None => {},
                        }
                    }
                },
                None => {},
            }
        },
        _ => {},
    }
}

/// Distinct pieces occupy disjoint ranges of piece space.
pub proof fn lemma_piece_ranges_disjoint(t: Torrent, i: int, j: int)
    requires
        t.wf(),
        0 <= i < t.pieces@.len(),
        0 <= j < t.pieces@.len(),
        i < j,
    ensures
        t.spec_piece_start(i) + t.spec_piece_size(i) <= t.spec_piece_start(j),
{
    let pl = t.piece_length as int;
    lemma_piece_start_in_range(t, i);
    if i < t.pieces@.len() - 1 {
        assert(t.spec_piece_start(i) + t.spec_piece_size(i) <= t.spec_piece_start(i + 1));
        assert((i + 1) * pl <= j * pl) by (nonlinear_arith)
            requires i + 1 <= j, pl >= 0,
        ;
    }
}

/// Brings every witness of the input's encoding into agreement with the
/// decoded value: all spec projections coincide.
proof fn congruent_witnesses(value: BencodeValue, bytes: Seq<u8>)
    requires
        encoded(value) == bytes,
    ensures
        forall|v: BencodeValue| #[trigger] encoded(v) == bytes ==> {
            &&& spec_announce(v) == spec_announce(value)
            &&& spec_name(v) == spec_name(value)
            &&& spec_piece_length(v) == spec_piece_length(value)
            &&& spec_pieces(v) == spec_pieces(value)
            &&& spec_length(v) == spec_length(value)
            &&& spec_files(v) == spec_files(value)
            &&& spec_fingerprint(v) == spec_fingerprint(value)
        },
{
    assert forall|v: BencodeValue| #[trigger] encoded(v) == bytes implies {
        &&& spec_announce(v) == spec_announce(value)
        &&& spec_name(v) == spec_name(value)
        &&& spec_piece_length(v) == spec_piece_length(value)
        &&& spec_pieces(v) == spec_pieces(value)
        &&& spec_length(v) == spec_length(value)
        &&& spec_files(v) == spec_files(value)
        &&& spec_fingerprint(v) == spec_fingerprint(value)
    } by {
        lemma_projections_congruent(v, value);
    }
}

// --- Executable projection -----------------------------------------------

impl Torrent {
    /// The `info` dictionary's pairs, or the failure naming what is wrong.
    pub fn info_from_value(v: &BencodeValue) -> (r: Result<&Vec<(Vec<u8>, BencodeValue)>, MetainfoError>)
        ensures
            match r {
                Ok(ip) => spec_info(*v) == Ok::<Seq<(Vec<u8>, BencodeValue)>, MetainfoError>(ip@),
                Err(e) => spec_info(*v) == Err::<Seq<(Vec<u8>, BencodeValue)>, MetainfoError>(e),
            },
    {
        match v {
            BencodeValue::Dictionary(pairs) => match dict_get(pairs, key_info()) {
                Some(iv) => match iv {
                    BencodeValue::Dictionary(ip) => Ok(ip),
                    _ => Err(MetainfoError::Malformed(MetainfoField::Info)),
                },
                None => Err(MetainfoError::Missing(MetainfoField::Info)),
            },
            _ => Err(MetainfoError::NotADictionary),
        }
    }

    /// The announce URL as a string.
    pub fn announce_from_value(v: &BencodeValue) -> (r: Result<String, MetainfoError>)
        ensures
            match r {
                Ok(s) => spec_announce(*v) == Ok::<Seq<char>, MetainfoError>(s@),
                Err(e) => spec_announce(*v) == Err::<Seq<char>, MetainfoError>(e),
            },
            r matches Ok(s) ==> s@.len() > 0,
    {
        match v {
            BencodeValue::Dictionary(pairs) => match dict_get(pairs, key_announce()) {
                Some(av) => match av {
                    BencodeValue::Bytes(b) => {
                        if b.len() == 0 {
                            return Err(MetainfoError::Malformed(MetainfoField::Announce));
                        }
                        match bytes_to_string(b.as_slice()) {
                            Some(s) => {
                                proof {
                                    assert(decode_utf8(b@).len() > 0);
                                }
                                Ok(s)
                            },
                            None => Err(MetainfoError::Malformed(MetainfoField::Announce)),
                        }
                    },
                    _ => Err(MetainfoError::Malformed(MetainfoField::Announce)),
                },
                None => Err(MetainfoError::Missing(MetainfoField::Announce)),
            },
            _ => Err(MetainfoError::NotADictionary),
        }
    }

    /// The torrent's name as a string.
    pub fn name_from_value(v: &BencodeValue) -> (r: Result<String, MetainfoError>)
        ensures
            match r {
                Ok(s) => spec_name(*v) == Ok::<Seq<char>, MetainfoError>(s@),
                Err(e) => spec_name(*v) == Err::<Seq<char>, MetainfoError>(e),
            },
            r matches Ok(s) ==> s@.len() > 0,
    {
        let ip = Self::info_from_value(v)?;
        match dict_get(ip, key_name()) {
            Some(nv) => match nv {
                BencodeValue::Bytes(b) => {
                    if b.len() == 0 {
                        return Err(MetainfoError::Malformed(MetainfoField::Name));
                    }
                    match bytes_to_string(b.as_slice()) {
                        Some(s) => {
                            proof {
                                assert(decode_utf8(b@).len() > 0);
                            }
                            Ok(s)
                        },
                        None => Err(MetainfoError::Malformed(MetainfoField::Name)),
                    }
                },
                _ => Err(MetainfoError::Malformed(MetainfoField::Name)),
            },
            None => Err(MetainfoError::Missing(MetainfoField::Name)),
        }
    }

    /// The piece length as a machine word.
    pub fn piece_length_from_value(v: &BencodeValue) -> (r: Result<usize, MetainfoError>)
        ensures
            match r {
                Ok(l) => spec_piece_length(*v) == Ok::<int, MetainfoError>(l as int),
                Err(e) => spec_piece_length(*v) == Err::<int, MetainfoError>(e),
            },
            r matches Ok(l) ==> l >= 1,
    {
        let ip = Self::info_from_value(v)?;
        match dict_get(ip, key_piece_length()) {
            Some(lv) => match lv {
                BencodeValue::Integer(l) => {
                    if *l < 1 {
                        Err(MetainfoError::Malformed(MetainfoField::PieceLength))
                    } else if *l as u64 > usize::MAX as u64 {
                        Err(MetainfoError::Malformed(MetainfoField::PieceLength))
                    } else {
                        Ok(*l as usize)
                    }
                },
                _ => Err(MetainfoError::Malformed(MetainfoField::PieceLength)),
            },
            None => Err(MetainfoError::Missing(MetainfoField::PieceLength)),
        }
    }

    /// The piece hash vector: the `pieces` byte string split into 20-byte
    /// digests.
    pub fn pieces_from_value(v: &BencodeValue) -> (r: Result<Vec<Vec<u8>>, MetainfoError>)
        ensures
            match r {
                Ok(ps) => spec_pieces(*v) == Ok::<Seq<Seq<u8>>, MetainfoError>(ps.deep_view()),
                Err(e) => spec_pieces(*v) == Err::<Seq<Seq<u8>>, MetainfoError>(e),
            },
            r matches Ok(ps) ==> forall|i: int| 0 <= i < ps@.len()
                ==> (#[trigger] ps@[i])@.len() == 20,
    {
        let ip = Self::info_from_value(v)?;
        match dict_get(ip, key_pieces()) {
            Some(pv) => match pv {
                BencodeValue::Bytes(b) => {
                    let n: usize = b.len();
                    if n % 20 != 0 {
                        return Err(MetainfoError::Malformed(MetainfoField::Pieces));
                    }
                    let count: usize = n / 20;
                    let mut out: Vec<Vec<u8>> = Vec::new();
                    let mut k: usize = 0;
                    while k < count
                        invariant
                            n == b@.len(),
                            n % 20 == 0,
                            count == n / 20,
                            k <= count,
                            out@.len() == k,
                            forall|j: int| 0 <= j < k
                                ==> (#[trigger] out@[j])@ == b@.subrange(20 * j, 20 * j + 20),
                        decreases count - k,
                    {
                        assert(20 * (k + 1) <= 20 * count);
                        assert(20 * count == n) by {
                            vstd::arithmetic::div_mod::lemma_fundamental_div_mod(n as int, 20);
                        }
                        let chunk: &[u8] = vstd::slice::slice_subrange(b.as_slice(), 20 * k, 20 * k + 20);
                        let piece: Vec<u8> = vstd::slice::slice_to_vec(chunk);
                        out.push(piece);
                        k = k + 1;
                    }
                    proof {
                        assert(out.deep_view() =~~= hash_chunks(b@));
                    }
                    Ok(out)
                },
                _ => Err(MetainfoError::Malformed(MetainfoField::Pieces)),
            },
            None => Err(MetainfoError::Missing(MetainfoField::Pieces)),
        }
    }

    /// One entry of the `files` list as a typed file record.
    #[verifier::loop_isolation(false)]
    fn parse_file_entry(fv: &BencodeValue) -> (r: Option<TorrentFile>)
        ensures
            match r {
                Some(tf) => spec_file_entry(*fv) == Some(tf@),
                None => spec_file_entry(*fv) is None,
            },
    {
        let fd = match fv {
            BencodeValue::Dictionary(fd) => fd,
            _ => {
                return None;
            },
        };
        let length: usize = match dict_get(fd, key_length()) {
            Some(lv) => match lv {
                BencodeValue::Integer(l) => {
                    if *l < 0 || *l as u64 > usize::MAX as u64 {
                        return None;
                    }
                    *l as usize
                },
                _ => {
                    return None;
                },
            },
            _ => {
                return None;
            },
        };
        let pl = match dict_get(fd, key_path()) {
            Some(pv) => match pv {
                BencodeValue::List(pl) => pl,
                _ => {
                    return None;
                },
            },
            _ => {
                return None;
            },
        };
        let n: usize = pl.len();
        if n == 0 {
            return None;
        }
        let mut segs: Vec<String> = Vec::new();
        let mut k: usize = 0;
        proof {
            assert(pl@.skip(0) =~= pl@);
            assert(segs.deep_view() =~= Seq::<Seq<char>>::empty());
        }
        while k < n
            invariant
                n == pl@.len(),
                k <= n,
                segs.deep_view().len() == k,
                match spec_path_segments(pl@.skip(k as int)) {
                    Some(rest) => spec_path_segments(pl@) == Some(segs.deep_view() + rest),
                    None => spec_path_segments(pl@) is None,
                },
            decreases n - k,
        {
            proof {
                assert(pl@.skip(k as int)[0] == pl@[k as int]);
                assert(pl@.skip(k as int).drop_first() =~= pl@.skip(k + 1));
            }
            match &pl[k] {
                BencodeValue::Bytes(b) => match bytes_to_string(b.as_slice()) {
                    Some(s) => {
                        let ghost old_segs = segs.deep_view();
                        segs.push(s);
                        proof {
                            assert(segs.deep_view() =~= old_segs.push(s@));
                            let sp = spec_path_segments(pl@.skip(k + 1));
                            if sp is Some {
                                let rest = sp.unwrap();
                                assert(segs.deep_view() + rest
                                    =~= old_segs + (seq![s@] + rest));
                            }
                        }
                    },
                    None => {
                        proof {
                            assert(spec_path_segments(pl@.skip(k as int)) is None);
                            assert(spec_path_segments(pl@) is None);
                        }
                        return None;
                    },
                },
                _ => {
                    proof {
                        assert(spec_path_segments(pl@.skip(k as int)) is None);
                        assert(spec_path_segments(pl@) is None);
                    }
                    return None;
                },
            }
            k = k + 1;
        }
        proof {
            assert(pl@.skip(n as int) =~= Seq::<BencodeValue>::empty());
            assert(segs.deep_view() + Seq::<Seq<char>>::empty() =~= segs.deep_view());
        }
        let tf = TorrentFile { path: segs, length };
        Some(tf)
    }

    /// The declared file list, or `None` for a single-file torrent.
    #[verifier::loop_isolation(false)]
    pub fn files_from_value(v: &BencodeValue) -> (r: Result<Option<Vec<TorrentFile>>, MetainfoError>)
        ensures
            match r {
                Ok(of) => spec_files(*v) == Ok::<Option<Seq<(Seq<Seq<char>>, int)>>, MetainfoError>(files_view(of)),
                Err(e) => spec_files(*v) == Err::<Option<Seq<(Seq<Seq<char>>, int)>>, MetainfoError>(e),
            },
    {
        let ip = Self::info_from_value(v)?;
        let fl = match dict_get(ip, key_files()) {
            None => {
                return Ok(None);
            },
            Some(flv) => match flv {
                BencodeValue::List(fl) => fl,
                _ => {
                    return Err(MetainfoError::Malformed(MetainfoField::Files));
                },
            },
        };
        let n: usize = fl.len();
        let mut out: Vec<TorrentFile> = Vec::new();
        let mut k: usize = 0;
        proof {
            assert(fl@.skip(0) =~= fl@);
            assert(out.deep_view() =~= Seq::<(Seq<Seq<char>>, int)>::empty());
        }
        while k < n
            invariant
                n == fl@.len(),
                k <= n,
                match spec_files_entries(fl@.skip(k as int)) {
                    Some(rest) => spec_files_entries(fl@) == Some(out.deep_view() + rest),
                    None => spec_files_entries(fl@) is None,
                },
            decreases n - k,
        {
            proof {
                assert(fl@.skip(k as int)[0] == fl@[k as int]);
                assert(fl@.skip(k as int).drop_first() =~= fl@.skip(k + 1));
            }
            match Self::parse_file_entry(&fl[k]) {
                Some(tf) => {
                    let ghost old_out = out.deep_view();
                    let ghost tfv = tf@;
                    out.push(tf);
                    proof {
                        assert(out.deep_view() =~= old_out.push(tfv));
                        let sp = spec_files_entries(fl@.skip(k + 1));
                        if sp is Some {
                            let rest = sp.unwrap();
                            assert(out.deep_view() + rest =~= old_out + (seq![tfv] + rest));
                        }
                    }
                },
                None => {
                    proof {
                        assert(spec_file_entry(fl@[k as int]) is None);
                        assert(spec_files_entries(fl@.skip(k as int)) is None);
                        assert(spec_files_entries(fl@) is None);
                    }
                    return Err(MetainfoError::Malformed(MetainfoField::Files));
                },
            }
            k = k + 1;
        }
        proof {
            assert(fl@.skip(n as int) =~= Seq::<BencodeValue>::empty());
            assert(out.deep_view() + Seq::<(Seq<Seq<char>>, int)>::empty() =~= out.deep_view());
        }
        Ok(Some(out))
    }

    /// Sums the declared file lengths; `None` when the sum leaves the
    /// machine word.
    fn sum_file_lengths(fs: &Vec<TorrentFile>) -> (r: Option<usize>)
        ensures
            match r {
                Some(s) => s as int == sum_entry_lengths(fs.deep_view()),
                None => sum_entry_lengths(fs.deep_view()) > usize::MAX as int,
            },
    {
        let ghost es = fs.deep_view();
        let n: usize = fs.len();
        let mut acc: usize = 0;
        let mut k: usize = 0;
        proof {
            assert(es.skip(0) =~= es);
            assert(forall|i: int| 0 <= i < es.len() ==> (#[trigger] es[i]).1 >= 0);
        }
        while k < n
            invariant
                n == fs@.len(),
                es == fs.deep_view(),
                es.len() == n,
                forall|i: int| 0 <= i < es.len() ==> (#[trigger] es[i]).1 >= 0,
                forall|i: int| 0 <= i < n ==> (#[trigger] es[i]).1 == fs@[i].length as int,
                k <= n,
                sum_entry_lengths(es) == acc + sum_entry_lengths(es.skip(k as int)),
            decreases n - k,
        {
            proof {
                assert(es.skip(k as int)[0] == es[k as int]);
                assert(es.skip(k as int).drop_first() =~= es.skip(k + 1));
            }
            match acc.checked_add(fs[k].length) {
                Some(next) => {
                    acc = next;
                },
                None => {
                    proof {
                        assert(forall|i: int| 0 <= i < es.skip(k + 1).len()
                            ==> (#[trigger] es.skip(k + 1)[i]).1 >= 0);
                        lemma_sum_entry_lengths_nonneg(es.skip(k + 1));
                    }
                    return None;
                },
            }
            k = k + 1;
        }
        proof {
            assert(es.skip(n as int) =~= Seq::<(Seq<Seq<char>>, int)>::empty());
        }
        Some(acc)
    }

    /// The total payload length.
    pub fn length_from_value(v: &BencodeValue) -> (r: Result<usize, MetainfoError>)
        ensures
            match r {
                Ok(l) => spec_length(*v) == Ok::<int, MetainfoError>(l as int),
                Err(e) => spec_length(*v) == Err::<int, MetainfoError>(e),
            },
            r matches Ok(l) ==> l >= 1,
    {
        let ip = Self::info_from_value(v)?;
        match dict_get(ip, key_length()) {
            Some(lv) => match lv {
                BencodeValue::Integer(l) => {
                    if *l < 1 || *l as u64 > usize::MAX as u64 {
                        Err(MetainfoError::Malformed(MetainfoField::Length))
                    } else {
                        Ok(*l as usize)
                    }
                },
                _ => Err(MetainfoError::Malformed(MetainfoField::Length)),
            },
            None => match Self::files_from_value(v)? {
                Some(fs) => match Self::sum_file_lengths(&fs) {
                    Some(s) => {
                        if s == 0 {
                            Err(MetainfoError::Malformed(MetainfoField::Length))
                        } else {
                            Ok(s)
                        }
                    },
                    None => Err(MetainfoError::Malformed(MetainfoField::Length)),
                },
                None => Err(MetainfoError::Missing(MetainfoField::Length)),
            },
        }
    }

    /// The info fingerprint: the SHA-1 digest of the re-encoded `info`
    /// dictionary.
    pub fn fingerprint_from_value(v: &BencodeValue) -> (r: Result<Vec<u8>, MetainfoError>)
        ensures
            match r {
                Ok(h) => spec_fingerprint(*v) == Ok::<Seq<u8>, MetainfoError>(h@) && h@.len() == 20,
                Err(e) => spec_fingerprint(*v) == Err::<Seq<u8>, MetainfoError>(e),
            },
    {
        let ip = Self::info_from_value(v)?;
        let mut buf: Vec<u8> = Vec::new();
        buf.push(100);
        crate::bencode::encode_pairs_into(ip, &mut buf);
        buf.push(101);
        proof {
            assert(buf@ =~= seq![100u8] + encoded_pairs(ip@) + seq![101u8]);
        }
        Ok(sha1_digest(buf.as_slice()))
    }

    /// Builds the typed metainfo view from the raw bytes of a torrent file:
    /// one decode, then one projection per field, then the shape checks of
    /// the data model. On success the result is well formed and every field
    /// is exactly the spec-level projection of the decoded value, whose
    /// canonical encoding is the input itself.
    pub fn from_bytes(bytes: &[u8]) -> (r: Result<Torrent, MetainfoError>)
        ensures
            r matches Ok(t) ==> t.wf(),
            // Every field of the result is the spec projection of whatever
            // value the input encodes.
            forall|v: BencodeValue| #[trigger] encoded(v) == bytes@ ==> match r {
                Ok(t) => {
                    &&& spec_announce(v) == Ok::<Seq<char>, MetainfoError>(t.announce@)
                    &&& spec_name(v) == Ok::<Seq<char>, MetainfoError>(t.name@)
                    &&& spec_piece_length(v) == Ok::<int, MetainfoError>(t.piece_length as int)
                    &&& spec_pieces(v) == Ok::<Seq<Seq<u8>>, MetainfoError>(t.pieces.deep_view())
                    &&& spec_length(v) == Ok::<int, MetainfoError>(t.length as int)
                    &&& spec_files(v) == Ok::<Option<Seq<(Seq<Seq<char>>, int)>>, MetainfoError>(
                            files_view(t.files))
                    &&& spec_fingerprint(v) == Ok::<Seq<u8>, MetainfoError>(t.info_hash@)
                },
                Err(_) => true,
            },
            // Success is owed: a metainfo file whose projections all succeed
            // and whose shape satisfies the data model (piece count forced
            // by total and piece length; multi-file lengths summing to the
            // total) is accepted.
            forall|v: BencodeValue| #[trigger] encoded(v) == bytes@
                && spec_announce(v) is Ok && spec_name(v) is Ok
                && spec_piece_length(v) is Ok && spec_pieces(v) is Ok
                && spec_length(v) is Ok && spec_files(v) is Ok
                && spec_pieces(v)->Ok_0.len()
                    == (spec_length(v)->Ok_0 - 1) / spec_piece_length(v)->Ok_0 + 1
                && (match spec_files(v)->Ok_0 {
                        Some(es) => sum_entry_lengths(es) == spec_length(v)->Ok_0,
                        None => true,
                    })
                ==> r is Ok,
            // A bencode-level failure comes exactly when the input encodes
            // no value at all.
            (!exists|v: BencodeValue| #[trigger] encoded(v) == bytes@)
                <==> r matches Err(MetainfoError::Syntax(_)),
    {
        let value = match BencodeValue::decode(bytes) {
            Ok(v) => v,
            Err(e) => {
                return Err(MetainfoError::Syntax(e));
            },
        };
        proof {
            assert(encoded(value) == bytes@);
        }
        let announce = match Self::announce_from_value(&value) {
            Ok(x) => x,
            Err(e) => {
                proof {
                    congruent_witnesses(value, bytes@);
                }
                return Err(e);
            },
        };
        let info_hash = match Self::fingerprint_from_value(&value) {
            Ok(x) => x,
            Err(e) => {
                proof {
                    congruent_witnesses(value, bytes@);
                }
                return Err(e);
            },
        };
        let name = match Self::name_from_value(&value) {
            Ok(x) => x,
            Err(e) => {
                proof {
                    congruent_witnesses(value, bytes@);
                }
                return Err(e);
            },
        };
        let piece_length = match Self::piece_length_from_value(&value) {
            Ok(x) => x,
            Err(e) => {
                proof {
                    congruent_witnesses(value, bytes@);
                }
                return Err(e);
            },
        };
        let pieces = match Self::pieces_from_value(&value) {
            Ok(x) => x,
            Err(e) => {
                proof {
                    congruent_witnesses(value, bytes@);
                }
                return Err(e);
            },
        };
        let length = match Self::length_from_value(&value) {
            Ok(x) => x,
            Err(e) => {
                proof {
                    congruent_witnesses(value, bytes@);
                }
                return Err(e);
            },
        };
        let files = match Self::files_from_value(&value) {
            Ok(x) => x,
            Err(e) => {
                proof {
                    congruent_witnesses(value, bytes@);
                }
                return Err(e);
            },
        };

        // The hash vector must cover the payload exactly: one digest per
        // piece, the count forced by the total and the piece length.
        let count: usize = pieces.len();
        let expected: usize = (length - 1) / piece_length + 1;
        if count != expected {
            proof {
                congruent_witnesses(value, bytes@);
            }
            return Err(MetainfoError::Malformed(MetainfoField::Pieces));
        }
        // A multi-file layout must sum to the declared total.
        match &files {
            Some(fs) => match Self::sum_file_lengths(fs) {
                Some(s) => {
                    if s != length {
                        proof {
                            congruent_witnesses(value, bytes@);
                        }
                        return Err(MetainfoError::Malformed(MetainfoField::Length));
                    }
                },
                None => {
                    proof {
                        congruent_witnesses(value, bytes@);
                    }
                    return Err(MetainfoError::Malformed(MetainfoField::Length));
                },
            },
            None => {},
        }
        let t = Torrent { announce, info_hash, piece_length, pieces, name, length, files };
        proof {
            let l = t.length as int;
            let pl = t.piece_length as int;
            let c = count as int;
            let q = (l - 1) / pl;
            vstd::arithmetic::div_mod::lemma_fundamental_div_mod(l - 1, pl);
            vstd::arithmetic::div_mod::lemma_mod_bound(l - 1, pl);
            let rem = (l - 1) % pl;
            assert((c - 1) * pl < l && l <= c * pl) by (nonlinear_arith)
                requires
                    c == q + 1,
                    l - 1 == pl * q + rem,
                    0 <= rem < pl,
            ;
            assert(t.wf());
            assert(encoded(value) == bytes@);
            congruent_witnesses(value, bytes@);
        }
        Ok(t)
    }

    /// Reads the announce URL out of a torrent file's bytes.
    pub fn extract_announce(bytes: &[u8]) -> (r: Result<String, MetainfoError>)
        ensures
            // The projection is owed for every value the input encodes:
            // success and failure alike are fixed by the bytes.
            forall|v: BencodeValue| #[trigger] encoded(v) == bytes@ ==> match r {
                Ok(x) => spec_announce(v) == Ok::<Seq<char>, MetainfoError>(x@),
                Err(e) => spec_announce(v) == Err::<Seq<char>, MetainfoError>(e),
            },
            // A bencode-level failure comes exactly when the input encodes
            // no value at all.
            (!exists|v: BencodeValue| #[trigger] encoded(v) == bytes@)
                <==> r matches Err(MetainfoError::Syntax(_)),
    {
        let value = match BencodeValue::decode(bytes) {
            Ok(v) => v,
            Err(e) => {
                return Err(MetainfoError::Syntax(e));
            },
        };
        let x = match Self::announce_from_value(&value) {
            Ok(x) => x,
            Err(e) => {
                proof {
                    assert(encoded(value) == bytes@);
                    assert forall|v: BencodeValue| #[trigger] encoded(v) == bytes@ implies
                        spec_announce(v) == Err::<Seq<char>, MetainfoError>(e) by {
                        lemma_projections_congruent(v, value);
                    }
                }
                return Err(e);
            },
        };
        proof {
            assert(encoded(value) == bytes@);
            assert forall|v: BencodeValue| #[trigger] encoded(v) == bytes@ implies
                spec_announce(v) == Ok::<Seq<char>, MetainfoError>(x@) by {
                lemma_projections_congruent(v, value);
            }
        }
        Ok(x)
    }

    /// Reads the name out of a torrent file's bytes.
    pub fn extract_name(bytes: &[u8]) -> (r: Result<String, MetainfoError>)
        ensures
            // The projection is owed for every value the input encodes:
            // success and failure alike are fixed by the bytes.
            forall|v: BencodeValue| #[trigger] encoded(v) == bytes@ ==> match r {
                Ok(x) => spec_name(v) == Ok::<Seq<char>, MetainfoError>(x@),
                Err(e) => spec_name(v) == Err::<Seq<char>, MetainfoError>(e),
            },
            // A bencode-level failure comes exactly when the input encodes
            // no value at all.
            (!exists|v: BencodeValue| #[trigger] encoded(v) == bytes@)
                <==> r matches Err(MetainfoError::Syntax(_)),
    {
        let value = match BencodeValue::decode(bytes) {
            Ok(v) => v,
            Err(e) => {
                return Err(MetainfoError::Syntax(e));
            },
        };
        let x = match Self::name_from_value(&value) {
            Ok(x) => x,
            Err(e) => {
                proof {
                    assert(encoded(value) == bytes@);
                    assert forall|v: BencodeValue| #[trigger] encoded(v) == bytes@ implies
                        spec_name(v) == Err::<Seq<char>, MetainfoError>(e) by {
                        lemma_projections_congruent(v, value);
                    }
                }
                return Err(e);
            },
        };
        proof {
            assert(encoded(value) == bytes@);
            assert forall|v: BencodeValue| #[trigger] encoded(v) == bytes@ implies
                spec_name(v) == Ok::<Seq<char>, MetainfoError>(x@) by {
                lemma_projections_congruent(v, value);
            }
        }
        Ok(x)
    }

    /// Computes the info fingerprint of a torrent file's bytes: the SHA-1 of
    /// the canonically re-encoded `info` dictionary. It is a function of the
    /// `info` pairs alone, so repeated decodes and unrelated top-level keys
    /// cannot change it.
    pub fn extract_info_hash(bytes: &[u8]) -> (r: Result<Vec<u8>, MetainfoError>)
        ensures
            r matches Ok(h) ==> h@.len() == 20,
            // The projection is owed for every value the input encodes:
            // success and failure alike are fixed by the bytes.
            forall|v: BencodeValue| #[trigger] encoded(v) == bytes@ ==> match r {
                Ok(x) => spec_fingerprint(v) == Ok::<Seq<u8>, MetainfoError>(x@),
                Err(e) => spec_fingerprint(v) == Err::<Seq<u8>, MetainfoError>(e),
            },
            // A bencode-level failure comes exactly when the input encodes
            // no value at all.
            (!exists|v: BencodeValue| #[trigger] encoded(v) == bytes@)
                <==> r matches Err(MetainfoError::Syntax(_)),
    {
        let value = match BencodeValue::decode(bytes) {
            Ok(v) => v,
            Err(e) => {
                return Err(MetainfoError::Syntax(e));
            },
        };
        let x = match Self::fingerprint_from_value(&value) {
            Ok(x) => x,
            Err(e) => {
                proof {
                    assert(encoded(value) == bytes@);
                    assert forall|v: BencodeValue| #[trigger] encoded(v) == bytes@ implies
                        spec_fingerprint(v) == Err::<Seq<u8>, MetainfoError>(e) by {
                        lemma_projections_congruent(v, value);
                    }
                }
                return Err(e);
            },
        };
        proof {
            assert(encoded(value) == bytes@);
            assert forall|v: BencodeValue| #[trigger] encoded(v) == bytes@ implies
                spec_fingerprint(v) == Ok::<Seq<u8>, MetainfoError>(x@) by {
                lemma_projections_congruent(v, value);
            }
        }
        Ok(x)
    }

    /// Reads the piece length out of a torrent file's bytes.
    pub fn extract_piece_length(bytes: &[u8]) -> (r: Result<usize, MetainfoError>)
        ensures
            r matches Ok(l) ==> l >= 1,
            // The projection is owed for every value the input encodes:
            // success and failure alike are fixed by the bytes.
            forall|v: BencodeValue| #[trigger] encoded(v) == bytes@ ==> match r {
                Ok(x) => spec_piece_length(v) == Ok::<int, MetainfoError>(x as int),
                Err(e) => spec_piece_length(v) == Err::<int, MetainfoError>(e),
            },
            // A bencode-level failure comes exactly when the input encodes
            // no value at all.
            (!exists|v: BencodeValue| #[trigger] encoded(v) == bytes@)
                <==> r matches Err(MetainfoError::Syntax(_)),
    {
        let value = match BencodeValue::decode(bytes) {
            Ok(v) => v,
            Err(e) => {
                return Err(MetainfoError::Syntax(e));
            },
        };
        let x = match Self::piece_length_from_value(&value) {
            Ok(x) => x,
            Err(e) => {
                proof {
                    assert(encoded(value) == bytes@);
                    assert forall|v: BencodeValue| #[trigger] encoded(v) == bytes@ implies
                        spec_piece_length(v) == Err::<int, MetainfoError>(e) by {
                        lemma_projections_congruent(v, value);
                    }
                }
                return Err(e);
            },
        };
        proof {
            assert(encoded(value) == bytes@);
            assert forall|v: BencodeValue| #[trigger] encoded(v) == bytes@ implies
                spec_piece_length(v) == Ok::<int, MetainfoError>(x as int) by {
                lemma_projections_congruent(v, value);
            }
        }
        Ok(x)
    }

    /// Reads the piece hash vector out of a torrent file's bytes.
    pub fn extract_pieces(bytes: &[u8]) -> (r: Result<Vec<Vec<u8>>, MetainfoError>)
        ensures
            r matches Ok(ps) ==> forall|i: int| 0 <= i < ps@.len()
                ==> (#[trigger] ps@[i])@.len() == 20,
            // The projection is owed for every value the input encodes:
            // success and failure alike are fixed by the bytes.
            forall|v: BencodeValue| #[trigger] encoded(v) == bytes@ ==> match r {
                Ok(x) => spec_pieces(v) == Ok::<Seq<Seq<u8>>, MetainfoError>(x.deep_view()),
                Err(e) => spec_pieces(v) == Err::<Seq<Seq<u8>>, MetainfoError>(e),
            },
            // A bencode-level failure comes exactly when the input encodes
            // no value at all.
            (!exists|v: BencodeValue| #[trigger] encoded(v) == bytes@)
                <==> r matches Err(MetainfoError::Syntax(_)),
    {
        let value = match BencodeValue::decode(bytes) {
            Ok(v) => v,
            Err(e) => {
                return Err(MetainfoError::Syntax(e));
            },
        };
        let x = match Self::pieces_from_value(&value) {
            Ok(x) => x,
            Err(e) => {
                proof {
                    assert(encoded(value) == bytes@);
                    assert forall|v: BencodeValue| #[trigger] encoded(v) == bytes@ implies
                        spec_pieces(v) == Err::<Seq<Seq<u8>>, MetainfoError>(e) by {
                        lemma_projections_congruent(v, value);
                    }
                }
                return Err(e);
            },
        };
        proof {
            assert(encoded(value) == bytes@);
            assert forall|v: BencodeValue| #[trigger] encoded(v) == bytes@ implies
                spec_pieces(v) == Ok::<Seq<Seq<u8>>, MetainfoError>(x.deep_view()) by {
                lemma_projections_congruent(v, value);
            }
        }
        Ok(x)
    }

    /// Reads the total payload length out of a torrent file's bytes.
    pub fn extract_length(bytes: &[u8]) -> (r: Result<usize, MetainfoError>)
        ensures
            r matches Ok(l) ==> l >= 1,
            // The projection is owed for every value the input encodes:
            // success and failure alike are fixed by the bytes.
            forall|v: BencodeValue| #[trigger] encoded(v) == bytes@ ==> match r {
                Ok(x) => spec_length(v) == Ok::<int, MetainfoError>(x as int),
                Err(e) => spec_length(v) == Err::<int, MetainfoError>(e),
            },
            // A bencode-level failure comes exactly when the input encodes
            // no value at all.
            (!exists|v: BencodeValue| #[trigger] encoded(v) == bytes@)
                <==> r matches Err(MetainfoError::Syntax(_)),
    {
        let value = match BencodeValue::decode(bytes) {
            Ok(v) => v,
            Err(e) => {
                return Err(MetainfoError::Syntax(e));
            },
        };
        let x = match Self::length_from_value(&value) {
            Ok(x) => x,
            Err(e) => {
                proof {
                    assert(encoded(value) == bytes@);
                    assert forall|v: BencodeValue| #[trigger] encoded(v) == bytes@ implies
                        spec_length(v) == Err::<int, MetainfoError>(e) by {
                        lemma_projections_congruent(v, value);
                    }
                }
                return Err(e);
            },
        };
        proof {
            assert(encoded(value) == bytes@);
            assert forall|v: BencodeValue| #[trigger] encoded(v) == bytes@ implies
                spec_length(v) == Ok::<int, MetainfoError>(x as int) by {
                lemma_projections_congruent(v, value);
            }
        }
        Ok(x)
    }

    /// Reads the file list out of a torrent file's bytes; `None` marks a
    /// single-file torrent.
    pub fn extract_files(bytes: &[u8]) -> (r: Result<Option<Vec<TorrentFile>>, MetainfoError>)
        ensures
            // The projection is owed for every value the input encodes:
            // success and failure alike are fixed by the bytes, and `None`
            // marks exactly a single-file torrent.
            forall|v: BencodeValue| #[trigger] encoded(v) == bytes@ ==> match r {
                Ok(of) => spec_files(v)
                    == Ok::<Option<Seq<(Seq<Seq<char>>, int)>>, MetainfoError>(files_view(of)),
                Err(e) => spec_files(v)
                    == Err::<Option<Seq<(Seq<Seq<char>>, int)>>, MetainfoError>(e),
            },
            // A bencode-level failure comes exactly when the input encodes
            // no value at all.
            (!exists|v: BencodeValue| #[trigger] encoded(v) == bytes@)
                <==> r matches Err(MetainfoError::Syntax(_)),
    {
        let value = match BencodeValue::decode(bytes) {
            Ok(v) => v,
            Err(e) => {
                return Err(MetainfoError::Syntax(e));
            },
        };
        let of = match Self::files_from_value(&value) {
            Ok(of) => of,
            Err(e) => {
                proof {
                    assert(encoded(value) == bytes@);
                    assert forall|v: BencodeValue| #[trigger] encoded(v) == bytes@ implies
                        spec_files(v)
                            == Err::<Option<Seq<(Seq<Seq<char>>, int)>>, MetainfoError>(e) by {
                        lemma_projections_congruent(v, value);
                    }
                }
                return Err(e);
            },
        };
        proof {
            assert(encoded(value) == bytes@);
            assert forall|v: BencodeValue| #[trigger] encoded(v) == bytes@ implies
                spec_files(v)
                    == Ok::<Option<Seq<(Seq<Seq<char>>, int)>>, MetainfoError>(files_view(of)) by {
                lemma_projections_congruent(v, value);
            }
        }
        Ok(of)
    }

    /// Appends the canonical encoding of a bencode value to `buf`. Never
    /// fails; the `Result` mirrors the signature callers expect.
    pub fn encode_bencode(value: &BencodeValue, buf: &mut Vec<u8>) -> (r: Result<(), BencodeError>)
        ensures
            r is Ok,
            final(buf)@ == old(buf)@ + encoded(*value),
    {
        value.encode_into(buf);
        Ok(())
    }
}

} // verus!
