//! Parsed torrent descriptions: the typed view of the bencoded metainfo
//! file, and the info hash computed over the canonical encoding of its
//! `info` dictionary.

use vstd::prelude::*;

use crate::bencode::{spec_encode, spec_dict_get, bval_wf, parse_value, bytes_eq, BValue};
use crate::hash::{calculate_sha1_hash, sha1_of};
use crate::types::Sha1Hash;
use vstd::utf8::{valid_utf8, decode_utf8};

verus! {

broadcast use vstd::std_specs::vec::group_vec_axioms;

/// Why a torrent file was rejected.
#[derive(Debug, Clone, PartialEq, Eq)]
pub enum MetaInfoError {
    /// The bytes are not a canonical bencoded torrent dictionary.
    MalformedBencode,
    /// The announce entry is not a URL.
    InvalidAnnounce,
}

/// One entry of a multi-file torrent.
#[derive(Debug, Clone)]
pub struct File {
    /// The length of the file, in bytes.
    pub length: u64,
    /// The file's path components, in order.
    pub path: Vec<String>,
}

pub open spec fn key_announce() -> Seq<u8> {
    seq![97u8, 110, 110, 111, 117, 110, 99, 101]
}

pub open spec fn key_comment() -> Seq<u8> {
    seq![99u8, 111, 109, 109, 101, 110, 116]
}

pub open spec fn key_created_by() -> Seq<u8> {
    seq![99u8, 114, 101, 97, 116, 101, 100, 32, 98, 121]
}

pub open spec fn key_creation_date() -> Seq<u8> {
    seq![99u8, 114, 101, 97, 116, 105, 111, 110, 32, 100, 97, 116, 101]
}

pub open spec fn key_info() -> Seq<u8> {
    seq![105u8, 110, 102, 111]
}

pub open spec fn key_name() -> Seq<u8> {
    seq![110u8, 97, 109, 101]
}

pub open spec fn key_piece_length() -> Seq<u8> {
    seq![112u8, 105, 101, 99, 101, 32, 108, 101, 110, 103, 116, 104]
}

pub open spec fn key_pieces() -> Seq<u8> {
    seq![112u8, 105, 101, 99, 101, 115]
}

pub open spec fn key_length() -> Seq<u8> {
    seq![108u8, 101, 110, 103, 116, 104]
}

pub open spec fn key_files() -> Seq<u8> {
    seq![102u8, 105, 108, 101, 115]
}

pub open spec fn key_path() -> Seq<u8> {
    seq![112u8, 97, 116, 104]
}

fn kb_announce() -> (r: Vec<u8>)
    ensures
        r@ == key_announce(),
{
    let a: [u8; 8] = [97, 110, 110, 111, 117, 110, 99, 101];
    let v = vstd::slice::slice_to_vec(a.as_slice());
    proof {
        assert(v@ =~= key_announce());
    }
    v
}

fn kb_comment() -> (r: Vec<u8>)
    ensures
        r@ == key_comment(),
{
    let a: [u8; 7] = [99, 111, 109, 109, 101, 110, 116];
    let v = vstd::slice::slice_to_vec(a.as_slice());
    proof {
        assert(v@ =~= key_comment());
    }
    v
}

fn kb_created_by() -> (r: Vec<u8>)
    ensures
        r@ == key_created_by(),
{
    let a: [u8; 10] = [99, 114, 101, 97, 116, 101, 100, 32, 98, 121];
    let v = vstd::slice::slice_to_vec(a.as_slice());
    proof {
        assert(v@ =~= key_created_by());
    }
    v
}

fn kb_creation_date() -> (r: Vec<u8>)
    ensures
        r@ == key_creation_date(),
{
    let a: [u8; 13] = [99, 114, 101, 97, 116, 105, 111, 110, 32, 100, 97, 116, 101];
    let v = vstd::slice::slice_to_vec(a.as_slice());
    proof {
        assert(v@ =~= key_creation_date());
    }
    v
}

fn kb_info() -> (r: Vec<u8>)
    ensures
        r@ == key_info(),
{
    let a: [u8; 4] = [105, 110, 102, 111];
    let v = vstd::slice::slice_to_vec(a.as_slice());
    proof {
        assert(v@ =~= key_info());
    }
    v
}

fn kb_name() -> (r: Vec<u8>)
    ensures
        r@ == key_name(),
{
    let a: [u8; 4] = [110, 97, 109, 101];
    let v = vstd::slice::slice_to_vec(a.as_slice());
    proof {
        assert(v@ =~= key_name());
    }
    v
}

fn kb_piece_length() -> (r: Vec<u8>)
    ensures
        r@ == key_piece_length(),
{
    let a: [u8; 12] = [112, 105, 101, 99, 101, 32, 108, 101, 110, 103, 116, 104];
    let v = vstd::slice::slice_to_vec(a.as_slice());
    proof {
        assert(v@ =~= key_piece_length());
    }
    v
}

fn kb_pieces() -> (r: Vec<u8>)
    ensures
        r@ == key_pieces(),
{
    let a: [u8; 6] = [112, 105, 101, 99, 101, 115];
    let v = vstd::slice::slice_to_vec(a.as_slice());
    proof {
        assert(v@ =~= key_pieces());
    }
    v
}

fn kb_length() -> (r: Vec<u8>)
    ensures
        r@ == key_length(),
{
    let a: [u8; 6] = [108, 101, 110, 103, 116, 104];
    let v = vstd::slice::slice_to_vec(a.as_slice());
    proof {
        assert(v@ =~= key_length());
    }
    v
}

fn kb_files() -> (r: Vec<u8>)
    ensures
        r@ == key_files(),
{
    let a: [u8; 5] = [102, 105, 108, 101, 115];
    let v = vstd::slice::slice_to_vec(a.as_slice());
    proof {
        assert(v@ =~= key_files());
    }
    v
}

fn kb_path() -> (r: Vec<u8>)
    ensures
        r@ == key_path(),
{
    let a: [u8; 4] = [112, 97, 116, 104];
    let v = vstd::slice::slice_to_vec(a.as_slice());
    proof {
        assert(v@ =~= key_path());
    }
    v
}

/// Relies on `String::from_utf8`: it succeeds exactly on valid UTF-8 and
/// returns its decoding.
#[verifier::external_body]
pub(crate) fn string_from_utf8(v: Vec<u8>) -> (r: Option<String>)
    ensures
        r is Some <==> valid_utf8(v@),
        r matches Some(s) ==> s@ == decode_utf8(v@),
{
    String::from_utf8(v).ok()
}

/// Relies on `url::Url::parse`: whether the string parses as a URL is a
/// function of the characters alone.
pub uninterp spec fn url_is_valid(s: Seq<char>) -> bool;

/// Relies on `url::Url::parse`; see `url_is_valid`.
#[verifier::external_body]
fn parse_url_ok(s: &str) -> (r: bool)
    ensures
        r == url_is_valid(s@),
{
    url::Url::parse(s).is_ok()
}

/// A copy of the byte string bound to `key`, when the entry is a byte string.
pub(crate) fn get_bytes_field(entries: &Vec<(Vec<u8>, BValue)>, key: &[u8]) -> (r: Option<Vec<u8>>)
    ensures
        match r {
            Some(b) => spec_dict_get(entries@, key@) matches Some(BValue::Bytes(bb)) && bb@ == b@,
            None => !(spec_dict_get(entries@, key@) matches Some(BValue::Bytes(_))),
        },
{
    match crate::bencode::dict_get(entries, key) {
        Some(v) => match v {
            BValue::Bytes(b) => Some(vstd::slice::slice_to_vec(b.as_slice())),
            _ => None,
        },
        None => None,
    }
}

/// The integer bound to `key`, when the entry is an integer.
pub(crate) fn get_int_field(entries: &Vec<(Vec<u8>, BValue)>, key: &[u8]) -> (r: Option<i64>)
    ensures
        match r {
            Some(n) => spec_dict_get(entries@, key@) == Some(BValue::Int(n)),
            None => !(spec_dict_get(entries@, key@) matches Some(BValue::Int(_))),
        },
{
    match crate::bencode::dict_get(entries, key) {
        Some(v) => match v {
            BValue::Int(n) => Some(*n),
            _ => None,
        },
        None => None,
    }
}

/// The UTF-8 text bound to `key`, when the entry is a valid byte string.
pub(crate) fn get_string_field(entries: &Vec<(Vec<u8>, BValue)>, key: &[u8]) -> (r: Option<String>)
    ensures
        r matches Some(s) ==> spec_dict_get(entries@, key@) matches Some(BValue::Bytes(bb))
            && valid_utf8(bb@) && s@ == decode_utf8(bb@),
        r is None ==> !(spec_dict_get(entries@, key@) matches Some(BValue::Bytes(bb))
            && valid_utf8(bb@)),
{
    match get_bytes_field(entries, key) {
        Some(b) => string_from_utf8(b),
        None => None,
    }
}

/// Finds the index of the entry carrying `key`.
fn dict_find(entries: &Vec<(Vec<u8>, BValue)>, key: &[u8]) -> (r: Option<usize>)
    ensures
        match r {
            Some(i) => i < entries@.len() && entries@[i as int].0@ == key@ && spec_dict_get(
                entries@,
                key@,
            ) == Some(entries@[i as int].1),
            None => spec_dict_get(entries@, key@) is None,
        },
{
    let mut i: usize = 0;
    while i < entries.len()
        invariant
            i <= entries@.len(),
            crate::bencode::spec_dict_get_from(entries@, key@, 0)
                == crate::bencode::spec_dict_get_from(entries@, key@, i as int),
        decreases entries@.len() - i,
    {
        if bytes_eq(entries[i].0.as_slice(), key) {
            return Some(i);
        }
        i = i + 1;
    }
    None
}

/// One path component: a valid UTF-8 byte string, decoded.
pub open spec fn path_elem_wf(s: String, v: BValue) -> bool {
    v matches BValue::Bytes(pb) && valid_utf8(pb@) && s@ == decode_utf8(pb@)
}

/// A typed file entry faithfully read off its dictionary.
pub open spec fn file_wf(f: File, v: BValue) -> bool {
    v matches BValue::Dict(fe) && {
        &&& f.length <= i64::MAX
        &&& spec_dict_get(fe@, key_length()) == Some(BValue::Int(f.length as i64))
        &&& spec_dict_get(fe@, key_path()) matches Some(BValue::List(pl)) && pl@.len()
            == f.path@.len() && (forall|j: int|
            0 <= j < pl@.len() ==> path_elem_wf(#[trigger] f.path@[j], pl@[j]))
    }
}

/// Total length of a run of file entries, in bytes.
pub open spec fn spec_files_total(fs: Seq<File>) -> int
    decreases fs.len(),
{
    if fs.len() == 0 {
        0
    } else {
        spec_files_total(fs.drop_last()) + fs.last().length
    }
}

/// The typed view of a torrent's `info` dictionary.
///
/// The dictionary itself is kept as parsed, unknown keys included, so that
/// re-encoding it reproduces the exact bytes the info hash was computed
/// over.
#[derive(Debug)]
pub struct Info {
    /// Suggested name of the file or top directory.
    pub name: String,
    /// How many bytes each piece covers (the last may be shorter).
    pub piece_length: u32,
    /// The 20-byte SHA-1 digests of all pieces, concatenated.
    pub pieces: Vec<u8>,
    /// Total length, when the torrent describes a single file.
    pub length: Option<u64>,
    /// The file list, when the torrent describes several files.
    pub files: Option<Vec<File>>,
    /// The whole `info` dictionary as parsed, unknown keys included.
    pub raw: BValue,
}

impl Info {
    /// Total content length in bytes, as described.
    pub open spec fn spec_total_bytes(&self) -> int {
        match self.length {
            Some(n) => n as int,
            None => match self.files {
                Some(fs) => spec_files_total(fs@),
                None => 0,
            },
        }
    }

    /// Number of pieces: one 20-byte digest each.
    pub open spec fn spec_num_pieces(&self) -> int {
        self.pieces@.len() as int / 20
    }

    /// The typed fields agree with the kept dictionary, exactly one of
    /// `length` and `files` is present, and the piece count is the number
    /// of piece-length units covering the total, rounded up.
    pub open spec fn wf(&self) -> bool {
        let entries = self.raw->Dict_0@;
        &&& self.raw is Dict
        &&& bval_wf(self.raw)
        &&& spec_dict_get(entries, key_name()) matches Some(BValue::Bytes(nb)) && valid_utf8(nb@)
            && self.name@ == decode_utf8(nb@)
        &&& 1 <= self.piece_length
        &&& spec_dict_get(entries, key_piece_length()) == Some(
            BValue::Int(self.piece_length as i64),
        )
        &&& spec_dict_get(entries, key_pieces()) matches Some(BValue::Bytes(pb)) && pb@
            == self.pieces@
        &&& self.pieces@.len() % 20 == 0
        &&& (self.length is Some <==> self.files is None)
        &&& (self.length matches Some(n) ==> n <= i64::MAX && spec_dict_get(entries, key_length())
            == Some(BValue::Int(n as i64)))
        &&& (self.files matches Some(fs) ==> spec_dict_get(entries, key_files()) matches Some(
            BValue::List(fl),
        ) && fl@.len() == fs@.len() && (forall|i: int|
            0 <= i < fs@.len() ==> file_wf(#[trigger] fs@[i], fl@[i])))
        &&& 0 <= self.spec_total_bytes() <= u64::MAX
        &&& self.spec_num_pieces() == (self.spec_total_bytes() + self.piece_length - 1) / (
        self.piece_length as int)
    }

    /// The canonical encoding of the kept `info` dictionary.
    pub open spec fn spec_encoding(&self) -> Seq<u8> {
        spec_encode(self.raw)
    }

    /// Re-encodes the kept `info` dictionary canonically.
    pub fn encode(&self) -> (r: Vec<u8>)
        ensures
            r@ == self.spec_encoding(),
    {
        self.raw.encode()
    }
}

/// A parsed torrent description.
#[derive(Debug)]
pub struct MetaInfo {
    /// The announce URL, as text.
    pub announce: String,
    /// The typed `info` dictionary.
    pub info: Info,
    /// Free-form comment, when present.
    pub comment: Option<String>,
    /// Authoring tool, when present.
    pub created_by: Option<String>,
    /// Creation time as a Unix timestamp, when present.
    pub creation_date: Option<i64>,
    /// SHA-1 of the canonical encoding of the `info` dictionary.
    pub info_hash: Sha1Hash,
}

impl MetaInfo {
    /// The typed view is faithful, the announce text is a URL, and the
    /// stored info hash is the digest of the kept dictionary's encoding.
    pub open spec fn wf(&self) -> bool {
        &&& self.info.wf()
        &&& url_is_valid(self.announce@)
        &&& self.info_hash@ == sha1_of(self.info.spec_encoding())
    }

    /// Total content length in bytes.
    pub fn total_bytes(&self) -> (r: u64)
        requires
            self.info.wf(),
        ensures
            r == self.info.spec_total_bytes(),
    {
        match &self.info.length {
            Some(n) => *n,
            None => {
                match &self.info.files {
                    Some(fs) => files_total(fs),
                    None => 0,  // unreachable: wf demands one of the two
                }
            },
        }
    }

    /// Number of pieces described by the torrent.
    pub fn num_pieces(&self) -> (r: usize)
        ensures
            r == self.info.spec_num_pieces(),
    {
        self.info.pieces.len() / 20
    }
}

/// Sums the file lengths; the caller's invariant keeps the sum in `u64`.
fn files_total(fs: &Vec<File>) -> (r: u64)
    requires
        0 <= spec_files_total(fs@) <= u64::MAX,
    ensures
        r == spec_files_total(fs@),
{
    let mut acc: u64 = 0;
    let mut i: usize = 0;
    proof {
        assert(fs@.take(0) =~= Seq::<File>::empty());
        lemma_files_total_take_bounds(fs@, 0);
    }
    while i < fs.len()
        invariant
            i <= fs@.len(),
            0 <= spec_files_total(fs@) <= u64::MAX,
            acc == spec_files_total(fs@.take(i as int)),
        decreases fs@.len() - i,
    {
        proof {
            lemma_files_total_take_bounds(fs@, i + 1);
            assert(fs@.take(i + 1).drop_last() =~= fs@.take(i as int));
            assert(fs@.take(i + 1).last() == fs@[i as int]);
        }
        acc = acc + fs[i].length;
        i = i + 1;
    }
    proof {
        assert(fs@.take(fs@.len() as int) =~= fs@);
    }
    acc
}

/// Every prefix sum of file lengths sits between 0 and the full total.
pub proof fn lemma_files_total_take_bounds(fs: Seq<File>, k: int)
    requires
        0 <= k <= fs.len(),
    ensures
        0 <= spec_files_total(fs.take(k)),
        spec_files_total(fs.take(k)) <= spec_files_total(fs),
    decreases fs.len(),
{
    lemma_files_total_nonneg(fs.take(k));
    if k == fs.len() {
        assert(fs.take(k) =~= fs);
    } else {
        lemma_files_total_take_bounds(fs.drop_last(), k);
        assert(fs.drop_last().take(k) =~= fs.take(k));
        lemma_files_total_nonneg(fs.drop_last());
    }
}

proof fn lemma_files_total_nonneg(fs: Seq<File>)
    ensures
        0 <= spec_files_total(fs),
    decreases fs.len(),
{
    if fs.len() > 0 {
        lemma_files_total_nonneg(fs.drop_last());
    }
}

/// The shape a file entry must have to be read: a dictionary carrying a
/// nonnegative length and a path of readable text components.
pub open spec fn file_shape_ok(v: BValue) -> bool {
    v matches BValue::Dict(fe) && {
        &&& spec_dict_get(fe@, key_length()) matches Some(BValue::Int(n)) && n >= 0
        &&& spec_dict_get(fe@, key_path()) matches Some(BValue::List(pl)) && (forall|j: int|
            0 <= j < pl@.len() ==> (#[trigger] pl@[j] matches BValue::Bytes(pb) && valid_utf8(
                pb@,
            )))
    }
}

/// Reads one file entry off its dictionary; exactly the well-shaped
/// entries are read.
fn parse_file(v: &BValue) -> (r: Option<File>)
    ensures
        r matches Some(f) ==> file_wf(f, *v),
        r is None ==> !file_shape_ok(*v),
{
    let fe = match v {
        BValue::Dict(fe) => fe,
        _ => {
            return None;
        },
    };
    let len = match get_int_field(fe, kb_length().as_slice()) {
        Some(n) => {
            if n < 0 {
                return None;
            }
            n as u64
        },
        None => {
            return None;
        },
    };
    let pl = match crate::bencode::dict_get(fe, kb_path().as_slice()) {
        Some(BValue::List(pl)) => pl,
        _ => {
            return None;
        },
    };
    let mut path: Vec<String> = Vec::new();
    let mut i: usize = 0;
    while i < pl.len()
        invariant
            *v matches BValue::Dict(f) && f == *fe,
            spec_dict_get(fe@, key_path()) matches Some(BValue::List(plv)) && plv == *pl,
            i <= pl@.len(),
            path@.len() == i,
            forall|j: int| 0 <= j < i ==> path_elem_wf(#[trigger] path@[j], pl@[j]),
        decreases pl@.len() - i,
    {
        let comp = match &pl[i] {
            BValue::Bytes(pb) => {
                match string_from_utf8(vstd::slice::slice_to_vec(pb.as_slice())) {
                    Some(s) => s,
                    None => {
                        proof {
                            assert(!(pl@[i as int] matches BValue::Bytes(b) && valid_utf8(b@)));
                        }
                        return None;
                    },
                }
            },
            _ => {
                proof {
                    assert(!(pl@[i as int] matches BValue::Bytes(b) && valid_utf8(b@)));
                }
                return None;
            },
        };
        path.push(comp);
        i = i + 1;
    }
    Some(File { length: len, path })
}

/// The shape a file list must have to be read: a list of well-shaped
/// file entries.
pub open spec fn files_shape_ok(v: BValue) -> bool {
    v matches BValue::List(fl) && (forall|i: int|
        0 <= i < fl@.len() ==> file_shape_ok(#[trigger] fl@[i]))
}

/// Reads the file list off its bencode list; exactly the well-shaped
/// lists are read.
fn parse_files(v: &BValue) -> (r: Option<Vec<File>>)
    ensures
        r matches Some(fs) ==> *v matches BValue::List(fl) && fl@.len() == fs@.len() && (forall|
            i: int,
        |
            0 <= i < fs@.len() ==> file_wf(#[trigger] fs@[i], fl@[i])),
        r is None ==> !files_shape_ok(*v),
{
    let fl = match v {
        BValue::List(fl) => fl,
        _ => {
            return None;
        },
    };
    let mut fs: Vec<File> = Vec::new();
    let mut i: usize = 0;
    while i < fl.len()
        invariant
            *v == BValue::List(*fl),
            i <= fl@.len(),
            fs@.len() == i,
            forall|j: int| 0 <= j < i ==> file_wf(#[trigger] fs@[j], fl@[j]),
        decreases fl@.len() - i,
    {
        match parse_file(&fl[i]) {
            Some(f) => {
                fs.push(f);
            },
            None => {
                proof {
                    assert(!file_shape_ok(fl@[i as int]));
                    assert((*v)->List_0 == *fl);
                    if files_shape_ok(*v) {
                        assert(file_shape_ok((*v)->List_0@[i as int]));
                        assert(false);
                    }
                }
                return None;
            },
        }
        i = i + 1;
    }
    Some(fs)
}

/// Inside the encoding of dictionary entries from `i` on, the encoding of
/// entry `j`'s value appears as a contiguous range.
proof fn lemma_dict_value_sub_from(d: Seq<(Vec<u8>, BValue)>, j: int, i: int)
    requires
        0 <= i <= j < d.len(),
    ensures
        exists|a: int, b: int|
            0 <= a <= b <= crate::bencode::spec_encode_dict(d, i).len()
                && crate::bencode::spec_encode_dict(d, i).subrange(a, b) == spec_encode(d[j].1),
    decreases j - i,
{
    let e = crate::bencode::spec_encode_dict(d, i);
    if i == j {
        let pre = (crate::bencode::spec_dec_digits(d[j].0@.len()).len() + 1 + d[j].0@.len()) as int;
        let vlen = spec_encode(d[j].1).len() as int;
        assert(e.subrange(pre, pre + vlen) =~= spec_encode(d[j].1));
    } else {
        lemma_dict_value_sub_from(d, j, i + 1);
        let tail = crate::bencode::spec_encode_dict(d, i + 1);
        let shift = e.len() - tail.len();
        let (a, b) = choose|a: int, b: int|
            0 <= a <= b <= tail.len() && tail.subrange(a, b) == spec_encode(d[j].1);
        assert(e =~= e.subrange(0, shift) + tail);
        assert(e.subrange(shift + a, shift + b) =~= tail.subrange(a, b));
    }
}

/// Inside the encoding of a dictionary, each value's encoding appears as a
/// contiguous range.
proof fn lemma_dict_value_is_subrange(d: Vec<(Vec<u8>, BValue)>, j: int)
    requires
        0 <= j < d@.len(),
    ensures
        exists|a: int, b: int|
            0 <= a <= b <= spec_encode(BValue::Dict(d)).len() && spec_encode(
                BValue::Dict(d),
            ).subrange(a, b) == spec_encode(d@[j].1),
{
    lemma_dict_value_sub_from(d@, j, 0);
    let e = spec_encode(BValue::Dict(d));
    let inner = crate::bencode::spec_encode_dict(d@, 0);
    let (a, b) = choose|a: int, b: int|
        0 <= a <= b <= inner.len() && inner.subrange(a, b) == spec_encode(d@[j].1);
    assert(e.subrange(1 + a, 1 + b) =~= inner.subrange(a, b));
}

/// The shape behind a rejected announce: the input encodes a dictionary
/// whose announce entry is readable text that is not a URL.
pub open spec fn announce_rejected_shape(bytes: Seq<u8>, top: Vec<(Vec<u8>, BValue)>) -> bool {
    &&& bytes == spec_encode(BValue::Dict(top))
    &&& spec_dict_get(top@, key_announce()) matches Some(BValue::Bytes(ab)) && valid_utf8(ab@)
        && !url_is_valid(decode_utf8(ab@))
}

/// Total of the length entries of a run of file dictionaries.
pub open spec fn bfiles_total(fl: Seq<BValue>) -> int
    decreases fl.len(),
{
    if fl.len() == 0 {
        0
    } else {
        bfiles_total(fl.drop_last()) + (match fl.last() {
            BValue::Dict(fe) => match spec_dict_get(fe@, key_length()) {
                Some(BValue::Int(n)) => n as int,
                _ => 0,
            },
            _ => 0,
        })
    }
}

/// Typed file entries read off well-formed dictionaries carry the same
/// total as the dictionaries' length entries.
proof fn lemma_files_total_matches(fs: Seq<File>, fl: Seq<BValue>)
    requires
        fs.len() == fl.len(),
        forall|i: int| 0 <= i < fs.len() ==> file_wf(#[trigger] fs[i], fl[i]),
    ensures
        spec_files_total(fs) == bfiles_total(fl),
    decreases fs.len(),
{
    if fs.len() > 0 {
        let fsd = fs.drop_last();
        let fld = fl.drop_last();
        assert(forall|i: int| 0 <= i < fsd.len() ==> file_wf(#[trigger] fsd[i], fld[i]));
        lemma_files_total_matches(fsd, fld);
        assert(file_wf(fs[fs.len() - 1], fl[fl.len() - 1]));
    }
}

/// Everything the parser checks of the `info` dictionary: the typed
/// fields present with the right types, exactly one of length and files,
/// a total that fits, and a piece count covering the total.
pub open spec fn info_accepted(v: BValue) -> bool {
    v matches BValue::Dict(ie) && (spec_dict_get(ie@, key_name()) matches Some(BValue::Bytes(nb))
        && valid_utf8(nb@)) && (spec_dict_get(ie@, key_piece_length()) matches Some(
        BValue::Int(pl),
    ) && 1 <= pl <= u32::MAX && (spec_dict_get(ie@, key_pieces()) matches Some(BValue::Bytes(pb))
        && pb@.len() % 20 == 0 && (match spec_dict_get(ie@, key_length()) {
        Some(BValue::Int(n)) => n >= 0 && spec_dict_get(ie@, key_files()) is None && pb@.len() / 20
            == (n + pl - 1) as int / (pl as int),
        _ => spec_dict_get(ie@, key_files()) matches Some(fv) && files_shape_ok(fv) && (
        fv matches BValue::List(fl) && 0 <= bfiles_total(fl@) <= u64::MAX && pb@.len() / 20 == (
        bfiles_total(fl@) + pl - 1) / (pl as int)),
    })))
}

/// Everything the parser checks of the whole torrent dictionary, short of
/// the announce text being a URL.
pub open spec fn torrent_accepted(top: Seq<(Vec<u8>, BValue)>) -> bool {
    &&& spec_dict_get(top, key_announce()) matches Some(BValue::Bytes(ab)) && valid_utf8(ab@)
    &&& spec_dict_get(top, key_info()) matches Some(iv) && info_accepted(iv)
}

/// How a parsed description relates to the dictionary the input encodes:
/// every typed field is read off the named entry.
pub open spec fn torrent_dict_shape(bytes: Seq<u8>, top: Vec<(Vec<u8>, BValue)>, m: MetaInfo) -> bool {
    &&& bytes == spec_encode(BValue::Dict(top))
    &&& bval_wf(BValue::Dict(top))
    &&& spec_dict_get(top@, key_announce()) matches Some(BValue::Bytes(ab)) && valid_utf8(ab@)
        && m.announce@ == decode_utf8(ab@)
    &&& spec_dict_get(top@, key_info()) == Some(m.info.raw)
    &&& (m.comment matches Some(c) ==> (spec_dict_get(top@, key_comment()) matches Some(
        BValue::Bytes(cb),
    ) && valid_utf8(cb@) && c@ == decode_utf8(cb@)))
    &&& (m.created_by matches Some(c) ==> (spec_dict_get(top@, key_created_by()) matches Some(
        BValue::Bytes(cb),
    ) && valid_utf8(cb@) && c@ == decode_utf8(cb@)))
    &&& (m.creation_date matches Some(n) ==> spec_dict_get(top@, key_creation_date()) == Some(
        BValue::Int(n),
    ))
}

impl MetaInfo {
    /// Parses a bencoded torrent file.
    ///
    /// On success the result is well formed: its typed fields agree with
    /// the kept `info` dictionary, and the stored info hash is the SHA-1
    /// digest of that dictionary's canonical encoding, which is a
    /// contiguous range of the input bytes. The announce error comes only
    /// on a torrent whose announce text the URL parser refuses.
    pub fn from_bytes(bytes: &Vec<u8>) -> (r: Result<MetaInfo, MetaInfoError>)
        ensures
            r matches Ok(m) ==> m.wf() && (exists|a: int, b: int|
                0 <= a <= b <= bytes@.len() && bytes@.subrange(a, b) == m.info.spec_encoding()),
            r is Ok ==> exists|top: Vec<(Vec<u8>, BValue)>|
                torrent_dict_shape(bytes@, top, r->Ok_0),
            r == Err::<MetaInfo, MetaInfoError>(MetaInfoError::InvalidAnnounce) ==> exists|
                top: Vec<(Vec<u8>, BValue)>,
            | announce_rejected_shape(bytes@, top),
            r == Err::<MetaInfo, MetaInfoError>(MetaInfoError::MalformedBencode) ==> {
                ||| !crate::bencode::parses_to(bytes@, 0, bytes@.len() as int)
                ||| bytes@.len() == 0
                ||| bytes@[0] != 100
                ||| exists|top: Vec<(Vec<u8>, BValue)>|
                    bytes@ == spec_encode(BValue::Dict(top)) && bval_wf(BValue::Dict(top))
                        && !torrent_accepted(top@)
            },
    {
        let parsed = parse_value(bytes, 0);
        proof {
            if bytes@.len() > 0 && crate::bencode::parses_to(bytes@, 0, bytes@.len() as int) {
                assert(parsed matches Some(p) && p.1 == bytes@.len());
            }
        }
        let (top_v, end) = match parsed {
            Some(p) => p,
            None => {
                return Err(MetaInfoError::MalformedBencode);
            },
        };
        if end != bytes.len() {
            return Err(MetaInfoError::MalformedBencode);
        }
        proof {
            assert(bytes@.subrange(0, end as int) =~= bytes@);
        }
        let top = match top_v {
            BValue::Dict(entries) => entries,
            _ => {
                proof {
                    crate::bencode::lemma_encode_first_byte(top_v);
                    assert(bytes@[0] == spec_encode(top_v)[0]);
                }
                return Err(MetaInfoError::MalformedBencode);
            },
        };
        let ghost gtop = top;
        proof {
            assert(bytes@ == spec_encode(BValue::Dict(gtop)));
            assert(bval_wf(BValue::Dict(gtop)));
        }
        let announce = match get_string_field(&top, kb_announce().as_slice()) {
            Some(s) => s,
            None => {
                proof {
                    assert(!torrent_accepted(gtop@));
                }
                return Err(MetaInfoError::MalformedBencode);
            },
        };
        if !parse_url_ok(announce.as_str()) {
            proof {
                assert(announce_rejected_shape(bytes@, top));
            }
            return Err(MetaInfoError::InvalidAnnounce);
        }
        let comment = get_string_field(&top, kb_comment().as_slice());
        let created_by = get_string_field(&top, kb_created_by().as_slice());
        let creation_date = get_int_field(&top, kb_creation_date().as_slice());
        let info_idx = match dict_find(&top, kb_info().as_slice()) {
            Some(i) => i,
            None => {
                proof {
                    assert(!torrent_accepted(gtop@));
                }
                return Err(MetaInfoError::MalformedBencode);
            },
        };
        proof {
            lemma_dict_value_is_subrange(top, info_idx as int);
        }
        let ghost top0 = top;
        let mut top = top;
        let entry = top.swap_remove(info_idx);
        let info_raw = entry.1;
        proof {
            assert(info_raw == top0@[info_idx as int].1);
            assert(bval_wf(BValue::Dict(top0)));
            assert(bval_wf(info_raw));
        }
        let info = match build_info(info_raw) {
            Some(i) => i,
            None => {
                proof {
                    assert(spec_dict_get(gtop@, key_info()) == Some(gtop@[info_idx as int].1));
                    assert(!torrent_accepted(gtop@));
                }
                return Err(MetaInfoError::MalformedBencode);
            },
        };
        let encoded = info.encode();
        let info_hash = calculate_sha1_hash(encoded.as_slice());
        let result: Result<MetaInfo, MetaInfoError> = Ok(
            MetaInfo { announce, info, comment, created_by, creation_date, info_hash },
        );
        proof {
            assert(spec_encode(BValue::Dict(top0)) == bytes@);
            assert(torrent_dict_shape(bytes@, gtop, result->Ok_0));
        }
        result
    }
}

/// Law: decoding a torrent and re-encoding its `info` dictionary gives
/// back bytes whose SHA-1 digest is the stored info hash; with
/// `from_bytes`'s own promise that those bytes are a contiguous range of
/// the original input, the recomputed hash always matches the original,
/// unknown keys included.
pub proof fn lemma_info_hash_round_trip(m: MetaInfo)
    requires
        m.wf(),
    ensures
        sha1_of(m.info.spec_encoding()) == m.info_hash@,
{
}

/// Builds the typed `info` view around the parsed dictionary, checking
/// every structural invariant the description demands.
fn build_info(raw: BValue) -> (r: Option<Info>)
    requires
        bval_wf(raw),
    ensures
        r matches Some(info) ==> info.wf() && info.raw == raw,
        r is None ==> !info_accepted(raw),
{
    let entries = match &raw {
        BValue::Dict(e) => e,
        _ => {
            return None;
        },
    };
    let name = match get_string_field(entries, kb_name().as_slice()) {
        Some(s) => s,
        None => {
            return None;
        },
    };
    let piece_length: u32 = match get_int_field(entries, kb_piece_length().as_slice()) {
        Some(n) => {
            if n < 1 || n > u32::MAX as i64 {
                return None;
            }
            n as u32
        },
        None => {
            return None;
        },
    };
    let pieces = match get_bytes_field(entries, kb_pieces().as_slice()) {
        Some(b) => b,
        None => {
            return None;
        },
    };
    if pieces.len() % 20 != 0 {
        return None;
    }
    let length: Option<u64> = match get_int_field(entries, kb_length().as_slice()) {
        Some(n) => {
            if n < 0 {
                return None;
            }
            Some(n as u64)
        },
        None => None,
    };
    let mut files: Option<Vec<File>> = None;
    let mut total: u64 = 0;
    match &length {
        Some(n) => {
            if crate::bencode::dict_get(entries, kb_files().as_slice()).is_some() {
                return None;
            }
            total = *n;
        },
        None => {
            let fv = match crate::bencode::dict_get(entries, kb_files().as_slice()) {
                Some(v) => v,
                None => {
                    return None;
                },
            };
            let fs = match parse_files(fv) {
                Some(fs) => fs,
                None => {
                    return None;
                },
            };
            total = match files_total_checked(&fs) {
                Some(t) => t,
                None => {
                    proof {
                        if info_accepted(raw) {
                            let fl = fv->List_0;
                            lemma_files_total_matches(fs@, fl@);
                        }
                    }
                    return None;
                },
            };
            proof {
                if fv is List {
                    lemma_files_total_matches(fs@, fv->List_0@);
                }
            }
            files = Some(fs);
        },
    }
    // the piece count must cover the total, rounded up
    let np = pieces.len() / 20;
    let pl128 = piece_length as u128;
    let expected = (total as u128 + pl128 - 1) / pl128;
    if np as u128 != expected {
        proof {
            if info_accepted(raw) {
                assert(false);
            }
        }
        return None;
    }
    let info = Info { name, piece_length, pieces, length, files, raw };
    proof {
        assert(info.spec_num_pieces() == (info.spec_total_bytes() + info.piece_length - 1) / (
        info.piece_length as int));
    }
    Some(info)
}

/// Sums the file lengths, rejecting overflow.
fn files_total_checked(fs: &Vec<File>) -> (r: Option<u64>)
    ensures
        r matches Some(t) ==> t == spec_files_total(fs@),
        r is None ==> spec_files_total(fs@) > u64::MAX,
{
    let mut acc: u64 = 0;
    let mut i: usize = 0;
    proof {
        assert(fs@.take(0) =~= Seq::<File>::empty());
    }
    while i < fs.len()
        invariant
            i <= fs@.len(),
            acc == spec_files_total(fs@.take(i as int)),
        decreases fs@.len() - i,
    {
        proof {
            assert(fs@.take(i + 1).drop_last() =~= fs@.take(i as int));
            assert(fs@.take(i + 1).last() == fs@[i as int]);
        }
        acc = match acc.checked_add(fs[i].length) {
            Some(a) => a,
            None => {
                proof {
                    lemma_files_total_take_bounds(fs@, i + 1);
                    assert(spec_files_total(fs@.take(i + 1)) > u64::MAX);
                }
                return None;
            },
        };
        i = i + 1;
    }
    proof {
        assert(fs@.take(fs@.len() as int) =~= fs@);
    }
    Some(acc)
}

} // verus!
