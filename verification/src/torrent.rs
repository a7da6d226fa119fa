//! Torrent metainfo: a .torrent file parsed into a validated descriptor.
//! The info hash is the SHA-1 digest of the raw byte range that the `info`
//! value occupies in the source — never a re-encoding.

use vstd::prelude::*;

verus! {

use crate::bencode::{
    BencodeValue, SpecBencode, dict_lookup, spec_parse, spec_key_range, raw_range_of_key,
};
use crate::error::Error;
use crate::hashing::{sha1_of, sha1_digest};
use crate::text::{ascii_chars_of, hex_of, hex_string};
use vstd::string::StringExecFns;
use vstd::utf8::{valid_utf8, decode_utf8};

/// One file of the torrent: relative path components and byte length.
#[derive(Debug)]
pub struct FileInfo {
    /// Path components below the torrent's root name.
    pub path: Vec<String>,
    /// File length in bytes.
    pub length: u64,
}

impl Clone for FileInfo {
    /// An exact copy.
    fn clone(&self) -> (r: Self)
        ensures
            strings_view(r.path) == strings_view(self.path),
            r.length == self.length,
    {
        let mut path: Vec<String> = Vec::new();
        let n = self.path.len();
        let mut i: usize = 0;
        while i < n
            invariant
                i <= n == self.path@.len(),
                path@.len() == i,
                forall|j: int| 0 <= j < i ==> #[trigger] path@[j]@ == self.path@[j]@,
            decreases n - i,
        {
            path.push(self.path[i].clone());
            i = i + 1;
        }
        let r = FileInfo { path, length: self.length };
        proof {
            assert(strings_view(r.path) =~= strings_view(self.path));
        }
        r
    }
}

/// The characters of each string in a vector.
pub open spec fn strings_view(v: Vec<String>) -> Seq<Seq<char>> {
    Seq::new(v@.len(), |i: int| v@[i]@)
}

/// Priority of a file for selective downloading.
#[derive(Debug, Clone, Copy, PartialEq, Eq, Structural)]
pub enum FilePriority {
    /// Do not download.
    Skip,
    /// Fetch after everything else.
    Low,
    /// The default.
    Normal,
    /// Fetch before the rest.
    High,
}

/// One row of the files view.
#[derive(Debug, Clone)]
pub struct FileInfoUI {
    /// Full path, components joined with `/`.
    pub path: String,
    /// File size in bytes.
    pub size: u64,
    /// Bytes of the file already covered by verified pieces.
    pub downloaded: u64,
    /// Download priority.
    pub priority: FilePriority,
    /// Whether the row names a directory.
    pub is_folder: bool,
}

/// The validated `info` dictionary of a torrent.
#[derive(Debug)]
pub struct TorrentInfo {
    /// Bytes per piece, uniform except for the last piece.
    pub piece_length: u64,
    /// The concatenated 20-byte digests of all pieces.
    pub pieces: Vec<u8>,
    /// How many pieces the torrent has.
    pub piece_count: usize,
    /// The files, in stream order.
    pub files: Vec<FileInfo>,
    /// The torrent's name.
    pub name: String,
    /// Total bytes over all files.
    pub total_size: u64,
    /// Whether the torrent holds a single file.
    pub is_single_file: bool,
}

/// A parsed and validated .torrent descriptor.
#[derive(Debug)]
pub struct Metainfo {
    /// The primary tracker announce URL.
    pub announce: String,
    /// Optional tiered announce URLs.
    pub announce_list: Vec<Vec<String>>,
    /// The validated info dictionary.
    pub info: TorrentInfo,
    /// SHA-1 of the raw `info` byte range of the source.
    pub info_hash: [u8; 20],
    /// Optional creation time, seconds since the epoch.
    pub creation_date: Option<i64>,
    /// Optional free-text comment.
    pub comment: Option<String>,
    /// Optional producing-software tag.
    pub created_by: Option<String>,
}

// ---------------------------------------------------------------------------
// The specification of the extraction
// ---------------------------------------------------------------------------

/// The value under `key` when the root is a dictionary.
pub open spec fn get_key(root: SpecBencode, key: Seq<u8>) -> Option<SpecBencode> {
    match root {
        SpecBencode::Dict(ps) => dict_lookup(ps, key),
        _ => None,
    }
}

/// The bytes of the key `announce`.
pub open spec fn key_announce() -> Seq<u8> {
    seq![97u8, 110, 110, 111, 117, 110, 99, 101]
}

/// The bytes of the key `announce-list`.
pub open spec fn key_announce_list() -> Seq<u8> {
    seq![97u8, 110, 110, 111, 117, 110, 99, 101, 45, 108, 105, 115, 116]
}

/// The bytes of the key `info`.
pub open spec fn key_info() -> Seq<u8> {
    seq![105u8, 110, 102, 111]
}

/// The bytes of the key `piece length`.
pub open spec fn key_piece_length() -> Seq<u8> {
    seq![112u8, 105, 101, 99, 101, 32, 108, 101, 110, 103, 116, 104]
}

/// The bytes of the key `piece_length`, accepted as a fallback spelling.
pub open spec fn key_piece_length_us() -> Seq<u8> {
    seq![112u8, 105, 101, 99, 101, 95, 108, 101, 110, 103, 116, 104]
}

/// The bytes of the key `pieces`.
pub open spec fn key_pieces() -> Seq<u8> {
    seq![112u8, 105, 101, 99, 101, 115]
}

/// The bytes of the key `name`.
pub open spec fn key_name() -> Seq<u8> {
    seq![110u8, 97, 109, 101]
}

/// The bytes of the key `length`.
pub open spec fn key_length() -> Seq<u8> {
    seq![108u8, 101, 110, 103, 116, 104]
}

/// The bytes of the key `files`.
pub open spec fn key_files() -> Seq<u8> {
    seq![102u8, 105, 108, 101, 115]
}

/// The bytes of the key `path`.
pub open spec fn key_path() -> Seq<u8> {
    seq![112u8, 97, 116, 104]
}

/// The bytes of the key `creation date`.
pub open spec fn key_creation_date() -> Seq<u8> {
    seq![99u8, 114, 101, 97, 116, 105, 111, 110, 32, 100, 97, 116, 101]
}

/// The bytes of the key `comment`.
pub open spec fn key_comment() -> Seq<u8> {
    seq![99u8, 111, 109, 109, 101, 110, 116]
}

/// The bytes of the key `created by`.
pub open spec fn key_created_by() -> Seq<u8> {
    seq![99u8, 114, 101, 97, 116, 101, 100, 32, 98, 121]
}

/// The string under `key`, when present, a byte string and valid UTF-8.
pub open spec fn opt_str_of(root: SpecBencode, key: Seq<u8>) -> Option<Seq<char>> {
    match get_key(root, key) {
        Some(SpecBencode::Bytes(b)) => if valid_utf8(b) {
            Some(decode_utf8(b))
        } else {
            None
        },
        _ => None,
    }
}

/// The integer under `key`, when present and an integer.
pub open spec fn opt_int_of(root: SpecBencode, key: Seq<u8>) -> Option<int> {
    match get_key(root, key) {
        Some(SpecBencode::Int(n)) => Some(n),
        _ => None,
    }
}

/// The URLs of the first `n` entries of an announce tier: byte strings that
/// decode as UTF-8, in order; everything else is skipped.
pub open spec fn tier_upto(items: Seq<SpecBencode>, n: int) -> Seq<Seq<char>>
    decreases n,
{
    if n <= 0 {
        Seq::empty()
    } else {
        tier_upto(items, n - 1) + match items[n - 1] {
            SpecBencode::Bytes(b) => if valid_utf8(b) {
                seq![decode_utf8(b)]
            } else {
                Seq::empty()
            },
            _ => Seq::empty(),
        }
    }
}

/// The tiers among the first `n` entries of an announce list: list-valued
/// entries become tiers, everything else is skipped.
pub open spec fn tiers_upto(items: Seq<SpecBencode>, n: int) -> Seq<Seq<Seq<char>>>
    decreases n,
{
    if n <= 0 {
        Seq::empty()
    } else {
        tiers_upto(items, n - 1) + match items[n - 1] {
            SpecBencode::List(tier) => seq![tier_upto(tier, tier.len() as int)],
            _ => Seq::empty(),
        }
    }
}

/// The announce list of the root: its tiers when the key holds a list,
/// empty otherwise.
pub open spec fn spec_announce_list(root: SpecBencode) -> Seq<Seq<Seq<char>>> {
    match get_key(root, key_announce_list()) {
        Some(SpecBencode::List(items)) => tiers_upto(items, items.len() as int),
        _ => Seq::empty(),
    }
}

/// A legal path component: a non-empty string without `/` that is not
/// `..`, so it cannot escape the download directory.
pub open spec fn component_ok(c: Seq<char>) -> bool {
    &&& c.len() > 0
    &&& !(c =~= seq!['.', '.'])
    &&& forall|i: int| 0 <= i < c.len() ==> c[i] != '/'
}

/// The path components of the first `n` entries of a `path` list: strings
/// kept in order, everything else skipped.
pub open spec fn components_upto(items: Seq<SpecBencode>, n: int) -> Seq<Seq<char>>
    decreases n,
{
    tier_upto(items, n)
}

/// One entry of the `files` list is well formed: a dictionary with an
/// integer `length` and a `path` list whose kept components are non-empty
/// and all legal.
pub open spec fn file_entry_ok(v: SpecBencode) -> bool {
    &&& get_key(v, key_length()) matches Some(SpecBencode::Int(_))
    &&& get_key(v, key_path()) matches Some(SpecBencode::List(items)) && {
        let cs = components_upto(items, items.len() as int);
        cs.len() > 0 && forall|i: int| 0 <= i < cs.len() ==> component_ok(#[trigger] cs[i])
    }
}

/// The model of one `files` entry: kept path components and the length
/// as the engine stores it.
pub open spec fn file_entry_model(v: SpecBencode) -> (Seq<Seq<char>>, u64) {
    let length = match get_key(v, key_length()) {
        Some(SpecBencode::Int(n)) => n as u64,
        _ => 0u64,
    };
    let cs = match get_key(v, key_path()) {
        Some(SpecBencode::List(items)) => components_upto(items, items.len() as int),
        _ => Seq::empty(),
    };
    (cs, length)
}

/// Every one of the first `n` entries of a `files` list is well formed.
pub open spec fn files_ok_upto(items: Seq<SpecBencode>, n: int) -> bool
    decreases n,
{
    n <= 0 || (files_ok_upto(items, n - 1) && file_entry_ok(items[n - 1]))
}

/// The models of the first `n` entries of a `files` list.
pub open spec fn files_upto(items: Seq<SpecBencode>, n: int) -> Seq<(Seq<Seq<char>>, u64)>
    decreases n,
{
    if n <= 0 {
        Seq::empty()
    } else {
        files_upto(items, n - 1).push(file_entry_model(items[n - 1]))
    }
}

/// The summed length of the first `n` entries of a `files` list.
pub open spec fn files_total_upto(items: Seq<SpecBencode>, n: int) -> int
    decreases n,
{
    if n <= 0 {
        0
    } else {
        files_total_upto(items, n - 1) + file_entry_model(items[n - 1]).1
    }
}

/// The `info` dictionary is well formed: a dictionary with an integer
/// piece length, a `pieces` byte string of whole 20-byte digests, a UTF-8
/// `name`, and either a `length` integer (single file) or a well-formed
/// `files` list whose lengths sum within a 64-bit count.
pub open spec fn spec_info_ok(info: SpecBencode) -> bool {
    &&& info is Dict
    &&& (opt_int_of(info, key_piece_length()) is Some || opt_int_of(
        info,
        key_piece_length_us(),
    ) is Some)
    &&& get_key(info, key_pieces()) matches Some(SpecBencode::Bytes(b)) && b.len() % 20 == 0
    &&& opt_str_of(info, key_name()) is Some
    &&& (if spec_single_of(info) {
        opt_int_of(info, key_length()) is Some
    } else {
        get_key(info, key_files()) matches Some(SpecBencode::List(items)) && files_ok_upto(
            items,
            items.len() as int,
        ) && files_total_upto(items, items.len() as int) <= u64::MAX
    })
}

/// The piece length of a well-formed info dictionary: the spaced spelling
/// wins over the underscore fallback.
pub open spec fn spec_piece_length_of(info: SpecBencode) -> u64 {
    match opt_int_of(info, key_piece_length()) {
        Some(n) => n as u64,
        None => match opt_int_of(info, key_piece_length_us()) {
            Some(n) => n as u64,
            None => 0u64,
        },
    }
}

/// The digest table of a well-formed info dictionary.
pub open spec fn spec_pieces_of(info: SpecBencode) -> Seq<u8> {
    match get_key(info, key_pieces()) {
        Some(SpecBencode::Bytes(b)) => b,
        _ => Seq::empty(),
    }
}

/// The name of a well-formed info dictionary.
pub open spec fn spec_name_of(info: SpecBencode) -> Seq<char> {
    match opt_str_of(info, key_name()) {
        Some(cs) => cs,
        None => Seq::empty(),
    }
}

/// Whether an info dictionary describes a single file: a `length` key
/// takes precedence over `files`.
pub open spec fn spec_single_of(info: SpecBencode) -> bool {
    get_key(info, key_length()) is Some
}

/// The file table of a well-formed info dictionary: one synthetic entry
/// named after the torrent for a single file, else the modelled entries of
/// the `files` list.
pub open spec fn spec_files_of(info: SpecBencode) -> Seq<(Seq<Seq<char>>, u64)> {
    if spec_single_of(info) {
        seq![
            (
                seq![spec_name_of(info)],
                match opt_int_of(info, key_length()) {
                    Some(n) => n as u64,
                    None => 0u64,
                },
            ),
        ]
    } else {
        match get_key(info, key_files()) {
            Some(SpecBencode::List(items)) => files_upto(items, items.len() as int),
            _ => Seq::empty(),
        }
    }
}

/// The total size of a well-formed info dictionary.
pub open spec fn spec_total_of(info: SpecBencode) -> int {
    if spec_single_of(info) {
        match opt_int_of(info, key_length()) {
            Some(n) => n as u64 as int,
            None => 0,
        }
    } else {
        match get_key(info, key_files()) {
            Some(SpecBencode::List(items)) => files_total_upto(items, items.len() as int),
            _ => 0,
        }
    }
}

/// A whole metainfo buffer is accepted: it parses to a dictionary with a
/// UTF-8 `announce` string and a well-formed `info` dictionary whose raw
/// byte range the buffer exposes.
pub open spec fn spec_metainfo_ok(s: Seq<u8>) -> bool {
    &&& spec_parse(s, 0) matches Some(rp) && {
        &&& opt_str_of(rp.0, key_announce()) is Some
        &&& get_key(rp.0, key_info()) matches Some(info) && spec_info_ok(info)
    }
    &&& s.len() > 0 && s[0] == 100
    &&& spec_key_range(s, 1, key_info()) is Some
}

/// The file models of a descriptor's file table.
pub open spec fn files_view(files: Vec<FileInfo>) -> Seq<(Seq<Seq<char>>, u64)> {
    Seq::new(files@.len(), |i: int| (strings_view(files@[i].path), files@[i].length))
}

/// The tier models of a descriptor's announce list.
pub open spec fn tiers_view(list: Vec<Vec<String>>) -> Seq<Seq<Seq<char>>> {
    Seq::new(list@.len(), |i: int| strings_view(list@[i]))
}

/// The root value a metainfo buffer parses to.
pub open spec fn root_of(s: Seq<u8>) -> SpecBencode {
    match spec_parse(s, 0) {
        Some(rp) => rp.0,
        None => SpecBencode::Int(0),
    }
}

/// The `info` value of the root.
pub open spec fn info_of(s: Seq<u8>) -> SpecBencode {
    match get_key(root_of(s), key_info()) {
        Some(v) => v,
        None => SpecBencode::Int(0),
    }
}

/// The announce URL of the root, empty when absent.
pub open spec fn announce_of(root: SpecBencode) -> Seq<char> {
    match opt_str_of(root, key_announce()) {
        Some(cs) => cs,
        None => Seq::empty(),
    }
}

/// A metainfo error with the given description.
fn meta_error(msg: &str) -> (r: Error)
    ensures
        r is MetainfoError,
{
    Error::MetainfoError(String::from_str(msg))
}

/// Whether a path component may appear under the download directory.
fn check_component(s: &str) -> (r: bool)
    ensures
        r == component_ok(s@),
{
    let n = s.unicode_len();
    if n == 0 {
        return false;
    }
    if crate::text::str_eq(s, "..") {
        proof {
            reveal_strlit("..");
            assert(s@ =~= seq!['.', '.']);
        }
        return false;
    }
    let mut i: usize = 0;
    while i < n
        invariant
            i <= n == s@.len(),
            forall|j: int| 0 <= j < i ==> s@[j] != '/',
        decreases n - i,
    {
        if s.get_char(i) == '/' {
            return false;
        }
        i = i + 1;
    }
    proof {
        reveal_strlit("..");
        if s@ =~= seq!['.', '.'] {
            assert(s@ == ".."@);
        }
    }
    true
}

impl TorrentInfo {
    /// Parse and validate an `info` dictionary value.  Succeeds exactly on
    /// well-formed dictionaries and returns their modelled fields.
    pub fn parse(value: &BencodeValue) -> (r: Result<TorrentInfo, Error>)
        ensures
            r is Ok <==> spec_info_ok(value@),
            r matches Ok(ti) ==> {
                &&& ti.piece_length == spec_piece_length_of(value@)
                &&& ti.pieces@ == spec_pieces_of(value@)
                &&& ti.piece_count == spec_pieces_of(value@).len() / 20
                &&& ti.name@ == spec_name_of(value@)
                &&& ti.is_single_file == spec_single_of(value@)
                &&& files_view(ti.files) == spec_files_of(value@)
                &&& ti.total_size == spec_total_of(value@)
            },
            r matches Err(e) ==> e is MetainfoError,
    {
        let k_piece_length: [u8; 12] = [112, 105, 101, 99, 101, 32, 108, 101, 110, 103, 116, 104];
        let k_piece_length_us: [u8; 12] = [
            112, 105, 101, 99, 101, 95, 108, 101, 110, 103, 116, 104,
        ];
        let k_pieces: [u8; 6] = [112, 105, 101, 99, 101, 115];
        let k_name: [u8; 4] = [110, 97, 109, 101];
        let k_length: [u8; 6] = [108, 101, 110, 103, 116, 104];
        let k_files: [u8; 5] = [102, 105, 108, 101, 115];
        let k_path: [u8; 4] = [112, 97, 116, 104];
        proof {
            assert(k_piece_length@ =~= key_piece_length());
            assert(k_piece_length_us@ =~= key_piece_length_us());
            assert(k_pieces@ =~= key_pieces());
            assert(k_name@ =~= key_name());
            assert(k_length@ =~= key_length());
            assert(k_files@ =~= key_files());
            assert(k_path@ =~= key_path());
        }
        let piece_length_int = match value.dict_get_int(k_piece_length.as_slice()) {
            Some(n) => n,
            None => match value.dict_get_int(k_piece_length_us.as_slice()) {
                Some(n) => n,
                None => {
                    return Err(meta_error("missing piece length"));
                },
            },
        };
        let piece_length = piece_length_int as u64;
        let pieces_val = match value.dict_get(k_pieces.as_slice()) {
            Some(v) => v,
            None => {
                return Err(meta_error("missing pieces"));
            },
        };
        let pieces_ref = match pieces_val.as_bytes() {
            Some(b) => b,
            None => {
                return Err(meta_error("missing pieces"));
            },
        };
        let pieces = vstd::slice::slice_to_vec(pieces_ref.as_slice());
        if pieces.len() % 20 != 0 {
            return Err(meta_error("pieces length must be multiple of 20"));
        }
        let piece_count = pieces.len() / 20;
        let name = match value.dict_get_str(k_name.as_slice()) {
            Some(s) => s.to_owned(),
            None => {
                return Err(meta_error("missing name"));
            },
        };
        // A `length` key means a single file; otherwise a `files` list.
        match value.dict_get(k_length.as_slice()) {
            Some(length_val) => {
                let length = match length_val.as_integer() {
                    Some(n) => n,
                    None => {
                        return Err(meta_error("invalid length"));
                    },
                };
                let total = length as u64;
                let mut path: Vec<String> = Vec::new();
                path.push(name.clone());
                let mut files: Vec<FileInfo> = Vec::new();
                files.push(FileInfo { path, length: total });
                let ti = TorrentInfo {
                    piece_length,
                    pieces,
                    piece_count,
                    files,
                    name,
                    total_size: total,
                    is_single_file: true,
                };
                proof {
                    assert(strings_view(ti.files@[0].path) =~= seq![spec_name_of(value@)]);
                    assert(files_view(ti.files) =~= spec_files_of(value@));
                }
                Ok(ti)
            },
            None => {
                let files_val = match value.dict_get(k_files.as_slice()) {
                    Some(v) => v,
                    None => {
                        return Err(meta_error("missing length or files field"));
                    },
                };
                let files_list = match files_val.as_list() {
                    Some(l) => l,
                    None => {
                        return Err(meta_error("files must be a list"));
                    },
                };
                let ghost items = crate::bencode::view_items(files_list@);
                proof {
                    crate::bencode::lemma_view_items(files_list@);
                }
                let n = files_list.len();
                let mut files: Vec<FileInfo> = Vec::new();
                let mut total: u64 = 0;
                let mut idx: usize = 0;
                while idx < n
                    invariant
                        k_length@ == key_length(),
                        k_path@ == key_path(),
                        !spec_single_of(value@),
                        get_key(value@, key_files()) == Some(SpecBencode::List(items)),
                        n == files_list@.len(),
                        idx <= n,
                        items == crate::bencode::view_items(files_list@),
                        items.len() == n,
                        forall|j: int| 0 <= j < n ==> items[j] == crate::bencode::view_value(
                            #[trigger] files_list@[j],
                        ),
                        files_ok_upto(items, idx as int),
                        files_view(files) == files_upto(items, idx as int),
                        total == files_total_upto(items, idx as int),
                    decreases n - idx,
                {
                    let entry = &files_list[idx];
                    proof {
                        assert(entry@ == items[idx as int]);
                    }
                    let length = match entry.dict_get_int(k_length.as_slice()) {
                        Some(v) => v,
                        None => {
                            proof {
                                assert(!file_entry_ok(items[idx as int]));
                                lemma_files_not_ok(items, idx as int, n as int);
                            }
                            return Err(meta_error("file missing length"));
                        },
                    };
                    let path_val = match entry.dict_get(k_path.as_slice()) {
                        Some(v) => v,
                        None => {
                            proof {
                                assert(!file_entry_ok(items[idx as int]));
                                lemma_files_not_ok(items, idx as int, n as int);
                            }
                            return Err(meta_error("file missing path"));
                        },
                    };
                    let path_list = match path_val.as_list() {
                        Some(l) => l,
                        None => {
                            proof {
                                assert(!file_entry_ok(items[idx as int]));
                                lemma_files_not_ok(items, idx as int, n as int);
                            }
                            return Err(meta_error("file missing path"));
                        },
                    };
                    let ghost comps = crate::bencode::view_items(path_list@);
                    proof {
                        crate::bencode::lemma_view_items(path_list@);
                    }
                    let pn = path_list.len();
                    let mut path: Vec<String> = Vec::new();
                    let mut pj: usize = 0;
                    let mut all_ok = true;
                    while pj < pn
                        invariant
                            pn == path_list@.len(),
                            pj <= pn,
                            comps == crate::bencode::view_items(path_list@),
                            comps.len() == pn,
                            forall|j: int| 0 <= j < pn ==> comps[j]
                                == crate::bencode::view_value(#[trigger] path_list@[j]),
                            strings_view(path) == components_upto(comps, pj as int),
                            all_ok == (forall|j: int|
                                0 <= j < components_upto(comps, pj as int).len()
                                    ==> component_ok(
                                    #[trigger] components_upto(comps, pj as int)[j],
                                )),
                        decreases pn - pj,
                    {
                        let ghost pre = components_upto(comps, pj as int);
                        match path_list[pj].as_str() {
                            Some(s) => {
                                let ghost was_ok = all_ok;
                                if !check_component(s) {
                                    all_ok = false;
                                }
                                path.push(s.to_owned());
                                proof {
                                    let cur = components_upto(comps, pj + 1);
                                    assert(cur =~= pre.push(s@));
                                    assert(strings_view(path) =~= cur);
                                    if all_ok {
                                        assert forall|j: int| 0 <= j < cur.len()
                                            implies component_ok(#[trigger] cur[j]) by {
                                            if j < pre.len() {
                                                assert(cur[j] == pre[j]);
                                            } else {
                                                assert(cur[j] == s@);
                                            }
                                        }
                                    } else {
                                        if !was_ok {
                                            let w = choose|w: int|
                                                0 <= w < pre.len() && !component_ok(pre[w]);
                                            assert(cur[w] == pre[w]);
                                            assert(!component_ok(cur[w]));
                                        } else {
                                            assert(cur[pre.len() as int] == s@);
                                            assert(!component_ok(cur[pre.len() as int]));
                                        }
                                    }
                                }
                            },
                            None => {
                                proof {
                                    assert(components_upto(comps, pj + 1) =~= pre);
                                }
                            },
                        }
                        pj = pj + 1;
                    }
                    let ghost model = file_entry_model(items[idx as int]);
                    if path.len() == 0 || !all_ok {
                        proof {
                            assert(strings_view(path).len() == path@.len());
                            assert(!file_entry_ok(items[idx as int]));
                            lemma_files_not_ok(items, idx as int, n as int);
                        }
                        return Err(meta_error("invalid file path"));
                    }
                    proof {
                        assert(file_entry_ok(items[idx as int]));
                        assert(file_entry_model(items[idx as int]) == (
                            strings_view(path),
                            length as u64,
                        ));
                    }
                    let length_u = length as u64;
                    if length_u > u64::MAX - total {
                        proof {
                            assert(files_total_upto(items, idx + 1) > u64::MAX);
                            lemma_files_total_monotone(items, idx + 1, n as int);
                        }
                        return Err(meta_error("file sizes overflow"));
                    }
                    total = total + length_u;
                    files.push(FileInfo { path, length: length_u });
                    proof {
                        assert(files_view(files) =~= files_upto(items, idx + 1));
                    }
                    idx = idx + 1;
                }
                let ti = TorrentInfo {
                    piece_length,
                    pieces,
                    piece_count,
                    files,
                    name,
                    total_size: total,
                    is_single_file: false,
                };
                Ok(ti)
            },
        }
    }

    /// The stored 20-byte digest of piece `index`, when the table holds it.
    pub fn piece_hash(&self, index: usize) -> (r: Option<&[u8]>)
        ensures
            r is Some <==> (index < self.piece_count && 20 * index + 20 <= self.pieces@.len()),
            r matches Some(h) ==> h@ == self.pieces@.subrange(20 * index, 20 * index + 20),
    {
        let pl = self.pieces.len();
        if index >= self.piece_count {
            return None;
        }
        if index > (usize::MAX - 20) / 20 {
            proof {
                assert(20 * index + 20 > usize::MAX) by (nonlinear_arith)
                    requires
                        index > (usize::MAX - 20) / 20,
                ;
            }
            return None;
        }
        proof {
            assert(index * 20 + 20 <= usize::MAX && 20 * index == index * 20) by (
            nonlinear_arith)
                requires
                    index <= (usize::MAX - 20) / 20,
            ;
        }
        let start = index * 20;
        if start + 20 > pl {
            return None;
        }
        Some(vstd::slice::slice_subrange(self.pieces.as_slice(), start, start + 20))
    }
}

/// An entry that fails its checks poisons the whole `files` list.
proof fn lemma_files_not_ok(items: Seq<SpecBencode>, bad: int, n: int)
    requires
        0 <= bad < n,
        !file_entry_ok(items[bad]),
    ensures
        !files_ok_upto(items, n),
    decreases n,
{
    if bad < n - 1 {
        lemma_files_not_ok(items, bad, n - 1);
    }
}

/// File lengths only accumulate.
proof fn lemma_files_total_monotone(items: Seq<SpecBencode>, a: int, b: int)
    requires
        a <= b,
    ensures
        files_total_upto(items, a) <= files_total_upto(items, b),
    decreases b - a,
{
    if a < b {
        lemma_files_total_monotone(items, a, b - 1);
    }
}

impl Metainfo {
    /// Parse a whole .torrent buffer.  Succeeds exactly on buffers that
    /// `spec_metainfo_ok` accepts; the descriptor carries the modelled
    /// fields, and its info hash is the SHA-1 digest of the raw bytes the
    /// `info` value occupies in the buffer.
    pub fn from_bytes(data: &[u8]) -> (r: Result<Metainfo, Error>)
        ensures
            r is Ok <==> spec_metainfo_ok(data@),
            r matches Ok(m) ==> {
                let root = root_of(data@);
                let info = info_of(data@);
                &&& m.announce@ == announce_of(root)
                &&& tiers_view(m.announce_list) == spec_announce_list(root)
                &&& m.info.piece_length == spec_piece_length_of(info)
                &&& m.info.pieces@ == spec_pieces_of(info)
                &&& m.info.piece_count == spec_pieces_of(info).len() / 20
                &&& m.info.name@ == spec_name_of(info)
                &&& m.info.is_single_file == spec_single_of(info)
                &&& files_view(m.info.files) == spec_files_of(info)
                &&& m.info.total_size == spec_total_of(info)
                &&& (spec_key_range(data@, 1, key_info()) matches Some(pr) && m.info_hash@
                    == sha1_of(data@.subrange(pr.0, pr.1)))
                &&& m.creation_date == (match opt_int_of(root, key_creation_date()) {
                    Some(n) => Some(n as i64),
                    None => None::<i64>,
                })
                &&& (match opt_str_of(root, key_comment()) {
                    Some(cs) => m.comment matches Some(c) && c@ == cs,
                    None => m.comment is None,
                })
                &&& (match opt_str_of(root, key_created_by()) {
                    Some(cs) => m.created_by matches Some(c) && c@ == cs,
                    None => m.created_by is None,
                })
            },
            r matches Err(e) ==> e is MetainfoError || e is BencodeError,
    {
        let k_announce: [u8; 8] = [97, 110, 110, 111, 117, 110, 99, 101];
        let k_announce_list: [u8; 13] = [
            97, 110, 110, 111, 117, 110, 99, 101, 45, 108, 105, 115, 116,
        ];
        let k_info: [u8; 4] = [105, 110, 102, 111];
        let k_creation_date: [u8; 13] = [
            99, 114, 101, 97, 116, 105, 111, 110, 32, 100, 97, 116, 101,
        ];
        let k_comment: [u8; 7] = [99, 111, 109, 109, 101, 110, 116];
        let k_created_by: [u8; 10] = [99, 114, 101, 97, 116, 101, 100, 32, 98, 121];
        proof {
            assert(k_announce@ =~= key_announce());
            assert(k_announce_list@ =~= key_announce_list());
            assert(k_info@ =~= key_info());
            assert(k_creation_date@ =~= key_creation_date());
            assert(k_comment@ =~= key_comment());
            assert(k_created_by@ =~= key_created_by());
        }
        let root_val = match BencodeValue::parse(data) {
            Ok(v) => v,
            Err(e) => {
                return Err(e);
            },
        };
        let announce = match root_val.dict_get_str(k_announce.as_slice()) {
            Some(s) => s.to_owned(),
            None => {
                return Err(meta_error("missing announce field"));
            },
        };
        let announce_list = parse_announce_list(&root_val, k_announce_list.as_slice());
        let info_val = match root_val.dict_get(k_info.as_slice()) {
            Some(v) => v,
            None => {
                return Err(meta_error("missing info field"));
            },
        };
        let info = match TorrentInfo::parse(info_val) {
            Ok(ti) => ti,
            Err(e) => {
                return Err(e);
            },
        };
        let range = match raw_range_of_key(data, k_info.as_slice()) {
            Some(pr) => pr,
            None => {
                return Err(meta_error("cannot locate raw info bytes"));
            },
        };
        let info_slice = vstd::slice::slice_subrange(data, range.0, range.1);
        let digest = sha1_digest(info_slice);
        let mut info_hash: [u8; 20] = [0u8; 20];
        let mut hi: usize = 0;
        while hi < 20
            invariant
                hi <= 20,
                digest@.len() == 20,
                forall|j: int| 0 <= j < hi ==> info_hash@[j] == digest@[j],
            decreases 20 - hi,
        {
            info_hash[hi] = digest[hi];
            hi = hi + 1;
        }
        proof {
            assert(info_hash@ =~= digest@);
        }
        let creation_date = root_val.dict_get_int(k_creation_date.as_slice());
        let comment = match root_val.dict_get_str(k_comment.as_slice()) {
            Some(s) => Some(s.to_owned()),
            None => None,
        };
        let created_by = match root_val.dict_get_str(k_created_by.as_slice()) {
            Some(s) => Some(s.to_owned()),
            None => None,
        };
        Ok(Metainfo {
            announce,
            announce_list,
            info,
            info_hash,
            creation_date,
            comment,
            created_by,
        })
    }

    /// The info hash as forty lowercase hex digits.
    pub fn info_hash_hex(&self) -> (r: String)
        ensures
            r@ == ascii_chars_of(hex_of(self.info_hash@)),
    {
        hex_string(self.info_hash.as_slice())
    }

    /// The info hash percent-encoded for a tracker query: `%xx` for every
    /// byte, lowercase.
    pub fn info_hash_urlencoded(&self) -> (r: String)
        ensures
            r@ == ascii_chars_of(crate::tracker::pct_bytes(self.info_hash@)),
    {
        crate::tracker::url_encode_bytes(self.info_hash.as_slice())
    }

    /// A stub descriptor for a magnet link: the real piece table is absent
    /// until the metadata arrives, so the piece table is empty, the total
    /// size zero, and the engine refuses to start downloading from it.
    pub fn from_magnet(
        info_hash: [u8; 20],
        display_name: Option<String>,
        trackers: Vec<String>,
    ) -> (r: Metainfo)
        ensures
            r.info_hash@ == info_hash@,
            r.announce@ == if trackers@.len() > 0 {
                trackers@[0]@
            } else {
                Seq::<char>::empty()
            },
            tiers_view(r.announce_list).len() == if trackers@.len() > 1 {
                trackers@.len() - 1
            } else {
                0int
            },
            forall|i: int| 0 <= i < tiers_view(r.announce_list).len()
                ==> #[trigger] tiers_view(r.announce_list)[i] =~= seq![trackers@[i + 1]@],
            r.info.piece_count == 0,
            r.info.pieces@.len() == 0,
            r.info.total_size == 0,
            r.info.is_single_file,
            r.info.name@ == (match display_name {
                Some(d) => d@,
                None => ascii_chars_of(hex_of(info_hash@.take(8))),
            }),
    {
        let announce = if trackers.len() > 0 {
            trackers[0].clone()
        } else {
            String::new()
        };
        let mut announce_list: Vec<Vec<String>> = Vec::new();
        if trackers.len() > 1 {
            let n = trackers.len();
            let mut i: usize = 1;
            while i < n
                invariant
                    1 <= i <= n == trackers@.len(),
                    announce_list@.len() == i - 1,
                    forall|j: int| 0 <= j < i - 1 ==> #[trigger] strings_view(
                        announce_list@[j],
                    ) =~= seq![trackers@[j + 1]@],
                decreases n - i,
            {
                let mut tier: Vec<String> = Vec::new();
                tier.push(trackers[i].clone());
                proof {
                    assert(strings_view(tier) =~= seq![trackers@[i as int]@]);
                }
                announce_list.push(tier);
                i = i + 1;
            }
        }
        let name = match display_name {
            Some(d) => d,
            None => crate::text::hex_string(
                vstd::slice::slice_subrange(info_hash.as_slice(), 0, 8),
            ),
        };
        let mut path: Vec<String> = Vec::new();
        path.push(name.clone());
        let mut files: Vec<FileInfo> = Vec::new();
        files.push(FileInfo { path, length: 0 });
        let info = TorrentInfo {
            piece_length: 262144,
            pieces: Vec::new(),
            piece_count: 0,
            files,
            name,
            total_size: 0,
            is_single_file: true,
        };
        proof {
            assert(info_hash@.subrange(0, 8) =~= info_hash@.take(8));
        }
        Metainfo {
            announce,
            announce_list,
            info,
            info_hash,
            creation_date: None,
            comment: Some(String::from_str("created from magnet link")),
            created_by: Some(String::from_str("seedcore")),
        }
    }
}

/// Parse the optional tiered announce list of the root: list-valued tiers
/// with their UTF-8 URLs, everything else skipped.
fn parse_announce_list(root_val: &BencodeValue, key: &[u8]) -> (r: Vec<Vec<String>>)
    requires
        key@ == key_announce_list(),
    ensures
        tiers_view(r) == spec_announce_list(root_val@),
{
    let mut out: Vec<Vec<String>> = Vec::new();
    let list_val = match root_val.dict_get(key) {
        Some(v) => v,
        None => {
            proof {
                assert(tiers_view(out) =~= spec_announce_list(root_val@));
            }
            return out;
        },
    };
    let list = match list_val.as_list() {
        Some(l) => l,
        None => {
            proof {
                assert(tiers_view(out) =~= spec_announce_list(root_val@));
            }
            return out;
        },
    };
    let ghost items = crate::bencode::view_items(list@);
    proof {
        crate::bencode::lemma_view_items(list@);
    }
    let n = list.len();
    let mut i: usize = 0;
    while i < n
        invariant
            n == list@.len(),
            i <= n,
            items == crate::bencode::view_items(list@),
            items.len() == n,
            forall|j: int| 0 <= j < n ==> items[j] == crate::bencode::view_value(
                #[trigger] list@[j],
            ),
            tiers_view(out) == tiers_upto(items, i as int),
        decreases n - i,
    {
        let ghost pre = tiers_upto(items, i as int);
        match list[i].as_list() {
            Some(tier_list) => {
                let ghost titems = crate::bencode::view_items(tier_list@);
                proof {
                    crate::bencode::lemma_view_items(tier_list@);
                }
                let tn = tier_list.len();
                let mut tier: Vec<String> = Vec::new();
                let mut t: usize = 0;
                while t < tn
                    invariant
                        tn == tier_list@.len(),
                        t <= tn,
                        titems == crate::bencode::view_items(tier_list@),
                        titems.len() == tn,
                        forall|j: int| 0 <= j < tn ==> titems[j] == crate::bencode::view_value(
                            #[trigger] tier_list@[j],
                        ),
                        strings_view(tier) == tier_upto(titems, t as int),
                    decreases tn - t,
                {
                    let ghost tpre = tier_upto(titems, t as int);
                    match tier_list[t].as_str() {
                        Some(s) => {
                            tier.push(s.to_owned());
                            proof {
                                assert(strings_view(tier) =~= tpre.push(s@));
                                assert(tier_upto(titems, t + 1) =~= tpre.push(s@));
                            }
                        },
                        None => {
                            proof {
                                assert(tier_upto(titems, t + 1) =~= tpre);
                            }
                        },
                    }
                    t = t + 1;
                }
                out.push(tier);
                proof {
                    assert(strings_view(out@[out@.len() - 1]) =~= tier_upto(
                        titems,
                        tn as int,
                    ));
                    assert(tiers_view(out) =~= tiers_upto(items, i + 1));
                }
            },
            None => {
                proof {
                    assert(tiers_upto(items, i + 1) =~= pre);
                }
            },
        }
        i = i + 1;
    }
    out
}

/// The rows of the files view: each file's path joined with `/`, its size,
/// no progress attributed yet, normal priority.
pub fn get_file_list(metainfo: &Metainfo) -> (r: Vec<FileInfoUI>)
    ensures
        r@.len() == metainfo.info.files@.len(),
        forall|i: int| 0 <= i < r@.len() ==> {
            &&& (#[trigger] r@[i]).path@ == join_path(strings_view(metainfo.info.files@[i].path))
            &&& r@[i].size == metainfo.info.files@[i].length
            &&& r@[i].downloaded == 0
            &&& r@[i].priority == FilePriority::Normal
            &&& !r@[i].is_folder
        },
{
    let n = metainfo.info.files.len();
    let mut out: Vec<FileInfoUI> = Vec::new();
    let mut i: usize = 0;
    while i < n
        invariant
            n == metainfo.info.files@.len(),
            i <= n,
            out@.len() == i,
            forall|j: int| 0 <= j < i ==> {
                &&& (#[trigger] out@[j]).path@ == join_path(
                    strings_view(metainfo.info.files@[j].path),
                )
                &&& out@[j].size == metainfo.info.files@[j].length
                &&& out@[j].downloaded == 0
                &&& out@[j].priority == FilePriority::Normal
                &&& !out@[j].is_folder
            },
        decreases n - i,
    {
        let file = &metainfo.info.files[i];
        let path = join_components(&file.path);
        out.push(FileInfoUI {
            path,
            size: file.length,
            downloaded: 0,
            priority: FilePriority::Normal,
            is_folder: false,
        });
        i = i + 1;
    }
    out
}

/// Path components joined with `/`: empty for no components.
pub open spec fn join_path(cs: Seq<Seq<char>>) -> Seq<char>
    decreases cs.len(),
{
    if cs.len() == 0 {
        Seq::empty()
    } else if cs.len() == 1 {
        cs[0]
    } else {
        join_path(cs.drop_last()) + seq!['/'] + cs.last()
    }
}

/// Join path components with `/`.
pub fn join_components(components: &Vec<String>) -> (r: String)
    ensures
        r@ == join_path(strings_view(*components)),
{
    let n = components.len();
    let mut out = String::new();
    let mut i: usize = 0;
    while i < n
        invariant
            n == components@.len(),
            i <= n,
            out@ == join_path(strings_view(*components).take(i as int)),
        decreases n - i,
    {
        if i > 0 {
            let slash: [u8; 1] = [47];
            proof {
                crate::text::lemma_ascii_utf8(slash@);
            }
            let sep = crate::text::ascii_to_string(slash.as_slice());
            out.append(sep.as_str());
            proof {
                assert(crate::text::ascii_chars_of(slash@) =~= seq!['/']);
            }
        }
        out.append(components[i].as_str());
        proof {
            let svc = strings_view(*components);
            assert(svc.take(i + 1).drop_last() =~= svc.take(i as int));
            assert(svc.take(i + 1).last() == svc[i as int]);
            if i == 0 {
                assert(out@ =~= join_path(svc.take(1)));
            } else {
                assert(out@ =~= join_path(svc.take(i + 1)));
            }
        }
        i = i + 1;
    }
    proof {
        assert(strings_view(*components).take(n as int) =~= strings_view(*components));
    }
    out
}

} // verus!
