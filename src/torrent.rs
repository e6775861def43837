use vstd::prelude::*;
use vstd::string::StringSliceAdditionalSpecFns;
use vstd::utf8::{decode_utf8, encode_utf8, valid_utf8};
use crate::bencode::{
    Bencode, Value, dict_get, decode_spec, decode_bencoded, items_view, bytes_encoding,
    int_encoding, push_bytes, push_int, TAG_DICT, TAG_END, TAG_LIST,
};
use crate::hash::{compute_hash, sha1_of};
use crate::encode::{encode, encode_spec};
use crate::peer::Piece;
use crate::error::Error;

verus! {

/// Length of a SHA-1 digest, and so of each piece hash.
pub const PIECE_HASH_SIZE: usize = 20;

/// Model of one file of a multi-file torrent.
pub struct FileModel {
    pub length: nat,
    pub path: Seq<Seq<char>>,
}

/// Model of the `info` dictionary of a torrent.
pub struct InfoModel {
    pub name: Seq<char>,
    pub pieces: Seq<u8>,
    pub piece_length: nat,
    pub length: Option<nat>,
    pub files: Option<Seq<FileModel>>,
}

/// Model of a torrent.
pub struct TorrentModel {
    pub announce: Seq<char>,
    pub info: InfoModel,
}

/// One file of a multi-file torrent.
#[derive(Debug, PartialEq, Eq)]
pub struct TorrentFileInfo {
    pub length: usize,
    pub path: Vec<String>,
}

/// The `info` dictionary of a torrent.
#[derive(Debug, PartialEq, Eq)]
pub struct TorrentInfo {
    pub name: String,
    pub pieces: Vec<u8>,
    pub piece_length: usize,
    pub length: Option<usize>,
    pub files: Option<Vec<TorrentFileInfo>>,
    /// The `info` dictionary as it was decoded, every key included.
    pub dictionary: Value,
}

/// A parsed metainfo file.
#[derive(Debug, PartialEq, Eq)]
pub struct Torrent {
    pub announce: String,
    pub info: TorrentInfo,
}

pub open spec fn strings_view(p: Seq<String>) -> Seq<Seq<char>> {
    Seq::new(p.len(), |i: int| p[i]@)
}

pub open spec fn files_view(fs: Seq<TorrentFileInfo>) -> Seq<FileModel> {
    Seq::new(fs.len(), |i: int| fs[i]@)
}

impl View for TorrentFileInfo {
    type V = FileModel;

    open spec fn view(&self) -> FileModel {
        FileModel { length: self.length as nat, path: strings_view(self.path@) }
    }
}

impl View for TorrentInfo {
    type V = InfoModel;

    open spec fn view(&self) -> InfoModel {
        InfoModel {
            name: self.name@,
            pieces: self.pieces@,
            piece_length: self.piece_length as nat,
            length: match self.length {
                Some(n) => Some(n as nat),
                None => None,
            },
            files: match self.files {
                Some(fs) => Some(files_view(fs@)),
                None => None,
            },
        }
    }
}

impl View for Torrent {
    type V = TorrentModel;

    open spec fn view(&self) -> TorrentModel {
        TorrentModel { announce: self.announce@, info: self.info@ }
    }
}

/// The text of a byte string that is valid UTF-8.
pub open spec fn text_of(v: Option<Bencode>) -> Option<Seq<char>> {
    match v {
        Some(Bencode::Bytes(b)) => if valid_utf8(b) {
            Some(decode_utf8(b))
        } else {
            None
        },
        _ => None,
    }
}

/// An integer that fits a `usize`.
pub open spec fn size_of(v: Option<Bencode>) -> Option<nat> {
    match v {
        Some(Bencode::Int(n)) => if 0 <= n <= usize::MAX {
            Some(n as nat)
        } else {
            None
        },
        _ => None,
    }
}

/// The components of a file path: a list of texts.
pub open spec fn path_of(xs: Seq<Bencode>) -> Option<Seq<Seq<char>>>
    decreases xs.len(),
{
    if xs.len() == 0 {
        Some(Seq::empty())
    } else {
        match (path_of(xs.drop_last()), text_of(Some(xs.last()))) {
            (Some(p), Some(t)) => Some(p.push(t)),
            _ => None,
        }
    }
}

/// A file entry: a dictionary with a `length` and a `path`.
pub open spec fn file_of(v: Bencode) -> Option<FileModel> {
    match (size_of(dict_get(v, "length".spec_bytes())), dict_get(v, "path".spec_bytes())) {
        (Some(n), Some(Bencode::List(xs))) => match path_of(xs) {
            Some(p) => Some(FileModel { length: n, path: p }),
            None => None,
        },
        _ => None,
    }
}

pub open spec fn files_of(xs: Seq<Bencode>) -> Option<Seq<FileModel>>
    decreases xs.len(),
{
    if xs.len() == 0 {
        Some(Seq::empty())
    } else {
        match (files_of(xs.drop_last()), file_of(xs.last())) {
            (Some(fs), Some(f)) => Some(fs.push(f)),
            _ => None,
        }
    }
}

/// The `files` field: absent where there is no list under `files` or the list is empty; an
/// error (the outer `None`) where an entry of the list is malformed.
pub open spec fn files_field(v: Bencode) -> Option<Option<Seq<FileModel>>> {
    match dict_get(v, "files".spec_bytes()) {
        Some(Bencode::List(xs)) => match files_of(xs) {
            Some(fs) => if fs.len() == 0 {
                Some(None)
            } else {
                Some(Some(fs))
            },
            None => None,
        },
        _ => Some(None),
    }
}

/// The `info` dictionary: `name` a text, `pieces` a byte string of whole 20-byte hashes,
/// `piece length` an integer in `1..=u32::MAX`; `length` is kept where it is an integer that
/// fits a `usize`.
pub open spec fn info_of(v: Bencode) -> Option<InfoModel> {
    match (
        text_of(dict_get(v, "name".spec_bytes())),
        dict_get(v, "pieces".spec_bytes()),
        size_of(dict_get(v, "piece length".spec_bytes())),
        files_field(v),
    ) {
        (Some(name), Some(Bencode::Bytes(pieces)), Some(pl), Some(files)) => if pieces.len() % 20
            == 0 && 0 < pl <= u32::MAX {
            Some(
                InfoModel {
                    name,
                    pieces,
                    piece_length: pl,
                    length: size_of(dict_get(v, "length".spec_bytes())),
                    files,
                },
            )
        } else {
            None
        },
        _ => None,
    }
}

/// The torrent that a decoded metainfo file describes.
pub open spec fn torrent_of(v: Bencode) -> Option<TorrentModel> {
    match (text_of(dict_get(v, "announce".spec_bytes())), dict_get(v, "info".spec_bytes())) {
        (Some(announce), Some(info)) => match info_of(info) {
            Some(m) => Some(TorrentModel { announce, info: m }),
            None => None,
        },
        _ => None,
    }
}

/// The torrent that a metainfo file's bytes describe.
pub open spec fn parse_torrent_spec(b: Seq<u8>) -> Option<TorrentModel> {
    match decode_spec(b) {
        Some(v) => torrent_of(v),
        None => None,
    }
}

fn required<'a>(v: &'a Value, key: &str) -> (r: Result<&'a Value, Error>)
    ensures
        match dict_get(v@, key.spec_bytes()) {
            Some(w) => r matches Ok(x) && x@ == w,
            None => r == Err::<&Value, Error>(Error::Metainfo),
        },
{
    match v.get_by_key(key) {
        Some(x) => Ok(x),
        None => Err(Error::Metainfo),
    }
}

fn text_field(v: Option<&Value>) -> (r: Result<String, Error>)
    ensures
        match text_of(
            match v {
                Some(x) => Some(x@),
                None => None,
            },
        ) {
            Some(t) => r matches Ok(s) && s@ == t,
            None => r == Err::<String, Error>(Error::Metainfo),
        },
{
    match v {
        Some(x) => match x.as_string() {
            Some(s) => Ok(s),
            None => Err(Error::Metainfo),
        },
        None => Err(Error::Metainfo),
    }
}

fn size_field(v: Option<&Value>) -> (r: Option<usize>)
    ensures
        match size_of(
            match v {
                Some(x) => Some(x@),
                None => None,
            },
        ) {
            Some(n) => r == Some(n as usize),
            None => r is None,
        },
{
    match v {
        Some(x) => match x.as_number() {
            Some(n) => if n >= 0 && (n as u64) <= (usize::MAX as u64) {
                Some(n as usize)
            } else {
                None
            },
            None => None,
        },
        None => None,
    }
}

fn path_field(values: &Vec<Value>) -> (r: Result<Vec<String>, Error>)
    ensures
        match path_of(items_view(values@)) {
            Some(p) => r matches Ok(ss) && strings_view(ss@) == p,
            None => r == Err::<Vec<String>, Error>(Error::Metainfo),
        },
{
    let ghost xs = items_view(values@);
    let mut parts: Vec<String> = Vec::new();
    let mut k: usize = 0;
    while k < values.len()
        invariant
            0 <= k <= values@.len(),
            xs == items_view(values@),
            path_of(xs.subrange(0, k as int)) == Some(strings_view(parts@)),
            parts@.len() == k,
        decreases values@.len() - k,
    {
        assert(xs.subrange(0, k + 1).drop_last() =~= xs.subrange(0, k as int));
        let part = text_field(Some(&values[k]));
        proof {
            if path_of(xs) is Some {
                lemma_path_prefix(xs, k + 1);
            }
        }
        match part {
            Ok(s) => {
                let ghost before = parts@;
                parts.push(s);
                assert(strings_view(parts@) =~= strings_view(before).push(parts@[k as int]@));
            },
            Err(e) => {
                return Err(e);
            },
        }
        k = k + 1;
    }
    assert(xs.subrange(0, k as int) =~= xs);
    Ok(parts)
}

proof fn lemma_path_prefix(xs: Seq<Bencode>, m: int)
    requires
        0 <= m <= xs.len(),
        path_of(xs) is Some,
    ensures
        path_of(xs.subrange(0, m)) is Some,
    decreases xs.len(),
{
    if m < xs.len() {
        assert(xs.drop_last().subrange(0, m) =~= xs.subrange(0, m));
        lemma_path_prefix(xs.drop_last(), m);
    } else {
        assert(xs.subrange(0, m) =~= xs);
    }
}

proof fn lemma_files_prefix(xs: Seq<Bencode>, m: int)
    requires
        0 <= m <= xs.len(),
        files_of(xs) is Some,
    ensures
        files_of(xs.subrange(0, m)) is Some,
    decreases xs.len(),
{
    if m < xs.len() {
        assert(xs.drop_last().subrange(0, m) =~= xs.subrange(0, m));
        lemma_files_prefix(xs.drop_last(), m);
    } else {
        assert(xs.subrange(0, m) =~= xs);
    }
}

fn file_field(v: &Value) -> (r: Result<TorrentFileInfo, Error>)
    ensures
        match file_of(v@) {
            Some(f) => r matches Ok(x) && x@ == f,
            None => r == Err::<TorrentFileInfo, Error>(Error::Metainfo),
        },
{
    let length = match size_field(v.get_by_key("length")) {
        Some(n) => n,
        None => {
            return Err(Error::Metainfo);
        },
    };
    let values = match v.get_by_key("path") {
        Some(p) => match p.as_values() {
            Some(vs) => vs,
            None => {
                return Err(Error::Metainfo);
            },
        },
        None => {
            return Err(Error::Metainfo);
        },
    };
    let path = path_field(values)?;
    Ok(TorrentFileInfo { length, path })
}

fn files_list(values: &Vec<Value>) -> (r: Result<Vec<TorrentFileInfo>, Error>)
    ensures
        match files_of(items_view(values@)) {
            Some(fs) => r matches Ok(x) && files_view(x@) == fs,
            None => r == Err::<Vec<TorrentFileInfo>, Error>(Error::Metainfo),
        },
{
    let ghost xs = items_view(values@);
    let mut files: Vec<TorrentFileInfo> = Vec::new();
    let mut k: usize = 0;
    while k < values.len()
        invariant
            0 <= k <= values@.len(),
            xs == items_view(values@),
            files_of(xs.subrange(0, k as int)) == Some(files_view(files@)),
            files@.len() == k,
        decreases values@.len() - k,
    {
        assert(xs.subrange(0, k + 1).drop_last() =~= xs.subrange(0, k as int));
        let file = file_field(&values[k]);
        proof {
            if files_of(xs) is Some {
                lemma_files_prefix(xs, k + 1);
            }
        }
        match file {
            Ok(f) => {
                let ghost before = files@;
                files.push(f);
                assert(files_view(files@) =~= files_view(before).push(files@[k as int]@));
            },
            Err(e) => {
                return Err(e);
            },
        }
        k = k + 1;
    }
    assert(xs.subrange(0, k as int) =~= xs);
    Ok(files)
}

fn info_from_value(dictionary: Value) -> (r: Result<TorrentInfo, Error>)
    ensures
        match info_of(dictionary@) {
            Some(m) => r matches Ok(x) && x@ == m && x.dictionary@ == dictionary@,
            None => r == Err::<TorrentInfo, Error>(Error::Metainfo),
        },
{
    let info = &dictionary;
    let name = text_field(info.get_by_key("name"))?;
    let pieces = match info.get_by_key("pieces") {
        Some(p) => match p.as_bytes() {
            Some(b) => b,
            None => {
                return Err(Error::Metainfo);
            },
        },
        None => {
            return Err(Error::Metainfo);
        },
    };
    let piece_length = match size_field(info.get_by_key("piece length")) {
        Some(n) => n,
        None => {
            return Err(Error::Metainfo);
        },
    };
    let files: Option<Vec<TorrentFileInfo>> = match info.get_by_key("files") {
        Some(f) => match f.as_values() {
            Some(values) => {
                let list = files_list(values)?;
                if list.len() == 0 {
                    None
                } else {
                    Some(list)
                }
            },
            None => None,
        },
        None => None,
    };
    if pieces.len() % PIECE_HASH_SIZE != 0 || piece_length == 0 || piece_length as u64 > u32::MAX as u64 {
        return Err(Error::Metainfo);
    }
    let length = size_field(info.get_by_key("length"));
    Ok(TorrentInfo { name, pieces, piece_length, length, files, dictionary })
}

impl Torrent {
    /// Parses the bytes of a metainfo file.
    pub fn from_bytes(torrent_bytes: &Vec<u8>) -> (r: Result<Torrent, Error>)
        ensures
            match decode_spec(torrent_bytes@) {
                None => r == Err::<Torrent, Error>(Error::Decode),
                Some(v) => match torrent_of(v) {
                    Some(t) => r matches Ok(x) && x@ == t && dict_get(v, "info".spec_bytes())
                        == Some(x.info.dictionary@),
                    None => r == Err::<Torrent, Error>(Error::Metainfo),
                },
            },
    {
        let decoded = decode_bencoded(torrent_bytes)?;
        let announce = text_field(decoded.get_by_key("announce"))?;
        let dictionary = match decoded.into_by_key("info") {
            Some(d) => d,
            None => {
                return Err(Error::Metainfo);
            },
        };
        let info = info_from_value(dictionary)?;
        Ok(Torrent { announce, info })
    }
}

/// Length of the whole payload: `length` where it is given, else zero.
pub open spec fn total_length(m: InfoModel) -> nat {
    match m.length {
        Some(n) => n,
        None => 0,
    }
}

/// Number of pieces: the payload length divided by the piece length, rounded up.
pub open spec fn piece_count(m: InfoModel) -> nat {
    let t = total_length(m);
    if t % m.piece_length == 0 {
        t / m.piece_length
    } else {
        t / m.piece_length + 1
    }
}

/// Length of piece `i`: the piece length, except for the last piece, which holds the rest.
pub open spec fn piece_size(m: InfoModel, i: int) -> int {
    if i + 1 == piece_count(m) {
        total_length(m) - m.piece_length * (piece_count(m) - 1)
    } else {
        m.piece_length as int
    }
}

/// The piece length of a well-formed torrent is positive and fits a `u32`, and its hashes are
/// whole.
pub open spec fn info_wf(m: InfoModel) -> bool {
    &&& 0 < m.piece_length <= u32::MAX
    &&& m.pieces.len() % 20 == 0
}

/// Bencoding of the components of a file path, one after the other.
pub open spec fn path_encoding(p: Seq<Seq<char>>) -> Seq<u8>
    decreases p.len(),
{
    if p.len() == 0 {
        Seq::empty()
    } else {
        path_encoding(p.drop_last()) + bytes_encoding(encode_utf8(p.last()))
    }
}

/// Bencoding of a file entry, keys in order.
pub open spec fn file_encoding(f: FileModel) -> Seq<u8> {
    seq![TAG_DICT] + bytes_encoding("length".spec_bytes()) + int_encoding(f.length)
        + bytes_encoding("path".spec_bytes()) + seq![TAG_LIST] + path_encoding(f.path) + seq![
        TAG_END,
        TAG_END,
    ]
}

pub open spec fn files_encoding(fs: Seq<FileModel>) -> Seq<u8>
    decreases fs.len(),
{
    if fs.len() == 0 {
        Seq::empty()
    } else {
        files_encoding(fs.drop_last()) + file_encoding(fs.last())
    }
}

/// Bencoding of the `info` dictionary, keys in lexicographic order.
pub open spec fn info_encoding(m: InfoModel) -> Seq<u8> {
    seq![TAG_DICT] + match m.files {
        Some(fs) => bytes_encoding("files".spec_bytes()) + seq![TAG_LIST] + files_encoding(fs)
            + seq![TAG_END],
        None => Seq::empty(),
    } + match m.length {
        Some(n) => bytes_encoding("length".spec_bytes()) + int_encoding(n),
        None => Seq::empty(),
    } + bytes_encoding("name".spec_bytes()) + bytes_encoding(encode_utf8(m.name))
        + bytes_encoding("piece length".spec_bytes()) + int_encoding(m.piece_length)
        + bytes_encoding("pieces".spec_bytes()) + bytes_encoding(m.pieces) + seq![TAG_END]
}

proof fn lemma_last_piece(t: int, pl: int)
    requires
        t > 0,
        pl > 0,
    ensures
        ({
            let c = if t % pl == 0 {
                t / pl
            } else {
                t / pl + 1
            };
            &&& c >= 1
            &&& 0 <= pl * (c - 1) <= t
            &&& t - pl * (c - 1) == if t % pl == 0 {
                pl
            } else {
                t % pl
            }
        }),
{
    vstd::arithmetic::div_mod::lemma_fundamental_div_mod(t, pl);
    let q = t / pl;
    let r = t % pl;
    assert(0 <= r < pl);
    assert(q >= 0) by {
        vstd::arithmetic::div_mod::lemma_div_pos_is_pos(t, pl);
    }
    if r == 0 {
        assert(q >= 1) by (nonlinear_arith)
            requires
                t == pl * q + r,
                r == 0,
                t > 0,
                pl > 0,
                q >= 0,
        ;
        assert(pl * (q - 1) == pl * q - pl) by (nonlinear_arith);
        assert(pl * (q - 1) >= 0) by (nonlinear_arith)
            requires
                q >= 1,
                pl > 0,
        ;
    } else {
        assert(pl * q >= 0) by (nonlinear_arith)
            requires
                q >= 0,
                pl > 0,
        ;
    }
}

fn push_path(out: &mut Vec<u8>, path: &Vec<String>)
    ensures
        final(out)@ == old(out)@ + path_encoding(strings_view(path@)),
{
    let ghost start = out@;
    let ghost p = strings_view(path@);
    let mut k: usize = 0;
    assert(p.subrange(0, 0) =~= Seq::<Seq<char>>::empty());
    while k < path.len()
        invariant
            0 <= k <= path@.len(),
            p == strings_view(path@),
            out@ == start + path_encoding(p.subrange(0, k as int)),
        decreases path@.len() - k,
    {
        push_bytes(out, path[k].as_str().as_bytes());
        assert(p.subrange(0, k + 1).drop_last() =~= p.subrange(0, k as int));
        assert(out@ =~= start + path_encoding(p.subrange(0, k + 1)));
        k = k + 1;
    }
    assert(p.subrange(0, k as int) =~= p);
}

fn push_files(out: &mut Vec<u8>, files: &Vec<TorrentFileInfo>)
    ensures
        final(out)@ == old(out)@ + files_encoding(files_view(files@)),
{
    let ghost start = out@;
    let ghost fs = files_view(files@);
    let mut k: usize = 0;
    assert(fs.subrange(0, 0) =~= Seq::<FileModel>::empty());
    while k < files.len()
        invariant
            0 <= k <= files@.len(),
            fs == files_view(files@),
            out@ == start + files_encoding(fs.subrange(0, k as int)),
        decreases files@.len() - k,
    {
        let ghost before = out@;
        let file = &files[k];
        out.push(TAG_DICT);
        push_bytes(out, "length".as_bytes());
        push_int(out, file.length as u64);
        push_bytes(out, "path".as_bytes());
        out.push(TAG_LIST);
        push_path(out, &file.path);
        out.push(TAG_END);
        out.push(TAG_END);
        assert(out@ =~= before + file_encoding(fs[k as int]));
        assert(fs.subrange(0, k + 1).drop_last() =~= fs.subrange(0, k as int));
        assert(out@ =~= start + files_encoding(fs.subrange(0, k + 1)));
        k = k + 1;
    }
    assert(fs.subrange(0, k as int) =~= fs);
}

impl TorrentInfo {
    pub open spec fn wf(&self) -> bool {
        info_wf(self@)
    }

    /// Whether the piece length is positive and fits a `u32`, and the hashes are whole.
    pub fn is_well_formed(&self) -> (r: bool)
        ensures
            r == self.wf(),
    {
        self.piece_length > 0 && self.piece_length as u64 <= u32::MAX as u64 && self.pieces.len()
            % PIECE_HASH_SIZE == 0
    }

    /// Where piece `index` starts in the payload: `index` times the piece length.
    pub fn piece_offset(&self, index: u32) -> (r: u64)
        requires
            self.wf(),
        ensures
            r == index as nat * self.piece_length as nat,
    {
        assert(index as nat * self.piece_length as nat <= u32::MAX as nat * u32::MAX as nat)
            by (nonlinear_arith)
            requires
                index <= u32::MAX,
                self.piece_length <= u32::MAX,
        ;
        (index as u64) * (self.piece_length as u64)
    }

    /// The 20-byte SHA-1 hash of each piece, in piece order.
    pub fn piece_hashes(&self) -> (r: Vec<Vec<u8>>)
        requires
            self.wf(),
        ensures
            r@.len() == self.pieces@.len() / 20,
            forall|i: int|
                0 <= i < r@.len() ==> #[trigger] r@[i]@ == self.pieces@.subrange(
                    20 * i,
                    20 * i + 20,
                ),
    {
        let n = self.pieces.len();
        let count = n / PIECE_HASH_SIZE;
        let mut hashes: Vec<Vec<u8>> = Vec::new();
        let mut k: usize = 0;
        while k < count
            invariant
                0 <= k <= count,
                count == self.pieces@.len() / 20,
                n == self.pieces@.len(),
                self.pieces@.len() % 20 == 0,
                hashes@.len() == k,
                forall|i: int|
                    0 <= i < k ==> #[trigger] hashes@[i]@ == self.pieces@.subrange(
                        20 * i,
                        20 * i + 20,
                    ),
            decreases count - k,
        {
            assert(20 * k + 20 <= self.pieces@.len()) by (nonlinear_arith)
                requires
                    k < count,
                    count == self.pieces@.len() / 20,
            ;
            let start = 20 * k;
            let mut hash: Vec<u8> = Vec::new();
            let mut j: usize = 0;
            while j < PIECE_HASH_SIZE
                invariant
                    0 <= j <= 20,
                    k < count,
                    count == self.pieces@.len() / 20,
                    start == 20 * k,
                    start + 20 <= self.pieces@.len(),
                    n == self.pieces@.len(),
                    hash@ == self.pieces@.subrange(start as int, start + j),
                decreases 20 - j,
            {
                assert(start + j < self.pieces@.len());
                hash.push(self.pieces[start + j]);
                j = j + 1;
                assert(hash@ =~= self.pieces@.subrange(start as int, start + j));
            }
            hashes.push(hash);
            k = k + 1;
        }
        hashes
    }

    /// Number of pieces: the payload length divided by the piece length, rounded up.
    pub fn total_piece_number(&self) -> (r: usize)
        requires
            self.wf(),
        ensures
            r == piece_count(self@),
    {
        let total = match self.length {
            Some(n) => n,
            None => 0,
        };
        if total % self.piece_length == 0 {
            total / self.piece_length
        } else {
            proof {
                if self.piece_length == 1 {
                    assert(total as int % 1 == 0);
                }
                vstd::arithmetic::div_mod::lemma_div_is_ordered_by_denominator(
                    total as int,
                    2,
                    self.piece_length as int,
                );
            }
            total / self.piece_length + 1
        }
    }

    /// Length of the piece at `piece_index`; an error for an index past the last piece.
    pub fn piece_length_at_index(&self, piece_index: u32) -> (r: Result<u32, Error>)
        requires
            self.wf(),
        ensures
            piece_index >= piece_count(self@) ==> r == Err::<u32, Error>(Error::InvalidPieceIndex),
            piece_index < piece_count(self@) ==> (r matches Ok(n) && n == piece_size(
                self@,
                piece_index as int,
            )),
    {
        let count = self.total_piece_number();
        if piece_index as usize >= count {
            return Err(Error::InvalidPieceIndex);
        }
        let total = match self.length {
            Some(n) => n,
            None => 0,
        };
        proof {
            if total > 0 {
                lemma_last_piece(total as int, self.piece_length as int);
            } else {
                vstd::arithmetic::div_mod::lemma_div_of0(self.piece_length as int);
                vstd::arithmetic::div_mod::lemma_small_mod(0, self.piece_length as nat);
            }
            assert(total_length(self@) == total as nat);
            assert(piece_count(self@) == count as nat);
        }
        if piece_index as usize + 1 == count {
            let rest = total % self.piece_length;
            if rest == 0 {
                Ok(self.piece_length as u32)
            } else {
                Ok(rest as u32)
            }
        } else {
            Ok(self.piece_length as u32)
        }
    }

    /// Every piece of the payload, in index order, with its length.
    pub fn get_all_pieces(&self) -> (r: Vec<Piece>)
        requires
            self.wf(),
            piece_count(self@) <= u32::MAX + 1,
        ensures
            r@.len() == piece_count(self@),
            forall|i: int|
                0 <= i < r@.len() ==> #[trigger] r@[i].index == i && r@[i].piece_length
                    == piece_size(self@, i),
    {
        let count = self.total_piece_number();
        let mut pieces: Vec<Piece> = Vec::new();
        let mut k: usize = 0;
        while k < count
            invariant
                self.wf(),
                count == piece_count(self@),
                count <= u32::MAX + 1,
                0 <= k <= count,
                pieces@.len() == k,
                forall|i: int|
                    0 <= i < k ==> #[trigger] pieces@[i].index == i && pieces@[i].piece_length
                        == piece_size(self@, i),
            decreases count - k,
        {
            let length = match self.piece_length_at_index(k as u32) {
                Ok(n) => n,
                Err(_) => {
                    return pieces;
                },
            };
            pieces.push(Piece { index: k as u32, piece_length: length });
            k = k + 1;
        }
        pieces
    }

    /// The bencoded `info` dictionary, keys in lexicographic order.
    #[verifier::rlimit(50)]
    pub fn bencode(&self) -> (r: Vec<u8>)
        ensures
            r@ == info_encoding(self@),
    {
        let ghost m = self@;
        let ghost files_part = match m.files {
            Some(fs) => bytes_encoding("files".spec_bytes()) + seq![TAG_LIST] + files_encoding(fs)
                + seq![TAG_END],
            None => Seq::empty(),
        };
        let ghost length_part = match m.length {
            Some(n) => bytes_encoding("length".spec_bytes()) + int_encoding(n),
            None => Seq::empty(),
        };
        let mut bencoded: Vec<u8> = Vec::new();
        bencoded.push(TAG_DICT);
        let ghost after_open = bencoded@;
        match &self.files {
            Some(files) => {
                push_bytes(&mut bencoded, "files".as_bytes());
                bencoded.push(TAG_LIST);
                push_files(&mut bencoded, files);
                bencoded.push(TAG_END);
            },
            None => {},
        }
        assert(bencoded@ =~= after_open + files_part);
        let ghost after_files = bencoded@;
        match self.length {
            Some(length) => {
                push_bytes(&mut bencoded, "length".as_bytes());
                push_int(&mut bencoded, length as u64);
            },
            None => {},
        }
        assert(bencoded@ =~= after_files + length_part);
        let ghost after_length = bencoded@;
        push_bytes(&mut bencoded, "name".as_bytes());
        push_bytes(&mut bencoded, self.name.as_str().as_bytes());
        push_bytes(&mut bencoded, "piece length".as_bytes());
        push_int(&mut bencoded, self.piece_length as u64);
        push_bytes(&mut bencoded, "pieces".as_bytes());
        push_bytes(&mut bencoded, self.pieces.as_slice());
        bencoded.push(TAG_END);
        let ghost tail = bytes_encoding("name".spec_bytes()) + bytes_encoding(encode_utf8(m.name))
            + bytes_encoding("piece length".spec_bytes()) + int_encoding(m.piece_length)
            + bytes_encoding("pieces".spec_bytes()) + bytes_encoding(m.pieces) + seq![TAG_END];
        assert(bencoded@ =~= after_length + tail);
        assert(info_encoding(m) == seq![TAG_DICT] + files_part + length_part + tail);
        assert(bencoded@ =~= info_encoding(m));
        bencoded
    }

    /// The infohash: SHA-1 of the canonical bencoding of the `info` dictionary as decoded,
    /// keys sorted and every key kept.
    pub fn compute_hash(&self) -> (r: Vec<u8>)
        ensures
            r@ == sha1_of(encode_spec(self.dictionary@)),
            r@.len() == 20,
    {
        compute_hash(encode(&self.dictionary).as_slice())
    }
}

} // verus!
