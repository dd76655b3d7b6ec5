//! The metainfo (`.torrent`) loader: the top-level fields, the info
//! dictionary in its single-file or multi-file form, and the info-hash.

use vstd::prelude::*;
use crate::bencode::{
    encode, encode_value, lemma_view_list, view_list, BValue, BencodeValue,
};
use crate::decode::{decode, spec_decode, DecodeError};
use crate::digest::{sha1, sha1_of};
use crate::fields::{
    as_bytes, as_int, as_text, bencode_string_unwrap_bytes, bencode_string_unwrap_string,
    bencode_unwrap_number, key, lookup, maybe_get_field, opt_int, opt_int_field, opt_text,
    opt_text_field,
};
use crate::text::ascii_bytes;

verus! {

/// A field of a metainfo file.
#[derive(Debug, Clone, Copy, PartialEq, Eq, Structural)]
pub enum Field {
    Announce,
    Info,
    CreationDate,
    CreatedBy,
    Encoding,
    PieceLength,
    Pieces,
    Name,
    Length,
    Files,
    Path,
    Md5sum,
}

/// Why a metainfo file could not be loaded.
#[derive(Debug, Clone, PartialEq, Eq)]
pub enum ParseError {
    /// The file could not be read.
    Io(String),
    /// The file is not bencode.
    Decode(DecodeError),
    /// The top-level value is not a dictionary.
    Malformed,
    /// A required key is absent.
    MissingField(Field),
    /// A key is present but its value has the wrong shape or is out of range.
    InvalidField(Field),
}

/// The info dictionary of a single-file torrent.
#[derive(Debug, Clone, PartialEq, Eq)]
pub struct SingleFileInfo {
    /// Bytes per piece, more than zero.
    pub piece_length: u64,
    /// The SHA-1 hashes of the pieces, 20 bytes each.
    pub pieces: Vec<u8>,
    /// The file name.
    pub name: String,
    /// The file length in bytes.
    pub length: u64,
    pub md5sum: Option<Vec<u8>>,
}

/// One file of a multi-file torrent.
#[derive(Debug, Clone, PartialEq, Eq)]
pub struct FileEntry {
    pub length: u64,
    /// Path segments under the torrent's directory.
    pub path: Vec<String>,
    pub md5sum: Option<Vec<u8>>,
}

/// The info dictionary of a multi-file torrent.
#[derive(Debug, Clone, PartialEq, Eq)]
pub struct MultiFileInfo {
    pub piece_length: u64,
    pub pieces: Vec<u8>,
    /// The directory name.
    pub name: String,
    pub files: Vec<FileEntry>,
}

/// The info dictionary, in one of its two forms.
#[derive(Debug, Clone, PartialEq, Eq)]
pub enum InfoDictionary {
    SingleFile(SingleFileInfo),
    MultiFile(MultiFileInfo),
}

/// A loaded metainfo file.
#[derive(Debug, Clone, PartialEq, Eq)]
pub struct MetaInfo {
    pub info: InfoDictionary,
    /// SHA-1 of the canonical encoding of the info dictionary.
    pub info_hash: [u8; 20],
    /// The tracker's announce URL.
    pub announce: String,
    /// Seconds since the Unix epoch.
    pub creation_date: Option<i64>,
    /// Name and version of the program that created the file.
    pub created_by: Option<String>,
    /// Encoding of the `pieces` part of the info dictionary.
    pub encoding: Option<String>,
}

pub struct FileEntryModel {
    pub length: u64,
    pub path: Seq<Seq<char>>,
    pub md5sum: Option<Seq<u8>>,
}

pub enum InfoModel {
    SingleFile {
        piece_length: u64,
        pieces: Seq<u8>,
        name: Seq<char>,
        length: u64,
        md5sum: Option<Seq<u8>>,
    },
    MultiFile { piece_length: u64, pieces: Seq<u8>, name: Seq<char>, files: Seq<FileEntryModel> },
}

pub struct MetaInfoModel {
    pub info: InfoModel,
    pub info_hash: Seq<u8>,
    pub announce: Seq<char>,
    pub creation_date: Option<i64>,
    pub created_by: Option<Seq<char>>,
    pub encoding: Option<Seq<char>>,
}

pub open spec fn opt_bytes_view(b: Option<Vec<u8>>) -> Option<Seq<u8>> {
    match b {
        Some(v) => Some(v@),
        None => None,
    }
}

pub open spec fn opt_text_view(s: Option<String>) -> Option<Seq<char>> {
    match s {
        Some(v) => Some(v@),
        None => None,
    }
}

impl View for FileEntry {
    type V = FileEntryModel;

    open spec fn view(&self) -> FileEntryModel {
        FileEntryModel {
            length: self.length,
            path: self.path@.map_values(|s: String| s@),
            md5sum: opt_bytes_view(self.md5sum),
        }
    }
}

impl View for InfoDictionary {
    type V = InfoModel;

    open spec fn view(&self) -> InfoModel {
        match self {
            InfoDictionary::SingleFile(s) => InfoModel::SingleFile {
                piece_length: s.piece_length,
                pieces: s.pieces@,
                name: s.name@,
                length: s.length,
                md5sum: opt_bytes_view(s.md5sum),
            },
            InfoDictionary::MultiFile(m) => InfoModel::MultiFile {
                piece_length: m.piece_length,
                pieces: m.pieces@,
                name: m.name@,
                files: m.files@.map_values(|f: FileEntry| f@),
            },
        }
    }
}

impl View for MetaInfo {
    type V = MetaInfoModel;

    open spec fn view(&self) -> MetaInfoModel {
        MetaInfoModel {
            info: self.info@,
            info_hash: self.info_hash@,
            announce: self.announce@,
            creation_date: self.creation_date,
            created_by: opt_text_view(self.created_by),
            encoding: opt_text_view(self.encoding),
        }
    }
}

/// Total bytes of a list of files.
pub open spec fn files_total(fs: Seq<FileEntryModel>) -> nat
    decreases fs.len(),
{
    if fs.len() == 0 {
        0
    } else {
        files_total(fs.drop_last()) + fs.last().length as nat
    }
}

/// Total bytes of the torrent.
pub open spec fn info_total(i: InfoModel) -> nat {
    match i {
        InfoModel::SingleFile { length, .. } => length as nat,
        InfoModel::MultiFile { files, .. } => files_total(files),
    }
}

impl InfoModel {
    /// What a loaded info dictionary satisfies.
    pub open spec fn wf(self) -> bool {
        match self {
            InfoModel::SingleFile { piece_length, pieces, .. } => piece_length > 0 && pieces.len()
                % 20 == 0,
            InfoModel::MultiFile { piece_length, pieces, files, .. } => piece_length > 0
                && pieces.len() % 20 == 0 && files_total(files) <= u64::MAX,
        }
    }
}

/// A required field: absent is `MissingField`, present is handed on.
pub open spec fn required(es: Seq<(Seq<u8>, BValue)>, k: Seq<u8>, f: Field) -> Result<
    BValue,
    ParseError,
> {
    match lookup(es, k) {
        None => Err(ParseError::MissingField(f)),
        Some(v) => Ok(v),
    }
}

/// A non-negative integer.
pub open spec fn as_count(v: BValue, f: Field) -> Result<u64, ParseError> {
    match as_int(v) {
        Ok(i) => if i >= 0 {
            Ok(i as u64)
        } else {
            Err(ParseError::InvalidField(f))
        },
        Err(_) => Err(ParseError::InvalidField(f)),
    }
}

/// An optional `md5sum` byte string.
pub open spec fn md5_of(es: Seq<(Seq<u8>, BValue)>) -> Result<Option<Seq<u8>>, ParseError> {
    match lookup(es, ascii_bytes("md5sum"@)) {
        None => Ok(None),
        Some(v) => match as_bytes(v) {
            Ok(b) => Ok(Some(b)),
            Err(_) => Err(ParseError::InvalidField(Field::Md5sum)),
        },
    }
}

/// Path segments from index `i` on, after `acc`.
pub open spec fn path_from(items: Seq<BValue>, i: int, acc: Seq<Seq<char>>) -> Result<
    Seq<Seq<char>>,
    ParseError,
>
    decreases items.len() - i,
{
    if i < 0 || i >= items.len() {
        Ok(acc)
    } else {
        match as_text(items[i]) {
            Ok(t) => path_from(items, i + 1, acc.push(t)),
            Err(_) => Err(ParseError::InvalidField(Field::Path)),
        }
    }
}

/// One entry of `files`: a dictionary with `length`, a `path` list of text
/// segments, and an optional `md5sum`.
pub open spec fn file_entry(v: BValue) -> Result<FileEntryModel, ParseError> {
    match v {
        BValue::Dict(es) => match required(es, ascii_bytes("length"@), Field::Length) {
            Err(e) => Err(e),
            Ok(lv) => match as_count(lv, Field::Length) {
                Err(e) => Err(e),
                Ok(length) => match required(es, ascii_bytes("path"@), Field::Path) {
                    Err(e) => Err(e),
                    Ok(BValue::List(items)) => match path_from(items, 0, seq![]) {
                        Err(e) => Err(e),
                        Ok(path) => match md5_of(es) {
                            Err(e) => Err(e),
                            Ok(md5sum) => Ok(FileEntryModel { length, path, md5sum }),
                        },
                    },
                    Ok(_) => Err(ParseError::InvalidField(Field::Path)),
                },
            },
        },
        _ => Err(ParseError::InvalidField(Field::Files)),
    }
}

/// File entries from index `i` on, after `acc`.
pub open spec fn files_from(items: Seq<BValue>, i: int, acc: Seq<FileEntryModel>) -> Result<
    Seq<FileEntryModel>,
    ParseError,
>
    decreases items.len() - i,
{
    if i < 0 || i >= items.len() {
        Ok(acc)
    } else {
        match file_entry(items[i]) {
            Ok(f) => files_from(items, i + 1, acc.push(f)),
            Err(e) => Err(e),
        }
    }
}

/// The info dictionary: `piece length` (more than zero), `pieces` (a
/// multiple of 20 bytes) and `name`, then `files` for the multi-file form or
/// else `length` for the single-file form.
pub open spec fn info_model(v: BValue) -> Result<InfoModel, ParseError> {
    match v {
        BValue::Dict(es) => match required(es, ascii_bytes("piece length"@), Field::PieceLength) {
            Err(e) => Err(e),
            Ok(plv) => match as_count(plv, Field::PieceLength) {
                Err(e) => Err(e),
                Ok(piece_length) => if piece_length == 0 {
                    Err(ParseError::InvalidField(Field::PieceLength))
                } else {
                    match required(es, ascii_bytes("pieces"@), Field::Pieces) {
                        Err(e) => Err(e),
                        Ok(pv) => match as_bytes(pv) {
                            Err(_) => Err(ParseError::InvalidField(Field::Pieces)),
                            Ok(pieces) => if pieces.len() % 20 != 0 {
                                Err(ParseError::InvalidField(Field::Pieces))
                            } else {
                                match required(es, ascii_bytes("name"@), Field::Name) {
                                    Err(e) => Err(e),
                                    Ok(nv) => match as_text(nv) {
                                        Err(_) => Err(ParseError::InvalidField(Field::Name)),
                                        Ok(name) => info_body(es, piece_length, pieces, name),
                                    },
                                }
                            },
                        },
                    }
                },
            },
        },
        _ => Err(ParseError::InvalidField(Field::Info)),
    }
}

/// The part of the info dictionary that tells the two forms apart.
pub open spec fn info_body(
    es: Seq<(Seq<u8>, BValue)>,
    piece_length: u64,
    pieces: Seq<u8>,
    name: Seq<char>,
) -> Result<InfoModel, ParseError> {
    match lookup(es, ascii_bytes("files"@)) {
        Some(BValue::List(items)) => match files_from(items, 0, seq![]) {
            Err(e) => Err(e),
            Ok(files) => if files_total(files) > u64::MAX {
                Err(ParseError::InvalidField(Field::Files))
            } else {
                Ok(InfoModel::MultiFile { piece_length, pieces, name, files })
            },
        },
        Some(_) => Err(ParseError::InvalidField(Field::Files)),
        None => match required(es, ascii_bytes("length"@), Field::Length) {
            Err(e) => Err(e),
            Ok(lv) => match as_count(lv, Field::Length) {
                Err(e) => Err(e),
                Ok(length) => match md5_of(es) {
                    Err(e) => Err(e),
                    Ok(md5sum) => Ok(InfoModel::SingleFile { piece_length, pieces, name, length, md5sum }),
                },
            },
        },
    }
}

/// What the bytes of a metainfo file hold: a dictionary with a text
/// `announce`, optional `created by`, `creation date` and `encoding`, and an
/// `info` dictionary, whose canonical encoding is hashed into the info-hash.
pub open spec fn load_model(b: Seq<u8>) -> Result<MetaInfoModel, ParseError> {
    match spec_decode(b) {
        Err(e) => Err(ParseError::Decode(e)),
        Ok(BValue::Dict(es)) => match required(es, ascii_bytes("announce"@), Field::Announce) {
            Err(e) => Err(e),
            Ok(av) => match as_text(av) {
                Err(_) => Err(ParseError::InvalidField(Field::Announce)),
                Ok(announce) => match opt_text(es, ascii_bytes("created by"@)) {
                    Err(_) => Err(ParseError::InvalidField(Field::CreatedBy)),
                    Ok(created_by) => match opt_int(es, ascii_bytes("creation date"@)) {
                        Err(_) => Err(ParseError::InvalidField(Field::CreationDate)),
                        Ok(creation_date) => match opt_text(es, ascii_bytes("encoding"@)) {
                            Err(_) => Err(ParseError::InvalidField(Field::Encoding)),
                            Ok(encoding) => match required(es, ascii_bytes("info"@), Field::Info) {
                                Err(e) => Err(e),
                                Ok(iv) => match info_model(iv) {
                                    Err(e) => Err(e),
                                    Ok(info) => Ok(
                                        MetaInfoModel {
                                            info,
                                            info_hash: sha1_of(encode_value(iv)),
                                            announce,
                                            creation_date,
                                            created_by,
                                            encoding,
                                        },
                                    ),
                                },
                            },
                        },
                    },
                },
            },
        },
        Ok(_) => Err(ParseError::Malformed),
    }
}


pub open spec fn result_view<T: View>(r: Result<T, ParseError>) -> Result<T::V, ParseError> {
    match r {
        Ok(x) => Ok(x@),
        Err(e) => Err(e),
    }
}

fn read_count(v: &BencodeValue, f: Field) -> (r: Result<u64, ParseError>)
    ensures
        r == as_count(v@, f),
{
    match bencode_unwrap_number(v) {
        Ok(i) => if i >= 0 {
            Ok(i as u64)
        } else {
            Err(ParseError::InvalidField(f))
        },
        Err(_) => Err(ParseError::InvalidField(f)),
    }
}

fn read_required<'a>(map: &'a Vec<(Vec<u8>, BencodeValue)>, k: &[u8], f: Field) -> (r: Result<
    &'a BencodeValue,
    ParseError,
>)
    ensures
        match r {
            Ok(v) => required(crate::bencode::view_entries(map@), k@, f) == Ok::<
                BValue,
                ParseError,
            >(v@),
            Err(e) => required(crate::bencode::view_entries(map@), k@, f) == Err::<
                BValue,
                ParseError,
            >(e),
        },
{
    match maybe_get_field(map, k) {
        Some(v) => Ok(v),
        None => Err(ParseError::MissingField(f)),
    }
}

fn read_md5(map: &Vec<(Vec<u8>, BencodeValue)>) -> (r: Result<Option<Vec<u8>>, ParseError>)
    ensures
        match r {
            Ok(m) => md5_of(crate::bencode::view_entries(map@)) == Ok::<
                Option<Seq<u8>>,
                ParseError,
            >(opt_bytes_view(m)),
            Err(e) => md5_of(crate::bencode::view_entries(map@)) == Err::<
                Option<Seq<u8>>,
                ParseError,
            >(e),
        },
{
    proof {
        reveal_strlit("md5sum");
    }
    match maybe_get_field(map, key("md5sum")) {
        None => Ok(None),
        Some(v) => match bencode_string_unwrap_bytes(v) {
            Ok(b) => Ok(Some(b)),
            Err(_) => Err(ParseError::InvalidField(Field::Md5sum)),
        },
    }
}

fn read_path(items: &Vec<BencodeValue>) -> (r: Result<Vec<String>, ParseError>)
    ensures
        match r {
            Ok(p) => path_from(view_list(items@), 0, seq![]) == Ok::<Seq<Seq<char>>, ParseError>(
                p@.map_values(|s: String| s@),
            ),
            Err(e) => path_from(view_list(items@), 0, seq![]) == Err::<
                Seq<Seq<char>>,
                ParseError,
            >(e),
        },
{
    let ghost vs = view_list(items@);
    proof {
        lemma_view_list(items@);
    }
    let mut out: Vec<String> = Vec::new();
    let mut i: usize = 0;
    assert(out@.map_values(|s: String| s@) =~= Seq::<Seq<char>>::empty());
    while i < items.len()
        invariant
            i <= items@.len(),
            vs == view_list(items@),
            vs.len() == items@.len(),
            forall|k: int| 0 <= k < items@.len() ==> #[trigger] vs[k] == items@[k]@,
            path_from(vs, 0, seq![]) == path_from(vs, i as int, out@.map_values(|s: String| s@)),
        decreases items@.len() - i,
    {
        match bencode_string_unwrap_string(&items[i]) {
            Ok(t) => {
                let ghost before = out@.map_values(|s: String| s@);
                out.push(t);
                assert(out@.map_values(|s: String| s@) =~= before.push(t@));
            },
            Err(_) => {
                return Err(ParseError::InvalidField(Field::Path));
            },
        }
        i = i + 1;
    }
    Ok(out)
}

impl FileEntry {
    /// Reads one entry of a `files` list.
    pub fn from_bencode(v: &BencodeValue) -> (r: Result<FileEntry, ParseError>)
        ensures
            result_view(r) == file_entry(v@),
    {
        proof {
            reveal_strlit("length");
            reveal_strlit("path");
        }
        let map = match v {
            BencodeValue::Dict(m) => m,
            _ => {
                return Err(ParseError::InvalidField(Field::Files));
            },
        };
        let lv = match read_required(map, key("length"), Field::Length) {
            Ok(x) => x,
            Err(e) => {
                return Err(e);
            },
        };
        let length = match read_count(lv, Field::Length) {
            Ok(x) => x,
            Err(e) => {
                return Err(e);
            },
        };
        let pv = match read_required(map, key("path"), Field::Path) {
            Ok(x) => x,
            Err(e) => {
                return Err(e);
            },
        };
        let path = match pv {
            BencodeValue::List(items) => match read_path(items) {
                Ok(p) => p,
                Err(e) => {
                    return Err(e);
                },
            },
            _ => {
                return Err(ParseError::InvalidField(Field::Path));
            },
        };
        let md5sum = match read_md5(map) {
            Ok(m) => m,
            Err(e) => {
                return Err(e);
            },
        };
        Ok(FileEntry { length, path, md5sum })
    }
}

fn read_files(items: &Vec<BencodeValue>) -> (r: Result<Vec<FileEntry>, ParseError>)
    ensures
        match r {
            Ok(fs) => files_from(view_list(items@), 0, seq![]) == Ok::<
                Seq<FileEntryModel>,
                ParseError,
            >(fs@.map_values(|f: FileEntry| f@)),
            Err(e) => files_from(view_list(items@), 0, seq![]) == Err::<
                Seq<FileEntryModel>,
                ParseError,
            >(e),
        },
{
    let ghost vs = view_list(items@);
    proof {
        lemma_view_list(items@);
    }
    let mut out: Vec<FileEntry> = Vec::new();
    let mut i: usize = 0;
    assert(out@.map_values(|f: FileEntry| f@) =~= Seq::<FileEntryModel>::empty());
    while i < items.len()
        invariant
            i <= items@.len(),
            vs == view_list(items@),
            vs.len() == items@.len(),
            forall|k: int| 0 <= k < items@.len() ==> #[trigger] vs[k] == items@[k]@,
            files_from(vs, 0, seq![]) == files_from(
                vs,
                i as int,
                out@.map_values(|f: FileEntry| f@),
            ),
        decreases items@.len() - i,
    {
        match FileEntry::from_bencode(&items[i]) {
            Ok(f) => {
                let ghost before = out@.map_values(|f: FileEntry| f@);
                let ghost fv = f@;
                out.push(f);
                assert(out@.map_values(|f: FileEntry| f@) =~= before.push(fv));
            },
            Err(e) => {
                return Err(e);
            },
        }
        i = i + 1;
    }
    Ok(out)
}

/// The total length of the files, or `None` when it exceeds `u64::MAX`.
fn total_length(files: &Vec<FileEntry>) -> (r: Option<u64>)
    ensures
        match r {
            Some(t) => t == files_total(files@.map_values(|f: FileEntry| f@)),
            None => files_total(files@.map_values(|f: FileEntry| f@)) > u64::MAX,
        },
{
    let ghost fs = files@.map_values(|f: FileEntry| f@);
    let mut total: u64 = 0;
    let mut i: usize = 0;
    assert(fs.take(0) =~= Seq::<FileEntryModel>::empty());
    while i < files.len()
        invariant
            i <= files@.len(),
            fs == files@.map_values(|f: FileEntry| f@),
            total == files_total(fs.take(i as int)),
        decreases files@.len() - i,
    {
        assert(fs.take(i + 1).drop_last() =~= fs.take(i as int));
        assert(fs.take(i + 1).last() == fs[i as int]);
        let l = files[i].length;
        if total > u64::MAX - l {
            proof {
                lemma_files_total_prefix(fs, i + 1);
            }
            return None;
        }
        total = total + l;
        i = i + 1;
    }
    assert(fs.take(i as int) =~= fs);
    Some(total)
}

proof fn lemma_files_total_prefix(fs: Seq<FileEntryModel>, n: int)
    requires
        0 <= n <= fs.len(),
    ensures
        files_total(fs.take(n)) <= files_total(fs),
    decreases fs.len() - n,
{
    if n < fs.len() {
        lemma_files_total_prefix(fs, n + 1);
        assert(fs.take(n + 1).drop_last() =~= fs.take(n));
    } else {
        assert(fs.take(n) =~= fs);
    }
}

impl InfoDictionary {
    /// Reads the info dictionary.
    pub fn from_bencode(v: &BencodeValue) -> (r: Result<InfoDictionary, ParseError>)
        ensures
            result_view(r) == info_model(v@),
            r matches Ok(i) ==> i@.wf(),
    {
        proof {
            reveal_strlit("piece length");
            reveal_strlit("pieces");
            reveal_strlit("name");
            reveal_strlit("files");
            reveal_strlit("length");
        }
        let map = match v {
            BencodeValue::Dict(m) => m,
            _ => {
                return Err(ParseError::InvalidField(Field::Info));
            },
        };
        let plv = match read_required(map, key("piece length"), Field::PieceLength) {
            Ok(x) => x,
            Err(e) => {
                return Err(e);
            },
        };
        let piece_length = match read_count(plv, Field::PieceLength) {
            Ok(x) => x,
            Err(e) => {
                return Err(e);
            },
        };
        if piece_length == 0 {
            return Err(ParseError::InvalidField(Field::PieceLength));
        }
        let pv = match read_required(map, key("pieces"), Field::Pieces) {
            Ok(x) => x,
            Err(e) => {
                return Err(e);
            },
        };
        let pieces = match bencode_string_unwrap_bytes(pv) {
            Ok(b) => b,
            Err(_) => {
                return Err(ParseError::InvalidField(Field::Pieces));
            },
        };
        if pieces.len() % 20 != 0 {
            return Err(ParseError::InvalidField(Field::Pieces));
        }
        let nv = match read_required(map, key("name"), Field::Name) {
            Ok(x) => x,
            Err(e) => {
                return Err(e);
            },
        };
        let name = match bencode_string_unwrap_string(nv) {
            Ok(s) => s,
            Err(_) => {
                return Err(ParseError::InvalidField(Field::Name));
            },
        };
        match maybe_get_field(map, key("files")) {
            Some(BencodeValue::List(items)) => {
                let files = match read_files(items) {
                    Ok(fs) => fs,
                    Err(e) => {
                        return Err(e);
                    },
                };
                match total_length(&files) {
                    None => Err(ParseError::InvalidField(Field::Files)),
                    Some(_) => Ok(
                        InfoDictionary::MultiFile(MultiFileInfo { piece_length, pieces, name, files }),
                    ),
                }
            },
            Some(_) => Err(ParseError::InvalidField(Field::Files)),
            None => {
                let lv = match read_required(map, key("length"), Field::Length) {
                    Ok(x) => x,
                    Err(e) => {
                        return Err(e);
                    },
                };
                let length = match read_count(lv, Field::Length) {
                    Ok(x) => x,
                    Err(e) => {
                        return Err(e);
                    },
                };
                let md5sum = match read_md5(map) {
                    Ok(m) => m,
                    Err(e) => {
                        return Err(e);
                    },
                };
                Ok(
                    InfoDictionary::SingleFile(
                        SingleFileInfo { piece_length, pieces, name, length, md5sum },
                    ),
                )
            },
        }
    }
}


/// Loads a metainfo file from its bytes.
pub fn load(file_bytes: &[u8]) -> (r: Result<MetaInfo, ParseError>)
    ensures
        result_view(r) == load_model(file_bytes@),
        r matches Ok(m) ==> m.info@.wf(),
{
    proof {
        reveal_strlit("announce");
        reveal_strlit("created by");
        reveal_strlit("creation date");
        reveal_strlit("encoding");
        reveal_strlit("info");
    }
    let top = match decode(file_bytes) {
        Ok(v) => v,
        Err(e) => {
            return Err(ParseError::Decode(e));
        },
    };
    let map = match &top {
        BencodeValue::Dict(m) => m,
        _ => {
            return Err(ParseError::Malformed);
        },
    };
    let av = match read_required(map, key("announce"), Field::Announce) {
        Ok(x) => x,
        Err(e) => {
            return Err(e);
        },
    };
    let announce = match bencode_string_unwrap_string(av) {
        Ok(s) => s,
        Err(_) => {
            return Err(ParseError::InvalidField(Field::Announce));
        },
    };
    let created_by = match opt_text_field(map, key("created by")) {
        Ok(x) => x,
        Err(_) => {
            return Err(ParseError::InvalidField(Field::CreatedBy));
        },
    };
    let creation_date = match opt_int_field(map, key("creation date")) {
        Ok(x) => x,
        Err(_) => {
            return Err(ParseError::InvalidField(Field::CreationDate));
        },
    };
    let encoding = match opt_text_field(map, key("encoding")) {
        Ok(x) => x,
        Err(_) => {
            return Err(ParseError::InvalidField(Field::Encoding));
        },
    };
    let iv = match read_required(map, key("info"), Field::Info) {
        Ok(x) => x,
        Err(e) => {
            return Err(e);
        },
    };
    let info = match InfoDictionary::from_bencode(iv) {
        Ok(i) => i,
        Err(e) => {
            return Err(e);
        },
    };
    proof {
        crate::roundtrip::lemma_decode_canonical(file_bytes@);
        crate::roundtrip::lemma_lookup_wf(crate::bencode::view_entries(map@), ascii_bytes("info"@));
    }
    let info_bytes = encode(iv);
    let info_hash = sha1(info_bytes.as_slice());
    Ok(MetaInfo { info, info_hash, announce, creation_date, created_by, encoding })
}

impl MetaInfo {
    /// Total bytes of the torrent: the file length, or the sum of the file
    /// lengths of a multi-file torrent.
    pub fn num_file_bytes(&self) -> (r: u64)
        requires
            self.info@.wf(),
        ensures
            r == info_total(self.info@),
    {
        match &self.info {
            InfoDictionary::SingleFile(s) => s.length,
            InfoDictionary::MultiFile(m) => match total_length(&m.files) {
                Some(t) => t,
                None => 0,
            },
        }
    }
}

/// The info-hash of a loaded file is the SHA-1 of the canonical encoding `c`
/// of its info dictionary `iv`: every dictionary in `iv`, at every level,
/// holds its keys in strictly ascending byte order, and decoding `c` gives
/// `iv` back, so encoding it again reproduces the same bytes.
pub proof fn lemma_info_hash_canonical(b: Seq<u8>)
    ensures
        load_model(b) matches Ok(m) ==> (spec_decode(b) matches Ok(BValue::Dict(es)) && lookup(
            es,
            ascii_bytes("info"@),
        ) matches Some(iv) && iv.wf() && m.info_hash == sha1_of(encode_value(iv)) && spec_decode(
            encode_value(iv),
        ) == Ok::<BValue, DecodeError>(iv)),
{
    crate::roundtrip::lemma_decode_canonical(b);
    if let Ok(BValue::Dict(es)) = spec_decode(b) {
        crate::roundtrip::lemma_lookup_wf(es, ascii_bytes("info"@));
        if let Some(iv) = lookup(es, ascii_bytes("info"@)) {
            crate::roundtrip::lemma_round_trip(iv);
        }
    }
}

/// Loading the same bytes twice gives the same result, and so the same
/// info-hash.
pub proof fn lemma_info_hash_deterministic(b1: Seq<u8>, b2: Seq<u8>)
    requires
        b1 == b2,
    ensures
        load_model(b1) == load_model(b2),
        load_model(b1) matches Ok(m1) ==> load_model(b2) matches Ok(m2) && m2.info_hash
            == m1.info_hash,
{
}

/// Two well-formed info dictionaries that differ in any field, or in a key
/// added or removed, have different canonical encodings, so different bytes
/// are hashed.
pub proof fn lemma_info_change_changes_encoding(v: BValue, w: BValue)
    requires
        v.wf(),
        w.wf(),
        v != w,
    ensures
        encode_value(v) != encode_value(w),
{
    if encode_value(v) == encode_value(w) {
        crate::roundtrip::lemma_encode_injective(v, w);
    }
}

} // verus!
