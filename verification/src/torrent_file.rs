//! The description of a torrent, read out of a decoded metainfo dictionary.
//!
//! The keys are raw bytes and so are the texts: an announce URL or a name
//! is kept as the bytes that the dictionary holds, and is never taken for
//! UTF-8.

use crate::bencode::model::{lookup, Value};
use crate::bencode::BencodeType;
use vstd::prelude::*;
use vstd::slice::slice_to_vec;

verus! {

/// The number under which a torrent is tracked.
pub type TorrentId = u32;

/// One file of a torrent.
#[derive(Debug)]
pub struct TorrentFileInfoFile {
    /// The length of the file in bytes.
    pub length: u32,
    /// The components of the file's path.
    pub path: Vec<Vec<u8>>,
}

/// The files of a torrent.
#[derive(Debug)]
pub struct TorrentFileInfo {
    pub files: Vec<TorrentFileInfoFile>,
}

/// A tracked torrent.
#[derive(Debug)]
pub struct TorrentFile {
    pub id: TorrentId,
    pub announce: Vec<u8>,
    pub creation_date: u32,
    pub info: TorrentFileInfo,
    pub name: Vec<u8>,
    pub piece_length: u32,
    pub pieces: Vec<u8>,
}

/// What a [`TorrentFileInfoFile`] stands for.
pub struct FileView {
    pub length: int,
    pub path: Seq<Seq<u8>>,
}

/// What a [`TorrentFile`] stands for.
pub struct TorrentView {
    pub id: int,
    pub announce: Seq<u8>,
    pub creation_date: int,
    pub files: Seq<FileView>,
    pub name: Seq<u8>,
    pub piece_length: int,
    pub pieces: Seq<u8>,
}

impl View for TorrentFileInfoFile {
    type V = FileView;

    open spec fn view(&self) -> FileView {
        FileView {
            length: self.length as int,
            path: Seq::new(self.path@.len(), |i: int| self.path@[i]@),
        }
    }
}

impl View for TorrentFile {
    type V = TorrentView;

    open spec fn view(&self) -> TorrentView {
        TorrentView {
            id: self.id as int,
            announce: self.announce@,
            creation_date: self.creation_date as int,
            files: Seq::new(self.info.files@.len(), |i: int| self.info.files@[i]@),
            name: self.name@,
            piece_length: self.piece_length as int,
            pieces: self.pieces@,
        }
    }
}

/// The places of a metainfo dictionary that a torrent is read from.
#[derive(Clone, Copy, Debug, PartialEq, Eq, Structural)]
pub enum TorrentField {
    /// The whole document.
    Root,
    /// `announce`: a byte string.
    Announce,
    /// `creation date`: an integer.
    CreationDate,
    /// `info`: a dictionary.
    Info,
    /// `name` in `info`: a byte string.
    Name,
    /// `piece length` in `info`: an integer.
    PieceLength,
    /// `pieces` in `info`: a byte string.
    Pieces,
    /// `files` in `info`: a list of dictionaries, where it is there.
    Files,
    /// `length` in a file: an integer.
    FileLength,
    /// `path` in a file: a list of byte strings.
    FilePath,
}

/// What is wrong at such a place.
#[derive(Clone, Copy, Debug, PartialEq, Eq, Structural)]
pub enum TorrentFault {
    /// The key is absent.
    Missing,
    /// The value is of another kind than the place asks for.
    WrongType,
    /// The integer is negative or does not fit in 32 bits.
    OutOfRange,
}

/// Why a document describes no torrent.
#[derive(Clone, Copy, Debug, PartialEq, Eq, Structural)]
pub struct TorrentError {
    pub field: TorrentField,
    pub fault: TorrentFault,
}

/// The key `announce`.
pub open spec fn key_announce() -> Seq<u8> {
    seq![97u8, 110, 110, 111, 117, 110, 99, 101]
}

/// The key `creation date`.
pub open spec fn key_creation_date() -> Seq<u8> {
    seq![99u8, 114, 101, 97, 116, 105, 111, 110, 32, 100, 97, 116, 101]
}

/// The key `info`.
pub open spec fn key_info() -> Seq<u8> {
    seq![105u8, 110, 102, 111]
}

/// The key `name`.
pub open spec fn key_name() -> Seq<u8> {
    seq![110u8, 97, 109, 101]
}

/// The key `piece length`.
pub open spec fn key_piece_length() -> Seq<u8> {
    seq![112u8, 105, 101, 99, 101, 32, 108, 101, 110, 103, 116, 104]
}

/// The key `pieces`.
pub open spec fn key_pieces() -> Seq<u8> {
    seq![112u8, 105, 101, 99, 101, 115]
}

/// The key `files`.
pub open spec fn key_files() -> Seq<u8> {
    seq![102u8, 105, 108, 101, 115]
}

/// The key `length`.
pub open spec fn key_length() -> Seq<u8> {
    seq![108u8, 101, 110, 103, 116, 104]
}

/// The key `path`.
pub open spec fn key_path() -> Seq<u8> {
    seq![112u8, 97, 116, 104]
}

/// The value that the dictionary `v` gives to `key`; `None` where it gives
/// none, and where `v` is no dictionary.
pub open spec fn member(v: Value, key: Seq<u8>) -> Option<Value> {
    match v {
        Value::Dictionary(entries) => lookup(entries, entries.len() as int, key),
        _ => None,
    }
}

/// The byte string that `v` gives to `key`.
pub open spec fn bytes_member(v: Value, key: Seq<u8>, field: TorrentField) -> Result<
    Seq<u8>,
    TorrentError,
> {
    match member(v, key) {
        None => Err(TorrentError { field, fault: TorrentFault::Missing }),
        Some(Value::ByteString(s)) => Ok(s),
        Some(_) => Err(TorrentError { field, fault: TorrentFault::WrongType }),
    }
}

/// The integer that `v` gives to `key`, which has to lie in 32 bits,
/// unsigned.
pub open spec fn number_member(v: Value, key: Seq<u8>, field: TorrentField) -> Result<
    int,
    TorrentError,
> {
    match member(v, key) {
        None => Err(TorrentError { field, fault: TorrentFault::Missing }),
        Some(Value::Integer(i)) => if 0 <= i <= u32::MAX {
            Ok(i)
        } else {
            Err(TorrentError { field, fault: TorrentFault::OutOfRange })
        },
        Some(_) => Err(TorrentError { field, fault: TorrentFault::WrongType }),
    }
}

/// The first `n` components of a path: byte strings, all of them.
pub open spec fn path_of(items: Seq<Value>, n: int) -> Result<Seq<Seq<u8>>, TorrentError>
    decreases n,
{
    if n <= 0 || n > items.len() {
        Ok(Seq::empty())
    } else {
        match path_of(items, n - 1) {
            Err(e) => Err(e),
            Ok(before) => match items[n - 1] {
                Value::ByteString(s) => Ok(before.push(s)),
                _ => Err(
                    TorrentError { field: TorrentField::FilePath, fault: TorrentFault::WrongType },
                ),
            },
        }
    }
}

/// The file that the dictionary `v` describes: its `length`, then its
/// `path`.
pub open spec fn file_of(v: Value) -> Result<FileView, TorrentError> {
    match number_member(v, key_length(), TorrentField::FileLength) {
        Err(e) => Err(e),
        Ok(length) => match member(v, key_path()) {
            None => Err(
                TorrentError { field: TorrentField::FilePath, fault: TorrentFault::Missing },
            ),
            Some(Value::List(items)) => match path_of(items, items.len() as int) {
                Err(e) => Err(e),
                Ok(path) => Ok(FileView { length, path }),
            },
            Some(_) => Err(
                TorrentError { field: TorrentField::FilePath, fault: TorrentFault::WrongType },
            ),
        },
    }
}

/// The first `n` files of a list, in order; the first fault ends it.
pub open spec fn files_of(items: Seq<Value>, n: int) -> Result<Seq<FileView>, TorrentError>
    decreases n,
{
    if n <= 0 || n > items.len() {
        Ok(Seq::empty())
    } else {
        match files_of(items, n - 1) {
            Err(e) => Err(e),
            Ok(before) => match items[n - 1] {
                Value::Dictionary(_) => match file_of(items[n - 1]) {
                    Err(e) => Err(e),
                    Ok(file) => Ok(before.push(file)),
                },
                _ => Err(
                    TorrentError { field: TorrentField::Files, fault: TorrentFault::WrongType },
                ),
            },
        }
    }
}

/// The files that `info` lists under `files`; none where it has no such
/// key.
pub open spec fn files_member(info: Value) -> Result<Seq<FileView>, TorrentError> {
    match member(info, key_files()) {
        None => Ok(Seq::empty()),
        Some(Value::List(items)) => files_of(items, items.len() as int),
        Some(_) => Err(TorrentError { field: TorrentField::Files, fault: TorrentFault::WrongType }),
    }
}

/// The torrent that the document `root` describes, tracked under `id`.
///
/// The places are read in this order, and the first fault is the result:
/// the root, which has to be a dictionary; `announce`; `creation date`;
/// `info`, a dictionary; and in it `name`, `piece length`, `pieces` and
/// `files`.
pub open spec fn torrent_of(id: TorrentId, root: Value) -> Result<TorrentView, TorrentError> {
    if !(root is Dictionary) {
        Err(TorrentError { field: TorrentField::Root, fault: TorrentFault::WrongType })
    } else {
        match bytes_member(root, key_announce(), TorrentField::Announce) {
            Err(e) => Err(e),
            Ok(announce) => match number_member(
                root,
                key_creation_date(),
                TorrentField::CreationDate,
            ) {
                Err(e) => Err(e),
                Ok(creation_date) => match member(root, key_info()) {
                    None => Err(
                        TorrentError { field: TorrentField::Info, fault: TorrentFault::Missing },
                    ),
                    Some(Value::Dictionary(entries)) => info_of(
                        id,
                        announce,
                        creation_date,
                        Value::Dictionary(entries),
                    ),
                    Some(_) => Err(
                        TorrentError { field: TorrentField::Info, fault: TorrentFault::WrongType },
                    ),
                },
            },
        }
    }
}

/// The torrent with what the dictionary `info` adds to it.
pub open spec fn info_of(id: TorrentId, announce: Seq<u8>, creation_date: int, info: Value) -> Result<
    TorrentView,
    TorrentError,
> {
    match bytes_member(info, key_name(), TorrentField::Name) {
        Err(e) => Err(e),
        Ok(name) => match number_member(info, key_piece_length(), TorrentField::PieceLength) {
            Err(e) => Err(e),
            Ok(piece_length) => match bytes_member(info, key_pieces(), TorrentField::Pieces) {
                Err(e) => Err(e),
                Ok(pieces) => match files_member(info) {
                    Err(e) => Err(e),
                    Ok(files) => Ok(
                        TorrentView {
                            id: id as int,
                            announce,
                            creation_date,
                            files,
                            name,
                            piece_length,
                            pieces,
                        },
                    ),
                },
            },
        }
    }
}

fn announce_key() -> (k: Vec<u8>)
    ensures
        k@ == key_announce(),
{
    let k = vec![97u8, 110, 110, 111, 117, 110, 99, 101];
    assert(k@ =~= key_announce());
    k
}

fn creation_date_key() -> (k: Vec<u8>)
    ensures
        k@ == key_creation_date(),
{
    let k = vec![99u8, 114, 101, 97, 116, 105, 111, 110, 32, 100, 97, 116, 101];
    assert(k@ =~= key_creation_date());
    k
}

fn info_key() -> (k: Vec<u8>)
    ensures
        k@ == key_info(),
{
    let k = vec![105u8, 110, 102, 111];
    assert(k@ =~= key_info());
    k
}

fn name_key() -> (k: Vec<u8>)
    ensures
        k@ == key_name(),
{
    let k = vec![110u8, 97, 109, 101];
    assert(k@ =~= key_name());
    k
}

fn piece_length_key() -> (k: Vec<u8>)
    ensures
        k@ == key_piece_length(),
{
    let k = vec![112u8, 105, 101, 99, 101, 32, 108, 101, 110, 103, 116, 104];
    assert(k@ =~= key_piece_length());
    k
}

fn pieces_key() -> (k: Vec<u8>)
    ensures
        k@ == key_pieces(),
{
    let k = vec![112u8, 105, 101, 99, 101, 115];
    assert(k@ =~= key_pieces());
    k
}

fn files_key() -> (k: Vec<u8>)
    ensures
        k@ == key_files(),
{
    let k = vec![102u8, 105, 108, 101, 115];
    assert(k@ =~= key_files());
    k
}

fn length_key() -> (k: Vec<u8>)
    ensures
        k@ == key_length(),
{
    let k = vec![108u8, 101, 110, 103, 116, 104];
    assert(k@ =~= key_length());
    k
}

fn path_key() -> (k: Vec<u8>)
    ensures
        k@ == key_path(),
{
    let k = vec![112u8, 97, 116, 104];
    assert(k@ =~= key_path());
    k
}

/// The byte string that the dictionary `v` gives to `key`.
fn get_bytes(v: &BencodeType, key: &Vec<u8>, field: TorrentField) -> (r: Result<
    Vec<u8>,
    TorrentError,
>)
    ensures
        match r {
            Ok(s) => bytes_member(v@, key@, field) == Ok::<Seq<u8>, TorrentError>(s@),
            Err(e) => bytes_member(v@, key@, field) == Err::<Seq<u8>, TorrentError>(e),
        },
{
    match v.get(key.as_slice()) {
        None => Err(TorrentError { field, fault: TorrentFault::Missing }),
        Some(BencodeType::Str(s)) => Ok(slice_to_vec(s.as_slice())),
        Some(_) => Err(TorrentError { field, fault: TorrentFault::WrongType }),
    }
}

/// The integer that the dictionary `v` gives to `key`, where it lies in 32
/// bits, unsigned.
fn get_number(v: &BencodeType, key: &Vec<u8>, field: TorrentField) -> (r: Result<u32, TorrentError>)
    ensures
        match r {
            Ok(n) => number_member(v@, key@, field) == Ok::<int, TorrentError>(n as int),
            Err(e) => number_member(v@, key@, field) == Err::<int, TorrentError>(e),
        },
{
    match v.get(key.as_slice()) {
        None => Err(TorrentError { field, fault: TorrentFault::Missing }),
        Some(BencodeType::Int(i)) => {
            if 0 <= *i && *i <= 0xffff_ffff {
                Ok(*i as u32)
            } else {
                Err(TorrentError { field, fault: TorrentFault::OutOfRange })
            }
        },
        Some(_) => Err(TorrentError { field, fault: TorrentFault::WrongType }),
    }
}

/// The components of a path.
fn read_path(items: &Vec<BencodeType>) -> (r: Result<Vec<Vec<u8>>, TorrentError>)
    ensures
        match r {
            Ok(path) => path_of(crate::bencode::view_items(items@), items@.len() as int) == Ok::<
                Seq<Seq<u8>>,
                TorrentError,
            >(Seq::new(path@.len(), |i: int| path@[i]@)),
            Err(e) => path_of(crate::bencode::view_items(items@), items@.len() as int) == Err::<
                Seq<Seq<u8>>,
                TorrentError,
            >(e),
        },
{
    let ghost all = crate::bencode::view_items(items@);
    let mut path: Vec<Vec<u8>> = Vec::new();
    let mut i: usize = 0;
    assert(Seq::new(path@.len(), |k: int| path@[k]@) =~= Seq::<Seq<u8>>::empty());
    while i < items.len()
        invariant
            i <= items@.len(),
            all == crate::bencode::view_items(items@),
            path_of(all, i as int) == Ok::<Seq<Seq<u8>>, TorrentError>(
                Seq::new(path@.len(), |k: int| path@[k]@),
            ),
        ensures
            i == items@.len(),
        decreases items@.len() - i,
    {
        let ghost before = Seq::new(path@.len(), |k: int| path@[k]@);
        match &items[i] {
            BencodeType::Str(s) => {
                path.push(slice_to_vec(s.as_slice()));
                assert(Seq::new(path@.len(), |k: int| path@[k]@) =~= before.push(s@));
            },
            _ => {
                proof {
                    lemma_path_fault(all, i as int + 1, items@.len() as int);
                }
                return Err(
                    TorrentError { field: TorrentField::FilePath, fault: TorrentFault::WrongType },
                );
            },
        }
        i += 1;
    }
    Ok(path)
}

/// A fault among the first `n` components is the fault of the whole path.
proof fn lemma_path_fault(items: Seq<Value>, n: int, m: int)
    requires
        0 <= n <= m <= items.len(),
        path_of(items, n) is Err,
    ensures
        path_of(items, m) == path_of(items, n),
    decreases m - n,
{
    if n < m {
        lemma_path_fault(items, n, m - 1);
    }
}

/// A fault among the first `n` files is the fault of the whole list.
proof fn lemma_files_fault(items: Seq<Value>, n: int, m: int)
    requires
        0 <= n <= m <= items.len(),
        files_of(items, n) is Err,
    ensures
        files_of(items, m) == files_of(items, n),
    decreases m - n,
{
    if n < m {
        lemma_files_fault(items, n, m - 1);
    }
}

/// The file that the dictionary `v` describes.
fn read_file(v: &BencodeType) -> (r: Result<TorrentFileInfoFile, TorrentError>)
    ensures
        match r {
            Ok(file) => file_of(v@) == Ok::<FileView, TorrentError>(file@),
            Err(e) => file_of(v@) == Err::<FileView, TorrentError>(e),
        },
{
    let length = match get_number(v, &length_key(), TorrentField::FileLength) {
        Ok(n) => n,
        Err(e) => {
            return Err(e);
        },
    };
    match v.get(path_key().as_slice()) {
        None => Err(TorrentError { field: TorrentField::FilePath, fault: TorrentFault::Missing }),
        Some(BencodeType::List(items)) => {
            proof {
                crate::bencode::lemma_view_list(*items);
            }
            match read_path(items) {
                Err(e) => Err(e),
                Ok(path) => Ok(TorrentFileInfoFile { length, path }),
            }
        },
        Some(_) => Err(
            TorrentError { field: TorrentField::FilePath, fault: TorrentFault::WrongType },
        ),
    }
}

/// The files that `info` lists under `files`.
fn read_files(info: &BencodeType) -> (r: Result<Vec<TorrentFileInfoFile>, TorrentError>)
    ensures
        match r {
            Ok(files) => files_member(info@) == Ok::<Seq<FileView>, TorrentError>(
                Seq::new(files@.len(), |i: int| files@[i]@),
            ),
            Err(e) => files_member(info@) == Err::<Seq<FileView>, TorrentError>(e),
        },
{
    let mut files: Vec<TorrentFileInfoFile> = Vec::new();
    match info.get(files_key().as_slice()) {
        None => {
            assert(Seq::new(files@.len(), |i: int| files@[i]@) =~= Seq::<FileView>::empty());
            Ok(files)
        },
        Some(BencodeType::List(items)) => {
            proof {
                crate::bencode::lemma_view_list(*items);
            }
            let ghost all = crate::bencode::view_items(items@);
            let mut i: usize = 0;
            assert(Seq::new(files@.len(), |k: int| files@[k]@) =~= Seq::<FileView>::empty());
            assert(member(info@, key_files()) == Some(Value::List(all)));
            while i < items.len()
                invariant
                    i <= items@.len(),
                    all == crate::bencode::view_items(items@),
                    member(info@, key_files()) == Some(Value::List(all)),
                    files_of(all, i as int) == Ok::<Seq<FileView>, TorrentError>(
                        Seq::new(files@.len(), |k: int| files@[k]@),
                    ),
                ensures
                    i == items@.len(),
                decreases items@.len() - i,
            {
                let ghost before = Seq::new(files@.len(), |k: int| files@[k]@);
                match &items[i] {
                    BencodeType::Dict(_) => {
                        match read_file(&items[i]) {
                            Err(e) => {
                                proof {
                                    lemma_files_fault(all, i as int + 1, items@.len() as int);
                                }
                                return Err(e);
                            },
                            Ok(file) => {
                                let ghost seen = file@;
                                files.push(file);
                                assert(Seq::new(files@.len(), |k: int| files@[k]@) =~= before.push(
                                    seen,
                                ));
                            },
                        }
                    },
                    _ => {
                        proof {
                            lemma_files_fault(all, i as int + 1, items@.len() as int);
                        }
                        return Err(
                            TorrentError {
                                field: TorrentField::Files,
                                fault: TorrentFault::WrongType,
                            },
                        );
                    },
                }
                i += 1;
            }
            Ok(files)
        },
        Some(_) => Err(TorrentError { field: TorrentField::Files, fault: TorrentFault::WrongType }),
    }
}

impl TorrentFile {
    /// Reads the torrent that the decoded document `root` describes, to be
    /// tracked under `id`: the result is [`torrent_of`], the torrent or the
    /// first place at which the document is not what a torrent needs.
    pub fn from_bencode(id: TorrentId, root: &BencodeType) -> (r: Result<TorrentFile, TorrentError>)
        ensures
            match r {
                Ok(t) => torrent_of(id, root@) == Ok::<TorrentView, TorrentError>(t@),
                Err(e) => torrent_of(id, root@) == Err::<TorrentView, TorrentError>(e),
            },
    {
        match root {
            BencodeType::Dict(_) => {},
            _ => {
                return Err(
                    TorrentError { field: TorrentField::Root, fault: TorrentFault::WrongType },
                );
            },
        }
        let announce = match get_bytes(root, &announce_key(), TorrentField::Announce) {
            Ok(s) => s,
            Err(e) => {
                return Err(e);
            },
        };
        let creation_date = match get_number(
            root,
            &creation_date_key(),
            TorrentField::CreationDate,
        ) {
            Ok(n) => n,
            Err(e) => {
                return Err(e);
            },
        };
        let info = match root.get(info_key().as_slice()) {
            None => {
                return Err(
                    TorrentError { field: TorrentField::Info, fault: TorrentFault::Missing },
                );
            },
            Some(found) => match found {
                BencodeType::Dict(_) => found,
                _ => {
                    return Err(
                        TorrentError { field: TorrentField::Info, fault: TorrentFault::WrongType },
                    );
                },
            },
        };
        let name = match get_bytes(info, &name_key(), TorrentField::Name) {
            Ok(s) => s,
            Err(e) => {
                return Err(e);
            },
        };
        let piece_length = match get_number(info, &piece_length_key(), TorrentField::PieceLength) {
            Ok(n) => n,
            Err(e) => {
                return Err(e);
            },
        };
        let pieces = match get_bytes(info, &pieces_key(), TorrentField::Pieces) {
            Ok(s) => s,
            Err(e) => {
                return Err(e);
            },
        };
        let files = match read_files(info) {
            Ok(f) => f,
            Err(e) => {
                return Err(e);
            },
        };
        Ok(
            TorrentFile {
                id,
                announce,
                creation_date,
                info: TorrentFileInfo { files },
                name,
                piece_length,
                pieces,
            },
        )
    }
}

} // verus!
