use torrent_rs::bencode::{Bencode, BencodeType};
use torrent_rs::commands::{add_torrent, inspect_torrent, ls_torrents, rm_torrent};
use torrent_rs::state::AppState;
use torrent_rs::torrent_file::TorrentFault::{Missing, OutOfRange, WrongType};
use torrent_rs::torrent_file::{TorrentError, TorrentFault, TorrentField, TorrentFile};

const FEDORA: &[u8] = b"d8:announce46:http://torrent.fedoraproject.org:6969/announce13:creation datei1681726664e4:infod5:filesld6:lengthi1967298560e4:pathl36:Fedora-Budgie-Live-x86_64-38-1.6.isoeed6:lengthi2562e4:pathl35:Fedora-Spins-38-1.6-x86_64-CHECKSUMeee4:name28:Fedora-Budgie-Live-x86_64-3812:piece lengthi262144e6:pieces4:abcdee";

fn read(id: u32, input: &[u8]) -> Result<TorrentFile, TorrentError> {
    TorrentFile::from_bencode(id, &Bencode::from_u8(input).unwrap().node)
}

fn fault(input: &[u8]) -> (TorrentField, TorrentFault) {
    let e = read(1, input).unwrap_err();
    (e.field, e.fault)
}

#[test]
fn torrent_from_a_document() {
    let t = read(123, FEDORA).unwrap();
    assert_eq!(t.id, 123);
    assert_eq!(t.announce, b"http://torrent.fedoraproject.org:6969/announce".to_vec());
    assert_eq!(t.creation_date, 1681726664);
    assert_eq!(t.name, b"Fedora-Budgie-Live-x86_64-38".to_vec());
    assert_eq!(t.piece_length, 262144);
    assert_eq!(t.pieces, b"abcd".to_vec());
    assert_eq!(t.info.files.len(), 2);
    assert_eq!(t.info.files[0].length, 1967298560);
    assert_eq!(t.info.files[0].path, vec![b"Fedora-Budgie-Live-x86_64-38-1.6.iso".to_vec()]);
    assert_eq!(t.info.files[1].length, 2562);
    assert_eq!(t.info.files[1].path, vec![b"Fedora-Spins-38-1.6-x86_64-CHECKSUM".to_vec()]);
}

#[test]
fn torrent_without_files() {
    let t = read(7, b"d8:announce1:u13:creation datei0e4:infod4:name1:n12:piece lengthi4294967295e6:pieces0:ee").unwrap();
    assert!(t.info.files.is_empty());
    assert_eq!(t.creation_date, 0);
    assert_eq!(t.piece_length, u32::MAX);
    assert!(t.pieces.is_empty());
}

#[test]
fn torrent_faults() {
    assert_eq!(fault(b"i1e"), (TorrentField::Root, WrongType));
    assert_eq!(fault(b"le"), (TorrentField::Root, WrongType));
    assert_eq!(fault(b"de"), (TorrentField::Announce, Missing));
    assert_eq!(fault(b"d8:announcei1ee"), (TorrentField::Announce, WrongType));
    assert_eq!(fault(b"d8:announce1:ue"), (TorrentField::CreationDate, Missing));
    assert_eq!(fault(b"d8:announce1:u13:creation date1:xe"), (TorrentField::CreationDate, WrongType));
    assert_eq!(fault(b"d8:announce1:u13:creation datei-1ee"), (TorrentField::CreationDate, OutOfRange));
    assert_eq!(
        fault(b"d8:announce1:u13:creation datei4294967296ee"),
        (TorrentField::CreationDate, OutOfRange)
    );
    assert_eq!(fault(b"d8:announce1:u13:creation datei1ee"), (TorrentField::Info, Missing));
    assert_eq!(fault(b"d8:announce1:u13:creation datei1e4:infolee"), (TorrentField::Info, WrongType));
    assert_eq!(fault(b"d8:announce1:u13:creation datei1e4:infodee"), (TorrentField::Name, Missing));
    assert_eq!(
        fault(b"d8:announce1:u13:creation datei1e4:infod4:name1:nee"),
        (TorrentField::PieceLength, Missing)
    );
    assert_eq!(
        fault(b"d8:announce1:u13:creation datei1e4:infod4:name1:n12:piece lengthi1eee"),
        (TorrentField::Pieces, Missing)
    );
    assert_eq!(
        fault(b"d8:announce1:u13:creation datei1e4:infod4:name1:n12:piece lengthi1e6:piecesi1eee"),
        (TorrentField::Pieces, WrongType)
    );
}

#[test]
fn torrent_file_faults() {
    let with = |files: &str| {
        let mut doc = b"d8:announce1:u13:creation datei1e4:infod5:files".to_vec();
        doc.extend_from_slice(files.as_bytes());
        doc.extend_from_slice(b"4:name1:n12:piece lengthi1e6:pieces0:ee");
        fault(&doc)
    };
    assert_eq!(with("i1e"), (TorrentField::Files, WrongType));
    assert_eq!(with("li1ee"), (TorrentField::Files, WrongType));
    assert_eq!(with("ldee"), (TorrentField::FileLength, Missing));
    assert_eq!(with("ld6:length1:xee"), (TorrentField::FileLength, WrongType));
    assert_eq!(with("ld6:lengthi-5eee"), (TorrentField::FileLength, OutOfRange));
    assert_eq!(with("ld6:lengthi5eee"), (TorrentField::FilePath, Missing));
    assert_eq!(with("ld6:lengthi5e4:pathi1eee"), (TorrentField::FilePath, WrongType));
    assert_eq!(with("ld6:lengthi5e4:pathl1:ai1eeee"), (TorrentField::FilePath, WrongType));
    assert_eq!(
        with("ld6:lengthi5e4:pathl1:aeed6:lengthi5eee"),
        (TorrentField::FilePath, Missing)
    );
}

fn state_of(ids: &[u32]) -> AppState {
    let root = Bencode::from_u8(FEDORA).unwrap().node;
    let mut state = AppState::new();
    for id in ids {
        add_torrent(&mut state, *id, &root).unwrap();
    }
    state
}

#[test]
fn add_then_list() {
    let mut state = AppState::new();
    assert!(ls_torrents(&state).is_empty());
    let root = Bencode::from_u8(FEDORA).unwrap().node;
    assert!(add_torrent(&mut state, 123, &root).is_ok());
    assert!(add_torrent(&mut state, 7, &root).is_ok());
    assert_eq!(ls_torrents(&state), vec![123, 7]);
    assert_eq!(state.torrents[1].id, 7);
    assert_eq!(state.torrents[1].piece_length, 262144);
}

#[test]
fn add_of_no_torrent_leaves_the_state() {
    let mut state = state_of(&[1]);
    let e = add_torrent(&mut state, 2, &BencodeType::Int(1)).unwrap_err();
    assert_eq!(e, TorrentError { field: TorrentField::Root, fault: TorrentFault::WrongType });
    assert_eq!(ls_torrents(&state), vec![1]);
}

#[test]
fn remove_by_id() {
    let mut state = state_of(&[1, 2, 3, 2, 4]);
    rm_torrent(&mut state, &2);
    assert_eq!(ls_torrents(&state), vec![1, 3, 4]);
    rm_torrent(&mut state, &9);
    assert_eq!(ls_torrents(&state), vec![1, 3, 4]);
    rm_torrent(&mut state, &1);
    rm_torrent(&mut state, &4);
    assert_eq!(ls_torrents(&state), vec![3]);
    rm_torrent(&mut state, &3);
    assert!(ls_torrents(&state).is_empty());
    rm_torrent(&mut state, &3);
    assert!(state.torrents.is_empty());
}

#[test]
fn inspect_by_id() {
    let state = state_of(&[5, 6, 5]);
    let found = inspect_torrent(&state, &5).unwrap();
    assert!(std::ptr::eq(found, &state.torrents[0]));
    let found = inspect_torrent(&state, &6).unwrap();
    assert!(std::ptr::eq(found, &state.torrents[1]));
    assert_eq!(found.name, b"Fedora-Budgie-Live-x86_64-38".to_vec());
    assert!(inspect_torrent(&state, &7).is_none());
    assert!(inspect_torrent(&AppState::new(), &5).is_none());
}
