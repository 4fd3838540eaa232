use gif_anim::{FrameFile, FrameHandle, Gif, GifError, RootEntry, RootListing};

fn frame_file(name: &str, id: u64) -> FrameFile {
    FrameFile { name: name.to_string(), handle: FrameHandle { id } }
}

fn directory(name: &str, ids: &[u64]) -> RootEntry {
    let files = ids.iter().map(|id| frame_file(&format!("{}.png", id), *id)).collect();
    RootEntry::Directory { name: name.to_string(), files }
}

fn file(name: &str) -> RootEntry {
    RootEntry::File { name: name.to_string() }
}

/// `load/{a.png,b.png,c.png}` and `idle/{x.png}`, the images numbered as
/// they were loaded.
fn load_and_idle() -> Gif {
    let listing = RootListing::Entries(vec![
        RootEntry::Directory {
            name: "load".to_string(),
            files: vec![frame_file("a.png", 10), frame_file("b.png", 11), frame_file("c.png", 12)],
        },
        RootEntry::Directory { name: "idle".to_string(), files: vec![frame_file("x.png", 13)] },
    ]);
    Gif::new(&listing).unwrap()
}

#[test]
fn build_yields_one_sequence_per_directory() {
    let store = load_and_idle();
    let mut keys = store.keys();
    keys.sort();
    assert_eq!(keys, vec!["idle".to_string(), "load".to_string()]);
    assert_eq!(store.sequence_len(&"load".to_string()), Some(3));
    assert_eq!(store.sequence_len(&"idle".to_string()), Some(1));
    assert_eq!(store.sequence_len(&"other".to_string()), None);
}

#[test]
fn get_inside_the_sequence_succeeds() {
    let store = load_and_idle();
    assert_eq!(store.get("load".to_string(), 0), Ok(FrameHandle { id: 10 }));
    assert_eq!(store.get("load".to_string(), 1), Ok(FrameHandle { id: 11 }));
    assert_eq!(store.get("load".to_string(), 2), Ok(FrameHandle { id: 12 }));
    assert_eq!(store.get("idle".to_string(), 0), Ok(FrameHandle { id: 13 }));
}

#[test]
fn get_past_the_end_is_out_of_range() {
    let store = load_and_idle();
    assert_eq!(store.get("load".to_string(), 3), Err(GifError::FrameIndexOutOfRange));
    assert_eq!(store.get("idle".to_string(), 1), Err(GifError::FrameIndexOutOfRange));
    assert_eq!(store.get("load".to_string(), usize::MAX), Err(GifError::FrameIndexOutOfRange));
}

#[test]
fn get_of_an_unknown_key_is_unknown_sequence() {
    let store = load_and_idle();
    assert_eq!(store.get("other".to_string(), 0), Err(GifError::UnknownSequence));
    assert_eq!(store.get("".to_string(), 0), Err(GifError::UnknownSequence));
    assert_eq!(store.get("Load".to_string(), 0), Err(GifError::UnknownSequence));
}

#[test]
fn get_is_stable_across_calls() {
    let store = load_and_idle();
    for index in 0..3 {
        let first = store.get("load".to_string(), index);
        let second = store.get("load".to_string(), index);
        assert!(first.is_ok());
        assert_eq!(first, second);
    }
    for _ in 0..5 {
        assert_eq!(store.get("load".to_string(), 7), Err(GifError::FrameIndexOutOfRange));
    }
}

#[test]
fn unreadable_root_is_an_asset_load_error() {
    let built = Gif::new(&RootListing::Unreadable);
    assert!(matches!(built, Err(GifError::AssetLoadError)));
}

#[test]
fn empty_root_gives_an_empty_store() {
    let store = Gif::new(&RootListing::Entries(Vec::new())).unwrap();
    assert!(store.keys().is_empty());
    assert_eq!(store.get("load".to_string(), 0), Err(GifError::UnknownSequence));
}

#[test]
fn files_under_the_root_are_ignored() {
    let listing = RootListing::Entries(vec![
        file("readme.txt"),
        directory("load", &[1, 2]),
        file("load.png"),
    ]);
    let store = Gif::new(&listing).unwrap();
    assert_eq!(store.keys(), vec!["load".to_string()]);
    assert!(store.contains_key(&"load".to_string()));
    assert!(!store.contains_key(&"readme.txt".to_string()));
    assert!(!store.contains_key(&"load.png".to_string()));
    assert_eq!(store.get("readme.txt".to_string(), 0), Err(GifError::UnknownSequence));
}

#[test]
fn empty_directory_is_a_sequence_without_frames() {
    let store = Gif::new(&RootListing::Entries(vec![directory("blank", &[])])).unwrap();
    assert!(store.contains_key(&"blank".to_string()));
    assert_eq!(store.sequence_len(&"blank".to_string()), Some(0));
    assert_eq!(store.get("blank".to_string(), 0), Err(GifError::FrameIndexOutOfRange));
}

#[test]
fn frames_play_in_name_order_however_they_were_listed() {
    let listed = vec![
        frame_file("c.png", 30),
        frame_file("a.png", 10),
        frame_file("d.png", 40),
        frame_file("b.png", 20),
    ];
    let store = Gif::new(&RootListing::Entries(vec![RootEntry::Directory {
        name: "walk".to_string(),
        files: listed,
    }]))
    .unwrap();
    let shown: Vec<u64> =
        (0..4).map(|index| store.get("walk".to_string(), index).unwrap().id).collect();
    assert_eq!(shown, vec![10, 20, 30, 40]);
    assert_eq!(store.get("walk".to_string(), 4), Err(GifError::FrameIndexOutOfRange));
}

#[test]
fn two_files_listed_against_name_order_are_played_in_name_order() {
    let store = Gif::new(&RootListing::Entries(vec![RootEntry::Directory {
        name: "load".to_string(),
        files: vec![frame_file("b.png", 1), frame_file("a.png", 2)],
    }]))
    .unwrap();
    assert_eq!(store.get("load".to_string(), 0), Ok(FrameHandle { id: 2 }));
    assert_eq!(store.get("load".to_string(), 1), Ok(FrameHandle { id: 1 }));
}

#[test]
fn every_enumeration_of_a_layout_builds_the_same_store() {
    let walk = [("0.png", 0u64), ("1.png", 1), ("10.png", 2), ("2.png", 3)];
    let idle = [("x.png", 7u64), ("y.png", 8)];
    let orders: [[usize; 4]; 5] =
        [[0, 1, 2, 3], [3, 2, 1, 0], [2, 0, 3, 1], [1, 3, 0, 2], [3, 0, 1, 2]];
    for order in orders {
        for idle_first in [false, true] {
            let walk_files = order.iter().map(|at| frame_file(walk[*at].0, walk[*at].1)).collect();
            let mut idle_files: Vec<FrameFile> =
                idle.iter().map(|(name, id)| frame_file(name, *id)).collect();
            if idle_first {
                idle_files.reverse();
            }
            let mut entries = vec![
                RootEntry::Directory { name: "walk".to_string(), files: walk_files },
                file("notes.txt"),
                RootEntry::Directory { name: "idle".to_string(), files: idle_files },
            ];
            if idle_first {
                entries.reverse();
            }
            let store = Gif::new(&RootListing::Entries(entries)).unwrap();
            for index in 0..4 {
                assert_eq!(
                    store.get("walk".to_string(), index),
                    Ok(FrameHandle { id: index as u64 })
                );
            }
            assert_eq!(store.get("idle".to_string(), 0), Ok(FrameHandle { id: 7 }));
            assert_eq!(store.get("idle".to_string(), 1), Ok(FrameHandle { id: 8 }));
            assert_eq!(store.keys().len(), 2);
        }
    }
}

#[test]
fn build_leaves_the_listing_as_it_was() {
    let listing = RootListing::Entries(vec![RootEntry::Directory {
        name: "load".to_string(),
        files: vec![frame_file("b.png", 1), frame_file("a.png", 2)],
    }]);
    let store = Gif::new(&listing).unwrap();
    assert_eq!(store.get("load".to_string(), 0), Ok(FrameHandle { id: 2 }));
    match &listing {
        RootListing::Entries(entries) => match &entries[0] {
            RootEntry::Directory { files, .. } => {
                assert_eq!(files[0].name, "b.png");
                assert_eq!(files[1].name, "a.png");
            }
            RootEntry::File { .. } => panic!("a directory was listed"),
        },
        RootListing::Unreadable => panic!("entries were listed"),
    }
}

#[test]
fn a_later_directory_of_the_same_name_replaces_the_earlier() {
    let listing = RootListing::Entries(vec![
        directory("load", &[1, 2, 3]),
        directory("idle", &[4]),
        directory("load", &[5]),
    ]);
    let store = Gif::new(&listing).unwrap();
    assert_eq!(store.keys().len(), 2);
    assert_eq!(store.sequence_len(&"load".to_string()), Some(1));
    assert_eq!(store.get("load".to_string(), 0), Ok(FrameHandle { id: 5 }));
    assert_eq!(store.get("idle".to_string(), 0), Ok(FrameHandle { id: 4 }));
}

#[test]
fn every_sequence_is_as_long_as_its_directory() {
    let sizes: [usize; 5] = [0, 1, 2, 5, 40];
    let mut entries = Vec::new();
    let mut next: u64 = 0;
    for (at, size) in sizes.iter().enumerate() {
        let ids: Vec<u64> = (next..next + *size as u64).collect();
        next += *size as u64;
        entries.push(directory(&format!("seq{}", at), &ids));
        entries.push(file(&format!("note{}", at)));
    }
    let store = Gif::new(&RootListing::Entries(entries)).unwrap();
    assert_eq!(store.keys().len(), sizes.len());
    for (at, size) in sizes.iter().enumerate() {
        assert_eq!(store.sequence_len(&format!("seq{}", at)), Some(*size));
    }
}

#[test]
fn error_messages_differ() {
    let texts = [
        GifError::AssetLoadError.message(),
        GifError::UnknownSequence.message(),
        GifError::FrameIndexOutOfRange.message(),
    ];
    assert_eq!(texts[0], "asset root is missing or unreadable");
    assert_eq!(texts[1], "no sequence is stored under this key");
    assert_eq!(texts[2], "frame index is out of range");
}
