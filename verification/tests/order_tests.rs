use gif_anim::{sort_by_name, sorts_before, FrameFile, FrameHandle};

fn named(names: &[&str]) -> Vec<FrameFile> {
    names
        .iter()
        .enumerate()
        .map(|(id, name)| FrameFile { name: name.to_string(), handle: FrameHandle { id: id as u64 } })
        .collect()
}

fn names_of(files: &[FrameFile]) -> Vec<&str> {
    files.iter().map(|file| file.name.as_str()).collect()
}

fn before(a: &str, b: &str) -> bool {
    sorts_before(&a.to_string(), &b.to_string())
}

#[test]
fn names_compare_like_words_in_a_dictionary() {
    assert!(before("a.png", "b.png"));
    assert!(!before("b.png", "a.png"));
    assert!(before("a.png", "a.png"));
    assert!(before("", "a"));
    assert!(!before("a", ""));
    assert!(before("", ""));
    assert!(before("frame", "frame1"));
    assert!(!before("frame1", "frame"));
    assert!(before("frame10", "frame2"));
    assert!(before("B", "a"));
    assert!(!before("a", "B"));
}

#[test]
fn names_compare_by_code_point_beyond_ascii() {
    assert!(before("z", "é"));
    assert!(before("é", "フ"));
    assert!(before("フレーム1", "フレーム2"));
    assert!(!before("フレーム2", "フレーム1"));
    assert!(before("フ", "\u{1F600}"));
    for (a, b) in [("z", "é"), ("é", "フ"), ("a", "a"), ("ab", "a"), ("", "x")] {
        assert_eq!(before(a, b), a <= b);
        assert_eq!(before(b, a), b <= a);
    }
}

#[test]
fn sort_puts_files_in_name_order() {
    let mut files = named(&["c.png", "a.png", "d.png", "b.png"]);
    sort_by_name(&mut files);
    assert_eq!(names_of(&files), vec!["a.png", "b.png", "c.png", "d.png"]);
    let ids: Vec<u64> = files.iter().map(|file| file.handle.id).collect();
    assert_eq!(ids, vec![1, 3, 0, 2]);
}

#[test]
fn sort_keeps_every_file() {
    let mut files = named(&["b", "a", "b", "", "a", "c"]);
    sort_by_name(&mut files);
    assert_eq!(names_of(&files), vec!["", "a", "a", "b", "b", "c"]);
    let mut ids: Vec<u64> = files.iter().map(|file| file.handle.id).collect();
    ids.sort();
    assert_eq!(ids, vec![0, 1, 2, 3, 4, 5]);
}

#[test]
fn sort_of_nothing_and_of_one_file() {
    let mut none: Vec<FrameFile> = Vec::new();
    sort_by_name(&mut none);
    assert!(none.is_empty());
    let mut one = named(&["only.png"]);
    sort_by_name(&mut one);
    assert_eq!(names_of(&one), vec!["only.png"]);
}

#[test]
fn sorted_order_does_not_depend_on_enumeration_order() {
    let orders: [[&str; 4]; 4] = [
        ["0.png", "1.png", "2.png", "3.png"],
        ["3.png", "2.png", "1.png", "0.png"],
        ["2.png", "0.png", "3.png", "1.png"],
        ["1.png", "3.png", "0.png", "2.png"],
    ];
    for order in orders {
        let mut files: Vec<FrameFile> = order
            .iter()
            .map(|name| FrameFile {
                name: name.to_string(),
                handle: FrameHandle { id: name[..1].parse().unwrap() },
            })
            .collect();
        sort_by_name(&mut files);
        assert_eq!(names_of(&files), vec!["0.png", "1.png", "2.png", "3.png"]);
        let ids: Vec<u64> = files.iter().map(|file| file.handle.id).collect();
        assert_eq!(ids, vec![0, 1, 2, 3]);
    }
}
