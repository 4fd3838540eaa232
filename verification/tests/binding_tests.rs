use gif_anim::{
    FrameFile, FrameHandle, Gif, GifError, GifResource, RootEntry, RootListing, SelectionPolicy,
};

fn store_of(sequences: &[(&str, usize)]) -> Gif {
    let mut next: u64 = 0;
    let mut entries = Vec::new();
    for (name, len) in sequences {
        let files: Vec<FrameFile> = (0..*len as u64)
            .map(|offset| FrameFile {
                name: format!("{:03}.png", offset),
                handle: FrameHandle { id: next + offset },
            })
            .collect();
        next += 100;
        entries.push(RootEntry::Directory { name: name.to_string(), files });
    }
    Gif::new(&RootListing::Entries(entries)).unwrap()
}

#[test]
fn new_binding_is_sequential_and_keeps_what_it_was_given() {
    let binding = GifResource::new(200_000_000, "load".to_string(), 1);
    assert_eq!(binding.key(), "load");
    assert_eq!(binding.frame(), 1);
    assert_eq!(binding.policy(), SelectionPolicy::Sequential);
    assert_eq!(binding.interval(), 200_000_000);
    assert_eq!(binding.elapsed(), 0);
}

#[test]
fn with_policy_changes_the_policy_only() {
    let binding =
        GifResource::new(5, "load".to_string(), 3).with_policy(SelectionPolicy::Random);
    assert_eq!(binding.policy(), SelectionPolicy::Random);
    assert_eq!(binding.key(), "load");
    assert_eq!(binding.frame(), 3);
    assert_eq!(binding.interval(), 5);
}

#[test]
fn sequential_fires_count_up_from_one_and_wrap() {
    let store = store_of(&[("load", 4)]);
    let mut binding = GifResource::new(1, "load".to_string(), 0);
    let shown: Vec<u64> = (0..10).map(|_| binding.on_fire(&store).unwrap().id).collect();
    let expected: Vec<u64> = (1..=10).map(|fire| fire % 4).collect();
    assert_eq!(shown, expected);
    assert_eq!(shown[0], 1);
    assert_eq!(binding.frame(), 10 % 4);
}

#[test]
fn sequential_fires_over_one_frame_stay_on_it() {
    let store = store_of(&[("idle", 1)]);
    let mut binding = GifResource::new(1, "idle".to_string(), 0);
    for _ in 0..3 {
        assert_eq!(binding.on_fire(&store), Ok(FrameHandle { id: 0 }));
        assert_eq!(binding.frame(), 0);
    }
}

#[test]
fn sequential_start_past_the_end_wraps_into_the_sequence() {
    let store = store_of(&[("load", 3)]);
    let mut binding = GifResource::new(1, "load".to_string(), 7);
    assert_eq!(binding.on_fire(&store), Ok(FrameHandle { id: 2 }));
    assert_eq!(binding.frame(), 2);
    let mut last = GifResource::new(1, "load".to_string(), usize::MAX);
    let expected = ((usize::MAX % 3) + 1) % 3;
    assert_eq!(last.on_fire(&store), Ok(FrameHandle { id: expected as u64 }));
}

#[test]
fn random_fires_stay_inside_the_sequence_and_reach_every_frame() {
    let len: usize = 5;
    let fires: usize = 10_000;
    let store = store_of(&[("load", len)]);
    let mut binding =
        GifResource::new(1, "load".to_string(), 0).with_policy(SelectionPolicy::Random);
    let mut seen = vec![0usize; len];
    for _ in 0..fires {
        let frame = binding.on_fire(&store).unwrap();
        assert!((frame.id as usize) < len);
        seen[frame.id as usize] += 1;
    }
    let expected = fires / len;
    for count in seen {
        assert!(count > expected / 2 && count < expected * 3 / 2);
    }
    assert_eq!(binding.frame(), 0);
}

#[test]
fn random_fire_over_one_frame_gives_that_frame() {
    let store = store_of(&[("idle", 1)]);
    let mut binding =
        GifResource::new(1, "idle".to_string(), 0).with_policy(SelectionPolicy::Random);
    for _ in 0..20 {
        assert_eq!(binding.on_fire(&store), Ok(FrameHandle { id: 0 }));
    }
}

#[test]
fn fire_on_an_unknown_key_is_unknown_sequence() {
    let store = store_of(&[("load", 3)]);
    for policy in [SelectionPolicy::Sequential, SelectionPolicy::Random] {
        let mut binding = GifResource::new(1, "other".to_string(), 2).with_policy(policy);
        assert_eq!(binding.on_fire(&store), Err(GifError::UnknownSequence));
        assert_eq!(binding.frame(), 2);
    }
}

#[test]
fn fire_on_an_empty_sequence_is_out_of_range() {
    let store = store_of(&[("blank", 0)]);
    for policy in [SelectionPolicy::Sequential, SelectionPolicy::Random] {
        let mut binding = GifResource::new(1, "blank".to_string(), 0).with_policy(policy);
        assert_eq!(binding.on_fire(&store), Err(GifError::FrameIndexOutOfRange));
        assert_eq!(binding.frame(), 0);
    }
}

#[test]
fn given_draw_is_used_by_the_random_policy_only() {
    let store = store_of(&[("load", 3)]);
    let mut random =
        GifResource::new(1, "load".to_string(), 0).with_policy(SelectionPolicy::Random);
    assert_eq!(random.on_fire_with(&store, 2), Ok(FrameHandle { id: 2 }));
    assert_eq!(random.on_fire_with(&store, 0), Ok(FrameHandle { id: 0 }));
    assert_eq!(random.frame(), 0);
    let mut sequential = GifResource::new(1, "load".to_string(), 0);
    assert_eq!(sequential.on_fire_with(&store, 2), Ok(FrameHandle { id: 1 }));
    assert_eq!(sequential.on_fire_with(&store, 99), Ok(FrameHandle { id: 2 }));
}

#[test]
fn draw_outside_the_sequence_is_out_of_range() {
    let store = store_of(&[("load", 3)]);
    let mut binding =
        GifResource::new(1, "load".to_string(), 1).with_policy(SelectionPolicy::Random);
    assert_eq!(binding.on_fire_with(&store, 3), Err(GifError::FrameIndexOutOfRange));
    assert_eq!(binding.on_fire_with(&store, usize::MAX), Err(GifError::FrameIndexOutOfRange));
    assert_eq!(binding.frame(), 1);
}

#[test]
fn tick_resolves_a_frame_only_when_the_trigger_fires() {
    let store = store_of(&[("load", 3)]);
    let mut binding = GifResource::new(500, "load".to_string(), 0);
    assert_eq!(binding.tick(&store, 200), Ok(None));
    assert_eq!(binding.tick(&store, 200), Ok(None));
    assert_eq!(binding.elapsed(), 400);
    assert_eq!(binding.frame(), 0);
    assert_eq!(binding.tick(&store, 100), Ok(Some(FrameHandle { id: 1 })));
    assert_eq!(binding.elapsed(), 0);
    assert_eq!(binding.frame(), 1);
    assert_eq!(binding.tick(&store, 5000), Ok(Some(FrameHandle { id: 2 })));
    assert_eq!(binding.tick(&store, 499), Ok(None));
    assert_eq!(binding.tick(&store, 1), Ok(Some(FrameHandle { id: 0 })));
}

#[test]
fn tick_hands_the_store_error_on() {
    let store = store_of(&[("load", 3)]);
    let mut binding = GifResource::new(10, "other".to_string(), 0);
    assert_eq!(binding.tick(&store, 9), Ok(None));
    assert_eq!(binding.tick(&store, 1), Err(GifError::UnknownSequence));
    assert_eq!(binding.elapsed(), 0);
    assert_eq!(binding.tick(&store, 10), Err(GifError::UnknownSequence));
}
