use flip_flop::update::{
    ChunkAction, Pause, UpdatePlan, PreRelease, PrepareForUpdate, Update, UpdateKey, UpdateState, Version,
    UPDATE_BYTES_OVERHEAD, UPDATE_BYTES_PROCESSING_THRESHOLD,
};

#[test]
fn test_parse_versions() {
    assert_eq!(
        "1.2.3".parse::<Version>().unwrap(),
        Version {
            major: 1,
            minor: 2,
            patch: 3,
            pre: None
        }
    );
    assert_eq!(
        "1.2.3-alpha.1".parse::<Version>().unwrap(),
        Version {
            major: 1,
            minor: 2,
            patch: 3,
            pre: Some(PreRelease::Alpha(1))
        }
    );
    assert_eq!(
        "1.2.3-beta.1".parse::<Version>().unwrap(),
        Version {
            major: 1,
            minor: 2,
            patch: 3,
            pre: Some(PreRelease::Beta(1))
        }
    );
}

#[test]
fn test_compare_versions() {
    assert!("1.0.0".parse::<Version>().unwrap() == "1.0.0".parse::<Version>().unwrap());
    assert!("1.0.0".parse::<Version>().unwrap() < "2.0.0".parse::<Version>().unwrap());
    assert!("1.1.0".parse::<Version>().unwrap() < "1.2.0".parse::<Version>().unwrap());
    assert!("1.1.1".parse::<Version>().unwrap() < "1.1.2".parse::<Version>().unwrap());
    assert!("1.0.0-alpha.1".parse::<Version>().unwrap() < "1.0.0".parse::<Version>().unwrap());
    assert!("1.0.0-beta.1".parse::<Version>().unwrap() < "1.0.0".parse::<Version>().unwrap());
    assert!(
        "1.0.0-alpha.1".parse::<Version>().unwrap()
            < "1.0.0-beta.1".parse::<Version>().unwrap()
    );
    assert!(
        "1.0.0-alpha.1".parse::<Version>().unwrap()
            < "1.0.0-alpha.2".parse::<Version>().unwrap()
    );
}

fn v(s: &str) -> Version {
    s.parse::<Version>().unwrap()
}

#[test]
fn version_ordering_chain() {
    assert!(v("1.0.0-alpha.1") < v("1.0.0-alpha.2"));
    assert!(v("1.0.0-alpha.2") < v("1.0.0-beta.1"));
    assert!(v("1.0.0-beta.1") < v("1.0.0"));
    assert!(v("1.0.0") < v("1.1.0"));
    assert!(v("1.1.0") < v("2.0.0"));
    assert!(v("2.0.0") > v("1.9.9"));
    assert!(v("1.0.0-beta.2") > v("1.0.0-beta.1"));
    assert!(!(v("1.0.0") < v("1.0.0")));
    assert!(v("1.0.0") <= v("1.0.0"));
}

#[test]
fn malformed_versions_are_refused() {
    for s in [
        "", "1", "1.2", "1.2.", "a.2.3", "1.b.3", "1.2.c", "256.0.0", "1.2.3-alpha.x",
        "1.2.3-beta.", "-1.2.3", "+.2.3", "1..3",
    ] {
        assert!(s.parse::<Version>().is_err(), "{s}");
    }
}

#[test]
fn lenient_version_forms() {
    assert_eq!(v("+1.02.255"), Version { major: 1, minor: 2, patch: 255, pre: None });
    assert_eq!(v("1.2.3-rc.1"), Version { major: 1, minor: 2, patch: 3, pre: None });
    assert_eq!(v("1.2.3-"), Version { major: 1, minor: 2, patch: 3, pre: None });
    assert_eq!(
        v("1.2.3-xalpha.7"),
        Version { major: 1, minor: 2, patch: 3, pre: Some(PreRelease::Alpha(7)) }
    );
}

fn prepare(version: Version, len: u32) -> PrepareForUpdate {
    PrepareForUpdate {
        version,
        server_ports: 1 << 2,
        update_key: UpdateKey([7; 16]),
        update_byte_len: len,
        signed: false,
    }
}

fn chunk(offset: u32, len: usize) -> Update<27> {
    Update { byte_offset: offset, bytes: vec![0xAB; len] }
}

fn is_idle(s: &UpdateState) -> bool {
    matches!(s, UpdateState::Idle)
}

#[test]
fn older_or_equal_versions_are_ignored() {
    let current = v("1.2.0");
    let mut state = UpdateState::Idle;
    assert!(!state.on_prepare(&prepare(v("1.2.0"), 100), &current));
    assert!(!state.on_prepare(&prepare(v("1.1.9"), 100), &current));
    assert!(!state.on_prepare(&prepare(v("1.2.0-beta.1"), 100), &current));
    assert!(is_idle(&state));
    assert!(state.on_prepare(&prepare(v("1.2.3"), 100), &current));
    match state {
        UpdateState::Preparing(info) => {
            assert_eq!(info.byte_len, 100);
            assert_eq!(info.next_byte_offset, 0);
            assert_eq!(info.committed, 0);
        }
        _ => panic!("expected to be preparing"),
    }
}

#[test]
fn whole_update_completes() {
    let current = v("1.2.0");
    let mut state = UpdateState::Idle;
    assert_eq!(state.on_update(&chunk(0, 27)), ChunkAction::Ignored);
    assert!(state.on_prepare(&prepare(v("1.2.3"), 60), &current));
    assert_eq!(state.on_update(&chunk(0, 27)), ChunkAction::Buffered);
    assert_eq!(state.on_update(&chunk(27, 27)), ChunkAction::Buffered);
    assert_eq!(state.on_update(&chunk(54, 6)), ChunkAction::Completed);
    assert!(is_idle(&state));
}

#[test]
fn threshold_window_commits() {
    let current = v("1.0.0");
    let mut state = UpdateState::Idle;
    assert!(state.on_prepare(&prepare(v("2.0.0"), 10_000), &current));
    let mut offset = 0u32;
    let mut commits = 0;
    while offset < 4096 {
        let len = std::cmp::min(27, 4096 - offset as usize);
        match state.on_update(&chunk(offset, len)) {
            ChunkAction::Committed => commits += 1,
            ChunkAction::Buffered => {}
            other => panic!("unexpected {other:?}"),
        }
        offset += len as u32;
    }
    assert_eq!(commits, 1);
    match state {
        UpdateState::Updating(info) => {
            assert_eq!(info.next_byte_offset, UPDATE_BYTES_PROCESSING_THRESHOLD);
            assert_eq!(info.committed, UPDATE_BYTES_PROCESSING_THRESHOLD);
        }
        _ => panic!("expected to be updating"),
    }
}

#[test]
fn dropped_chunk_aborts() {
    let current = v("1.0.0");
    let mut state = UpdateState::Idle;
    assert!(state.on_prepare(&prepare(v("1.0.1"), 100), &current));
    assert_eq!(state.on_update(&chunk(0, 27)), ChunkAction::Buffered);
    // The chunk at 27 is lost.
    assert_eq!(state.on_update(&chunk(54, 27)), ChunkAction::Aborted);
    assert!(is_idle(&state));
    assert_eq!(state.on_update(&chunk(81, 19)), ChunkAction::Ignored);
    assert!(is_idle(&state));
}

#[test]
fn chunk_past_the_end_aborts() {
    let current = v("1.0.0");
    let mut state = UpdateState::Idle;
    assert!(state.on_prepare(&prepare(v("1.0.1"), 20), &current));
    assert_eq!(state.on_update(&chunk(0, 27)), ChunkAction::Aborted);
    assert!(is_idle(&state));
}

#[test]
fn update_overhead() {
    assert_eq!(UPDATE_BYTES_OVERHEAD, 5);
}

#[test]
fn plan_cuts_chunks_at_windows() {
    let mut plan = UpdatePlan::new(10_000, 27);
    let mut expected_start = 0u32;
    let mut longs = Vec::new();
    let mut count = 0;
    while let Some((start, end, pause)) = plan.next_chunk() {
        assert_eq!(start, expected_start);
        assert!(end > start && end - start <= 27);
        assert_eq!(start / 4096, (end - 1) / 4096);
        if pause == Pause::Long {
            longs.push(end);
        }
        expected_start = end;
        count += 1;
    }
    assert_eq!(expected_start, 10_000);
    assert_eq!(longs, vec![4096, 8192, 10_000]);
    // 4096 = 151 * 27 + 19: 152 chunks per full window; 1808 = 66 * 27 + 26.
    assert_eq!(count, 152 + 152 + 67);
    assert_eq!(plan.next_chunk(), None);
}

#[test]
fn plan_for_nothing_sends_nothing() {
    let mut plan = UpdatePlan::new(0, 27);
    assert_eq!(plan.next_chunk(), None);
}

#[test]
fn plan_and_server_agree() {
    let current = v("1.0.0");
    let mut state = UpdateState::Idle;
    assert!(state.on_prepare(&prepare(v("1.1.0"), 9000), &current));
    let mut plan = UpdatePlan::new(9000, 27);
    let mut commits = Vec::new();
    while let Some((start, end, _)) = plan.next_chunk() {
        match state.on_update(&chunk(start, (end - start) as usize)) {
            ChunkAction::Committed | ChunkAction::Completed => commits.push(end),
            ChunkAction::Buffered => {}
            other => panic!("unexpected {other:?}"),
        }
    }
    assert_eq!(commits, vec![4096, 8192, 9000]);
    assert!(is_idle(&state));
}
