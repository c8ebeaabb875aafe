use glassdb_storage::disk_cache::sim_harness::{
    body, damage, decode, digest_record, path, revision, Command, CommandKind, DiskCacheEvent,
    HarnessState, Violation,
};
use glassdb_storage::disk_cache::media::{CacheFile, MediaError};
use glassdb_storage::disk_cache::sim_media::{
    CrashChoices, MediaFaultProfile, OperationFate, SimFile, SimMedia,
};

fn nothing_survives() -> CrashChoices {
    CrashChoices {
        creation: false,
        length: false,
        bytes: vec![],
    }
}

#[test]
fn command_kind_preserves_byte_mapping() {
    const KINDS: [CommandKind; 10] = [
        CommandKind::Open,
        CommandKind::Replace,
        CommandKind::Lookup,
        CommandKind::Invalidate,
        CommandKind::Close,
        CommandKind::Crash,
        CommandKind::Detach,
        CommandKind::Reattach,
        CommandKind::Corrupt,
        CommandKind::MakePermanentlyUnavailable,
    ];

    for byte in u8::MIN..=u8::MAX {
        let kind = CommandKind::from_byte(byte);
        assert_eq!(kind, KINDS[usize::from(byte % 10)], "byte {byte}");
        assert_eq!(kind.operation_code(), byte % 10, "byte {byte}");
    }
}

#[test]
fn inputs_are_cut_in_a_seed_and_three_tapes() {
    let mut data = vec![1, 0, 0, 0, 0, 0, 0, 2];
    // The command tape: two commands are asked for, one is there.
    data.extend([2, 11, 6, 9, 1, 2, 7]);
    data.extend([20, 21, 22, 23, 24, 25, 26]);
    data.extend([30, 31, 32, 33, 34, 35, 36, 37]);
    let decoded = decode(&data);
    assert_eq!(decoded.seed, 0x0200_0000_0000_0001);
    assert_eq!(
        decoded.commands,
        vec![Command {
            kind: CommandKind::Replace,
            path: 2,
            identity: 9,
            argument: 0x0201,
            pattern: 7,
        }]
    );
    assert_eq!(decoded.schedule_tape, vec![20, 21, 22, 23, 24, 25, 26]);
    assert_eq!(decoded.media_tape, vec![30, 31, 32, 33, 34, 35, 36, 37]);

    let short = decode(&[5, 6]);
    assert_eq!(short.seed, 0x0605);
    assert!(short.commands.is_empty());
}

#[test]
fn the_oracle_accepts_only_admitted_records() {
    let command = Command {
        kind: CommandKind::Replace,
        path: 1,
        identity: 3,
        argument: 5,
        pattern: 250,
    };
    let mut state = HarnessState::new();
    assert_eq!(state.opened(3, true, None), Ok(()));
    let (rev, content, point) = state.take_record(command);
    assert_eq!(rev, revision(1, 250));
    assert_eq!(rev, vec![1, 0, 0, 0, 0, 0, 0, 0, 250]);
    assert_eq!(content, body(5, 250));
    assert_eq!(content, vec![250, 251, 252, 253, 254]);
    assert_eq!(point, 1);
    assert_eq!(state.looked_up(command, Some((rev.clone(), content.clone(), 1))), Ok(()));
    assert_eq!(
        state.looked_up(command, Some((rev.clone(), b"other".to_vec(), 1))),
        Err(Violation::FabricatedRecord)
    );
    assert_eq!(state.opened(3, true, Some(1)), Ok(()));
    assert_eq!(
        state.opened(3, true, Some(2)),
        Err(Violation::UnknownSequencePoint)
    );
    assert_eq!(
        state.opened(4, true, Some(1)),
        Err(Violation::UnknownSequencePoint)
    );
    state.push_state(CommandKind::Close, false);
    let events = state.into_events();
    assert_eq!(events.len(), 4);
    assert_eq!(
        events[1],
        DiskCacheEvent::Lookup {
            identity: 3,
            path: 1,
            record_digest: Some(digest_record(&rev, &content, 1)),
        }
    );
    assert_eq!(
        events[3],
        DiskCacheEvent::State {
            operation: 4,
            enabled: false,
        }
    );
}

#[test]
fn digests_tell_records_apart() {
    assert_ne!(digest_record(b"ab", b"c", 1), digest_record(b"a", b"bc", 1));
    assert_ne!(digest_record(b"a", b"b", 1), digest_record(b"a", b"b", 2));
    assert_eq!(path(3), "db/object-3");
}

#[test]
fn damage_stays_inside_the_container() {
    let command = Command {
        kind: CommandKind::Corrupt,
        path: 2,
        identity: 0,
        argument: 10,
        pattern: 4,
    };
    assert_eq!(damage(command, 0), None);
    assert_eq!(damage(command, 100), Some((2572 % 100, 5)));
}

#[test]
fn sync_data_does_not_make_creation_durable() {
    let mut media = SimMedia::new();
    let file = media.open_exclusive().unwrap();
    media.set_len(file, 4).unwrap();
    media.write_all_at(file, 0, b"body", None).unwrap();
    media.sync(file, false).unwrap();
    media.close(file);

    media.crash(&nothing_survives());

    assert_eq!(media.durable_bytes(), None);
}

#[test]
fn sync_all_preserves_bytes_across_crash() {
    let mut media = SimMedia::new();
    let file = media.open_exclusive().unwrap();
    media.set_len(file, 4).unwrap();
    media.write_all_at(file, 0, b"body", None).unwrap();
    media.sync(file, true).unwrap();
    media.close(file);

    media.crash(&nothing_survives());
    assert_eq!(media.durable_bytes().unwrap(), b"body");
    let reopened = media.open_exclusive().unwrap();
    assert_eq!(media.read_exact_at(reopened, 0, 4).unwrap(), b"body");
    assert_eq!(media.out_of_bounds_accesses(), 0);
}

#[test]
fn crash_can_preserve_bytes_independently_after_sync() {
    let mut media = SimMedia::new();
    let file = media.open_exclusive().unwrap();
    media.set_len(file, 4).unwrap();
    media.write_all_at(file, 0, b"old!", None).unwrap();
    media.sync(file, true).unwrap();
    media.write_all_at(file, 0, b"new!", None).unwrap();
    media.close(file);

    media.crash(&CrashChoices {
        creation: true,
        length: true,
        bytes: vec![true, false, true, false],
    });
    let reopened = media.open_exclusive().unwrap();
    assert_eq!(media.read_exact_at(reopened, 0, 4).unwrap(), b"nlw!");
}

#[test]
fn detach_invalidates_handles_after_reattach() {
    let mut media = SimMedia::new();
    let file = media.open_exclusive().unwrap();
    media.detach(&nothing_survives());
    assert_eq!(media.check_available(Some(file)), Err(MediaError::Detached));
    media.reattach();
    assert_eq!(media.check_available(Some(file)), Err(MediaError::StaleHandle));
    assert_eq!(media.len(file), Err(MediaError::StaleHandle));
    assert!(media.open_exclusive().is_ok());
}

#[test]
fn corruption_and_permanent_failure_are_independent_controls() {
    let mut media = SimMedia::new();
    let file = media.open_exclusive().unwrap();
    media.set_len(file, 4).unwrap();
    media.write_all_at(file, 0, b"body", None).unwrap();
    media.sync(file, true).unwrap();
    media.close(file);

    assert!(media.corrupt(1, 0xff));
    assert!(!media.corrupt(4, 0xff));
    media.crash(&nothing_survives());
    let reopened = media.open_exclusive().unwrap();
    let body = media.read_exact_at(reopened, 0, 4).unwrap();
    assert_eq!(body, [b'b', b'o' ^ 0xff, b'd', b'y']);
    media.close(reopened);

    media.make_permanently_unavailable(&nothing_survives());
    media.reattach();
    assert_eq!(
        media.check_available(None),
        Err(MediaError::PermanentlyUnavailable)
    );
    assert_eq!(media.open_exclusive(), Err(MediaError::PermanentlyUnavailable));
}

fn open(profile: MediaFaultProfile, tape: Vec<u8>) -> SimFile {
    match SimFile::open(SimMedia::new(), profile, tape) {
        Ok(file) => file,
        Err((_, error)) => panic!("{}", error.message()),
    }
}

#[test]
fn full_profile_can_fail_after_a_partial_write() {
    let mut file = open(MediaFaultProfile::Full, vec![0, 0, 248, 0, 0]);
    file.set_len(4).unwrap();
    assert_eq!(file.write_all_at(b"body", 0), Err(MediaError::PartialWrite));
    let actual = file.read_exact_at(0, 4).unwrap();

    assert_eq!(actual[0], b'b');
    assert_ne!(actual, b"body");
    assert_eq!(actual, b"b\0\0\0");
    assert!(file.rest().is_empty());
}

#[test]
fn selected_profile_can_fail_without_an_effect() {
    let mut file = open(MediaFaultProfile::Selected, vec![0, 0, 255, 0]);
    file.set_len(4).unwrap();
    assert_eq!(file.write_all_at(b"body", 0), Err(MediaError::Injected));
    assert_eq!(file.read_exact_at(0, 4).unwrap(), [0; 4]);
}

#[test]
fn a_pending_operation_ends_with_the_media() {
    let mut file = open(MediaFaultProfile::Full, vec![0, 0, 252]);
    file.set_len(4).unwrap();
    assert_eq!(file.len(), Err(MediaError::Pending));
    file.medium_mut().detach(&nothing_survives());
    assert_eq!(file.len(), Err(MediaError::Detached));
}

#[test]
fn a_healthy_media_takes_no_decisions() {
    let mut file = open(MediaFaultProfile::Healthy, vec![255, 255]);
    file.set_len(4).unwrap();
    assert_eq!(file.len(), Ok(4));
    assert_eq!(file.rest(), [255, 255]);
    // A delayed operation takes the length of its delay from the tape.
    let mut file = open(MediaFaultProfile::Selected, vec![0, 240, 7, 1]);
    file.set_len(4).unwrap();
    assert_eq!(file.rest(), [1]);
    // A failing media does not even open.
    match SimFile::open(SimMedia::new(), MediaFaultProfile::Selected, vec![255]) {
        Err((_, error)) => assert_eq!(error, MediaError::Injected),
        Ok(_) => panic!("a failing media opened"),
    }
}

#[test]
fn selected_profile_fates_by_decision() {
    let selected = MediaFaultProfile::Selected;
    assert_eq!(selected.decide(255, true), OperationFate::Fail);
    assert_eq!(selected.decide(247, false), OperationFate::Delay);
    assert_eq!(selected.decide(239, false), OperationFate::Complete);
    assert_eq!(
        MediaFaultProfile::Healthy.decide(255, true),
        OperationFate::Complete
    );
}

#[test]
fn full_profile_fates_by_decision() {
    let full = MediaFaultProfile::Full;
    assert_eq!(full.decide(223, false), OperationFate::Complete);
    assert_eq!(full.decide(239, false), OperationFate::Delay);
    assert_eq!(full.decide(247, false), OperationFate::Fail);
    assert_eq!(full.decide(251, false), OperationFate::Fail);
    assert_eq!(full.decide(250, true), OperationFate::Partial);
    assert_eq!(full.decide(252, true), OperationFate::Pending);
}

#[test]
fn accesses_past_the_end_are_counted() {
    let mut media = SimMedia::new();
    let file = media.open_exclusive().unwrap();
    media.set_len(file, 4).unwrap();
    assert_eq!(media.read_exact_at(file, 2, 3), Err(MediaError::OutOfBounds));
    assert_eq!(
        media.write_all_at(file, 4, b"x", None),
        Err(MediaError::OutOfBounds)
    );
    assert_eq!(media.allocate(file, 5), Err(MediaError::OutOfBounds));
    assert_eq!(media.out_of_bounds_accesses(), 3);
    assert_eq!(media.open_exclusive(), Err(MediaError::Locked));
    media.close(file);
    assert!(media.open_exclusive().is_ok());
}
