use raft_storage::state_machine::{KvStateMachine, SetValueCommand};
use raft_storage::storage::{LogEntry, LogEntryType, RamStorage};

fn kv(pairs: &[(&str, &str)]) -> KvStateMachine {
    KvStateMachine(
        pairs
            .iter()
            .map(|(k, v)| (k.to_string(), v.to_string()))
            .collect(),
    )
}

fn command_entry(term: u32, tag: &str) -> LogEntry {
    LogEntry {
        term,
        entry_type: LogEntryType::Command(SetValueCommand {
            key: tag.to_string(),
            value: tag.to_string(),
            mid: tag.to_string(),
        }),
    }
}

fn entry_tag(e: &LogEntry) -> &str {
    match &e.entry_type {
        LogEntryType::Command(c) => &c.key,
        LogEntryType::Config(_) => "config",
    }
}

fn empty_storage() -> RamStorage {
    RamStorage::new(kv(&[]))
}

#[test]
fn snapshot_chunks() {
    let sm = kv(&[("hello", "goodbye"), ("blue", "red"), ("hot", "cold")]);
    let bytes = sm.write_bytes().unwrap();

    let mut storage = empty_storage();

    let chunk_size = 10;
    for i in 0..((bytes.len() / chunk_size) + 1) {
        let offset = i * chunk_size;
        let amt = chunk_size.min(bytes.len() - offset);
        storage.add_new_snapshot_chunk(offset as u32, &bytes[offset..(offset + amt)]);
    }

    let state = storage.try_use_chunks_as_new_snapshot(5, 5).unwrap();
    assert_eq!(state.0, sm.0);
    assert_eq!(storage.total_snapshot_bytes() as usize, bytes.len());
    assert_eq!(storage.snapshot_chunk(0, bytes.len() as u32), &bytes[..]);
    assert_eq!(storage.snapshot_last_index(), 5);
    assert_eq!(storage.snapshot_last_term(), 5);
}

#[test]
fn chunk_reassembly_is_order_independent() {
    let sm = kv(&[("hello", "goodbye"), ("blue", "red"), ("hot", "cold")]);
    let bytes = sm.write_bytes().unwrap();

    let chunk_size = 10;
    let mut chunks: Vec<(u32, &[u8])> = Vec::new();
    for i in 0..((bytes.len() / chunk_size) + 1) {
        let offset = i * chunk_size;
        let amt = chunk_size.min(bytes.len() - offset);
        chunks.push((offset as u32, &bytes[offset..(offset + amt)]));
    }

    let mut in_order = empty_storage();
    for (offset, data) in &chunks {
        in_order.add_new_snapshot_chunk(*offset, data);
    }
    let expected = in_order.try_use_chunks_as_new_snapshot(3, 2).unwrap();

    // The same chunks reversed, with overlapping duplicates thrown in.
    let mut shuffled = empty_storage();
    for (offset, data) in chunks.iter().rev() {
        shuffled.add_new_snapshot_chunk(*offset, data);
    }
    shuffled.add_new_snapshot_chunk(chunks[1].0, chunks[1].1);
    shuffled.add_new_snapshot_chunk(chunks[0].0, chunks[0].1);
    let state = shuffled.try_use_chunks_as_new_snapshot(3, 2).unwrap();

    assert_eq!(state.0, expected.0);
    assert_eq!(
        shuffled.snapshot_chunk(0, shuffled.total_snapshot_bytes()),
        in_order.snapshot_chunk(0, in_order.total_snapshot_bytes())
    );
}

#[test]
fn partial_transfer_never_finalizes() {
    let sm = kv(&[("ab", "c")]);
    let bytes = sm.write_bytes().unwrap();
    assert_eq!(bytes.len(), 15);

    // Strict prefixes cut near every length-field boundary: inside the pair
    // count, right after it, inside the key length, right after it, inside
    // the key, inside the value length, and right before the value's last
    // byte.
    for cut in [2usize, 4, 6, 8, 9, 11, 14] {
        let mut storage = empty_storage();
        storage.add_new_snapshot_chunk(0, &bytes[..cut]);
        assert!(storage.try_use_chunks_as_new_snapshot(1, 1).is_none());
        // The buffer is left untouched: the remaining bytes still finalize.
        storage.add_new_snapshot_chunk(cut as u32, &bytes[cut..]);
        let state = storage.try_use_chunks_as_new_snapshot(1, 1).unwrap();
        assert_eq!(state.0, sm.0);
    }
}

#[test]
fn finalize_on_empty_buffer_fails() {
    let mut storage = empty_storage();
    assert!(storage.try_use_chunks_as_new_snapshot(0, 0).is_none());
}

#[test]
fn chunk_gap_is_zero_filled() {
    // A chunk at offset 4 first: bytes [0, 4) are zero-filled, so the pair
    // count reads as zero and the completion heuristic accepts the buffer as
    // an empty mapping — the known cost of "decodes means complete" without a
    // checksum. Overwriting the gap with the real first chunk then yields the
    // full mapping.
    let sm = kv(&[("k", "v")]);
    let bytes = sm.write_bytes().unwrap();
    let mut storage = empty_storage();
    storage.add_new_snapshot_chunk(4, &bytes[4..]);
    let premature = storage.try_use_chunks_as_new_snapshot(1, 1).unwrap();
    assert!(premature.0.is_empty());

    let mut storage = empty_storage();
    storage.add_new_snapshot_chunk(4, &bytes[4..]);
    storage.add_new_snapshot_chunk(0, &bytes[..4]);
    let state = storage.try_use_chunks_as_new_snapshot(1, 1).unwrap();
    assert_eq!(state.0, sm.0);
}

#[test]
fn compaction_then_replication() {
    let mut storage = empty_storage();
    for i in 0..10u32 {
        storage.add_log_entry(command_entry(i, &format!("e{}", i)));
    }
    storage.set_snapshot(5, 5, &kv(&[("applied", "yes")]));
    storage.remove_log_entries_before(6);
    assert_eq!(storage.num_log_entries(), 4);
    assert_eq!(entry_tag(storage.log_entry(0).unwrap()), "e6");
    assert_eq!(storage.log_entry(0).unwrap().term, 6);
    assert!(storage.log_entry(4).is_none());
}

#[test]
fn conflicting_suffix_overwrite() {
    let mut storage = empty_storage();
    for i in 0..5u32 {
        storage.add_log_entry(command_entry(1, &format!("old{}", i)));
    }
    storage.remove_log_entries_starting_at(3);
    storage.add_log_entry(command_entry(2, "new0"));
    storage.add_log_entry(command_entry(2, "new1"));
    assert_eq!(storage.num_log_entries(), 5);
    assert_eq!(entry_tag(storage.log_entry(3).unwrap()), "new0");
    assert_eq!(entry_tag(storage.log_entry(4).unwrap()), "new1");
    assert_eq!(entry_tag(storage.log_entry(2).unwrap()), "old2");
}

#[test]
fn truncations_at_bounds_are_noops() {
    let mut storage = empty_storage();
    for i in 0..3u32 {
        storage.add_log_entry(command_entry(i, &format!("e{}", i)));
    }
    storage.remove_log_entries_before(0);
    assert_eq!(storage.num_log_entries(), 3);
    storage.remove_log_entries_starting_at(3);
    assert_eq!(storage.num_log_entries(), 3);
    storage.remove_log_entries_starting_at(17);
    assert_eq!(storage.num_log_entries(), 3);
    for i in 0..3usize {
        assert_eq!(entry_tag(storage.log_entry(i).unwrap()), &format!("e{}", i));
    }
}

#[test]
fn log_entries_slices_from_position() {
    let mut storage = empty_storage();
    for i in 0..4u32 {
        storage.add_log_entry(command_entry(i, &format!("e{}", i)));
    }
    let tail = storage.log_entries(2);
    assert_eq!(tail.len(), 2);
    assert_eq!(entry_tag(&tail[0]), "e2");
    assert_eq!(entry_tag(&tail[1]), "e3");
    assert_eq!(storage.log_entries(4).len(), 0);
}

#[test]
fn last_config_index_scans_backward() {
    let mut storage = empty_storage();
    assert!(storage.get_index_of_last_config_in_log().is_none());
    storage.add_log_entry(command_entry(0, "e0"));
    assert!(storage.get_index_of_last_config_in_log().is_none());
    storage.add_log_entry(LogEntry {
        term: 0,
        entry_type: LogEntryType::Config(vec![1, 2]),
    });
    storage.add_log_entry(command_entry(1, "e2"));
    storage.add_log_entry(LogEntry {
        term: 1,
        entry_type: LogEntryType::Config(vec![3]),
    });
    storage.add_log_entry(command_entry(1, "e4"));
    assert_eq!(storage.get_index_of_last_config_in_log(), Some(3));
    storage.remove_log_entries_starting_at(3);
    assert_eq!(storage.get_index_of_last_config_in_log(), Some(1));
    storage.remove_log_entries_before(2);
    assert!(storage.get_index_of_last_config_in_log().is_none());
}

#[test]
fn snapshot_falls_back_to_initial_state() {
    let init = kv(&[("boot", "strap")]);
    let storage = RamStorage::new(init);
    let state = storage.snapshot();
    assert_eq!(state.get(&"boot".to_string()).unwrap(), "strap");
    assert_eq!(storage.snapshot_last_index(), 0);
    assert_eq!(storage.snapshot_last_term(), 0);
    assert_eq!(storage.total_snapshot_bytes(), 0);
}

#[test]
fn set_snapshot_replaces_payload_and_metadata() {
    let mut storage = empty_storage();
    let sm = kv(&[("x", "1"), ("y", "2")]);
    storage.set_snapshot(7, 3, &sm);
    assert_eq!(storage.snapshot_last_index(), 7);
    assert_eq!(storage.snapshot_last_term(), 3);
    let back = storage.snapshot();
    assert_eq!(back.0, sm.0);
    let total = storage.total_snapshot_bytes();
    assert_eq!(total as usize, sm.write_bytes().unwrap().len());
    // Served chunks concatenate back to the encoded payload.
    let mut served = Vec::new();
    let mut off = 0u32;
    while off < total {
        let amt = 4u32.min(total - off);
        served.extend_from_slice(storage.snapshot_chunk(off, amt));
        off += amt;
    }
    assert_eq!(served, sm.write_bytes().unwrap());
}

#[test]
fn set_snapshot_checked_accepts_what_fits_the_wire() {
    let mut storage = empty_storage();
    let sm = kv(&[("a", "b")]);
    assert!(storage.set_snapshot_checked(1, 1, &sm));
    assert_eq!(storage.snapshot().0, sm.0);
    assert_eq!(storage.snapshot_last_index(), 1);
}

#[test]
fn term_and_vote_are_stored() {
    let mut storage = empty_storage();
    assert_eq!(storage.current_term(), 0);
    assert_eq!(storage.voted_for(), None);
    storage.set_current_term(8);
    storage.set_voted_for(Some(3));
    assert_eq!(storage.current_term(), 8);
    assert_eq!(storage.voted_for(), Some(3));
    storage.set_voted_for(None);
    assert_eq!(storage.voted_for(), None);
    storage.save_log();
    assert_eq!(storage.current_term(), 8);
}
