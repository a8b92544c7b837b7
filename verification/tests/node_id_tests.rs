use raft_storage::node_id::{hash, network_name_to_num, num_to_network_name};

#[test]
fn parses_hex_names_of_either_case() {
    assert_eq!(network_name_to_num("0000"), 0);
    assert_eq!(network_name_to_num("002A"), 42);
    assert_eq!(network_name_to_num("002a"), 42);
    assert_eq!(network_name_to_num("1a2B"), 0x1a2b);
    assert_eq!(network_name_to_num("FFFF"), 0xffff);
    assert_eq!(network_name_to_num("ffffffff"), u32::MAX);
}

#[test]
fn formats_names_zero_padded_upper_case() {
    assert_eq!(num_to_network_name(0), "0000");
    assert_eq!(num_to_network_name(42), "002A");
    assert_eq!(num_to_network_name(0xffff), "FFFF");
    assert_eq!(num_to_network_name(0x12345), "12345");
    assert_eq!(num_to_network_name(u32::MAX), "FFFFFFFF");
}

#[test]
fn name_round_trip() {
    for n in [0u32, 1, 15, 16, 255, 4660, 0xffff, 0x10000, u32::MAX] {
        assert_eq!(network_name_to_num(&num_to_network_name(n)), n);
    }
}

#[test]
fn hash_is_deterministic() {
    let a = hash("msg-123");
    let b = hash(&"msg-123".to_string());
    assert_eq!(a, b);
    let c = hash("msg-124");
    // Distinct ids should essentially never collide on this input set.
    assert_ne!(a, c);
}
