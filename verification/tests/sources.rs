use cold_state::clickhouse_source::{
    accounts_of_rows, slots_of_rows, AccountDiffRow, RowError, StorageDiffRow,
};
use cold_state::file_source::{FileDiff, FileLine, FileSource};
use cold_state::key_order::{is_key_before, seek};
use cold_state::nibble_map::NibbleMap;
use cold_state::nibbles::{
    hex_string, nibbles_hex, pack_seek_key, parse_nibbles_hex, Nibbles, WalkOrder,
};
use cold_state::periods::{compute_period, AccountDiff, StorageDiff};
use cold_state::text::decimal;

fn hex_array<const N: usize>(value: &serde_json::Value) -> Option<[u8; N]> {
    let text = value.as_str()?;
    let bytes = alloy_primitives::hex::decode(text).ok()?;
    bytes.try_into().ok()
}

/// A line as the reader of a file makes it.
fn parse(line: &str) -> FileLine {
    if line.is_empty() {
        return FileLine::Empty;
    }
    let record = || -> Option<FileDiff> {
        let value: serde_json::Value = serde_json::from_str(line).ok()?;
        Some(FileDiff {
            kind: value.get("kind")?.as_str()?.to_string(),
            block: value.get("block")?.as_u64()?,
            address: hex_array(value.get("address")?)?,
            slot: value.get("slot").and_then(hex_array),
        })
    };
    match record() {
        Some(diff) => FileLine::Record(diff),
        None => FileLine::Malformed,
    }
}

fn lines(text: &str) -> Vec<FileLine> {
    text.lines().map(parse).collect()
}

#[test]
fn test_file_source_roundtrip() {
    let alice = alloy_primitives::Address::from([0xaa; 20]);
    let slot1 = alloy_primitives::B256::from([0x01; 32]);
    let text = format!(
        "{{\"kind\":\"account\",\"block\":12,\"address\":\"{alice}\"}}\n\
         {{\"kind\":\"storage\",\"block\":33,\"address\":\"{alice}\",\"slot\":\"{slot1}\"}}\n"
    );
    let diffs = FileSource::read_lines(&lines(&text), 0, 50).unwrap();
    let accounts = FileSource::account_diffs(&diffs);
    assert_eq!(accounts, vec![AccountDiff { address: [0xaa; 20], block: 12 }]);

    let storage = FileSource::storage_diffs(&diffs);
    assert_eq!(
        storage,
        vec![StorageDiff { address: [0xaa; 20], slot: [0x01; 32], block: 33 }]
    );
}

#[test]
fn test_file_source_block_range_filter() {
    let alice = alloy_primitives::Address::from([0xaa; 20]);
    let text = format!(
        "{{\"kind\":\"account\",\"block\":5,\"address\":\"{alice}\"}}\n\
         {{\"kind\":\"account\",\"block\":99,\"address\":\"{alice}\"}}\n"
    );
    let diffs = FileSource::read_lines(&lines(&text), 10, 20).unwrap();
    assert!(FileSource::account_diffs(&diffs).is_empty());
}

#[test]
fn ends_of_a_range_belong_to_it() {
    let alice = alloy_primitives::Address::from([0xaa; 20]);
    let record = |block: u64| {
        format!("{{\"kind\":\"account\",\"block\":{block},\"address\":\"{alice}\"}}\n")
    };
    let text: String = [0, 4, 5, 99, 100].iter().map(|block| record(*block)).collect();
    let blocks = |start, end| -> Vec<u64> {
        let diffs = FileSource::read_lines(&lines(&text), start, end).unwrap();
        FileSource::account_diffs(&diffs).iter().map(|diff| diff.block).collect()
    };
    assert_eq!(blocks(5, 99), vec![5, 99]);
    assert_eq!(blocks(0, 0), vec![0]);
    assert_eq!(blocks(5, 0), Vec::<u64>::new());
}

#[test]
fn malformed_lines_are_named() {
    let address = alloy_primitives::Address::from([0xaa; 20]);
    let good = format!("{{\"kind\":\"storage\",\"block\":5,\"address\":\"{address}\"}}");
    let text = format!("{good}\n\nnot a record\n{good}\nnor this\n");
    assert_eq!(FileSource::read_lines(&lines(&text), 0, 9), Err(3));
    let diffs = FileSource::read_lines(&lines(&good), 0, 9).unwrap();
    assert_eq!(diffs.len(), 1);
    assert!(FileSource::storage_diffs(&diffs).is_empty(), "a storage record needs a slot");
    assert!(FileSource::account_diffs(&diffs).is_empty());
    assert_eq!(FileSource::new("a/b".to_string()).path(), "a/b");
}

#[test]
fn rows_parse_in_order() {
    let addr = "0x00000000000000000000000000000000000000Ff".to_string();
    let slot_key = format!("{:064x}", 0xabc);
    let mut address = [0u8; 20];
    address[19] = 0xff;
    let mut slot = [0u8; 32];
    slot[30] = 0x0a;
    slot[31] = 0xbc;
    let rows = [AccountDiffRow { addr: addr.clone(), block: 4 }];
    assert_eq!(accounts_of_rows(&rows), Ok(vec![AccountDiff { address, block: 4 }]));
    let rows = [StorageDiffRow { addr: addr.clone(), slot_key: slot_key.clone(), block: 9 }];
    assert_eq!(slots_of_rows(&rows), Ok(vec![StorageDiff { address, slot, block: 9 }]));

    let bad = [
        AccountDiffRow { addr: addr.clone(), block: 1 },
        AccountDiffRow { addr: "0x12".to_string(), block: 1 },
    ];
    assert_eq!(accounts_of_rows(&bad), Err(RowError::BadAddress(1)));
    let bad = [StorageDiffRow { addr: addr.clone(), slot_key: "0xzz".to_string(), block: 1 }];
    assert_eq!(slots_of_rows(&bad), Err(RowError::BadSlot(0)));
    let bad = [StorageDiffRow { addr: "".to_string(), slot_key: "".to_string(), block: 1 }];
    assert_eq!(slots_of_rows(&bad), Err(RowError::BadAddress(0)));
}

#[test]
fn address_texts_with_and_without_prefix() {
    let digits = "00112233445566778899aabbccddeeff00112233";
    for text in [digits.to_string(), format!("0x{digits}"), format!("0X{digits}")] {
        let rows = [AccountDiffRow { addr: text.clone(), block: 0 }];
        let by_crate = text.parse::<alloy_primitives::Address>().ok().map(|a| a.into_array());
        let ours = accounts_of_rows(&rows).ok().map(|diffs| diffs[0].address);
        assert_eq!(ours, by_crate, "{text}");
        assert_eq!(ours.map(|a| a[1]), Some(0x11), "{text}");
    }
    for text in ["0x0x112233445566778899aabbccddeeff00112233", "00112233445566778899aabbccddeeff0011223"] {
        let rows = [AccountDiffRow { addr: text.to_string(), block: 0 }];
        assert_eq!(accounts_of_rows(&rows), Err(RowError::BadAddress(0)), "{text}");
    }
}

#[test]
fn paths_as_text() {
    let path = Nibbles::from_nibbles(&[0, 10, 15]);
    assert_eq!(nibbles_hex(&path), "0af");
    assert_eq!(parse_nibbles_hex("0aF"), path);
    assert_eq!(hex_string(&[1; 70]).len(), 70);
    let key = pack_seek_key(&path);
    assert_eq!(&key[..3], &[0x0a, 0xf0, 0]);
    assert_eq!(Nibbles::unpack(&key).len(), 64);
    assert_eq!(decimal(0), "0");
    assert_eq!(decimal(u64::MAX), "18446744073709551615");
}

#[test]
fn paths_have_one_post_order() {
    let paths: [&[u8]; 5] = [&[0, 1], &[0], &[1, 0, 0], &[1, 15], &[]];
    for (i, a) in paths.iter().enumerate() {
        for (j, b) in paths.iter().enumerate() {
            let order = Nibbles::from_nibbles(a).depth_first_order(&Nibbles::from_nibbles(b));
            let expected = match i.cmp(&j) {
                std::cmp::Ordering::Less => WalkOrder::Before,
                std::cmp::Ordering::Equal => WalkOrder::Same,
                std::cmp::Ordering::Greater => WalkOrder::After,
            };
            assert_eq!(order, expected);
        }
    }
}

#[test]
fn keys_are_ordered_by_their_bytes() {
    let keys = [[1u8; 32], [2; 32], [4; 32]];
    assert!(is_key_before(&keys[0], &keys[1]));
    assert!(!is_key_before(&keys[1], &keys[0]));
    assert!(!is_key_before(&keys[1], &keys[1]));
    assert_eq!(seek(&keys, &[0; 32]), 0);
    assert_eq!(seek(&keys, &[2; 32]), 1);
    assert_eq!(seek(&keys, &[3; 32]), 2);
    assert_eq!(seek(&keys, &[5; 32]), 3);
}

#[test]
fn nibble_maps_keep_the_last_value() {
    let mut map = NibbleMap::new();
    map.insert(&[1, 2], 7u32);
    map.insert(&[1], 8);
    map.insert(&[1, 2], 9);
    assert_eq!(map.get(&[1, 2]), Some(&9));
    assert_eq!(map.get(&[1]), Some(&8));
    assert_eq!(map.get(&[]), None);
}

#[test]
fn later_blocks_are_in_later_periods() {
    let mut last = 0;
    for block in 0..500 {
        let period = compute_period(block, 37, 10);
        assert!(last <= period);
        last = period;
    }
    assert_eq!(last, 46);
}
