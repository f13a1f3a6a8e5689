use storkitty::chunk::{chunk_file_name, hash_chunk, parse_chunk_index, ChunkSet};
use storkitty::number::{format_index, parse_index};
use storkitty::upload::{assemble, Assembly};

fn names(list: &[&str]) -> Vec<String> {
    list.iter().map(|s| s.to_string()).collect()
}

#[test]
fn hash_is_sha256_in_lower_case_hex() {
    assert_eq!(
        hash_chunk(b"hello world"),
        "b94d27b9934d3e08a52e52d7da7dabfac484efe37a5380ee9088f7ace2efcde9"
    );
    assert_eq!(
        hash_chunk(b""),
        "e3b0c44298fc1c149afbf4c8996fb92427ae41e4649b934ca495991b7852b855"
    );
    assert_eq!(
        hash_chunk(b"abc"),
        "ba7816bf8f01cfea414140de5dae2223b00361a396177a9cb410ff61f20015ad"
    );
}

#[test]
fn hash_depends_on_the_bytes_alone() {
    assert_eq!(hash_chunk(&[1, 2, 3]), hash_chunk(&[1, 2, 3]));
    assert_ne!(hash_chunk(&[1, 2, 3]), hash_chunk(&[1, 2, 4]));
    assert_eq!(hash_chunk(&[0u8; 1000]).len(), 64);
}

#[test]
fn chunk_file_is_named_by_index_and_hash() {
    assert_eq!(chunk_file_name(0, "abc"), "0_abc");
    assert_eq!(chunk_file_name(12, "ff00"), "12_ff00");
    assert_eq!(
        chunk_file_name(7, &hash_chunk(b"hello world")),
        "7_b94d27b9934d3e08a52e52d7da7dabfac484efe37a5380ee9088f7ace2efcde9"
    );
    assert_eq!(chunk_file_name(usize::MAX, "x"), format!("{}_x", usize::MAX));
}

#[test]
fn index_is_read_back_from_the_name() {
    for index in [0usize, 1, 9, 10, 99, 100, 12345, usize::MAX] {
        let name = chunk_file_name(index, &hash_chunk(&[index as u8]));
        assert_eq!(parse_chunk_index(&name), Some(index));
    }
}

#[test]
fn index_stands_before_the_first_underscore() {
    assert_eq!(parse_chunk_index("3_abc"), Some(3));
    assert_eq!(parse_chunk_index("3_a_b_c"), Some(3));
    assert_eq!(parse_chunk_index("3_"), Some(3));
    assert_eq!(parse_chunk_index("03_abc"), Some(3));
    assert_eq!(parse_chunk_index("+3_abc"), Some(3));
    assert_eq!(parse_chunk_index("3"), None);
    assert_eq!(parse_chunk_index(""), None);
    assert_eq!(parse_chunk_index("_abc"), None);
    assert_eq!(parse_chunk_index("+_abc"), None);
    assert_eq!(parse_chunk_index("-3_abc"), None);
    assert_eq!(parse_chunk_index("3 _abc"), None);
    assert_eq!(parse_chunk_index(" 3_abc"), None);
    assert_eq!(parse_chunk_index("x3_abc"), None);
    assert_eq!(parse_chunk_index("3x_abc"), None);
    assert_eq!(parse_chunk_index("\u{663}_abc"), None);
    assert_eq!(parse_chunk_index("99999999999999999999999999_abc"), None);
}

#[test]
fn numbers_are_written_and_read_in_decimal() {
    assert_eq!(format_index(0), "0");
    assert_eq!(format_index(7), "7");
    assert_eq!(format_index(10), "10");
    assert_eq!(format_index(1234567890), "1234567890");
    assert_eq!(format_index(usize::MAX), usize::MAX.to_string());
    assert_eq!(parse_index("0"), Some(0));
    assert_eq!(parse_index("42"), Some(42));
    assert_eq!(parse_index("+42"), Some(42));
    assert_eq!(parse_index("0042"), Some(42));
    assert_eq!(parse_index(&usize::MAX.to_string()), Some(usize::MAX));
    assert_eq!(parse_index(&format!("{}0", usize::MAX)), None);
    assert_eq!(parse_index("18446744073709551616"), "18446744073709551616".parse::<usize>().ok());
    for text in ["", "+", "-1", "++1", "1+", "1.5", "1e3", " 1", "1 ", "0x10", "1_000", "abc"] {
        assert_eq!(parse_index(text), None, "{}", text);
        assert_eq!(parse_index(text), text.parse::<usize>().ok(), "{}", text);
    }
}

#[test]
fn listing_is_enumerated_below_the_total() {
    let listing = names(&["2_c", "0_a", "junk", "7_h", "1_b", ".hidden", "x_1"]);
    let set = ChunkSet::enumerate(&listing, 3);
    assert_eq!(set.total(), 3);
    assert_eq!(set.present(), 3);
    assert_eq!(set.get(0), Some(&"0_a".to_string()));
    assert_eq!(set.get(1), Some(&"1_b".to_string()));
    assert_eq!(set.get(2), Some(&"2_c".to_string()));
    assert_eq!(set.get(7), None);
    assert!(set.is_complete());
    assert_eq!(set.merge_order(), Some(names(&["0_a", "1_b", "2_c"])));
}

#[test]
fn missing_index_leaves_the_set_incomplete() {
    let listing = names(&["1_b", "0_a"]);
    let set = ChunkSet::enumerate(&listing, 3);
    assert_eq!(set.present(), 2);
    assert!(!set.is_complete());
    assert_eq!(set.merge_order(), None);
    assert_eq!(set.get(2), None);
    let set = ChunkSet::enumerate(&names(&["0_a", "2_c", "3_d"]), 3);
    assert_eq!(set.present(), 2);
    assert!(!set.is_complete());
}

#[test]
fn later_name_of_an_index_counts() {
    let set = ChunkSet::enumerate(&names(&["0_old", "1_b", "0_new"]), 2);
    assert_eq!(set.present(), 2);
    assert_eq!(set.merge_order(), Some(names(&["0_new", "1_b"])));
    let set = ChunkSet::enumerate(&names(&["0_new", "1_b", "00_old"]), 2);
    assert_eq!(set.merge_order(), Some(names(&["00_old", "1_b"])));
}

#[test]
fn empty_upload_is_complete_at_once() {
    let set = ChunkSet::enumerate(&names(&["0_a"]), 0);
    assert_eq!(set.present(), 0);
    assert!(set.is_complete());
    assert_eq!(set.merge_order(), Some(Vec::<String>::new()));
    let set = ChunkSet::enumerate(&Vec::new(), 1);
    assert!(!set.is_complete());
}

#[test]
fn huge_total_needs_no_memory() {
    let set = ChunkSet::enumerate(&names(&["0_a", "999999999999_z"]), usize::MAX);
    assert_eq!(set.present(), 2);
    assert!(!set.is_complete());
    assert_eq!(set.get(999999999999), Some(&"999999999999_z".to_string()));
}

#[test]
fn merge_order_ignores_the_order_of_the_listing() {
    let expected = names(&["0_a", "1_b", "2_c", "3_d"]);
    let orders: [[&str; 4]; 5] = [
        ["0_a", "1_b", "2_c", "3_d"],
        ["3_d", "2_c", "1_b", "0_a"],
        ["2_c", "0_a", "3_d", "1_b"],
        ["1_b", "3_d", "0_a", "2_c"],
        ["3_d", "0_a", "1_b", "2_c"],
    ];
    for order in orders {
        match assemble(&names(&order), 4) {
            Assembly::Merge { order } => assert_eq!(order, expected),
            Assembly::Receiving => panic!("complete listing was not merged"),
        }
    }
}

#[test]
fn assemble_waits_for_every_chunk() {
    assert!(matches!(assemble(&names(&["0_a", "1_b"]), 3), Assembly::Receiving));
    assert!(matches!(assemble(&names(&[]), 1), Assembly::Receiving));
    assert!(matches!(assemble(&names(&["1_b", "2_c", "3_d"]), 3), Assembly::Receiving));
    // Ten and more chunks are ordered by number, not as text.
    let listing: Vec<String> = (0..12).rev().map(|i| format!("{}_h{}", i, i)).collect();
    let expected: Vec<String> = (0..12).map(|i| format!("{}_h{}", i, i)).collect();
    match assemble(&listing, 12) {
        Assembly::Merge { order } => assert_eq!(order, expected),
        Assembly::Receiving => panic!("complete listing was not merged"),
    }
}
