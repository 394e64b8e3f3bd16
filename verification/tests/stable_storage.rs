use assignment_1_solution::bytes::{u128_from_be_bytes, u128_to_be_bytes};
use assignment_1_solution::file_layout::{key_to_path, plan_get, plan_put, staging_dir, transform_key};
use assignment_1_solution::schema::{retrieve_schema, store_schema};
use assignment_1_solution::{RamStorage, StableStorage};

#[test]
fn ram_storage_retrieves_inserted_key() {
    // given
    let mut storage = RamStorage::new();

    // when
    let before_insertion = storage.get("key");
    storage.put("key", vec![1 as u8, 2, 3].as_slice()).unwrap();

    // then
    assert_eq!(storage.get("key").unwrap(), vec![1 as u8, 2, 3]);
    assert_eq!(before_insertion, None);
}

#[test]
fn ram_storage_put_replaces_value_and_keeps_others() {
    let mut storage = RamStorage::default();
    storage.put("a", &[1]).unwrap();
    storage.put("b", &[2]).unwrap();
    storage.put("a", &[3, 4]).unwrap();
    assert_eq!(storage.get("a"), Some(vec![3, 4]));
    assert_eq!(storage.get("b"), Some(vec![2]));
    assert_eq!(storage.get("c"), None);
}

#[test]
fn transform_key_frames_and_cuts_in_the_middle() {
    assert_eq!(transform_key("key"), "!k/ey!");
    assert_eq!(transform_key(""), "!/!");
    assert_eq!(transform_key("abcd"), "!ab/cd!");
}

#[test]
fn key_to_path_splits_on_slashes() {
    assert_eq!(key_to_path("!ab/cd!"), vec!["!ab".to_string(), "cd!".to_string()]);
    assert_eq!(key_to_path("a//b"), vec!["a".to_string(), "".to_string(), "b".to_string()]);
    assert_eq!(key_to_path(""), vec!["".to_string()]);
}

#[test]
fn plan_put_refuses_long_keys_and_values() {
    let long_key = "k".repeat(256);
    let err = plan_put(&long_key, 1).err().unwrap();
    assert_eq!(err, "Too long name or too long content.");
    assert!(plan_put("key", 65537).is_err());
    assert!(plan_put(&"k".repeat(255), 65536).is_ok());
}

#[test]
fn keys_whose_path_would_collapse_are_refused() {
    assert!(plan_put("x", 1).is_ok());
    assert_eq!(plan_put("/x", 1).err().unwrap(), "Key cannot be kept in files.");
    assert_eq!(plan_get("/x"), None);
    assert!(plan_put("aaaaaaaaaa/./b", 1).is_err());
    assert!(plan_put("aaaaaaaaaa/../b", 1).is_err());
    assert!(plan_put("aaaaaaaaaa/file/b", 1).is_err());
    assert_eq!(plan_get("aaaaaaaaaa/file/b"), None);
    assert!(plan_put("aaaaaaaaaa/files/b", 1).is_ok());
}

#[test]
fn plan_put_writes_under_staging_then_moves() {
    let plan = plan_put("key", 3).ok().unwrap();
    assert_eq!(staging_dir(), "not_yet_inserted");
    assert_eq!(plan.final_dir, vec!["!k".to_string(), "ey!".to_string()]);
    assert_eq!(plan.final_file, vec!["!k".to_string(), "ey!".to_string(), "file".to_string()]);
    assert_eq!(
        plan.temp_dir,
        vec!["not_yet_inserted".to_string(), "!k".to_string(), "ey!".to_string()]
    );
    assert_eq!(
        plan.temp_file,
        vec!["not_yet_inserted".to_string(), "!k".to_string(), "ey!".to_string(), "file".to_string()]
    );
}

#[test]
fn plan_get_finds_the_file_of_a_key() {
    assert_eq!(
        plan_get("key"),
        Some(vec!["!k".to_string(), "ey!".to_string(), "file".to_string()])
    );
    assert_eq!(plan_get(&"k".repeat(256)), None);
}

#[test]
fn schema_is_stored_in_numbered_chunks_and_read_back() {
    let mut storage = RamStorage::new();
    let data: Vec<u8> = (0..150000u32).map(|i| (i % 251) as u8).collect();
    store_schema(&mut storage, data.clone(), "s").unwrap();
    assert_eq!(storage.get("s0").unwrap().len(), 65536);
    assert_eq!(storage.get("s1").unwrap().len(), 65536);
    assert_eq!(storage.get("s2").unwrap().len(), 150000 - 2 * 65536);
    assert_eq!(storage.get("s3"), None);
    assert_eq!(retrieve_schema(&storage, "s"), data);
}

#[test]
fn empty_schema_is_one_empty_chunk() {
    let mut storage = RamStorage::new();
    store_schema(&mut storage, Vec::new(), "empty").unwrap();
    assert_eq!(storage.get("empty0"), Some(Vec::new()));
    assert_eq!(retrieve_schema(&storage, "empty"), Vec::<u8>::new());
    assert_eq!(retrieve_schema(&storage, "missing"), Vec::<u8>::new());
}

#[test]
fn chunks_left_by_a_longer_schema_are_not_read() {
    let mut storage = RamStorage::new();
    store_schema(&mut storage, vec![7u8; 65537], "s").unwrap();
    store_schema(&mut storage, vec![1u8, 2], "s").unwrap();
    assert_eq!(retrieve_schema(&storage, "s"), vec![1u8, 2]);
}

#[test]
fn full_last_chunk_is_followed_by_an_empty_one() {
    let mut storage = RamStorage::new();
    store_schema(&mut storage, vec![3u8; 2 * 65536 + 5], "s").unwrap();
    let data = vec![9u8; 65536];
    store_schema(&mut storage, data.clone(), "s").unwrap();
    assert_eq!(storage.get("s0").unwrap().len(), 65536);
    assert_eq!(storage.get("s1"), Some(Vec::new()));
    assert_eq!(retrieve_schema(&storage, "s"), data);
}

#[test]
fn distinct_keys_get_distinct_files() {
    assert_eq!(transform_key("a/b"), "!a//b!");
    assert_eq!(transform_key("ab/"), "!a/b/!");
    assert_ne!(plan_get("a/b"), plan_get("ab/"));
    assert_ne!(plan_get("ab"), plan_get("ba"));
}

#[test]
fn chunk_numbers_go_past_one_digit() {
    let mut storage = RamStorage::new();
    let data: Vec<u8> = (0..(10 * 65536 + 1) as u32).map(|i| (i % 7) as u8).collect();
    store_schema(&mut storage, data.clone(), "s").unwrap();
    assert_eq!(storage.get("s9").unwrap().len(), 65536);
    assert_eq!(storage.get("s10"), Some(vec![data[10 * 65536]]));
    assert_eq!(storage.get("s11"), None);
    assert_eq!(retrieve_schema(&storage, "s"), data);
}

#[test]
fn number_bytes_match_the_standard_library() {
    for n in [0u128, 1, 255, 256, 511, 0x0102030405060708090a0b0c0d0e0f10, u128::MAX] {
        assert_eq!(u128_to_be_bytes(n), n.to_be_bytes());
        assert_eq!(u128_from_be_bytes(n.to_be_bytes()), n);
    }
}
