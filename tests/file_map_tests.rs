use portable_media_local::cache::ContentCache;
use portable_media_local::file_map::{Fetch, FileMap};
use portable_media_local::index::{build_index, EntryKind, IndexEntry, IndexError};
use portable_media_local::tree::{FileNode, ResolveError};
use std::sync::Arc;

const TEST_DIR_PATH: &str = "../test_dir";

fn entry(parent: usize, name: &str, kind: EntryKind) -> IndexEntry {
    IndexEntry { parent, name: name.to_string(), kind }
}

/// The listing of a root holding testfile1.txt (13 bytes), testfile2.mp4
/// and a directory test2 with one file inside.
fn test_dir_listing() -> Vec<IndexEntry> {
    vec![
        entry(0, "testfile1.txt", EntryKind::File { size: 13 }),
        entry(0, "testfile2.mp4", EntryKind::File { size: 2048 }),
        entry(0, "test2", EntryKind::Directory),
        entry(3, "inner.txt", EntryKind::File { size: 5 }),
    ]
}

fn child_names(map: &FileMap, node: &FileNode) -> Vec<String> {
    node.children
        .as_ref()
        .unwrap()
        .iter()
        .map(|&c| map.tree.node(c).name.clone())
        .collect()
}

fn cached_bytes(fetch: Result<Fetch, ResolveError>) -> Arc<Vec<u8>> {
    match fetch {
        Ok(Fetch::Cached(v)) => v,
        _ => panic!("expected a cache hit"),
    }
}

fn is_disk_read(fetch: &Result<Fetch, ResolveError>) -> bool {
    matches!(fetch, Ok(Fetch::ReadFromDisk { .. }))
}

#[test]
fn test_working_dir() {
    let file_map = FileMap::from_root_dir(TEST_DIR_PATH, &test_dir_listing()).unwrap();
    let head = file_map.tree.head();
    assert_eq!(head.name, "test_dir");
    assert_eq!(head.size, 0);
    assert!(head.children.is_some());
    let children = child_names(&file_map, head);
    assert_eq!(children.len(), 3); // test_dir has 3 children
    println!("Children: {:?}", children);
    assert!(children.contains(&"testfile1.txt".to_string()));
    assert!(children.contains(&"testfile2.mp4".to_string()));
    assert!(children.contains(&"test2".to_string()));
    assert_eq!(file_map.get_file_ref("").unwrap().name, head.name);
}

#[test]
fn test_file_reading() {
    let file_map = FileMap::from_root_dir(TEST_DIR_PATH, &test_dir_listing()).unwrap();
    let mut cache = ContentCache::with_default_capacity();
    let fetch = file_map.get_file(&mut cache, "testfile1.txt");
    let bytes = match fetch {
        Ok(Fetch::ReadFromDisk { disk_path, size_hint }) => {
            assert_eq!(disk_path, "../test_dir/testfile1.txt");
            assert_eq!(size_hint, 13);
            b"Hello, world!".to_vec()
        }
        _ => panic!("expected a disk read"),
    };
    let file = file_map.finish_read(&mut cache, "testfile1.txt", bytes);
    assert_eq!(file.len(), 13); // test_file.txt has 13 bytes
}

#[test]
fn top_level_children_count_files_and_dirs() {
    let listing = vec![
        entry(0, "a", EntryKind::File { size: 1 }),
        entry(0, "d1", EntryKind::Directory),
        entry(2, "nested", EntryKind::File { size: 2 }),
        entry(0, "b", EntryKind::File { size: 3 }),
        entry(0, "d2", EntryKind::Directory),
    ];
    let tree = build_index("root", &listing).unwrap();
    assert_eq!(tree.len(), 6);
    assert_eq!(tree.head().children.as_ref().unwrap(), &vec![1, 2, 4, 5]);
    assert_eq!(tree.node(2).children.as_ref().unwrap(), &vec![3]);
    assert!(tree.node(5).children.as_ref().unwrap().is_empty());
}

#[test]
fn leaf_size_is_indexed_length() {
    let map = FileMap::from_root_dir("/srv/media", &test_dir_listing()).unwrap();
    let leaf = map.get_file_ref("test2/inner.txt").unwrap();
    assert_eq!(leaf.name, "inner.txt");
    assert_eq!(leaf.size, 5);
    assert!(leaf.children.is_none());
    assert_eq!(map.get_file_ref("testfile2.mp4").unwrap().size, 2048);
    assert_eq!(map.get_file_ref("test2").unwrap().size, 0);
}

#[test]
fn root_name_is_last_path_segment() {
    let empty: Vec<IndexEntry> = Vec::new();
    assert_eq!(build_index("/a/b/media", &empty).unwrap().head().name, "media");
    assert_eq!(build_index("media", &empty).unwrap().head().name, "media");
    assert_eq!(build_index("media/", &empty).unwrap().head().name, "");
}

#[test]
fn nested_symlink_fails_whole_build() {
    let mut listing = test_dir_listing();
    listing.push(entry(3, "link", EntryKind::Symlink));
    assert!(matches!(
        FileMap::from_root_dir(TEST_DIR_PATH, &listing),
        Err(IndexError::UnsupportedEntry)
    ));
    let top = vec![entry(0, "link", EntryKind::Symlink), entry(0, "f", EntryKind::File { size: 1 })];
    assert!(matches!(build_index("r", &top), Err(IndexError::UnsupportedEntry)));
}

#[test]
fn malformed_listing_is_rejected() {
    let forward = vec![entry(2, "x", EntryKind::File { size: 1 }), entry(0, "d", EntryKind::Directory)];
    assert!(matches!(build_index("r", &forward), Err(IndexError::MalformedListing)));
    let under_file = vec![entry(0, "f", EntryKind::File { size: 1 }), entry(1, "x", EntryKind::File { size: 1 })];
    assert!(matches!(build_index("r", &under_file), Err(IndexError::MalformedListing)));
}

#[test]
fn missing_last_segment_is_not_found() {
    let map = FileMap::from_root_dir(TEST_DIR_PATH, &test_dir_listing()).unwrap();
    assert!(matches!(map.get_file_ref("test2/missing.txt"), Err(ResolveError::NotFound)));
    assert!(matches!(map.get_file_ref("missing.txt"), Err(ResolveError::NotFound)));
    assert!(matches!(map.get_file_ref("test2/"), Err(ResolveError::NotFound)));
    let mut cache = ContentCache::new(4);
    assert!(matches!(map.get_file(&mut cache, "test2/nope"), Err(ResolveError::NotFound)));
}

#[test]
fn path_through_regular_file_is_not_a_directory() {
    let map = FileMap::from_root_dir(TEST_DIR_PATH, &test_dir_listing()).unwrap();
    assert!(matches!(map.get_file_ref("testfile1.txt/x"), Err(ResolveError::NotADirectory)));
    assert!(matches!(map.get_file_ref("test2/inner.txt/a/b"), Err(ResolveError::NotADirectory)));
    let mut cache = ContentCache::new(4);
    assert!(matches!(map.get_file(&mut cache, "testfile1.txt/x"), Err(ResolveError::NotADirectory)));
}

#[test]
fn single_segment_resolves_to_child_not_root() {
    let map = FileMap::from_root_dir(TEST_DIR_PATH, &test_dir_listing()).unwrap();
    let node = map.get_file_ref("testfile1.txt").unwrap();
    assert_eq!(node.name, "testfile1.txt");
    assert_eq!(node.size, 13);
    assert_eq!(map.tree.resolve("testfile1.txt"), Ok(1));
    assert_eq!(map.tree.resolve("test2"), Ok(3));
    assert_eq!(map.tree.resolve(""), Ok(0));
}

#[test]
fn second_query_is_served_from_cache() {
    let map = FileMap::from_root_dir(TEST_DIR_PATH, &test_dir_listing()).unwrap();
    let mut cache = ContentCache::new(3);
    let first = map.get_file(&mut cache, "test2/inner.txt");
    match &first {
        Ok(Fetch::ReadFromDisk { disk_path, size_hint }) => {
            assert_eq!(disk_path, "../test_dir/test2/inner.txt");
            assert_eq!(*size_hint, 5);
        }
        _ => panic!("expected a disk read"),
    }
    let read = map.finish_read(&mut cache, "test2/inner.txt", b"hello".to_vec());
    // The file may be gone from disk now; the second query never touches it.
    let again = cached_bytes(map.get_file(&mut cache, "test2/inner.txt"));
    assert_eq!(*again, *read);
    assert_eq!(*again, b"hello".to_vec());
}

#[test]
fn capacity_plus_one_paths_evict_the_first() {
    let map = FileMap::from_root_dir(TEST_DIR_PATH, &test_dir_listing()).unwrap();
    let mut cache = ContentCache::new(2);
    map.finish_read(&mut cache, "testfile1.txt", vec![1]);
    map.finish_read(&mut cache, "testfile2.mp4", vec![2]);
    map.finish_read(&mut cache, "test2/inner.txt", vec![3]);
    assert!(is_disk_read(&map.get_file(&mut cache, "testfile1.txt")));
    assert_eq!(*cached_bytes(map.get_file(&mut cache, "testfile2.mp4")), vec![2]);
    assert_eq!(*cached_bytes(map.get_file(&mut cache, "test2/inner.txt")), vec![3]);
}

#[test]
fn default_capacity_holds_twenty_entries() {
    let mut cache = ContentCache::with_default_capacity();
    for i in 0..21 {
        cache.put(format!("f{}", i), Arc::new(vec![i as u8]));
    }
    assert!(cache.get("f0").is_none());
    assert_eq!(*cache.get("f1").unwrap(), vec![1]);
    assert_eq!(*cache.get("f20").unwrap(), vec![20]);
}

#[test]
fn lookup_refreshes_recency() {
    let mut cache = ContentCache::new(2);
    cache.put("a".to_string(), Arc::new(vec![1]));
    cache.put("b".to_string(), Arc::new(vec![2]));
    assert_eq!(*cache.get("a").unwrap(), vec![1]);
    cache.put("c".to_string(), Arc::new(vec![3]));
    assert!(cache.get("b").is_none());
    assert_eq!(*cache.get("a").unwrap(), vec![1]);
    assert_eq!(*cache.get("c").unwrap(), vec![3]);
}

#[test]
fn put_replaces_value_of_same_key() {
    let mut cache = ContentCache::new(2);
    cache.put("a".to_string(), Arc::new(vec![1]));
    cache.put("b".to_string(), Arc::new(vec![2]));
    cache.put("a".to_string(), Arc::new(vec![9]));
    cache.put("c".to_string(), Arc::new(vec![3]));
    assert!(cache.get("b").is_none());
    assert_eq!(*cache.get("a").unwrap(), vec![9]);
}

#[test]
fn cache_key_is_path_as_given() {
    let map = FileMap::from_root_dir(TEST_DIR_PATH, &test_dir_listing()).unwrap();
    let mut cache = ContentCache::new(4);
    map.finish_read(&mut cache, "test2/inner.txt", vec![7]);
    assert!(matches!(map.get_file(&mut cache, "test2//inner.txt"), Err(ResolveError::NotFound)));
}

#[test]
fn directory_path_is_handed_to_disk() {
    let map = FileMap::from_root_dir("root", &test_dir_listing()).unwrap();
    let mut cache = ContentCache::new(4);
    match map.get_file(&mut cache, "test2") {
        Ok(Fetch::ReadFromDisk { disk_path, size_hint }) => {
            assert_eq!(disk_path, "root/test2");
            assert_eq!(size_hint, 0);
        }
        _ => panic!("expected a disk read"),
    }
}
