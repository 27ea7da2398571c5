use dupfinder::{fast_hash, has_zip_extension, keep_fingerprinted, FastHasher, FilePaths, SizeHashMap, SizeMap, DEFAULT_BUFFER_SIZE};

fn plain(p: &str) -> FilePaths {
    FilePaths::Default(p.to_string())
}

fn fingerprints(entries: &[FilePaths], contents: &[&[u8]], stored: &[u32], buckets: &[(u64, Vec<u64>)]) -> Vec<Vec<u32>> {
    let mut hasher = FastHasher::new(DEFAULT_BUFFER_SIZE);
    buckets
        .iter()
        .map(|(_, ids)| {
            ids.iter()
                .map(|&id| match &entries[id as usize] {
                    FilePaths::Default(_) => fast_hash(&mut hasher, contents[id as usize]),
                    FilePaths::Zip(_, _) => stored[id as usize],
                })
                .collect()
        })
        .collect()
}

#[test]
fn crc32_of_hello() {
    let mut hasher = FastHasher::new(DEFAULT_BUFFER_SIZE);
    assert_eq!(fast_hash(&mut hasher, b"hello"), 0x3610a686);
    assert_eq!(fast_hash(&mut hasher, b""), 0);
    assert_eq!(fast_hash(&mut hasher, b"123456789"), 0xcbf43926);
}

#[test]
fn chunked_hash_matches_whole_hash() {
    let data: Vec<u8> = (0..10000u32).map(|i| (i % 251) as u8).collect();
    let mut small = FastHasher::new(7);
    let mut big = FastHasher::new(DEFAULT_BUFFER_SIZE);
    let a = small.hash(&data);
    let b = big.hash(&data);
    assert_eq!(a, b);
    assert_eq!(small.sum32(), a);
}

#[test]
fn streaming_write_matches_hash() {
    let mut h = FastHasher::new(4);
    h.reset();
    h.write(b"hel");
    h.write(b"lo");
    assert_eq!(h.sum32(), 0x3610a686);
    h.reset();
    assert_eq!(h.sum32(), 0);
}

#[test]
fn scenario_same_content_same_size() {
    let mut map = SizeMap::new();
    assert_eq!(map.insert_into(5, plain("a.txt")), 0);
    assert_eq!(map.insert_into(5, plain("b.txt")), 1);
    let (entries, buckets) = map.into_candidates();
    assert_eq!(buckets, vec![(5, vec![0, 1])]);
    let fps = fingerprints(&entries, &[b"hello", b"hello"], &[0, 0], &buckets);
    let groups = SizeHashMap::build_size_by_hash_map(&buckets, &fps).duplicate_groups();
    assert_eq!(groups, vec![(5, 0x3610a686, vec![0, 1])]);
}

#[test]
fn scenario_different_sizes_never_fingerprinted() {
    let mut map = SizeMap::new();
    map.insert_into(5, plain("a.txt"));
    map.insert_into(6, plain("c.txt"));
    let (entries, buckets) = map.into_candidates();
    assert_eq!(entries.len(), 2);
    assert!(buckets.is_empty());
    let groups = SizeHashMap::build_size_by_hash_map(&buckets, &Vec::new()).duplicate_groups();
    assert!(groups.is_empty());
}

#[test]
fn scenario_archive_member_and_plain_file() {
    let mut map = SizeMap::new();
    map.insert_into(180, plain("archive.zip"));
    map.insert_into(5, FilePaths::Zip("archive.zip".to_string(), "inner.txt".to_string()));
    map.insert_into(5, plain("a.txt"));
    let (entries, buckets) = map.into_candidates();
    assert_eq!(buckets, vec![(5, vec![1, 2])]);
    let fps = fingerprints(&entries, &[b"", b"", b"hello"], &[0, 0x3610a686, 0], &buckets);
    assert_eq!(fps, vec![vec![0x3610a686, 0x3610a686]]);
    let groups = SizeHashMap::build_size_by_hash_map(&buckets, &fps).duplicate_groups();
    assert_eq!(groups, vec![(5, 0x3610a686, vec![1, 2])]);
}

#[test]
fn scenario_empty_root() {
    let map = SizeMap::new();
    assert_eq!(map.len(), 0);
    let (entries, buckets) = map.into_candidates();
    assert!(entries.is_empty());
    assert!(buckets.is_empty());
    let groups = SizeHashMap::build_size_by_hash_map(&buckets, &Vec::new()).duplicate_groups();
    assert!(groups.is_empty());
}

#[test]
fn equal_size_different_content_split_into_groups() {
    let mut map = SizeMap::new();
    map.insert_into(5, plain("a.txt"));
    map.insert_into(5, plain("b.txt"));
    map.insert_into(5, plain("c.txt"));
    map.insert_into(9, plain("d.txt"));
    let (entries, buckets) = map.into_candidates();
    assert_eq!(buckets, vec![(5, vec![0, 1, 2])]);
    let fps = fingerprints(&entries, &[b"hello", b"world", b"hello", b""], &[0, 0, 0, 0], &buckets);
    let result = SizeHashMap::build_size_by_hash_map(&buckets, &fps);
    let groups = result.duplicate_groups();
    assert_eq!(groups, vec![(5, 0x3610a686, vec![0, 2])]);
}

#[test]
fn size_map_entry_lookup() {
    let mut map = SizeMap::new();
    map.insert_into(3, plain("x"));
    map.insert_into(4, FilePaths::Zip("z.zip".to_string(), "y".to_string()));
    assert_eq!(map.len(), 2);
    assert!(matches!(map.entry(0), FilePaths::Default(p) if p == "x"));
    assert!(matches!(map.entry(1), FilePaths::Zip(a, m) if a == "z.zip" && m == "y"));
}

#[test]
fn insert_new_twice_refused() {
    let mut m = SizeHashMap::new();
    assert!(m.insert_new(5));
    assert!(!m.insert_new(5));
    m.insert_into2(5, 1, 0);
    m.insert_into2(5, 1, 3);
    m.insert_into2(5, 2, 4);
    assert_eq!(m.duplicate_groups(), vec![(5, 1, vec![0, 3])]);
}

#[test]
fn engine_buffer_lent_and_returned() {
    let mut h = FastHasher::new(16);
    h.reset();
    let mut buf = h.take_buffer();
    assert_eq!(buf.len(), 16);
    buf[..5].copy_from_slice(b"hello");
    h.write(&buf[..5]);
    h.put_buffer(buf);
    assert_eq!(h.sum32(), 0x3610a686);
    assert_eq!(h.hash(b"123456789"), 0xcbf43926);
}

#[test]
fn hash_independent_of_buffer_size() {
    let data: Vec<u8> = (0..5000u32).map(|i| (i * 7 % 256) as u8).collect();
    let mut whole = FastHasher::new(data.len());
    let expected = whole.hash(&data);
    for size in [1usize, 3, 64, 4096, 6000] {
        let mut h = FastHasher::new(size);
        assert_eq!(h.hash(&data), expected);
    }
}

#[test]
fn zip_extension_exact() {
    assert!(has_zip_extension(b"archive.zip"));
    assert!(has_zip_extension(b"a.tar.zip"));
    assert!(has_zip_extension(b"..zip"));
    assert!(!has_zip_extension(b".zip"));
    assert!(!has_zip_extension(b"zip"));
    assert!(!has_zip_extension(b"archive.ZIP"));
    assert!(!has_zip_extension(b"archive.zipx"));
    assert!(!has_zip_extension(b"archivezip"));
}

#[test]
fn new_engine_buffer_is_zeroed() {
    let mut h = FastHasher::new(8);
    let buf = h.take_buffer();
    assert_eq!(buf, vec![0u8; 8]);
    h.put_buffer(buf);
}

#[test]
fn failed_fingerprints_are_dropped() {
    let buckets = vec![(5u64, vec![0u64, 1, 2]), (9u64, vec![3u64, 4])];
    let results = vec![vec![Some(7u32), None, Some(7)], vec![None, None]];
    let (kept, fps) = keep_fingerprinted(&buckets, &results);
    assert_eq!(kept, vec![(5, vec![0, 2]), (9, vec![])]);
    assert_eq!(fps, vec![vec![7, 7], vec![]]);
    let groups = SizeHashMap::build_size_by_hash_map(&kept, &fps).duplicate_groups();
    assert_eq!(groups, vec![(5, 7, vec![0, 2])]);
}
