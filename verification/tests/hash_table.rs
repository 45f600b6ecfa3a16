use pagedb::disk::Memory;
use pagedb::hash_table::bucket_page::{Bucket, DEFAULT_BIT_SIZE};
use pagedb::hash_table::dir_page::{Directory, DIRECTORY_SIZE};
use pagedb::hash_table::extendible::{ExtendibleError, ExtendibleHashTable};
use pagedb::page::PAGE_SIZE;
use pagedb::page_cache::PageCache;
use pagedb::pair::Pair;
use pagedb::replacer::LruK;

#[test]
fn test_extendible_hash_table() {
    let dir_page_id = 0;

    let mut pm = PageCache::new(Memory::new(64 * PAGE_SIZE), LruK::new(2), dir_page_id);
    {
        let _dir_page = pm.new_page().unwrap();
        let ht: ExtendibleHashTable<i32, i32, DEFAULT_BIT_SIZE> =
            ExtendibleHashTable::new(dir_page_id);

        ht.insert(&mut pm, &0, &1).unwrap();
        ht.insert(&mut pm, &2, &3).unwrap();
        ht.insert(&mut pm, &4, &5).unwrap();

        let r1 = ht.get(&mut pm, &0).unwrap();
        let r2 = ht.get(&mut pm, &2).unwrap();
        let r3 = ht.get(&mut pm, &4).unwrap();

        assert!(r1[0] == 1);
        assert!(r2[0] == 3);
        assert!(r3[0] == 5);

        ht.remove(&mut pm, &4, &5).unwrap();

        pm.flush_all();
    }

    // Make sure it reads back ok
    let mut pm = PageCache::new(pm.into_disk(), LruK::new(2), dir_page_id + 1);
    let ht: ExtendibleHashTable<i32, i32, DEFAULT_BIT_SIZE> = ExtendibleHashTable::new(dir_page_id);

    let r1 = ht.get(&mut pm, &0).unwrap();
    let r2 = ht.get(&mut pm, &2).unwrap();
    let r3 = ht.get(&mut pm, &4).unwrap();

    assert!(r1[0] == 1);
    assert!(r2[0] == 3);
    assert!(r3.is_empty());
}

#[test]
fn extendible_test_split() {
    let dir_page_id = 0;
    const BIT_SIZE: usize = 1; // 8 slots
    let mut pm = PageCache::new(Memory::new(64 * PAGE_SIZE), LruK::new(2), dir_page_id);
    let _dir_page = pm.new_page().unwrap();
    let ht: ExtendibleHashTable<i32, i32, BIT_SIZE> = ExtendibleHashTable::new(dir_page_id);

    assert!(ht.get_num_buckets(&mut pm).unwrap() == 1);

    // Global depth should be 1 after this
    ht.insert(&mut pm, &0, &1).unwrap();
    ht.insert(&mut pm, &2, &2).unwrap();
    ht.insert(&mut pm, &0, &3).unwrap();
    ht.insert(&mut pm, &2, &4).unwrap();
    ht.insert(&mut pm, &0, &5).unwrap();
    ht.insert(&mut pm, &2, &6).unwrap();
    ht.insert(&mut pm, &0, &7).unwrap();
    ht.insert(&mut pm, &2, &8).unwrap();

    assert!(ht.get_num_buckets(&mut pm).unwrap() == 2);

    let dir_page = pm.fetch_page(0).expect("there should be a page 0");
    let dir = Directory::from(pm.read(&dir_page)).unwrap();

    assert!(dir.global_depth() == 1);
}

fn cache(pages: usize, pool: usize) -> PageCache {
    let mut pc = PageCache::with_pool_size(Memory::new(pages * PAGE_SIZE), LruK::new(2), 0, pool);
    // page 0 is the directory
    assert_eq!(pc.create_page(), Ok(0));
    pc
}

fn sorted(mut v: Vec<i32>) -> Vec<i32> {
    v.sort();
    v
}

#[test]
fn every_inserted_pair_is_found() {
    let mut pc = cache(2048, 8);
    let ht: ExtendibleHashTable<i32, i32, 1> = ExtendibleHashTable::new(0);
    let mut stored: Vec<(i32, i32)> = Vec::new();
    for i in 0..400i32 {
        let key = (i * 7919) % 1000;
        if ht.insert(&mut pc, &key, &(key + 1)) == Ok(true) {
            stored.push((key, key + 1));
        }
    }
    assert!(stored.len() > 300);
    for (k, v) in &stored {
        assert_eq!(ht.get(&mut pc, k), Ok(vec![*v]), "key {}", k);
    }
    assert_eq!(ht.get(&mut pc, &5000), Ok(vec![]));
    let depth = {
        let dir = Directory::from(&pc.read_page(0).unwrap()).unwrap();
        dir.global_depth()
    };
    assert_eq!(ht.get_num_buckets(&mut pc), Ok(1u32 << depth));
    assert!(depth >= 5);
}

#[test]
fn slots_share_a_bucket_exactly_if_their_low_bits_agree() {
    let mut pc = cache(2048, 8);
    let ht: ExtendibleHashTable<i32, i32, 1> = ExtendibleHashTable::new(0);
    for i in 0..200i32 {
        let key = (i * 7919) % 1000;
        let _ = ht.insert(&mut pc, &key, &i);
    }
    let dir = Directory::from(&pc.read_page(0).unwrap()).unwrap();
    assert!(dir.global_depth() >= 3);
    for i in 0..dir.size() {
        assert!(dir.get(i) != 0);
        assert!(u32::from(dir.local_depth(i)) <= dir.global_depth());
        let mask = (1usize << dir.local_depth(i)) - 1;
        for j in 0..dir.size() {
            assert_eq!(dir.get(i) == dir.get(j), i & mask == j & mask, "slots {} and {}", i, j);
            if dir.get(i) == dir.get(j) {
                assert_eq!(dir.local_depth(i), dir.local_depth(j));
            }
        }
    }
}

#[test]
fn a_key_keeps_all_its_values_across_splits() {
    let mut pc = cache(256, 4);
    let ht: ExtendibleHashTable<i32, i32, 1> = ExtendibleHashTable::new(0);
    for v in 0..3 {
        assert_eq!(ht.insert(&mut pc, &7, &v), Ok(true));
    }
    for k in 100..130 {
        ht.insert(&mut pc, &k, &k).unwrap();
    }
    assert_eq!(sorted(ht.get(&mut pc, &7).unwrap()), vec![0, 1, 2]);
}

#[test]
fn a_removed_pair_is_not_found() {
    let mut pc = cache(64, 4);
    let ht: ExtendibleHashTable<i32, i32, DEFAULT_BIT_SIZE> = ExtendibleHashTable::new(0);
    assert_eq!(ht.remove(&mut pc, &1, &10), Ok(false));
    assert_eq!(ht.insert(&mut pc, &1, &10), Ok(true));
    assert_eq!(ht.insert(&mut pc, &1, &11), Ok(true));
    assert_eq!(ht.remove(&mut pc, &1, &12), Ok(false));
    assert_eq!(ht.remove(&mut pc, &1, &10), Ok(true));
    assert_eq!(ht.get(&mut pc, &1), Ok(vec![11]));
    assert_eq!(ht.remove(&mut pc, &1, &10), Ok(false));
    // the slot is free again: the next pair takes it
    assert_eq!(ht.insert(&mut pc, &1, &13), Ok(true));
    assert_eq!(ht.get(&mut pc, &1), Ok(vec![13, 11]));
}

#[test]
fn a_pair_inserted_twice_is_removed_once_at_a_time() {
    let mut pc = cache(64, 4);
    let ht: ExtendibleHashTable<i32, i32, DEFAULT_BIT_SIZE> = ExtendibleHashTable::new(0);
    assert_eq!(ht.insert(&mut pc, &1, &10), Ok(true));
    assert_eq!(ht.insert(&mut pc, &1, &10), Ok(true));
    assert_eq!(ht.remove(&mut pc, &1, &10), Ok(true));
    assert_eq!(ht.get(&mut pc, &1), Ok(vec![10]));
    assert_eq!(ht.remove(&mut pc, &1, &10), Ok(true));
    assert_eq!(ht.get(&mut pc, &1), Ok(vec![]));
}

#[test]
fn a_split_without_pages_is_an_error() {
    // a store with room for the directory and one bucket only
    let mut pc = cache(2, 2);
    let ht: ExtendibleHashTable<i32, i32, 1> = ExtendibleHashTable::new(0);
    for v in 0..7 {
        assert_eq!(ht.insert(&mut pc, &1, &v), Ok(true));
    }
    // the eighth pair fills the bucket: it is stored, the split fails
    assert_eq!(ht.insert(&mut pc, &1, &7), Err(ExtendibleError::Error));
    assert_eq!(ht.get(&mut pc, &1), Ok((0..8).collect::<Vec<i32>>()));
    // the bucket is full: nothing more goes in, and the split fails again
    assert_eq!(ht.insert(&mut pc, &1, &8), Err(ExtendibleError::Error));
    assert_eq!(ht.get(&mut pc, &1), Ok((0..8).collect::<Vec<i32>>()));
    assert_eq!(ht.get_num_buckets(&mut pc), Ok(1));
}

#[test]
fn the_page_of_a_split_bucket_leaves_the_pool() {
    let mut pc = cache(64, 8);
    let ht: ExtendibleHashTable<i32, i32, 1> = ExtendibleHashTable::new(0);
    for v in 0..7 {
        assert_eq!(ht.insert(&mut pc, &1, &v), Ok(true));
    }
    // page 1 holds the first bucket
    assert!(pc.is_resident(1));
    assert_eq!(ht.insert(&mut pc, &1, &7), Ok(true));
    assert!(!pc.is_resident(1));
    assert_eq!(pc.next_page_id(), 4);
    assert_eq!(ht.get_num_buckets(&mut pc), Ok(2));
    assert_eq!(ht.get(&mut pc, &1), Ok((0..8).collect::<Vec<i32>>()));
    // all eight pairs went to one side, which is full: the next insertion
    // stores nothing and splits again
    assert_eq!(ht.insert(&mut pc, &1, &8), Ok(false));
    assert_eq!(pc.next_page_id(), 6);
    assert_eq!(ht.get(&mut pc, &1), Ok((0..8).collect::<Vec<i32>>()));
}

#[test]
fn the_index_works_while_the_directory_is_pinned() {
    let mut pc = PageCache::with_pool_size(Memory::new(64 * PAGE_SIZE), LruK::new(2), 0, 2);
    let guard = pc.new_page().unwrap();
    assert_eq!(pc.unpinned_frames(), 1);
    let ht: ExtendibleHashTable<i32, i32, 1> = ExtendibleHashTable::new(0);
    for v in 0..20 {
        assert_eq!(ht.insert(&mut pc, &v, &v), Ok(true));
        assert_eq!(pc.unpinned_frames(), 1);
    }
    for v in 0..20 {
        assert_eq!(ht.get(&mut pc, &v), Ok(vec![v]));
    }
    // the guard is a pin still
    let dir = Directory::from(pc.read(&guard)).unwrap();
    assert_eq!(ht.get_num_buckets(&mut pc), Ok(1u32 << dir.global_depth()));
    pc.unpin(guard);
    assert_eq!(pc.unpinned_frames(), 2);
}

#[test]
fn a_store_without_room_for_a_first_bucket_is_an_error() {
    let mut pc = cache(1, 2);
    let ht: ExtendibleHashTable<i32, i32, 1> = ExtendibleHashTable::new(0);
    assert_eq!(ht.insert(&mut pc, &1, &1), Err(ExtendibleError::Error));
}

#[test]
fn hash_operations_without_a_free_frame_are_errors() {
    let mut pc = cache(16, 1);
    let ht: ExtendibleHashTable<i32, i32, 1> = ExtendibleHashTable::new(0);
    assert_eq!(ht.insert(&mut pc, &1, &1), Ok(true));
    let guard = pc.fetch_page(0).unwrap();
    assert_eq!(ht.insert(&mut pc, &2, &2), Err(ExtendibleError::Error));
    assert_eq!(ht.get(&mut pc, &1), Err(ExtendibleError::Error));
    assert_eq!(ht.remove(&mut pc, &1, &1), Err(ExtendibleError::Error));
    assert_eq!(ht.get_num_buckets(&mut pc), Err(ExtendibleError::Error));
    pc.unpin(guard);
    assert_eq!(ht.get(&mut pc, &1), Ok(vec![1]));
}

#[test]
fn a_directory_page_outside_the_store_is_corrupt() {
    let mut pc = cache(4, 2);
    let ht: ExtendibleHashTable<i32, i32, 1> = ExtendibleHashTable::new(9);
    assert_eq!(ht.get(&mut pc, &1), Err(ExtendibleError::Corrupt));
    assert_eq!(ht.insert(&mut pc, &1, &1), Err(ExtendibleError::Corrupt));
    assert_eq!(ht.get_num_buckets(&mut pc), Err(ExtendibleError::Corrupt));
}

#[test]
fn the_hash_of_a_key_does_not_change() {
    let a = ExtendibleHashTable::<i32, i32, 1>::hash(&17);
    let b = ExtendibleHashTable::<i32, i32, 1>::hash(&17);
    let c = ExtendibleHashTable::<i32, i32, 1>::hash(&18);
    assert_eq!(a, b);
    assert_ne!(a, c);
}

#[test]
fn directory_page_layout_is_byte_exact() {
    let zeros = vec![0u8; PAGE_SIZE];
    let mut dir = Directory::from(&zeros).unwrap();
    assert_eq!(dir.global_depth(), 0);
    assert_eq!(dir.size(), 1);
    assert_eq!(dir.global_depth_mask(), 0);
    assert_eq!(dir.get(0), 0);
    dir.insert(0, 0x0102_0304);
    dir.incr_global_depth();
    assert_eq!(dir.global_depth(), 1);
    assert_eq!(dir.size(), 2);
    assert_eq!(dir.global_depth_mask(), 1);
    assert_eq!(dir.get(1), 0x0102_0304);
    assert_eq!(dir.local_depth(1), 0);
    assert_eq!(dir.get_local_high_bit(0), 1);
    assert_eq!(dir.local_depth_mask(0), 0);
    dir.redirect(0x0102_0304, 0, 5, 6);
    assert_eq!((dir.get(0), dir.get(1)), (5, 6));
    assert_eq!((dir.local_depth(0), dir.local_depth(1)), (1, 1));
    assert_eq!(dir.index_of(6), 0);
    assert_eq!(dir.index_of(7), 1);

    let page = dir.to_page();
    assert_eq!(&page[0..4], &[0, 0, 0, 1]);
    assert_eq!(&page[4..6], &[1, 1]);
    assert!(page[6..4 + DIRECTORY_SIZE].iter().all(|b| *b == 0));
    assert_eq!(&page[516..524], &[0, 0, 0, 5, 0, 0, 0, 6]);
    assert!(page[524..].iter().all(|b| *b == 0));
    assert_eq!(Directory::from(&page), Some(dir));
}

#[test]
fn malformed_directory_pages_hold_no_directory() {
    let mut page = vec![0u8; PAGE_SIZE];
    page[3] = 10; // deeper than the page has room for
    assert!(Directory::from(&page).is_none());
    let mut page = vec![0u8; PAGE_SIZE];
    page[3] = 1;
    page[5] = 2; // slot 1 deeper than the directory
    assert!(Directory::from(&page).is_none());
    assert!(Directory::from(&vec![0u8; 100]).is_none());
}

#[test]
fn bucket_page_layout_is_byte_exact() {
    let zeros = vec![0u8; PAGE_SIZE];
    let mut bucket: Bucket<i32, i32, 1> = Bucket::from(&zeros).unwrap();
    assert!(!bucket.is_full());
    assert!(bucket.insert(&1, &-1));
    assert!(bucket.insert(&2, &258));
    let page = bucket.to_page();
    assert_eq!(&page[0..2], &[0b11, 0b11]);
    assert_eq!(&page[2..10], &[0, 0, 0, 1, 0xff, 0xff, 0xff, 0xff]);
    assert_eq!(&page[10..18], &[0, 0, 0, 2, 0, 0, 1, 2]);
    assert!(page[18..].iter().all(|b| *b == 0));

    let again: Bucket<i32, i32, 1> = Bucket::from(&page).unwrap();
    assert_eq!(again.get_pairs(), vec![Pair::new(1, -1), Pair::new(2, 258)]);
    assert_eq!(again.find(&2), vec![258]);
    assert_eq!(again.to_page(), page);
}

#[test]
fn bucket_insert_takes_the_first_free_slot() {
    let zeros = vec![0u8; PAGE_SIZE];
    let mut bucket: Bucket<i32, i32, 1> = Bucket::from(&zeros).unwrap();
    for v in 0..8 {
        assert!(bucket.insert(&1, &v));
    }
    assert!(bucket.is_full());
    assert!(!bucket.insert(&1, &8));
    assert!(bucket.remove(&1, &3));
    assert!(!bucket.remove(&1, &3));
    assert!(!bucket.is_full());
    assert!(bucket.insert(&2, &30));
    assert_eq!(bucket.find(&1), vec![0, 1, 2, 4, 5, 6, 7]);
    assert_eq!(bucket.find(&2), vec![30]);
    assert_eq!(bucket.get_pairs()[3], Pair::new(2, 30));
}

#[test]
fn buckets_too_large_for_a_page_do_not_decode() {
    let zeros = vec![0u8; PAGE_SIZE];
    assert!(Bucket::<i64, i64, 32>::from(&zeros).is_none());
    assert!(Bucket::<i64, i64, 31>::from(&zeros).is_some());
    assert!(!Bucket::<i64, i64, 32>::fits());
}
