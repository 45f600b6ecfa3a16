use pagedb::codec::{read_i32, read_i64, read_u16, read_u32, read_u64, write_bytes};
use pagedb::codec::{write_i32, write_i64, write_u16, write_u32, write_u64};
use pagedb::disk::{DiskError, Memory};
use pagedb::error::Error;
use pagedb::page::{new_page_buf, NO_PAGE, PAGE_SIZE};
use pagedb::page_cache::{PageCache, POOL_SIZE};
use pagedb::pair::Pair;
use pagedb::replacer::LruK;
use pagedb::storable::{read_at, Increment, Storable};

fn cache(pages: usize, pool: usize) -> PageCache {
    PageCache::with_pool_size(Memory::new(pages * PAGE_SIZE), LruK::new(2), 0, pool)
}

fn pattern(seed: u8) -> Vec<u8> {
    (0..PAGE_SIZE).map(|i| (i as u8).wrapping_mul(31).wrapping_add(seed)).collect()
}

#[test]
fn the_first_page_leaves_when_a_fifth_comes() {
    let mut pc = cache(16, 4);
    let first = pc.new_page().unwrap();
    assert_eq!(first.id, 0);
    let frame = first.frame;
    pc.unpin(first);
    let mut guards = Vec::new();
    for id in 1..5 {
        let guard = pc.new_page().unwrap();
        assert_eq!(guard.id, id);
        assert!(guard.frame < 4);
        guards.push(guard);
    }
    // all four frames are in use, the fifth page in the frame of the first
    assert_eq!(guards[3].frame, frame);
    let mut frames: Vec<usize> = guards.iter().map(|g| g.frame).collect();
    frames.sort();
    assert_eq!(frames, vec![0, 1, 2, 3]);
    // every frame is pinned now
    assert!(!pc.has_available());
    assert_eq!(pc.new_page().unwrap_err(), Error::OutOfMemory);
    assert_eq!(pc.fetch_page(0).unwrap_err(), Error::OutOfMemory);
    assert_eq!(pc.next_page_id(), 5);
    for guard in guards {
        pc.unpin(guard);
    }
    assert!(pc.has_available());
    let again = pc.fetch_page(0).unwrap();
    assert_eq!(pc.read(&again), &vec![0u8; PAGE_SIZE]);
}

#[test]
fn a_page_written_and_evicted_reads_back_the_same() {
    let mut pc = cache(16, 2);
    let guard = pc.new_page().unwrap();
    let id = guard.id;
    let bytes = pattern(7);
    pc.write(&guard, &bytes);
    assert_eq!(pc.read(&guard), &bytes);
    pc.unpin(guard);
    // pressure: more pages than frames
    for _ in 0..6 {
        let g = pc.new_page().unwrap();
        pc.write(&g, &pattern(g.id as u8));
        pc.unpin(g);
    }
    let guard = pc.fetch_page(id).unwrap();
    assert_eq!(pc.read(&guard), &bytes);
    pc.unpin(guard);
    for page in 1..7 {
        assert_eq!(pc.read_page(page).unwrap(), pattern(page as u8));
    }
}

#[test]
fn fetching_a_resident_page_pins_the_same_frame() {
    let mut pc = cache(8, 3);
    pc.create_page().unwrap();
    let a = pc.fetch_page(0).unwrap();
    let b = pc.fetch_page(0).unwrap();
    assert_eq!(a.frame, b.frame);
    assert_eq!((a.id, b.id), (0, 0));
    // two pins: the page stays while one is left
    pc.unpin(a);
    for _ in 0..4 {
        let g = pc.new_page().unwrap();
        pc.unpin(g);
    }
    pc.write(&b, &pattern(1));
    assert_eq!(pc.read(&b), &pattern(1));
    let frame = b.frame;
    let c = pc.fetch_page(0).unwrap();
    assert_eq!(c.frame, frame);
    pc.unpin(b);
    pc.unpin(c);
}

#[test]
fn the_page_with_the_shorter_history_leaves_first() {
    // two frames, histories of depth 2
    let mut pc = cache(8, 2);
    let a = pc.fetch_page(0).unwrap();
    let frame_a = a.frame;
    pc.unpin(a);
    let a = pc.fetch_page(0).unwrap();
    pc.unpin(a);
    let b = pc.fetch_page(1).unwrap();
    let frame_b = b.frame;
    assert_ne!(frame_a, frame_b);
    pc.unpin(b);
    // page 0 was used longest ago, but page 1 has one access only
    let c = pc.fetch_page(2).unwrap();
    assert_eq!(c.frame, frame_b);
    let a = pc.fetch_page(0).unwrap();
    assert_eq!(a.frame, frame_a);
    pc.unpin(a);
    pc.unpin(c);
    // now page 2 has one access and page 0 three: page 2 leaves
    let d = pc.fetch_page(3).unwrap();
    assert_eq!(d.frame, frame_b);
    pc.unpin(d);
}

#[test]
fn the_frames_without_a_pin_are_counted() {
    let mut pc = cache(16, 3);
    assert_eq!(pc.unpinned_frames(), 3);
    let a = pc.new_page().unwrap();
    assert_eq!(pc.unpinned_frames(), 2);
    let a2 = pc.fetch_page(0).unwrap();
    assert_eq!(pc.unpinned_frames(), 2);
    let b = pc.new_page().unwrap();
    let c = pc.new_page().unwrap();
    assert_eq!(pc.unpinned_frames(), 0);
    assert!(!pc.has_available());
    pc.unpin(a);
    assert_eq!(pc.unpinned_frames(), 0);
    pc.unpin(a2);
    assert_eq!(pc.unpinned_frames(), 1);
    assert!(pc.has_available());
    assert!(pc.remove_page(0));
    assert!(!pc.is_resident(0));
    assert_eq!(pc.unpinned_frames(), 1);
    pc.unpin(b);
    pc.unpin(c);
    assert_eq!(pc.unpinned_frames(), 3);
    assert!(pc.is_resident(1) && pc.is_resident(2));
}

#[test]
fn a_write_reaches_the_store_with_the_flush() {
    let mut pc = cache(4, 2);
    let g = pc.new_page().unwrap();
    pc.write(&g, &pattern(3));
    pc.unpin(g);
    let mut lost = PageCache::new(pc.into_disk(), LruK::new(2), 1);
    assert_eq!(lost.read_page(0).unwrap(), vec![0u8; PAGE_SIZE]);

    let mut pc = cache(4, 2);
    let g = pc.new_page().unwrap();
    pc.write(&g, &pattern(3));
    pc.unpin(g);
    pc.flush_page(0);
    let mut kept = PageCache::new(pc.into_disk(), LruK::new(2), 1);
    assert_eq!(kept.read_page(0).unwrap(), pattern(3));

    // a page that is evicted is written back
    let mut pc = cache(4, 1);
    let g = pc.new_page().unwrap();
    pc.write(&g, &pattern(5));
    pc.unpin(g);
    let g = pc.new_page().unwrap();
    pc.unpin(g);
    let mut kept = PageCache::new(pc.into_disk(), LruK::new(2), 2);
    assert_eq!(kept.read_page(0).unwrap(), pattern(5));
}

#[test]
fn a_pair_equals_the_tuple_of_its_values() {
    let p = Pair::new(3, true);
    assert!(p.eq_tuple(&(3, true)));
    assert!(!p.eq_tuple(&(3, false)));
    assert!(!p.eq_tuple(&(4, true)));
}

#[test]
fn a_pinned_page_is_never_the_victim() {
    let mut pc = cache(32, 2);
    let pinned = pc.new_page().unwrap();
    pc.write(&pinned, &pattern(9));
    let frame = pinned.frame;
    for _ in 0..20 {
        let g = pc.new_page().unwrap();
        assert_ne!(g.frame, frame);
        pc.unpin(g);
    }
    assert_eq!(pc.read(&pinned), &pattern(9));
    pc.unpin(pinned);
}

#[test]
fn cache_errors() {
    let mut pc = cache(2, 2);
    assert_eq!(pc.capacity(), 2);
    assert_eq!(pc.fetch_page(2).unwrap_err(), Error::Disk);
    assert_eq!(pc.fetch_page(NO_PAGE).unwrap_err(), Error::Disk);
    assert_eq!(pc.read_page(5), Err(Error::Disk));
    assert_eq!(pc.write_page(-3, &pattern(0)), Err(Error::Disk));
    assert_eq!(pc.create_page(), Ok(0));
    assert_eq!(pc.create_page(), Ok(1));
    // the store is full
    assert_eq!(pc.create_page(), Err(Error::Disk));
    assert_eq!(pc.new_page().unwrap_err(), Error::Disk);
    let a = pc.fetch_page(0).unwrap();
    let b = pc.fetch_page(1).unwrap();
    assert_eq!(pc.read_page(0), Ok(vec![0u8; PAGE_SIZE]));
    pc.unpin(a);
    pc.unpin(b);
    let none = PageCache::with_pool_size(Memory::new(PAGE_SIZE), LruK::new(2), 0, 0);
    assert!(!none.has_available());
}

#[test]
fn new_makes_the_default_pool() {
    let mut pc = PageCache::new(Memory::new(64 * PAGE_SIZE), LruK::new(2), 3);
    assert_eq!(pc.next_page_id(), 3);
    let mut guards = Vec::new();
    for _ in 0..POOL_SIZE {
        guards.push(pc.new_page().unwrap());
    }
    assert_eq!(pc.new_page().unwrap_err(), Error::OutOfMemory);
    assert_eq!(guards[0].id, 3);
    let pc = PageCache::new(Memory::new(4 * PAGE_SIZE), LruK::new(2), -7);
    assert_eq!(pc.next_page_id(), 0);
    let pc = PageCache::new(Memory::new(4 * PAGE_SIZE), LruK::new(2), 9);
    assert_eq!(pc.next_page_id(), 4);
}

#[test]
fn remove_page_frees_the_frame_and_keeps_the_bytes() {
    let mut pc = cache(8, 1);
    let guard = pc.new_page().unwrap();
    pc.write(&guard, &pattern(3));
    assert!(!pc.remove_page(0));
    pc.unpin(guard);
    assert!(pc.remove_page(0));
    assert!(pc.remove_page(0));
    assert!(pc.remove_page(5));
    assert!(pc.has_available());
    assert_eq!(pc.read_page(0), Ok(pattern(3)));
    // the id is not handed out again
    assert_eq!(pc.create_page(), Ok(1));
}

#[test]
fn flush_writes_dirty_pages_to_the_store() {
    let mut pc = cache(8, 4);
    pc.create_page().unwrap();
    pc.create_page().unwrap();
    pc.write_page(0, &pattern(1)).unwrap();
    pc.write_page(1, &pattern(2)).unwrap();
    pc.flush_page(0);
    let disk = pc.into_disk();
    assert_eq!(disk.read_page(0), Ok(pattern(1)));
    assert_eq!(disk.read_page(1), Ok(vec![0u8; PAGE_SIZE]));

    let mut pc = PageCache::with_pool_size(disk, LruK::new(2), 2, 4);
    pc.write_page(1, &pattern(2)).unwrap();
    pc.flush_all();
    let disk = pc.into_disk();
    assert_eq!(disk.read_page(0), Ok(pattern(1)));
    assert_eq!(disk.read_page(1), Ok(pattern(2)));
}

#[test]
fn memory_disk_reads_and_writes_whole_pages() {
    let mut disk = Memory::new(2 * PAGE_SIZE + 100);
    assert_eq!(disk.capacity(), 2);
    assert_eq!(disk.read_page(1), Ok(vec![0u8; PAGE_SIZE]));
    assert_eq!(disk.write_page(1, &pattern(4)), Ok(()));
    assert_eq!(disk.read_page(1), Ok(pattern(4)));
    assert_eq!(disk.read_page(0), Ok(vec![0u8; PAGE_SIZE]));
    // past the end: reads are zero-padded, writes fail
    assert_eq!(disk.read_page(2), Ok(vec![0u8; PAGE_SIZE]));
    assert_eq!(disk.write_page(2, &pattern(4)), Err(DiskError));
    assert_eq!(disk.write_page(-1, &pattern(4)), Err(DiskError));
    assert_eq!(disk.read_page(-1), Err(DiskError));
    assert_eq!(Memory::new(PAGE_SIZE - 1).capacity(), 0);
}

#[test]
fn lru_k_evicts_short_histories_first() {
    let mut lru = LruK::new(2);
    assert_eq!(lru.depth(), 2);
    assert_eq!(lru.victim(), None);
    assert!(!lru.has_victim());
    // page 1 accessed twice, pages 2 and 3 once
    lru.record_access(1);
    lru.record_access(2);
    lru.record_access(3);
    lru.record_access(1);
    assert_eq!(lru.victim(), None);
    assert_eq!(lru.size(), 0);
    lru.set_evictable(1, true);
    assert_eq!(lru.victim(), Some(1));
    lru.set_evictable(2, true);
    lru.set_evictable(3, true);
    assert_eq!(lru.size(), 3);
    // fewer than K accesses come first, the oldest of them first
    assert_eq!(lru.victim(), Some(2));
    lru.remove(2);
    assert_eq!(lru.victim(), Some(3));
    lru.record_access(3);
    // both have K accesses: page 1's K-th most recent access is older
    assert_eq!(lru.victim(), Some(1));
    lru.record_access(1);
    // page 1: accesses at 3 and 5; page 3: at 2 and 4
    assert_eq!(lru.victim(), Some(3));
    lru.set_evictable(3, false);
    assert_eq!(lru.victim(), Some(1));
    assert_eq!(lru.size(), 1);
    lru.remove(1);
    assert_eq!(lru.victim(), None);
    // unknown pages stay unknown
    lru.set_evictable(9, true);
    lru.remove(9);
    assert_eq!(lru.victim(), None);
    assert_eq!(LruK::new(0).depth(), 1);
}

#[test]
fn big_endian_codec_is_byte_exact() {
    let mut buf = vec![0u8; 32];
    write_u16(&mut buf, 0, 0x0102);
    write_u32(&mut buf, 2, 0x0304_0506);
    write_u64(&mut buf, 6, 0x0708_090a_0b0c_0d0e);
    write_i32(&mut buf, 14, -2);
    write_i64(&mut buf, 18, -3);
    write_bytes(&mut buf, 26, &[9, 8]);
    let want: Vec<u8> = vec![
        1, 2, 3, 4, 5, 6, 7, 8, 9, 10, 11, 12, 13, 14, 0xff, 0xff, 0xff, 0xfe, 0xff, 0xff, 0xff,
        0xff, 0xff, 0xff, 0xff, 0xfd, 9, 8, 0, 0, 0, 0,
    ];
    assert_eq!(buf, want);
    assert_eq!(read_u16(&buf, 0), 0x0102);
    assert_eq!(read_u32(&buf, 2), 0x0304_0506);
    assert_eq!(read_u64(&buf, 6), 0x0708_090a_0b0c_0d0e);
    assert_eq!(read_i32(&buf, 14), -2);
    assert_eq!(read_i64(&buf, 18), -3);
    for x in [i32::MIN, -1, 0, 1, i32::MAX] {
        write_i32(&mut buf, 0, x);
        assert_eq!(&buf[0..4], &x.to_be_bytes());
        assert_eq!(read_i32(&buf, 0), x);
    }
    for x in [i64::MIN, -1, 0, 1, i64::MAX] {
        write_i64(&mut buf, 0, x);
        assert_eq!(&buf[0..8], &x.to_be_bytes());
        assert_eq!(read_i64(&buf, 0), x);
    }
    for x in [0u32, 255, 256, u32::MAX] {
        write_u32(&mut buf, 0, x);
        assert_eq!(&buf[0..4], &x.to_be_bytes());
        assert_eq!(read_u32(&buf, 0), x);
    }
    assert_eq!(new_page_buf(), vec![0u8; PAGE_SIZE]);
}

#[test]
fn storable_keys_and_values() {
    let mut buf = vec![0u8; 16];
    (-5i32).write_to(&mut buf, 1);
    assert_eq!(&buf[0..6], &[0, 0xff, 0xff, 0xff, 0xfb, 0]);
    assert_eq!(i32::from_bytes(&buf[1..5]), -5);
    assert_eq!(read_at::<i32>(&buf, 1), -5);
    assert_eq!(<i32 as Storable>::size(), 4);
    assert_eq!(<u16 as Storable>::size(), 2);
    assert_eq!(<u32 as Storable>::size(), 4);
    assert_eq!(<i64 as Storable>::size(), 8);
    assert_eq!(<u64 as Storable>::size(), 8);
    7u16.write_to(&mut buf, 8);
    assert_eq!(u16::from_bytes(&buf[8..10]), 7);
    assert!(3i32.same(&3) && !3i32.same(&4));
    assert!((-1i32).less(&0) && !0i32.less(&0));
    assert_eq!(Increment::next(&41i32), 42);
    assert_eq!(Increment::next(&0u16), 1);
    assert_eq!(Increment::next(&(-1i64)), 0);
}

#[test]
fn pair_holds_its_two_values() {
    let p = Pair::new(1, "one");
    assert_eq!(p.a, 1);
    assert_eq!(p.b, "one");
    assert_eq!(p.into_tuple(), (1, "one"));
    assert!(Pair::new(1, 2) == Pair::new(1, 2));
    assert!(Pair::new(1, 2) < Pair::new(1, 3));
}
