use freezer::bytes::make_bytes;
use freezer::cache::FileCache;
use freezer::freezer::{decoded_record, FreezerError, FreezerFiles, FreezerFilesBuilder, Volume};

fn open_with(volume: Volume, max_file_size: u32, compression: bool) -> FreezerFiles {
    let mut freezer = FreezerFilesBuilder::new(volume)
        .enable_compression(compression)
        .max_file_size(max_file_size)
        .build()
        .unwrap();
    freezer.preopen().unwrap();
    freezer
}

fn open(volume: Volume, max_file_size: u32) -> FreezerFiles {
    open_with(volume, max_file_size, false)
}

fn filled(count: u8, max_file_size: u32) -> FreezerFiles {
    let mut freezer = open(Volume::new(), max_file_size);
    for i in 1..=count {
        freezer.append(i.into(), &make_bytes(15, i)).unwrap();
    }
    freezer
}

#[test]
fn make_bytes_repeats_the_byte() {
    assert_eq!(make_bytes(3, 7), vec![7, 7, 7]);
    assert_eq!(make_bytes(0, 7), Vec::<u8>::new());
}

#[test]
fn empty_freezer_has_no_records() {
    let mut freezer = open(Volume::new(), 50);
    assert_eq!(freezer.number(), 1);
    assert_eq!(freezer.retrieve(0).unwrap(), None);
    assert_eq!(freezer.retrieve(1).unwrap(), None);
    assert_eq!(freezer.index, vec![0, 0, 0, 0, 0, 0]);
    assert_eq!(freezer.head.file.len(), 0);
}

#[test]
fn index_entries_are_big_endian() {
    let freezer = filled(4, 50);
    assert_eq!(
        freezer.index,
        vec![
            0, 0, 0, 0, 0, 0, //
            0, 0, 0, 0, 0, 15, //
            0, 0, 0, 0, 0, 30, //
            0, 0, 0, 0, 0, 45, //
            0, 0, 0, 1, 0, 15,
        ]
    );
    assert_eq!(freezer.head.file_id, 1);
    assert_eq!(freezer.sealed.len(), 1);
}

#[test]
fn large_offsets_use_both_bytes() {
    let mut freezer = open(Volume::new(), 65535);
    freezer.append(1, &make_bytes(300, 9)).unwrap();
    assert_eq!(freezer.index[6..12].to_vec(), vec![0, 0, 0, 0, 1, 44]);
    assert_eq!(freezer.retrieve(1).unwrap(), Some(make_bytes(300, 9)));
}

#[test]
fn round_trip_and_bounds() {
    let mut freezer = filled(20, 50);
    for i in 1..=20u8 {
        assert_eq!(freezer.retrieve(i.into()).unwrap(), Some(make_bytes(15, i)));
    }
    assert_eq!(freezer.retrieve(0).unwrap(), None);
    assert_eq!(freezer.retrieve(21).unwrap(), None);
    assert_eq!(freezer.retrieve(u64::MAX).unwrap(), None);
}

#[test]
fn append_out_of_order_is_refused() {
    let mut freezer = filled(3, 50);
    assert_eq!(freezer.append(3, &make_bytes(15, 3)), Err(FreezerError::OutOfOrder));
    assert_eq!(freezer.append(5, &make_bytes(15, 5)), Err(FreezerError::OutOfOrder));
    assert_eq!(freezer.number(), 4);
    assert_eq!(freezer.append(4, &make_bytes(15, 4)), Ok(()));
}

#[test]
fn append_too_large_is_refused() {
    let mut freezer = filled(1, 50);
    assert_eq!(freezer.append(2, &make_bytes(65536, 1)), Err(FreezerError::TooLarge));
    assert_eq!(freezer.number(), 2);
    assert_eq!(freezer.append(2, &make_bytes(65535, 1)), Ok(()));
    assert_eq!(freezer.retrieve(2).unwrap(), Some(make_bytes(65535, 1)));
}

#[test]
fn oversized_cap_is_refused() {
    let r = FreezerFilesBuilder::new(Volume::new()).max_file_size(65536).build();
    assert!(matches!(r, Err(FreezerError::InvalidConfig)));
}

#[test]
fn unopened_freezer_is_closed() {
    let mut freezer = FreezerFilesBuilder::new(Volume::new()).build().unwrap();
    assert_eq!(freezer.append(1, &make_bytes(1, 1)), Err(FreezerError::Closed));
    assert_eq!(freezer.retrieve(1), Err(FreezerError::Closed));
    assert_eq!(freezer.truncate(0), Err(FreezerError::Closed));
}

#[test]
fn bad_sentinel_is_corrupt() {
    let volume = Volume { index: vec![0, 0, 0, 0, 0, 5], data: vec![make_bytes(10, 1)] };
    let mut freezer = FreezerFilesBuilder::new(volume).build().unwrap();
    assert_eq!(freezer.preopen(), Err(FreezerError::CorruptIndex));
    assert!(!freezer.opened);
}

#[test]
fn unordered_index_is_corrupt() {
    // entry 2 moves back from file 1 to file 0
    let volume = Volume {
        index: vec![0, 0, 0, 0, 0, 0, 0, 0, 0, 1, 0, 5, 0, 0, 0, 0, 0, 5],
        data: vec![make_bytes(5, 1), make_bytes(5, 2)],
    };
    let mut freezer = FreezerFilesBuilder::new(volume).build().unwrap();
    assert_eq!(freezer.preopen(), Err(FreezerError::CorruptIndex));
}

#[test]
fn missing_data_file_drops_entries() {
    let mut freezer = filled(6, 50);
    let mut volume = freezer.close();
    volume.data.pop();
    let mut freezer = open(volume, 50);
    assert_eq!(freezer.number(), 4);
    assert_eq!(freezer.retrieve(3).unwrap(), Some(make_bytes(15, 3)));
    assert_eq!(freezer.retrieve(4).unwrap(), None);
}

#[test]
fn unreferenced_data_files_are_removed() {
    let freezer = filled(3, 50);
    let mut volume = freezer.close();
    volume.data.push(make_bytes(7, 9));
    let freezer = open(volume, 50);
    assert_eq!(freezer.sealed.len(), 0);
    assert_eq!(freezer.head.file_id, 0);
    assert_eq!(freezer.head.bytes, 45);
}

#[test]
fn recovery_twice_changes_nothing() {
    let mut freezer = filled(30, 50);
    freezer.head.file.push(42);
    let len = freezer.index.len();
    freezer.index.truncate(len - 2);
    let first = open(freezer.close(), 50).close();
    let second = open(Volume { index: first.index.clone(), data: first.data.clone() }, 50).close();
    assert_eq!(first.index, second.index);
    assert_eq!(first.data, second.data);
    assert_eq!(first.index.len(), 30 * 6);
}

#[test]
fn truncate_keeps_prefix_and_accepts_next_append() {
    let mut freezer = filled(20, 50);
    freezer.truncate(7).unwrap();
    assert_eq!(freezer.number(), 8);
    for i in 1..=7u8 {
        assert_eq!(freezer.retrieve(i.into()).unwrap(), Some(make_bytes(15, i)));
    }
    assert_eq!(freezer.retrieve(8).unwrap(), None);
    freezer.append(8, &make_bytes(4, 200)).unwrap();
    assert_eq!(freezer.retrieve(8).unwrap(), Some(make_bytes(4, 200)));
    assert_eq!(freezer.retrieve(7).unwrap(), Some(make_bytes(15, 7)));
}

#[test]
fn truncate_past_the_end_is_a_no_op() {
    let mut freezer = filled(5, 50);
    freezer.truncate(5).unwrap();
    freezer.truncate(100).unwrap();
    assert_eq!(freezer.number(), 6);
    assert_eq!(freezer.retrieve(5).unwrap(), Some(make_bytes(15, 5)));
}

#[test]
fn truncate_to_zero_empties() {
    let mut freezer = filled(5, 50);
    freezer.truncate(0).unwrap();
    assert_eq!(freezer.number(), 1);
    assert_eq!(freezer.retrieve(1).unwrap(), None);
    assert_eq!(freezer.head.file_id, 0);
    assert_eq!(freezer.head.bytes, 0);
    assert_eq!(freezer.index.len(), 6);
}

#[test]
fn records_never_straddle_the_cap() {
    let freezer = filled(40, 50);
    let mut i = 6;
    while i < freezer.index.len() {
        let end = (freezer.index[i + 4] as u32) * 256 + freezer.index[i + 5] as u32;
        assert!(end <= 50);
        i += 6;
    }
}

#[test]
fn handles_stay_within_limit() {
    let mut freezer = FreezerFilesBuilder::new(Volume::new())
        .max_file_size(10)
        .open_files_limit(3)
        .build()
        .unwrap();
    freezer.preopen().unwrap();
    for i in 1..40u8 {
        freezer.append(i.into(), &make_bytes(15, i)).unwrap();
    }
    for i in 1..40u8 {
        freezer.retrieve(i.into()).unwrap();
        assert!(freezer.files.order.len() <= 3);
    }
    // the head is read without the cache
    assert!(!freezer.files.order.contains(&freezer.head.file_id));
}

#[test]
fn cache_evicts_least_recently_used() {
    let mut cache = FileCache::new(2);
    assert!(!cache.touch(1));
    assert!(!cache.touch(2));
    assert!(cache.touch(1));
    assert_eq!(cache.order, vec![2, 1]);
    assert!(!cache.touch(3));
    assert_eq!(cache.order, vec![1, 3]);
    cache.invalidate(1);
    assert_eq!(cache.order, vec![3]);
    cache.touch(7);
    cache.retain_below(5);
    assert_eq!(cache.order, vec![3]);
}

#[test]
fn zero_capacity_cache_holds_nothing() {
    let mut cache = FileCache::new(0);
    assert!(!cache.touch(1));
    assert!(cache.order.is_empty());
}

#[test]
fn compression_stores_encoded_bytes() {
    let mut freezer = open_with(Volume::new(), 50, true);
    let payload = make_bytes(40, 3);
    freezer.append(1, &payload).unwrap();
    assert!(freezer.head.file.len() < 40);
    assert_ne!(freezer.head.file, payload);
    assert_eq!(freezer.retrieve_raw(1).unwrap(), Some(freezer.head.file.clone()));
    assert_eq!(freezer.retrieve(1).unwrap(), Some(payload));
}

#[test]
fn without_compression_bytes_are_stored_verbatim() {
    let mut freezer = FreezerFilesBuilder::new(Volume::new())
        .enable_compression(false)
        .max_file_size(50)
        .build()
        .unwrap();
    freezer.preopen().unwrap();
    freezer.append(1, &vec![1, 2, 3]).unwrap();
    assert_eq!(freezer.head.file, vec![1, 2, 3]);
}

#[test]
fn undecodable_record_is_reported() {
    let volume = Volume {
        index: vec![0, 0, 0, 0, 0, 0, 0, 0, 0, 0, 0, 3],
        data: vec![vec![0xff, 0xff, 0xff]],
    };
    let mut freezer = open_with(volume, 50, true);
    assert_eq!(freezer.retrieve(1), Err(FreezerError::DecompressFailed));
    assert_eq!(freezer.retrieve_raw(1).unwrap(), Some(vec![0xff, 0xff, 0xff]));
}

#[test]
fn decoded_record_maps_failure() {
    assert_eq!(decoded_record(None), Err(FreezerError::DecompressFailed));
    assert_eq!(decoded_record(Some(vec![4])), Ok(Some(vec![4])));
}
