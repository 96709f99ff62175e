use freezer::bytes::make_bytes;
use freezer::freezer::{FreezerFiles, FreezerFilesBuilder, Volume};
use freezer::index::INDEX_ENTRY_SIZE;

fn open(volume: Volume, max_file_size: u32, compression: bool) -> FreezerFiles {
    let mut freezer = FreezerFilesBuilder::new(volume)
        .enable_compression(compression)
        .max_file_size(max_file_size)
        .build()
        .unwrap();
    freezer.preopen().unwrap();
    freezer
}

#[test]
fn basic() {
    let mut freezer = FreezerFilesBuilder::new(Volume::new())
        .max_file_size(50)
        .build()
        .unwrap();
    freezer.preopen().unwrap();

    for i in 1..100u8 {
        let data = make_bytes(15, i);
        freezer.append(i.into(), &data).unwrap();
    }

    for i in 1..50u8 {
        let expect = make_bytes(15, i);
        let actual = freezer.retrieve(i.into()).unwrap();
        assert_eq!(Some(expect), actual);
    }

    for i in 100..255u8 {
        let data = make_bytes(15, i);
        freezer.append(i.into(), &data).unwrap();
    }

    for i in 1..255u8 {
        let expect = make_bytes(15, i);
        let actual = freezer.retrieve(i.into()).unwrap();
        assert_eq!(Some(expect), actual);
    }
}

#[test]
fn reopen() {
    let volume = {
        let mut freezer = FreezerFilesBuilder::new(Volume::new())
            .max_file_size(50)
            .build()
            .unwrap();

        freezer.preopen().unwrap();
        for i in 1..255u8 {
            let data = make_bytes(15, i);
            freezer.append(i.into(), &data).unwrap();
        }
        freezer.close()
    };

    let mut freezer = FreezerFilesBuilder::new(volume)
        .max_file_size(50)
        .build()
        .unwrap();
    freezer.preopen().unwrap();

    for i in 1..255u8 {
        let expect = make_bytes(15, i);
        let actual = freezer.retrieve(i.into()).unwrap();
        assert_eq!(Some(expect), actual);
    }
}

#[test]
fn try_repair_dangling_head1() {
    let volume = {
        let mut freezer = FreezerFilesBuilder::new(Volume::new())
            .max_file_size(50)
            .build()
            .unwrap();

        freezer.preopen().unwrap();
        for i in 1..255u8 {
            let data = make_bytes(15, i);
            freezer.append(i.into(), &data).unwrap();
        }

        let len = freezer.index.len();
        freezer.index.truncate(len - 4);
        freezer.close()
    };

    let mut freezer = FreezerFilesBuilder::new(volume)
        .max_file_size(50)
        .build()
        .unwrap();
    freezer.preopen().unwrap();

    assert_eq!(freezer.retrieve(0xfd).unwrap(), Some(make_bytes(15, 0xfd)));
    assert_eq!(freezer.retrieve(0xff).unwrap(), None);
}

#[test]
fn try_repair_dangling_head2() {
    let volume = {
        let mut freezer = FreezerFilesBuilder::new(Volume::new())
            .max_file_size(50)
            .build()
            .unwrap();

        freezer.preopen().unwrap();
        for i in 1..255u8 {
            let data = make_bytes(15, i);
            freezer.append(i.into(), &data).unwrap();
        }

        freezer
            .index
            .truncate((INDEX_ENTRY_SIZE * 2 + INDEX_ENTRY_SIZE / 2) as usize);
        freezer.close()
    };
    let volume = {
        let mut freezer = FreezerFilesBuilder::new(volume)
            .max_file_size(50)
            .build()
            .unwrap();
        freezer.preopen().unwrap();
        assert_eq!(freezer.retrieve(1).unwrap(), Some(make_bytes(15, 1)));
        assert_eq!(freezer.retrieve(2).unwrap(), None);

        // appending resumes at record 2
        for i in 2..255u8 {
            let data = make_bytes(15, i);
            freezer.append(i.into(), &data).unwrap();
        }
        freezer.close()
    };

    let mut freezer = FreezerFilesBuilder::new(volume)
        .max_file_size(50)
        .build()
        .unwrap();
    freezer.preopen().unwrap();

    for i in 1..255u8 {
        let expect = make_bytes(15, i);
        let actual = freezer.retrieve(i.into()).unwrap();
        assert_eq!(Some(expect), actual);
    }
}

#[test]
fn try_repair_dangling_index() {
    let volume = {
        let mut freezer = open(Volume::new(), 50, false);
        for i in 1..10u8 {
            let data = make_bytes(15, i);
            freezer.append(i.into(), &data).unwrap();
        }

        for i in 1..10u8 {
            let expect = make_bytes(15, i);
            let actual = freezer.retrieve(i.into()).unwrap();
            assert_eq!(Some(expect), actual);
        }

        freezer.head.file.truncate(20);
        freezer.close()
    };

    let mut freezer = open(volume, 50, false);

    assert_eq!(freezer.number(), 8);
    assert_eq!(freezer.head.file.len(), 15);
    for i in 1..8u8 {
        let expect = make_bytes(15, i);
        let actual = freezer.retrieve(i.into()).unwrap();
        assert_eq!(Some(expect), actual);
    }
}

#[test]
fn truncate() {
    let volume = {
        let mut freezer = open(Volume::new(), 50, false);
        for i in 1..30u8 {
            let data = make_bytes(15, i);
            freezer.append(i.into(), &data).unwrap();
        }

        for i in 1..30u8 {
            let expect = make_bytes(15, i);
            let actual = freezer.retrieve(i.into()).unwrap();
            assert_eq!(Some(expect), actual);
        }

        let retrieve_out_of_bound = freezer.retrieve(30).unwrap();
        assert_eq!(None, retrieve_out_of_bound);
        freezer.close()
    };

    let volume = {
        let mut freezer = open(volume, 50, false);
        freezer.truncate(10).unwrap();

        for i in 1..11u8 {
            let expect = make_bytes(15, i);
            let actual = freezer.retrieve(i.into()).unwrap();
            assert_eq!(Some(expect), actual);
        }

        let retrieve_out_of_bound = freezer.retrieve(11).unwrap();
        assert_eq!(None, retrieve_out_of_bound);
        assert_eq!(freezer.number(), 11);
        assert_eq!(freezer.head.bytes, 15);
        freezer.close()
    };

    let mut freezer = open(volume, 50, false);
    freezer.truncate(1).unwrap();

    let expect = make_bytes(15, 1);
    let actual = freezer.retrieve(1).unwrap();
    assert_eq!(Some(expect), actual);

    let retrieve_out_of_bound = freezer.retrieve(2).unwrap();
    assert_eq!(None, retrieve_out_of_bound);
}

#[test]
fn open_files_limit_retrieve() {
    let mut freezer = FreezerFilesBuilder::new(Volume::new())
        .enable_compression(false)
        .max_file_size(10)
        .open_files_limit(2)
        .build()
        .unwrap();

    freezer.preopen().unwrap();
    for i in 1..100u8 {
        let data = make_bytes(15, i);
        freezer.append(i.into(), &data).unwrap();
    }

    assert_eq!(freezer.number(), 100);
    for i in 1..100u8 {
        let expect = make_bytes(15, i);
        let actual = freezer.retrieve(i.into()).unwrap();
        assert_eq!(Some(expect), actual);
        assert!(freezer.files.order.len() <= 2);
    }

    for i in (1..100u8).rev() {
        let expect = make_bytes(15, i);
        let actual = freezer.retrieve(i.into()).unwrap();
        assert_eq!(Some(expect), actual);
        assert!(freezer.files.order.len() <= 2);
    }
}
