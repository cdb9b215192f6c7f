use bcdb::bcdb::{BCDB, BCDBAPI};
use bcdb::bytes::{bytes_eq, contains_key, copy_range, push_all, read_u32, write_u32};
use bcdb::datafile::{Content, DataFile};
use bcdb::error::BCDBError;
use bcdb::linkfile::LinkFile;
use bcdb::logfile::{LogFile, LogPage};
use bcdb::hashing::hash_key;
use bcdb::memtable::MemTable;
use bcdb::offset::{Offset, MAX_OFFSET};
use bcdb::table::{make_page, TableFile, BUCKETS, PAGE_SIZE};

#[test]
fn offset_is_six_bytes_big_endian() {
    let o = Offset::new(0x0102_0304_0506).unwrap();
    assert_eq!(o.to_bytes(), [1, 2, 3, 4, 5, 6]);
    assert_eq!(Offset::from_bytes(&[1, 2, 3, 4, 5, 6]), o);
    assert_eq!(Offset::from_bytes(&[0, 0, 0, 0, 1, 0]).as_u64(), 256);
    assert_eq!(Offset::new(MAX_OFFSET).unwrap().to_bytes(), [0xff; 6]);
    assert_eq!(Offset::from_bytes(&[0xff; 6]).as_u64(), (1u64 << 48) - 1);
    assert_eq!(Offset::absent().to_bytes(), [0; 6]);
}

#[test]
fn offset_has_48_bits() {
    assert_eq!(Offset::new(0), Some(Offset { value: 0 }));
    assert_eq!(Offset::new((1 << 48) - 1), Some(Offset { value: (1 << 48) - 1 }));
    assert_eq!(Offset::new(1 << 48), None);
    assert_eq!(Offset::new(u64::MAX), None);
}

#[test]
fn offset_is_read_and_written_in_place() {
    let mut out = vec![9u8];
    Offset { value: 0x0a0b_0c0d_0e0f }.write(&mut out);
    assert_eq!(out, vec![9, 0x0a, 0x0b, 0x0c, 0x0d, 0x0e, 0x0f]);
    assert_eq!(Offset::read(&out, 1).as_u64(), 0x0a0b_0c0d_0e0f);
}

#[test]
fn offsets_are_ordered_by_value() {
    assert!(Offset { value: 2 } > Offset { value: 1 });
    assert!(Offset { value: 1 << 40 } > Offset { value: 0xffff });
}

#[test]
fn byte_helpers() {
    let mut out = vec![1u8];
    push_all(&mut out, &[2, 3]);
    assert_eq!(out, vec![1, 2, 3]);
    assert_eq!(copy_range(&out, 1, 3), vec![2, 3]);
    assert_eq!(copy_range(&out, 2, 2), Vec::<u8>::new());
    assert!(bytes_eq(&[1, 2], &[1, 2]));
    assert!(!bytes_eq(&[1, 2], &[1, 3]));
    assert!(!bytes_eq(&[1, 2], &[1, 2, 3]));
    assert!(bytes_eq(&[], &[]));
    assert!(contains_key(&vec![vec![1], vec![2, 3]], &[2, 3]));
    assert!(!contains_key(&vec![vec![1], vec![2, 3]], &[2]));
    let mut out = Vec::new();
    write_u32(0x0102_0304, &mut out);
    assert_eq!(out, vec![1, 2, 3, 4]);
    assert_eq!(read_u32(&out, 0), 0x0102_0304);
    assert_eq!(read_u32(&[0xff, 0xff, 0xff, 0xff], 0), u32::MAX);
}

#[test]
fn hash_of_known_keys() {
    assert_eq!(hash_key(b""), 0x811c_9dc5);
    assert_eq!(hash_key(b"a"), 0xe40c_292c);
    assert_eq!(hash_key(b"foobar"), 0xbf9c_f968);
}

#[test]
fn content_record_layout() {
    let mut data = DataFile::new();
    let o = data.append_data(&vec![vec![0xaa], vec![0xbb, 0xcc]], &[1, 2, 3]).unwrap();
    assert_eq!(o.as_u64(), 1);
    assert_eq!(
        data.bytes,
        vec![1, 2, 0, 0, 0, 0, 0, 3, 1, 0xaa, 2, 0xbb, 0xcc, 1, 2, 3]
    );
    let e = data.append_data_extension(&[9]).unwrap();
    assert_eq!(e.as_u64(), 17);
    assert_eq!(&data.bytes[16..], &[2u8, 0, 0, 0, 0, 0, 0, 1, 9][..]);
    assert_eq!(data.len(), 25);
    assert_eq!(
        data.get_content(o).unwrap(),
        Content::Data(vec![vec![0xaa], vec![0xbb, 0xcc]], vec![1, 2, 3])
    );
    assert_eq!(data.get_content(e).unwrap(), Content::Extension(vec![9]));
}

#[test]
fn content_log_iterates_and_truncates() {
    let mut data = DataFile::new();
    let o1 = data.append_data(&vec![vec![1]], &[10]).unwrap();
    let o2 = data.append_data_extension(&[20, 21]).unwrap();
    let o3 = data.append_data(&vec![], &[]).unwrap();
    assert_eq!(
        data.iter().unwrap(),
        vec![(o1, vec![vec![1]], vec![10]), (o2, vec![], vec![20, 21]), (o3, vec![], vec![])]
    );
    data.truncate(o3.as_u64() - 1);
    assert_eq!(data.iter().unwrap(), vec![(o1, vec![vec![1]], vec![10]), (o2, vec![], vec![20, 21])]);
    data.truncate(1000);
    assert_eq!(data.iter().unwrap().len(), 2);
    // cut in the middle of the second record
    data.truncate(o2.as_u64() + 3);
    assert_eq!(data.iter(), Err(BCDBError::Corrupted(o2)));
    assert_eq!(data.get_content(o2), Err(BCDBError::Corrupted(o2)));
    assert_eq!(data.get_content(o1).unwrap(), Content::Data(vec![vec![1]], vec![10]));
    data.init();
    assert_eq!(data.iter().unwrap(), vec![]);
    assert_eq!(data.len(), 0);
}

#[test]
fn content_log_rejects_unknown_kind_and_keyed_extension() {
    let unknown = DataFile::from_bytes(vec![3, 0, 0, 0, 0, 0, 0, 0]).unwrap();
    let at = Offset { value: 1 };
    assert_eq!(unknown.get_content(at), Err(BCDBError::Corrupted(at)));
    let keyed = DataFile::from_bytes(vec![2, 1, 0, 0, 0, 0, 0, 0, 0]).unwrap();
    assert_eq!(keyed.get_content(at), Err(BCDBError::Corrupted(at)));
    let short = DataFile::from_bytes(vec![1, 0, 0, 0, 0, 0, 0, 2, 5]).unwrap();
    assert_eq!(short.get_content(at), Err(BCDBError::Corrupted(at)));
    let whole = DataFile::from_bytes(vec![1, 0, 0, 0, 0, 0, 0, 2, 5, 6]).unwrap();
    assert_eq!(whole.get_content(at).unwrap(), Content::Data(vec![], vec![5, 6]));
}

#[test]
fn content_log_limits() {
    let mut data = DataFile::new();
    let many: Vec<Vec<u8>> = (0..256).map(|_| vec![1u8]).collect();
    assert_eq!(data.append_data(&many, &[]), Err(BCDBError::DoesNotFit));
    assert_eq!(data.append_data(&vec![vec![0u8; 256]], &[]), Err(BCDBError::DoesNotFit));
    assert_eq!(data.append_data(&vec![], &vec![0u8; 1 << 23]), Err(BCDBError::DoesNotFit));
    assert_eq!(data.append_data_extension(&vec![0u8; 1 << 23]), Err(BCDBError::DoesNotFit));
    assert_eq!(data.len(), 0);
    assert!(data.append_data(&many[..255].to_vec(), &[]).is_ok());
}

#[test]
fn link_record_layout() {
    let mut link = LinkFile::new();
    let a = Offset { value: 0x11 };
    let b = Offset { value: 0x0102_0304_0506 };
    let first = link.append(&vec![(0xdead_beef, a)], Offset::absent()).unwrap();
    assert_eq!(first.as_u64(), 1);
    assert_eq!(
        link.bytes,
        vec![0, 0, 0, 0, 0, 1, 0, 0, 0, 0, 0, 0, 0xde, 0xad, 0xbe, 0xef, 0, 0, 0, 0, 0, 0x11]
    );
    let second = link.append(&vec![(1, a), (2, b)], first).unwrap();
    assert_eq!(second.as_u64(), 23);
    assert_eq!(link.len(), 22 + 32);
    assert_eq!(link.get_link(first).unwrap(), (vec![(0xdead_beef, a)], Offset::absent()));
    assert_eq!(link.get_link(second).unwrap(), (vec![(1, a), (2, b)], first));
    assert_eq!(
        link.iter().unwrap(),
        vec![(first, vec![(0xdead_beef, a)], Offset::absent()), (second, vec![(1, a), (2, b)], first)]
    );
    let inside = Offset { value: 30 };
    assert_eq!(link.get_link(inside), Err(BCDBError::Corrupted(inside)));
    assert_eq!(link.get_link(Offset::absent()), Err(BCDBError::Corrupted(Offset::absent())));
    link.truncate(22);
    assert_eq!(link.iter().unwrap().len(), 1);
    assert_eq!(link.get_link(second), Err(BCDBError::Corrupted(second)));
    link.truncate(25);
    assert_eq!(link.len(), 22);
    link.init();
    assert_eq!(link.len(), 0);
}

#[test]
fn link_log_reports_a_record_that_is_cut_short() {
    let mut link = LinkFile::new();
    let first = link.append(&vec![(1, Offset { value: 1 })], Offset::absent()).unwrap();
    let second = link.append(&vec![(2, Offset { value: 2 })], first).unwrap();
    link.truncate(40);
    assert_eq!(link.get_link(first).unwrap().0.len(), 1);
    assert_eq!(link.iter(), Err(BCDBError::Corrupted(second)));
}

#[test]
fn table_reads_what_was_patched() {
    let mut table = TableFile::new();
    assert_eq!(table.read_bucket(0).as_u64(), 0);
    assert_eq!(table.len(), 0);
    let mut mem = MemTable::new();
    mem.heads[681] = Offset { value: 77 };
    mem.heads[1359] = Offset { value: 0x0102_0304_0506 };
    let image = make_page(&mem.heads, 1);
    assert_eq!(image.len(), PAGE_SIZE);
    assert_eq!(&image[6..12], &[0u8, 0, 0, 0, 0, 77][..]);
    assert_eq!(&image[4074..], &[1u8, 2, 3, 4, 5, 6][..]);
    table.patch_page(1, &image).unwrap();
    assert_eq!(table.len(), 2 * PAGE_SIZE as u64);
    assert_eq!(table.read_bucket(681).as_u64(), 77);
    assert_eq!(table.read_bucket(1359).as_u64(), 0x0102_0304_0506);
    assert_eq!(table.read_bucket(680).as_u64(), 0);
    assert_eq!(table.read_bucket(0).as_u64(), 0);
    assert_eq!(table.read_bucket(1360).as_u64(), 0);
    assert_eq!(table.read_bucket(BUCKETS).as_u64(), 0);
    assert!(table.bytes[..PAGE_SIZE].iter().all(|b| *b == 0));

    let loaded = MemTable::load(&table);
    assert_eq!(loaded.iter(), mem.heads);

    assert_eq!(table.truncate(PAGE_SIZE as u64), Ok(()));
    assert_eq!(table.len(), PAGE_SIZE as u64);
    assert_eq!(table.read_bucket(681).as_u64(), 0);
    assert_eq!(table.truncate(3 * PAGE_SIZE as u64), Ok(()));
    assert_eq!(table.len(), PAGE_SIZE as u64);
}

#[test]
fn table_takes_whole_pages_only() {
    let mut table = TableFile::new();
    table.patch_page(0, &vec![1u8; PAGE_SIZE]).unwrap();
    let before = table.bytes.clone();
    assert_eq!(table.patch_page(32, &vec![0u8; PAGE_SIZE]), Err(BCDBError::Corrupted(Offset { value: 32 })));
    assert_eq!(table.patch_page(2, &vec![0u8; 10]), Err(BCDBError::Corrupted(Offset { value: 2 })));
    assert_eq!(table.truncate(100), Err(BCDBError::Corrupted(Offset { value: 100 })));
    assert_eq!(table.bytes, before);
    assert!(table.patch_page(31, &vec![0u8; PAGE_SIZE]).is_ok());
    assert_eq!(table.len(), 32 * PAGE_SIZE as u64);
    assert_eq!(
        TableFile::from_bytes(vec![0u8; 100]).err(),
        Some(BCDBError::Corrupted(Offset { value: 100 }))
    );
    assert_eq!(
        TableFile::from_bytes(vec![0u8; 33 * PAGE_SIZE]).err(),
        Some(BCDBError::Corrupted(Offset { value: 33 * PAGE_SIZE as u64 }))
    );
    assert!(TableFile::from_bytes(vec![0u8; 2 * PAGE_SIZE]).is_ok());
}

#[test]
fn recovery_log_pages() {
    let mut log = LogFile::new();
    assert_eq!(log.page_iter().unwrap(), vec![]);
    log.init(0x0102, 4080, 7);
    assert_eq!(log.bytes.len(), 4096);
    assert_eq!(&log.bytes[..20], &[1u8, 0, 0, 0, 0, 0, 1, 2, 0, 0, 0, 0, 0x0f, 0xf0, 0, 0, 0, 0, 0, 7][..]);
    assert!(log.bytes[20..].iter().all(|b| *b == 0));
    let image: Vec<u8> = (0..PAGE_SIZE).map(|i| (i % 251) as u8).collect();
    log.append_page(3, &image);
    assert_eq!(log.page_count(), 2);
    assert_eq!(&log.bytes[4096..4112], &[2u8, 0, 0, 0, 0, 0, 0, 3, 0, 0, 0, 0, 0, 0, 0, 0][..]);
    assert_eq!(&log.bytes[4112..], &image[..]);
    assert_eq!(
        log.page_iter().unwrap(),
        vec![
            LogPage::LengthSnapshot { data_len: 0x0102, table_len: 4080, link_len: 7 },
            LogPage::PagePatch { page: 3, image: image.clone() },
        ]
    );
    // a new snapshot drops the pages before it
    log.init(1, 0, 2);
    assert_eq!(
        log.page_iter().unwrap(),
        vec![LogPage::LengthSnapshot { data_len: 1, table_len: 0, link_len: 2 }]
    );
}

#[test]
fn recovery_log_rejects_what_is_no_page() {
    let mut log = LogFile::new();
    log.init(0, 0, 0);
    log.append_page(0, &vec![0u8; PAGE_SIZE]);
    let mut bytes = log.bytes.clone();
    bytes[4096] = 9;
    let bad = LogFile::from_bytes(bytes).unwrap();
    assert_eq!(bad.page_iter(), Err(BCDBError::Corrupted(Offset { value: 1 })));
    assert_eq!(
        LogFile::from_bytes(vec![1u8; 4096 + 5]).err(),
        Some(BCDBError::Corrupted(Offset { value: 1 }))
    );
}

#[test]
fn recovery_cuts_back_and_replays() {
    // content log with two records, of which the snapshot knows one
    let mut data = DataFile::new();
    let o1 = data.append_data(&vec![b"k".to_vec()], b"A").unwrap();
    let kept = data.len();
    data.append_data(&vec![b"k".to_vec()], b"B").unwrap();
    // link log with one record, and a second that the snapshot does not know
    let tag = hash_key(b"k");
    let mut link = LinkFile::new();
    let head = link.append(&vec![(tag, o1)], Offset::absent()).unwrap();
    let link_kept = link.len();
    link.append(&vec![(tag, Offset { value: 12 })], head).unwrap();
    // the table is empty, the log holds the page that was about to be written
    let slot = tag as usize % BUCKETS;
    let mut mem = MemTable::new();
    mem.heads[slot] = head;
    let page = slot / 680;
    let image = make_page(&mem.heads, page);
    let mut log = LogFile::new();
    log.init(kept, 0, link_kept);
    log.append_page(page as u64, &image);

    let db = BCDB::new(log, TableFile::new(), data, link).unwrap();
    assert_eq!(db.data.bytes.len() as u64, kept);
    assert_eq!(db.link.bytes.len() as u64, link_kept);
    assert_eq!(db.table.bytes.len(), (page + 1) * PAGE_SIZE);
    assert_eq!(db.table.read_bucket(slot), head);
    assert_eq!(db.bucket_iterator()[slot], head);
    assert_eq!(db.get(b"k").unwrap(), vec![(o1, vec![b"k".to_vec()], b"A".to_vec())]);
    // the first batch has started: the log holds the new snapshot only
    assert_eq!(
        db.log.page_iter().unwrap(),
        vec![LogPage::LengthSnapshot {
            data_len: kept,
            table_len: ((page + 1) * PAGE_SIZE) as u64,
            link_len: link_kept
        }]
    );
}

#[test]
fn recovery_rejects_a_log_that_does_not_start_with_a_snapshot() {
    let mut log = LogFile::new();
    log.append_page(0, &vec![0u8; PAGE_SIZE]);
    let r = BCDB::new(log, TableFile::new(), DataFile::new(), LinkFile::new());
    assert_eq!(r.err(), Some(BCDBError::Corrupted(Offset { value: 0 })));
}

#[test]
fn recovery_rejects_a_second_snapshot_and_a_bad_patch() {
    let mut log = LogFile::new();
    log.init(0, 0, 0);
    let mut twice = log.bytes.clone();
    twice.extend_from_slice(&log.bytes);
    let r = BCDB::new(
        LogFile::from_bytes(twice).unwrap(),
        TableFile::new(),
        DataFile::new(),
        LinkFile::new(),
    );
    assert_eq!(r.err(), Some(BCDBError::Corrupted(Offset { value: 1 })));

    log.append_page(40, &vec![0u8; PAGE_SIZE]);
    let r = BCDB::new(log, TableFile::new(), DataFile::new(), LinkFile::new());
    assert_eq!(r.err(), Some(BCDBError::Corrupted(Offset { value: 40 })));

    let mut log = LogFile::new();
    log.init(0, 17, 0);
    let r = BCDB::new(log, TableFile::new(), DataFile::new(), LinkFile::new());
    assert_eq!(r.err(), Some(BCDBError::Corrupted(Offset { value: 17 })));
}

#[test]
fn index_put_and_flush() {
    let mut mem = MemTable::new();
    let mut data = DataFile::new();
    let mut link = LinkFile::new();
    let mut table = TableFile::new();
    let mut log = LogFile::new();
    log.init(0, 0, 0);

    let keys = vec![b"one".to_vec(), b"two".to_vec()];
    let o = data.append_data(&keys, b"payload").unwrap();
    mem.put(&keys, o);
    let one = hash_key(b"one") as usize % BUCKETS;
    let two = hash_key(b"two") as usize % BUCKETS;
    assert_eq!(mem.pending[one], vec![(hash_key(b"one"), o)]);
    assert_eq!(mem.pending[two], vec![(hash_key(b"two"), o)]);
    assert_eq!(mem.get_unique(b"one", &data, &link).unwrap(), Some((o, keys.clone(), b"payload".to_vec())));

    mem.flush(&mut log, &mut table, &mut link).unwrap();
    assert!(mem.pending.iter().all(|p| p.is_empty()));
    assert_eq!(link.iter().unwrap().len(), 2);
    // one page image for each bucket that was flushed, after the snapshot
    assert_eq!(log.page_count(), 3);
    assert_eq!(table.read_bucket(one), mem.heads[one]);
    assert_eq!(table.read_bucket(two), mem.heads[two]);
    assert_ne!(mem.heads[one].as_u64(), 0);
    assert_eq!(mem.get(b"two", &data, &link).unwrap(), vec![(o, keys.clone(), b"payload".to_vec())]);
    // the last image in the log is the last page that was written
    let pages = log.page_iter().unwrap();
    let last = one.max(two) / 680;
    match &pages[2] {
        LogPage::PagePatch { page, image } => {
            assert_eq!(*page, last as u64);
            assert_eq!(&table.bytes[last * PAGE_SIZE..(last + 1) * PAGE_SIZE], &image[..]);
        }
        other => panic!("not a patch: {:?}", other),
    }
}

#[test]
fn engine_keeps_a_second_put_apart_from_a_put_without_key() {
    let mut db = BCDB::new(LogFile::new(), TableFile::new(), DataFile::new(), LinkFile::new()).unwrap();
    db.init().unwrap();
    let loose = db.put_content(b"loose").unwrap();
    let keyed = db.put(vec![b"k".to_vec()], b"keyed").unwrap();
    assert!(keyed > loose);
    db.batch().unwrap();
    assert_eq!(db.get(b"k").unwrap(), vec![(keyed, vec![b"k".to_vec()], b"keyed".to_vec())]);
    assert_eq!(db.get_content(loose).unwrap(), (vec![], b"loose".to_vec()));
}
