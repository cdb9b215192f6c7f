use std::collections::HashMap;

use bcdb::bcdb::{BatchState, BCDBFactory, BCDB, BCDBAPI};
use bcdb::datafile::DataFile;
use bcdb::error::BCDBError;
use bcdb::inmemory::InMemory;
use bcdb::linkfile::LinkFile;
use bcdb::logfile::LogFile;
use bcdb::hashing::hash_key;
use bcdb::offset::Offset;
use bcdb::table::{TableFile, BUCKETS};
use rand::{thread_rng, RngCore};

fn fresh() -> BCDB {
    let mut db = InMemory::new_db("first").unwrap();
    db.init().unwrap();
    db
}

fn reopen(log: &[u8], table: &[u8], data: &[u8], link: &[u8]) -> BCDB {
    BCDB::new(
        LogFile::from_bytes(log.to_vec()).unwrap(),
        TableFile::from_bytes(table.to_vec()).unwrap(),
        DataFile::from_bytes(data.to_vec()).unwrap(),
        LinkFile::from_bytes(link.to_vec()).unwrap(),
    )
    .unwrap()
}

#[test]
fn test_two_batches() {
    let mut db = InMemory::new_db("first").unwrap();
    db.init().unwrap();

    let mut rng = thread_rng();

    let mut check = HashMap::new();
    let mut key = [0x0u8; 32];
    let mut data = [0x0u8; 40];

    for _ in 0..10000 {
        rng.fill_bytes(&mut key);
        rng.fill_bytes(&mut data);
        let mut k = Vec::new();
        k.push(key.to_vec());
        let offset = db.put(k.clone(), &data).unwrap();
        check.insert(key, (offset, data));
    }
    db.batch().unwrap();

    for (k, (o, v)) in check.iter() {
        assert_eq!(db.get_unique(k).unwrap(), Some((*o, vec![k.to_vec()], v.to_vec())));
    }

    for _ in 0..10000 {
        rng.fill_bytes(&mut key);
        rng.fill_bytes(&mut data);
        let mut k = Vec::new();
        k.push(key.to_vec());
        let offset = db.put(k.clone(), &data).unwrap();
        check.insert(key, (offset, data));
    }
    db.batch().unwrap();

    for (k, (o, v)) in check.iter() {
        assert_eq!(db.get_unique(k).unwrap(), Some((*o, vec![k.to_vec()], v.to_vec())));
    }
    db.shutdown();
}

#[test]
fn test_multiple_keys() {
    let mut db = InMemory::new_db("first").unwrap();
    db.init().unwrap();

    let mut rng = thread_rng();

    let mut check = HashMap::new();
    let mut key1 = [0x0u8; 32];
    let mut key2 = [0x0u8; 32];
    let mut data = [0x0u8; 40];

    for _ in 0..1000 {
        rng.fill_bytes(&mut key1);
        rng.fill_bytes(&mut key2);
        rng.fill_bytes(&mut data);
        check.insert((key1, key2), data);
        db.put(vec![key1.to_vec(), key2.to_vec()], &data).unwrap();
    }
    db.batch().unwrap();

    for v2 in check.keys() {
        assert_eq!(
            db.get(&v2.0).unwrap().into_iter().next().unwrap(),
            db.get(&v2.1).unwrap().into_iter().next().unwrap()
        );
    }
    db.shutdown();
}

#[test]
fn test_non_unique_keys_dedup() {
    let mut db = InMemory::new_db("first").unwrap();
    db.init().unwrap();

    let mut rng = thread_rng();

    let mut check = HashMap::new();
    let mut key = [0x0u8; 32];
    let mut data1 = [0x0u8; 40];
    let mut data2 = [0x0u8; 40];

    for _ in 0..10000 {
        rng.fill_bytes(&mut key);
        rng.fill_bytes(&mut data1);
        rng.fill_bytes(&mut data2);
        db.put(vec![key.to_vec()], &data1).unwrap();
        db.put(vec![key.to_vec()], &data2).unwrap();
        check.insert(key, data2);
    }
    db.batch().unwrap();
    // check logical overwrite
    for (k, d) in &check {
        let mut result = db.get(k).unwrap().into_iter();
        let os0 = result.next().unwrap();
        let os1 = result.next().unwrap();
        assert!(os0.0 > os1.0);
        assert_eq!(os0.2.as_slice(), &d[..])
    }

    db.shutdown();
}

#[test]
fn overwrite_keeps_the_older_record_behind_the_newer() {
    let mut db = fresh();
    let k1 = b"k1".to_vec();
    let o1 = db.put(vec![k1.clone()], b"A").unwrap();
    let o2 = db.put(vec![k1.clone()], b"B").unwrap();
    assert!(o2 > o1);
    db.batch().unwrap();
    assert_eq!(db.get_unique(&k1).unwrap(), Some((o2, vec![k1.clone()], b"B".to_vec())));
    assert_eq!(
        db.get(&k1).unwrap(),
        vec![(o2, vec![k1.clone()], b"B".to_vec()), (o1, vec![k1.clone()], b"A".to_vec())]
    );
}

#[test]
fn first_record_has_address_one_and_the_next_follows_it() {
    let mut db = fresh();
    let o1 = db.put(vec![b"k".to_vec()], b"A").unwrap();
    // header 8, one key of one byte with its length, payload 1
    let o2 = db.put(vec![b"k".to_vec()], b"B").unwrap();
    assert_eq!(o1, Offset { value: 1 });
    assert_eq!(o2, Offset { value: 12 });
    assert_eq!(o1.as_u64(), 1);
}

#[test]
fn last_put_wins_across_batches() {
    let mut db = fresh();
    let key = b"account".to_vec();
    let mut greatest = Offset { value: 0 };
    for round in 0u8..5 {
        for step in 0u8..4 {
            let o = db.put(vec![key.clone()], &[round, step]).unwrap();
            assert!(o > greatest);
            greatest = o;
            db.put(vec![vec![round, step, 7]], b"other").unwrap();
        }
        db.batch().unwrap();
        let (o, keys, payload) = db.get_unique(&key).unwrap().unwrap();
        assert_eq!(o, greatest);
        assert_eq!(keys, vec![key.clone()]);
        assert_eq!(payload, vec![round, 3]);
    }
}

#[test]
fn history_is_newest_first() {
    let mut db = fresh();
    let key = b"k".to_vec();
    let mut offsets = Vec::new();
    for i in 0u8..6 {
        offsets.push(db.put(vec![key.clone()], &[i]).unwrap());
        if i == 2 {
            db.batch().unwrap();
        }
    }
    db.batch().unwrap();
    let found = db.get(&key).unwrap();
    assert_eq!(found.len(), 6);
    for (i, hit) in found.iter().enumerate() {
        assert_eq!(hit.0, offsets[5 - i]);
        assert_eq!(hit.2, vec![(5 - i) as u8]);
    }
    for pair in found.windows(2) {
        assert!(pair[0].0 > pair[1].0);
    }
}

#[test]
fn keys_put_together_share_one_record() {
    let mut db = fresh();
    let a = b"alpha".to_vec();
    let b = b"beta".to_vec();
    let o = db.put(vec![a.clone(), b.clone()], b"both").unwrap();
    db.batch().unwrap();
    let by_a = db.get(&a).unwrap();
    let by_b = db.get(&b).unwrap();
    assert_eq!(by_a, by_b);
    assert_eq!(by_a, vec![(o, vec![a.clone(), b.clone()], b"both".to_vec())]);
}

#[test]
fn n_puts_give_n_distinct_offsets() {
    let mut db = fresh();
    let key = b"same".to_vec();
    let n = 25;
    for i in 0..n {
        db.put(vec![key.clone()], &[i as u8]).unwrap();
    }
    db.batch().unwrap();
    let found = db.get(&key).unwrap();
    assert_eq!(found.len(), n);
    let mut offsets: Vec<Offset> = found.iter().map(|hit| hit.0).collect();
    offsets.sort();
    offsets.dedup();
    assert_eq!(offsets.len(), n);
}

#[test]
fn a_key_that_is_repeated_in_one_put_is_listed_once_for_each() {
    let mut db = fresh();
    let key = b"twice".to_vec();
    let o = db.put(vec![key.clone(), key.clone()], b"x").unwrap();
    let record = (o, vec![key.clone(), key.clone()], b"x".to_vec());
    assert_eq!(db.get(&key).unwrap(), vec![record.clone(), record.clone()]);
    assert_eq!(db.get_unique(&key).unwrap(), Some(record));
}

#[test]
fn what_was_put_is_found_before_the_batch_too() {
    let mut db = fresh();
    let key = b"k".to_vec();
    let o1 = db.put(vec![key.clone()], b"A").unwrap();
    db.batch().unwrap();
    let o2 = db.put(vec![key.clone()], b"B").unwrap();
    let before = db.get(&key).unwrap();
    assert_eq!(
        before,
        vec![(o2, vec![key.clone()], b"B".to_vec()), (o1, vec![key.clone()], b"A".to_vec())]
    );
    db.batch().unwrap();
    assert_eq!(db.get(&key).unwrap(), before);
}

#[test]
fn unknown_key_finds_nothing() {
    let mut db = fresh();
    db.put(vec![b"here".to_vec()], b"A").unwrap();
    db.batch().unwrap();
    assert_eq!(db.get(b"absent").unwrap(), vec![]);
    assert_eq!(db.get_unique(b"absent").unwrap(), None);
}

#[test]
fn record_without_keys_is_stored() {
    let mut db = fresh();
    db.put(vec![], b"nobody finds this by key").unwrap();
    let o = db.put(vec![], b"").unwrap();
    assert_eq!(db.get_content(o).unwrap(), (vec![], vec![]));
}

#[test]
fn crash_after_a_batch_restores_that_batch() {
    let mut db = fresh();
    let k1 = b"k1".to_vec();
    let k2 = b"k2".to_vec();
    let k3 = b"k3".to_vec();

    let o1 = db.put(vec![k1.clone()], b"A").unwrap();
    db.batch().unwrap();
    let first = (
        db.log.bytes.clone(),
        db.table.bytes.clone(),
        db.data.bytes.clone(),
        db.link.bytes.clone(),
    );

    let o2 = db.put(vec![k1.clone()], b"B").unwrap();
    let o3 = db.put(vec![k2.clone()], b"C").unwrap();
    db.batch().unwrap();
    let second = (
        db.log.bytes.clone(),
        db.table.bytes.clone(),
        db.data.bytes.clone(),
        db.link.bytes.clone(),
    );

    // a third batch that is never completed
    db.put(vec![k3.clone()], b"D").unwrap();
    db.put(vec![k1.clone()], b"E").unwrap();
    let late_data = db.data.bytes.clone();
    assert!(late_data.len() > second.2.len());

    // the files exactly as they were after the first batch
    let at_first = reopen(&first.0, &first.1, &first.2, &first.3);
    assert_eq!(at_first.get_unique(&k1).unwrap(), Some((o1, vec![k1.clone()], b"A".to_vec())));
    assert_eq!(at_first.get_unique(&k2).unwrap(), None);

    // the second batch, with the content that the unfinished one appended
    let at_second = reopen(&second.0, &second.1, &late_data, &second.3);
    assert_eq!(at_second.data.bytes, second.2);
    assert_eq!(at_second.table.bytes, second.1);
    assert_eq!(at_second.link.bytes, second.3);
    assert_eq!(
        at_second.get(&k1).unwrap(),
        vec![(o2, vec![k1.clone()], b"B".to_vec()), (o1, vec![k1.clone()], b"A".to_vec())]
    );
    assert_eq!(at_second.get_unique(&k2).unwrap(), Some((o3, vec![k2.clone()], b"C".to_vec())));
    assert_eq!(at_second.get_unique(&k3).unwrap(), None);
    assert_eq!(at_second.data_iterator().unwrap().len(), 3);
}

#[test]
fn reopened_store_goes_on_where_the_commit_was() {
    let mut db = fresh();
    let key = b"k".to_vec();
    let o1 = db.put(vec![key.clone()], b"A").unwrap();
    db.batch().unwrap();
    let mut again = reopen(&db.log.bytes, &db.table.bytes, &db.data.bytes, &db.link.bytes);
    let o2 = again.put(vec![key.clone()], b"B").unwrap();
    again.batch().unwrap();
    assert_eq!(
        again.get(&key).unwrap(),
        vec![(o2, vec![key.clone()], b"B".to_vec()), (o1, vec![key.clone()], b"A".to_vec())]
    );
}

#[test]
fn content_without_key_comes_back_exactly() {
    let mut db = fresh();
    let payload = b"only the address finds this".to_vec();
    let o = db.put_content(&payload).unwrap();
    assert_eq!(db.get_content(o).unwrap(), (Vec::<Vec<u8>>::new(), payload.clone()));
    db.batch().unwrap();
    assert_eq!(db.get_content(o).unwrap(), (Vec::<Vec<u8>>::new(), payload));
}

#[test]
fn get_content_gives_keys_of_a_keyed_record() {
    let mut db = fresh();
    let keys = vec![b"a".to_vec(), b"bb".to_vec()];
    let o = db.put(keys.clone(), b"payload").unwrap();
    assert_eq!(db.get_content(o).unwrap(), (keys, b"payload".to_vec()));
}

#[test]
fn get_content_names_the_address_that_holds_no_record() {
    let mut db = fresh();
    let o = db.put(vec![b"a".to_vec()], b"payload").unwrap();
    let absent = Offset { value: 0 };
    let beyond = Offset { value: 1000 };
    let inside = Offset { value: o.as_u64() + 13 };
    assert_eq!(db.get_content(absent), Err(BCDBError::Corrupted(absent)));
    assert_eq!(db.get_content(beyond), Err(BCDBError::Corrupted(beyond)));
    assert_eq!(db.get_content(inside), Err(BCDBError::Corrupted(inside)));
}

#[test]
fn put_fails_with_256_keys() {
    let mut db = fresh();
    let keys: Vec<Vec<u8>> = (0..256u32).map(|i| i.to_be_bytes().to_vec()).collect();
    assert_eq!(db.put(keys, b"x"), Err(BCDBError::DoesNotFit));
    assert!(db.data.bytes.is_empty());
    let keys: Vec<Vec<u8>> = (0..255u32).map(|i| i.to_be_bytes().to_vec()).collect();
    let o = db.put(keys.clone(), b"x").unwrap();
    assert_eq!(db.get_unique(&keys[254]).unwrap(), Some((o, keys.clone(), b"x".to_vec())));
}

#[test]
fn put_fails_with_a_key_of_256_bytes() {
    let mut db = fresh();
    assert_eq!(db.put(vec![b"ok".to_vec(), vec![7u8; 256]], b"x"), Err(BCDBError::DoesNotFit));
    assert!(db.data.bytes.is_empty());
    assert_eq!(db.get(b"ok").unwrap(), vec![]);
    let key = vec![7u8; 255];
    let o = db.put(vec![key.clone()], b"x").unwrap();
    assert_eq!(db.get_unique(&key).unwrap(), Some((o, vec![key.clone()], b"x".to_vec())));
}

#[test]
fn put_fails_with_a_payload_of_8_mib() {
    let mut db = fresh();
    let payload = vec![1u8; 1 << 23];
    assert_eq!(db.put(vec![b"k".to_vec()], &payload), Err(BCDBError::DoesNotFit));
    assert_eq!(db.put_content(&payload), Err(BCDBError::DoesNotFit));
    assert!(db.data.bytes.is_empty());
    let o = db.put(vec![b"k".to_vec()], &payload[1..]).unwrap();
    let (keys, back) = db.get_content(o).unwrap();
    assert_eq!(keys, vec![b"k".to_vec()]);
    assert_eq!(back.len(), (1 << 23) - 1);
    assert!(db.put_content(&payload[1..]).is_ok());
}

#[test]
fn shutdown_closes_the_store() {
    let mut db = fresh();
    assert!(db.ready_now());
    assert_eq!(db.state, BatchState::Open);
    let o = db.put(vec![b"k".to_vec()], b"A").unwrap();
    db.batch().unwrap();
    assert!(db.ready_now());
    db.shutdown();
    assert!(!db.ready_now());
    assert_eq!(db.state, BatchState::Closed);
    // reading stays possible
    assert_eq!(db.get_unique(b"k").unwrap(), Some((o, vec![b"k".to_vec()], b"A".to_vec())));
}

#[test]
fn init_empties_the_logs() {
    let mut db = InMemory::new_db("first").unwrap();
    db.put(vec![b"k".to_vec()], b"A").unwrap();
    assert!(!db.data.bytes.is_empty());
    db.init().unwrap();
    assert!(db.data.bytes.is_empty());
    assert!(db.link.bytes.is_empty());
    assert_eq!(db.log.bytes.len(), 4096);
    assert_eq!(&db.log.bytes[..20], &[1u8, 0, 0, 0, 0, 0, 0, 0, 0, 0, 0, 0, 0, 0, 0, 0, 0, 0, 0, 0][..]);
}

#[test]
fn batch_records_the_lengths_of_the_regions() {
    let mut db = fresh();
    db.put(vec![b"k".to_vec()], b"A").unwrap();
    db.batch().unwrap();
    // one record of 11 bytes, the table up to the page of the key's bucket,
    // one link record of 12 + 10 bytes
    let page = (hash_key(b"k") as usize % BUCKETS) / 680;
    let table_len = (page + 1) * 4080;
    assert_eq!(db.data.bytes.len(), 11);
    assert_eq!(db.table.bytes.len(), table_len);
    assert_eq!(db.link.bytes.len(), 22);
    assert_eq!(db.log.bytes.len(), 4096);
    assert_eq!(&db.log.bytes[..8], &[1u8, 0, 0, 0, 0, 0, 0, 11][..]);
    assert_eq!(&db.log.bytes[8..14], &Offset { value: table_len as u64 }.to_bytes()[..]);
    assert_eq!(&db.log.bytes[14..20], &[0u8, 0, 0, 0, 0, 22][..]);
}

#[test]
fn iterators_list_everything_ever_written() {
    let mut db = fresh();
    let key = b"k".to_vec();
    let o1 = db.put(vec![key.clone()], b"A").unwrap();
    let o2 = db.put_content(b"loose").unwrap();
    db.batch().unwrap();
    let o3 = db.put(vec![key.clone()], b"B").unwrap();
    db.batch().unwrap();

    assert_eq!(
        db.data_iterator().unwrap(),
        vec![
            (o1, vec![key.clone()], b"A".to_vec()),
            (o2, vec![], b"loose".to_vec()),
            (o3, vec![key.clone()], b"B".to_vec()),
        ]
    );

    let tag = hash_key(&key);
    let first = Offset { value: 1 };
    let second = Offset { value: 23 };
    assert_eq!(
        db.link_iterator().unwrap(),
        vec![
            (first, vec![(tag, o1)], Offset { value: 0 }),
            (second, vec![(tag, o3)], first),
        ]
    );
    assert_eq!(db.get_link(second).unwrap(), (vec![(tag, o3)], first));
    let nowhere = Offset { value: 5 };
    assert_eq!(db.get_link(nowhere), Err(BCDBError::Corrupted(nowhere)));

    let heads = db.bucket_iterator();
    assert_eq!(heads.len(), BUCKETS);
    let slot = tag as usize % BUCKETS;
    for (i, head) in heads.iter().enumerate() {
        if i == slot {
            assert_eq!(*head, second);
        } else {
            assert_eq!(head.as_u64(), 0);
        }
    }
}

#[test]
fn pending_entries_of_one_bucket_go_into_one_link_record() {
    let mut db = fresh();
    let key = b"k".to_vec();
    let o1 = db.put(vec![key.clone()], b"A").unwrap();
    let o2 = db.put(vec![key.clone()], b"B").unwrap();
    db.batch().unwrap();
    let tag = hash_key(&key);
    assert_eq!(
        db.link_iterator().unwrap(),
        vec![(Offset { value: 1 }, vec![(tag, o1), (tag, o2)], Offset { value: 0 })]
    );
}

#[test]
fn lookup_reports_a_head_that_points_nowhere() {
    let mut db = fresh();
    let key = b"k".to_vec();
    db.put(vec![key.clone()], b"A").unwrap();
    db.batch().unwrap();
    // the link log is lost, table and recovery log are not
    let broken = BCDB::new(
        LogFile::new(),
        TableFile::from_bytes(db.table.bytes.clone()).unwrap(),
        DataFile::from_bytes(db.data.bytes.clone()).unwrap(),
        LinkFile::new(),
    )
    .unwrap();
    assert_eq!(broken.get(&key), Err(BCDBError::Corrupted(Offset { value: 1 })));
    assert_eq!(broken.get_unique(&key), Err(BCDBError::Corrupted(Offset { value: 1 })));
}

#[test]
fn get_unique_stops_at_the_newest_record() {
    let mut db = fresh();
    let key = b"k".to_vec();
    db.put(vec![key.clone()], b"A").unwrap();
    db.batch().unwrap();
    // the link log is lost; a put after that is found all the same
    let mut broken = BCDB::new(
        LogFile::new(),
        TableFile::from_bytes(db.table.bytes.clone()).unwrap(),
        DataFile::from_bytes(db.data.bytes.clone()).unwrap(),
        LinkFile::new(),
    )
    .unwrap();
    let o = broken.put(vec![key.clone()], b"B").unwrap();
    assert_eq!(broken.get_unique(&key).unwrap(), Some((o, vec![key.clone()], b"B".to_vec())));
    assert_eq!(broken.get(&key), Err(BCDBError::Corrupted(Offset { value: 1 })));
}

#[test]
fn a_chain_entry_without_a_record_fails_the_lookup() {
    let mut db = fresh();
    let key = b"k".to_vec();
    let o = db.put(vec![key.clone()], b"A").unwrap();
    db.batch().unwrap();
    // the content log is lost, the index is not
    let broken = BCDB::new(
        LogFile::new(),
        TableFile::from_bytes(db.table.bytes.clone()).unwrap(),
        DataFile::new(),
        LinkFile::from_bytes(db.link.bytes.clone()).unwrap(),
    )
    .unwrap();
    assert_eq!(broken.get(&key), Err(BCDBError::Corrupted(o)));
    assert_eq!(broken.get_unique(&key), Err(BCDBError::Corrupted(o)));
    assert_eq!(broken.get(b"other").unwrap(), vec![]);
}

#[test]
fn put_fails_when_the_content_log_is_full() {
    // room for two records of 11 bytes, not for three
    let mut db =
        BCDB::new(LogFile::new(), TableFile::new(), DataFile::with_limit(30), LinkFile::new())
            .unwrap();
    db.init().unwrap();
    let key = b"k".to_vec();
    let o1 = db.put(vec![key.clone()], b"A").unwrap();
    let o2 = db.put(vec![key.clone()], b"B").unwrap();
    assert_eq!(db.put(vec![key.clone()], b"C"), Err(BCDBError::IO));
    assert_eq!(db.put_content(b"0123456789abcdef"), Err(BCDBError::IO));
    // nothing changed, and what fits is still taken
    assert_eq!(db.data.bytes.len(), 22);
    assert!(db.ready_now());
    assert_eq!(
        db.get(&key).unwrap(),
        vec![(o2, vec![key.clone()], b"B".to_vec()), (o1, vec![key.clone()], b"A".to_vec())]
    );
    assert!(db.put_content(b"").is_ok());
    assert_eq!(db.data.bytes.len(), 30);
    assert_eq!(db.put_content(b""), Err(BCDBError::IO));
    db.batch().unwrap();
    assert_eq!(db.get_unique(&key).unwrap(), Some((o2, vec![key.clone()], b"B".to_vec())));
}

#[test]
fn batch_fails_when_the_link_log_is_full() {
    // room for one link record with one entry, not for two
    let mut db =
        BCDB::new(LogFile::new(), TableFile::new(), DataFile::new(), LinkFile::with_limit(30))
            .unwrap();
    db.init().unwrap();
    let a = b"a".to_vec();
    let b = b"b".to_vec();
    assert_ne!(hash_key(&a) as usize % BUCKETS, hash_key(&b) as usize % BUCKETS);
    let oa = db.put(vec![a.clone()], b"A").unwrap();
    db.batch().unwrap();
    assert_eq!(db.link.bytes.len(), 22);
    let log_before = db.log.bytes.clone();

    db.put(vec![b.clone()], b"B").unwrap();
    assert_eq!(db.batch(), Err(BCDBError::IO));
    assert!(!db.ready_now());
    assert_eq!(db.state, BatchState::Committing);
    assert_eq!(db.link.bytes.len(), 22);
    // the recovery log still holds the snapshot of the batch before
    assert_eq!(db.log.bytes, log_before);

    // opened again, the store is where that batch left it
    let again = reopen(&db.log.bytes, &db.table.bytes, &db.data.bytes, &db.link.bytes);
    assert_eq!(again.get_unique(&a).unwrap(), Some((oa, vec![a.clone()], b"A".to_vec())));
    assert_eq!(again.get_unique(&b).unwrap(), None);
    assert_eq!(again.data.bytes.len(), 11);
}

#[test]
fn a_limit_beyond_the_address_space_is_cut_down() {
    assert_eq!(DataFile::with_limit(u64::MAX).limit, (1 << 48) - 1);
    assert_eq!(LinkFile::with_limit(1 << 50).limit, (1 << 48) - 1);
    assert_eq!(DataFile::with_limit(5).limit, 5);
    assert_eq!(DataFile::new().limit, (1 << 48) - 1);
    assert_eq!(LinkFile::from_bytes(vec![0u8; 12]).unwrap().limit, (1 << 48) - 1);
}
