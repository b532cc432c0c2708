use bitcoinmw::base::error::Error;
use bitcoinmw::lmdb::db::Lmdb;
use bitcoinmw::lmdb::txn::KvStore;
use bitcoinmw::store::pmmr::Pmmr;

#[test]
fn test_pmmr1() -> Result<(), Error> {
    let db_dir = "bin/.pmmr1";
    let db_size = 100 * 1024 * 1024;
    let db_name = "mydb";

    let db = Lmdb::new(db_dir, db_name, db_size)?;

    let mut pmmr = Pmmr::new(db, "pmmr1")?;

    assert_eq!(pmmr.get_peaks(None)?.len(), 0);
    assert_eq!(pmmr.last_pos(None)?, 0);

    pmmr.append(&[0u8; 32], None)?;

    let peaks = pmmr.get_peaks(None)?;
    assert_eq!(peaks.len(), 1);
    assert_eq!(peaks[0].hash(), pmmr.hash_data(&[0u8; 32]));
    assert_eq!(peaks[0].height(), 0);
    assert_eq!(peaks[0].pos(), 0);

    assert_eq!(pmmr.last_pos(None)?, 1);

    pmmr.append(&[1u8; 32], None)?;

    assert_eq!(pmmr.last_pos(None)?, 3);

    let peaks = pmmr.get_peaks(None)?;
    assert_eq!(peaks.len(), 1);

    assert_eq!(peaks[0].height(), 1);
    assert_eq!(peaks[0].pos(), 2);
    let peak_hash = pmmr.hash_children(&pmmr.hash_data(&[0u8; 32]), &pmmr.hash_data(&[1u8; 32]));
    assert_eq!(peaks[0].hash(), peak_hash);

    pmmr.append(&[2u8; 32], None)?;

    let peaks = pmmr.get_peaks(None)?;
    assert_eq!(peaks.len(), 2);

    assert_eq!(peaks[0].hash(), peak_hash);
    assert_eq!(peaks[0].height(), 1);
    assert_eq!(peaks[0].pos(), 2);
    assert_eq!(peaks[1].hash(), pmmr.hash_data(&[2; 32]));
    assert_eq!(peaks[1].height(), 0);
    assert_eq!(peaks[1].pos(), 3);

    assert_eq!(pmmr.last_pos(None)?, 4);

    pmmr.append(&[3u8; 32], None)?;

    assert_eq!(pmmr.last_pos(None)?, 7);
    let peaks = pmmr.get_peaks(None)?;
    assert_eq!(peaks.len(), 1);
    assert_eq!(peaks[0].height(), 2);
    assert_eq!(peaks[0].pos(), 6);
    let subpeak_hash = pmmr.hash_children(&pmmr.hash_data(&[2u8; 32]), &pmmr.hash_data(&[3u8; 32]));

    let hash_pos_6 = pmmr.hash_children(&peak_hash, &subpeak_hash);
    assert_eq!(peaks[0].hash(), hash_pos_6);

    pmmr.append(&[4u8; 32], None)?;
    let peaks = pmmr.get_peaks(None)?;
    assert_eq!(peaks.len(), 2);
    assert_eq!(pmmr.last_pos(None)?, 8);
    assert_eq!(peaks[0].hash(), hash_pos_6);
    assert_eq!(peaks[1].hash(), pmmr.hash_data(&[4u8; 32]));

    pmmr.append(&[5u8; 32], None)?;
    let peaks = pmmr.get_peaks(None)?;
    assert_eq!(peaks.len(), 2);
    assert_eq!(pmmr.last_pos(None)?, 10);
    assert_eq!(peaks[0].hash(), hash_pos_6);
    assert_eq!(peaks[1].pos(), 9);
    assert_eq!(peaks[1].height(), 1);
    assert_eq!(
        peaks[1].hash(),
        pmmr.hash_children(&pmmr.hash_data(&[4u8; 32]), &pmmr.hash_data(&[5u8; 32]))
    );

    assert_eq!(pmmr.pos(&[0u8; 32], None)?, Some(0));
    assert_eq!(pmmr.pos(&[1u8; 32], None)?, Some(1));
    assert_eq!(pmmr.pos(&[2u8; 32], None)?, Some(3));
    assert_eq!(pmmr.pos(&[3u8; 32], None)?, Some(4));
    assert_eq!(pmmr.pos(&[4u8; 32], None)?, Some(7));
    assert_eq!(pmmr.pos(&[5u8; 32], None)?, Some(8));
    assert_eq!(pmmr.pos(&[6u8; 32], None)?, None);

    assert_eq!(pmmr.bit_pos(&[0u8; 32], None)?, Some(0));
    assert_eq!(pmmr.bit_pos(&[1u8; 32], None)?, Some(1));
    assert_eq!(pmmr.bit_pos(&[2u8; 32], None)?, Some(2));
    assert_eq!(pmmr.bit_pos(&[3u8; 32], None)?, Some(3));
    assert_eq!(pmmr.bit_pos(&[4u8; 32], None)?, Some(4));
    assert_eq!(pmmr.bit_pos(&[5u8; 32], None)?, Some(5));
    assert_eq!(pmmr.bit_pos(&[6u8; 32], None)?, None);

    {
        let txn = pmmr.get_read_txn(None)?;
        for i in 0..6 {
            assert!(pmmr.bit_is_set(i, &txn)?);
        }
        assert!(!pmmr.bit_is_set(6, &txn)?);
    }

    Ok(())
}

#[test]
fn test_pmmr_bitmap() -> Result<(), Error> {
    let db_dir = "bin/.pmmr_bitmap";
    let db_size = 100 * 1024 * 1024;
    let db_name = "mydb";

    let db = Lmdb::new(db_dir, db_name, db_size)?;

    let mut pmmr = Pmmr::new(db, "pmmr1")?;
    let (mut txn, _commit) = pmmr.get_write_txn(None)?;
    pmmr.update_bit(1, true, &mut txn)?;
    assert!(pmmr.bit_is_set(1, &txn)?);
    assert!(!pmmr.bit_is_set(0, &txn)?);
    for i in 2..(4096 * 8 * 2) {
        assert!(!pmmr.bit_is_set(i, &txn)?);
    }
    pmmr.update_bit(4, true, &mut txn)?;
    pmmr.update_bit(1, false, &mut txn)?;
    assert!(!pmmr.bit_is_set(0, &txn)?);
    assert!(!pmmr.bit_is_set(1, &txn)?);
    assert!(!pmmr.bit_is_set(2, &txn)?);
    assert!(!pmmr.bit_is_set(3, &txn)?);
    assert!(pmmr.bit_is_set(4, &txn)?);
    for i in 5..(4096 * 8 * 2) {
        assert!(!pmmr.bit_is_set(i, &txn)?);
    }

    Ok(())
}

#[test]
fn pmmr_new_refuses_empty_prefix() -> Result<(), Error> {
    let db = Lmdb::new("d", "n", 1024)?;
    assert!(matches!(Pmmr::new(db, ""), Err(Error::IllegalArgument)));
    Ok(())
}

#[test]
fn pmmr_hash_children_is_order_sensitive() -> Result<(), Error> {
    let db = Lmdb::new("d", "n", 1024)?;
    let pmmr = Pmmr::new(db, "p")?;
    let a = pmmr.hash_data(&[1u8]);
    let b = pmmr.hash_data(&[2u8]);
    assert_ne!(pmmr.hash_children(&a, &b), pmmr.hash_children(&b, &a));
    Ok(())
}

#[test]
fn lmdb_write_commit_read() -> Result<(), Error> {
    let mut db = Lmdb::new("bin/.lmdb", "mydb", 1024 * 1024)?;
    {
        let mut txn = db.write()?;
        assert_eq!(txn.get(b"abc")?, None);
        txn.put(b"abc", &[1u8])?;
        assert_eq!(txn.get(b"def")?, None);
        db.commit(txn)?;
    }
    {
        let txn = db.read()?;
        assert_eq!(txn.get(b"abc")?, Some(&[1u8][..]));
    }
    {
        let mut txn = db.write()?;
        assert!(txn.del(b"abc")?);
        assert!(!txn.del(b"abc")?);
        db.commit(txn)?;
    }
    assert_eq!(db.get(b"abc"), None);
    Ok(())
}

#[test]
fn lmdb_read_txn_refuses_writes() -> Result<(), Error> {
    let db = Lmdb::new("bin/.lmdb2", "mydb", 1024)?;
    let mut txn = db.read()?;
    assert_eq!(txn.put(b"k", b"v"), Err(Error::IllegalState));
    assert_eq!(txn.del(b"k"), Err(Error::IllegalState));
    Ok(())
}

#[test]
fn lmdb_uncommitted_writes_are_not_seen() -> Result<(), Error> {
    let db = Lmdb::new("bin/.lmdb3", "mydb", 1024)?;
    let mut txn = db.write()?;
    txn.put(b"a", b"b")?;
    assert_eq!(db.get(b"a"), None);
    assert_eq!(txn.get(b"a")?, Some(&b"b"[..]));
    Ok(())
}

#[test]
fn lmdb_resize_keeps_contents() -> Result<(), Error> {
    let mut db = Lmdb::new("bin/.lmdb4", "mydb", 1024)?;
    let mut txn = db.write()?;
    txn.put(b"a", b"b")?;
    db.commit(txn)?;
    db.resize(4096)?;
    assert_eq!(db.size(), 4096);
    assert_eq!(db.get(b"a"), Some(&b"b"[..]));
    Ok(())
}

#[test]
fn kv_store_put_replaces() {
    let mut kv = KvStore::new();
    kv.put(b"x", b"1");
    kv.put(b"x", b"2");
    assert_eq!(kv.get(b"x"), Some(&b"2"[..]));
}

#[test]
fn test_lmdb_cursor() -> Result<(), Error> {
    let db = Lmdb::new("bin/.lmdb_cursor", "mydb", 1024 * 1024 * 100)?;
    let mut txn = db.write()?;

    txn.put(b"test3", &['x' as u8])?;
    txn.put(b"test2", &['y' as u8])?;
    txn.put(b"test1", &['z' as u8])?;
    txn.put(b"zzz", &['z' as u8])?;

    assert_eq!(txn.get(b"test1")?.unwrap()[0], 'z' as u8);
    assert_eq!(txn.get(b"test2")?.unwrap()[0], 'y' as u8);
    assert_eq!(txn.get(b"test3")?.unwrap()[0], 'x' as u8);

    let mut i = 0;
    let mut iter = txn.iter(b"test")?;
    while let Some((k, v)) = iter.next() {
        if i == 0 {
            assert_eq!(v.index(0), 'z' as u8);
            assert_eq!(v.as_bytes()?[0], 'z' as u8);
            assert_eq!(k.as_str()?, String::from("test1"));
        } else if i == 1 {
            assert_eq!(v.index(0), 'y' as u8);
            assert_eq!(v.as_bytes()?[0], 'y' as u8);
            assert_eq!(k.as_str()?, String::from("test2"));
        } else if i == 2 {
            assert_eq!(v.index(0), 'x' as u8);
            assert_eq!(v.as_bytes()?[0], 'x' as u8);
            assert_eq!(k.as_str()?, String::from("test3"));
        }
        i += 1;
    }
    assert_eq!(i, 3);
    Ok(())
}

#[test]
fn test_simple_iter() -> Result<(), Error> {
    let mut db = Lmdb::new("bin/.lmdb_simple_iter", "mydb", 1024 * 1024 * 100)?;
    {
        let mut txn = db.write()?;
        txn.put(b"test3", &['x' as u8; 1])?;
        txn.put(b"test2", &['y' as u8; 1])?;
        txn.put(b"test1", &['z' as u8; 1])?;
        db.commit(txn)?;
    }
    {
        let txn = db.read()?;
        let mut values = Vec::new();
        let mut keys = Vec::new();
        let mut iter = txn.iter(b"test")?;
        while let Some((k, v)) = iter.next() {
            keys.push(k);
            values.push(v);
        }
        assert_eq!(keys[0].as_str()?, String::from("test1"));
        assert_eq!(keys[1].as_str()?, String::from("test2"));
        assert_eq!(keys[2].as_str()?, String::from("test3"));

        assert_eq!(values[0].as_bytes()?, vec!['z' as u8]);
        assert_eq!(values[1].as_bytes()?, vec!['y' as u8]);
        assert_eq!(values[2].as_bytes()?, vec!['x' as u8]);
    }
    Ok(())
}

#[test]
fn test_raw_iter() -> Result<(), Error> {
    let mut db = Lmdb::new("bin/.lmdb_raw_iter", "mydb", 1024 * 1024 * 100)?;

    let test1 = "test1".as_bytes();
    let test2 = "test2".as_bytes();
    let test3 = "test3".as_bytes();

    {
        let mut txn = db.write()?;
        txn.put(test3, &['x' as u8; 1])?;
        txn.put(test2, &['y' as u8; 1])?;
        txn.put(test1, &['z' as u8; 1])?;
        db.commit(txn)?;
    }

    {
        let txn = db.read()?;
        let test = [b't', b'e', b's', b't'];
        let mut iter = txn.iter(&test)?;
        let mut count = 0;
        loop {
            let mut key = [0u8; 128];
            let mut value = [0u8; 128];
            let res = iter.next_bytes(&mut key, &mut value)?;
            match res {
                Some((klen, vlen)) => {
                    if count == 0 {
                        assert_eq!(&key[0..5], "test1".as_bytes());
                        assert_eq!(klen, 5);
                        assert_eq!(vlen, 1);
                        assert_eq!(value[0], b'z');
                    } else if count == 1 {
                        assert_eq!(&key[0..5], "test2".as_bytes());
                        assert_eq!(klen, 5);
                        assert_eq!(vlen, 1);
                        assert_eq!(value[0], b'y');
                    } else {
                        assert_eq!(&key[0..5], "test3".as_bytes());
                        assert_eq!(klen, 5);
                        assert_eq!(vlen, 1);
                        assert_eq!(value[0], b'x');
                    }
                    count += 1;
                }
                None => break,
            }
        }

        assert_eq!(count, 3);
    }
    Ok(())
}

#[test]
fn cursor_order_and_truncation() -> Result<(), Error> {
    let db = Lmdb::new("d", "n", 1024)?;
    let mut txn = db.write()?;
    txn.put(b"ab", b"1")?;
    txn.put(b"a", b"22")?;
    txn.put(b"b", b"333")?;
    let mut it = txn.iter(b"")?;
    let mut k = [0u8; 1];
    let mut v = [0u8; 2];
    assert_eq!(it.next_bytes(&mut k, &mut v)?, Some((1, 2)));
    assert_eq!((k, v), ([b'a'], [b'2', b'2']));
    assert_eq!(it.next_bytes(&mut k, &mut v)?, Some((2, 1)));
    assert_eq!((k, v), ([b'a'], [b'1', b'2']));
    assert_eq!(it.next_bytes(&mut k, &mut v)?, Some((1, 3)));
    assert_eq!(it.next_bytes(&mut k, &mut v)?, None);
    assert_eq!(it.next_bytes(&mut k, &mut v)?, None);
    assert!(matches!(txn.iter(&[0xFF]), Err(Error::IllegalState)));
    Ok(())
}

#[test]
fn test_lmdb1() -> Result<(), Error> {
    let db_size = 1024 * 1024 * 100;
    let db_name = "mydb";
    let db_dir = "bin/.lmdb";
    let target = b"abc";
    let mut db = Lmdb::new(db_dir, db_name, db_size)?;
    {
        let mut txn = db.write()?;
        let mut v = match txn.get(target)? {
            Some(v) => v[0],
            None => 0,
        };
        assert_eq!(v, 0);
        v += 1;
        if v >= 10 {
            txn.del(target)?;
        } else {
            txn.put(target, &[v])?;
        }
        assert_eq!(txn.get(b"def")?, None);
        db.commit(txn)?;
    }
    {
        let txn = db.read()?;
        let v = match txn.get(target)? {
            Some(v) => v[0],
            None => 0,
        };
        assert_eq!(v, 1);
    }
    Ok(())
}

#[test]
fn test_lmdb2() -> Result<(), Error> {
    let db_dir = "bin/.lmdb2";
    let db_size = 1024 * 1024 * 100;
    let db_name = "mydb";
    let target = b"abc";
    let mut db = Lmdb::new(db_dir, db_name, db_size)?;
    {
        let mut txn = db.write()?;
        let mut v = match txn.get(target)? {
            Some(v) => v[0],
            None => 0,
        };
        assert_eq!(v, 0);
        v += 1;
        if v >= 10 {
            txn.del(target)?;
        } else {
            txn.put(target, &[v])?;
        }
        txn.put(b"def", &[1])?;
        db.commit(txn)?;
    }
    {
        let txn = db.read()?;
        let v = match txn.get(target)? {
            Some(v) => v[0],
            None => 0,
        };
        assert_eq!(v, 1);
    }
    Ok(())
}

#[test]
fn test_lmdb3() -> Result<(), Error> {
    let db_size = 1024 * 1024 * 100;
    let db_name = "mydb";
    let db_dir = "bin/.lmdb3";
    let mut db = Lmdb::new(db_dir, db_name, db_size)?;
    {
        let mut txn = db.write()?;
        txn.put(b"a", b"b")?;
        db.commit(txn)?;
    }
    {
        let mut txn = db.write()?;
        let v = txn.get(b"a")?.unwrap();
        assert_eq!(v[0], 'b' as u8);
        txn.del(b"a")?;
        db.commit(txn)?;
    }
    {
        let txn = db.read()?;
        let v = txn.get(b"a")?;
        assert!(v.is_none());
    }
    Ok(())
}

#[test]
fn pmmr_rewind_restores_size_and_peaks() -> Result<(), Error> {
    let db = Lmdb::new("bin/.pmmr_rewind", "mydb", 100 * 1024 * 1024)?;
    let mut pmmr = Pmmr::new(db, "rw")?;
    for i in 0u8..3 {
        pmmr.append(&[i; 32], None)?;
    }
    assert_eq!(pmmr.last_pos(None)?, 4);
    let peaks_at_4 = pmmr.get_peaks(None)?;
    for i in 3u8..6 {
        pmmr.append(&[i; 32], None)?;
    }
    assert_eq!(pmmr.last_pos(None)?, 10);

    assert_eq!(pmmr.rewind(4, None), Ok(()));
    assert_eq!(pmmr.last_pos(None)?, 4);
    let peaks = pmmr.get_peaks(None)?;
    assert_eq!(peaks.len(), peaks_at_4.len());
    for k in 0..peaks.len() {
        assert_eq!(peaks[k].hash(), peaks_at_4[k].hash());
        assert_eq!(peaks[k].pos(), peaks_at_4[k].pos());
        assert_eq!(peaks[k].height(), peaks_at_4[k].height());
    }
    assert_eq!(peaks[0].pos(), 2);
    assert_eq!(peaks[0].height(), 1);
    assert_eq!(peaks[1].pos(), 3);
    assert_eq!(peaks[1].height(), 0);
    // the leaves after position 4 are gone, those before stay
    assert_eq!(pmmr.pos(&[3u8; 32], None)?, None);
    assert_eq!(pmmr.pos(&[5u8; 32], None)?, None);
    assert_eq!(pmmr.pos(&[0u8; 32], None)?, Some(0));
    assert_eq!(pmmr.pos(&[2u8; 32], None)?, Some(3));

    // appending again continues from the rewound position
    pmmr.append(&[9u8; 32], None)?;
    assert_eq!(pmmr.last_pos(None)?, 7);
    assert_eq!(pmmr.pos(&[9u8; 32], None)?, Some(4));
    Ok(())
}

#[test]
fn pmmr_rewind_refuses_bad_positions() -> Result<(), Error> {
    let db = Lmdb::new("bin/.pmmr_rewind2", "mydb", 100 * 1024 * 1024)?;
    let mut pmmr = Pmmr::new(db, "rw")?;
    for i in 0u8..3 {
        pmmr.append(&[i; 32], None)?;
    }
    // beyond the size
    assert_eq!(pmmr.rewind(5, None), Err(Error::IllegalArgument));
    // no MMR has two nodes
    assert_eq!(pmmr.rewind(2, None), Err(Error::IllegalArgument));
    assert_eq!(pmmr.last_pos(None)?, 4);
    // rewinding to the current size changes nothing that is read back
    assert_eq!(pmmr.rewind(4, None), Ok(()));
    assert_eq!(pmmr.last_pos(None)?, 4);
    assert_eq!(pmmr.get_peaks(None)?.len(), 2);
    // back to the start
    assert_eq!(pmmr.rewind(0, None), Ok(()));
    assert_eq!(pmmr.last_pos(None)?, 0);
    assert_eq!(pmmr.get_peaks(None)?.len(), 0);
    assert_eq!(pmmr.pos(&[0u8; 32], None)?, None);
    Ok(())
}

#[test]
fn pmmr_prune_forgets_the_leaf() -> Result<(), Error> {
    let db = Lmdb::new("bin/.pmmr_prune", "mydb", 100 * 1024 * 1024)?;
    let mut pmmr = Pmmr::new(db, "pr")?;
    for i in 0u8..3 {
        pmmr.append(&[i; 32], None)?;
    }
    assert_eq!(pmmr.pos(&[1u8; 32], None)?, Some(1));
    pmmr.prune(&[1u8; 32], None)?;
    assert_eq!(pmmr.pos(&[1u8; 32], None)?, None);
    assert_eq!(pmmr.bit_pos(&[1u8; 32], None)?, None);
    let txn = pmmr.get_read_txn(None)?;
    assert!(pmmr.bit_is_set(0, &txn)?);
    assert!(!pmmr.bit_is_set(1, &txn)?);
    assert!(pmmr.bit_is_set(2, &txn)?);
    // the most recent leaf cannot be pruned, and pruned data is not found again
    assert_eq!(pmmr.prune(&[2u8; 32], None), Err(Error::IllegalState));
    assert_eq!(pmmr.prune(&[1u8; 32], None), Err(Error::NotFound));
    Ok(())
}

#[test]
fn pmmr_size_and_peaks_follow_the_leaf_count() -> Result<(), Error> {
    let db = Lmdb::new("bin/.pmmr_law", "mydb", 100 * 1024 * 1024)?;
    let mut pmmr = Pmmr::new(db, "law")?;
    for n in 1u64..=40 {
        let leaf = [n as u8, (n >> 8) as u8, 7u8, 9u8];
        let before = pmmr.last_pos(None)?;
        pmmr.append(&leaf, None)?;
        // the leaf went to the old size
        assert_eq!(pmmr.pos(&leaf, None)?, Some(before));
        // its bitmap index is the leaf count before it
        assert_eq!(pmmr.bit_pos(&leaf, None)?, Some(n - 1));
        assert_eq!(before, 2 * (n - 1) - (n - 1).count_ones() as u64);
        assert_eq!(pmmr.last_pos(None)?, 2 * n - n.count_ones() as u64);
        let peaks = pmmr.get_peaks(None)?;
        assert_eq!(peaks.len(), n.count_ones() as usize);
        let mut expected_heights = Vec::new();
        for bit in (0..64u32).rev() {
            if (n >> bit) & 1 == 1 {
                expected_heights.push(bit as u8);
            }
        }
        let heights: Vec<u8> = peaks.iter().map(|p| p.height()).collect();
        assert_eq!(heights, expected_heights);
        // the last peak ends the MMR
        assert_eq!(peaks[peaks.len() - 1].pos() + 1, pmmr.last_pos(None)?);
    }
    Ok(())
}

#[test]
fn pmmr_peak_data_hash_hashes_the_peak_record() -> Result<(), Error> {
    let db = Lmdb::new("bin/.pmmr_pdh", "mydb", 100 * 1024 * 1024)?;
    let mut pmmr = Pmmr::new(db, "pdh")?;
    assert_eq!(pmmr.peak_data_hash(None).err(), Some(Error::IllegalState));
    for i in 0u8..3 {
        pmmr.append(&[i; 32], None)?;
    }
    let mut record = Vec::new();
    for p in pmmr.get_peaks(None)? {
        record.extend_from_slice(&p.hash());
        record.extend_from_slice(&p.pos().to_le_bytes());
        record.push(p.height());
    }
    assert_eq!(record.len(), 2 * 41);
    assert_eq!(pmmr.peak_data_hash(None)?, pmmr.hash_data(&record));
    Ok(())
}
