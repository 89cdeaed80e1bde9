use vdb37::Error;
use vdb37::vector::Vector;
use vdb37::kd_tree::KDTree;
use vdb37::vdb::VectorDatabase;
use vdb37::kv_vdb::KvVectorDatabase;

fn pt(coords: Vec<i32>) -> Vector {
    Vector::new(coords, None)
}

fn pt_meta(coords: Vec<i32>, meta: &str) -> Vector {
    Vector::new(coords, Some(meta.to_string()))
}

#[test]
fn distance_exact_values() {
    let a = pt(vec![1, 1]);
    let origin = pt(vec![0, 0]);
    assert_eq!(a.distance(&origin), 2);
    let b = pt(vec![3, 4]);
    assert_eq!(b.distance(&origin), 25);
    let c = pt(vec![-3, 4]);
    assert_eq!(c.distance(&origin), 25);
}

#[test]
fn distance_extreme_coordinates() {
    let a = pt(vec![i32::MAX]);
    let b = pt(vec![i32::MIN]);
    // (2^31 - 1 - (-2^31))^2 = (2^32 - 1)^2
    assert_eq!(a.distance(&b), 0xffff_ffff_u128 * 0xffff_ffff_u128);
}

#[test]
fn within_bounding_box() {
    let p = pt(vec![2, 3]);
    assert!(p.within(&pt(vec![1, 1]), &pt(vec![4, 4])));
    assert!(p.within(&pt(vec![2, 3]), &pt(vec![2, 3])));
    assert!(!p.within(&pt(vec![3, 1]), &pt(vec![4, 4])));
    assert!(!p.within(&pt(vec![1, 1]), &pt(vec![4, 2])));
}

#[test]
fn example_scenario_two_nearest() {
    // Insert [1,1], [2,2], [3,3], [10,10]; the two nearest to [0,0] are
    // [1,1] then [2,2], at squared distances 2 and 8.
    let mut db = VectorDatabase::new();
    db.insert(pt(vec![1, 1])).unwrap();
    db.insert(pt(vec![2, 2])).unwrap();
    db.insert(pt(vec![3, 3])).unwrap();
    db.insert(pt(vec![10, 10])).unwrap();
    let q = pt(vec![0, 0]);
    let r = db.search(&q, 2).unwrap();
    assert_eq!(r.len(), 2);
    assert_eq!(r[0].coordinates(), &vec![1, 1]);
    assert_eq!(r[1].coordinates(), &vec![2, 2]);
    assert_eq!(q.distance(&r[0]), 2);
    assert_eq!(q.distance(&r[1]), 8);
}

#[test]
fn empty_index_search_returns_empty() {
    let db = VectorDatabase::new();
    let q = pt(vec![5, 5]);
    assert!(db.search(&q, 0).unwrap().is_empty());
    assert!(db.search(&q, 3).unwrap().is_empty());
    assert!(db.search(&q, 1000).unwrap().is_empty());
}

#[test]
fn empty_collection_save_fails_loudly() {
    let db = VectorDatabase::new();
    assert_eq!(db.save_bytes().unwrap_err(), Error::EmptyIndex);
}

#[test]
fn fewer_points_than_k_returns_all_sorted() {
    let mut db = VectorDatabase::new();
    db.insert(pt(vec![7])).unwrap();
    db.insert(pt(vec![-2])).unwrap();
    db.insert(pt(vec![4])).unwrap();
    let q = pt(vec![0]);
    let r = db.search(&q, 10).unwrap();
    assert_eq!(r.len(), 3);
    assert_eq!(r[0].coordinates(), &vec![-2]);
    assert_eq!(r[1].coordinates(), &vec![4]);
    assert_eq!(r[2].coordinates(), &vec![7]);
}

#[test]
fn duplicate_points_are_both_kept() {
    let mut db = VectorDatabase::new();
    db.insert(pt(vec![5, 5])).unwrap();
    db.insert(pt(vec![5, 5])).unwrap();
    db.insert(pt(vec![9, 9])).unwrap();
    let r = db.search(&pt(vec![5, 5]), 2).unwrap();
    assert_eq!(r.len(), 2);
    assert_eq!(r[0].coordinates(), &vec![5, 5]);
    assert_eq!(r[1].coordinates(), &vec![5, 5]);
}

#[test]
fn dimension_mismatch_on_insert() {
    let mut db = VectorDatabase::new();
    db.insert(pt(vec![1, 2])).unwrap();
    assert_eq!(db.insert(pt(vec![1, 2, 3])).unwrap_err(), Error::DimensionMismatch);
    // the collection is unchanged
    assert_eq!(db.vectors().len(), 1);
}

#[test]
fn dimension_mismatch_on_zero_dimension_point() {
    let mut db = VectorDatabase::new();
    assert_eq!(db.insert(pt(vec![])).unwrap_err(), Error::DimensionMismatch);
}

#[test]
fn dimension_mismatch_on_query() {
    let mut db = VectorDatabase::new();
    db.insert(pt(vec![1, 2])).unwrap();
    assert_eq!(db.search(&pt(vec![1]), 1).unwrap_err(), Error::DimensionMismatch);
}

#[test]
fn kd_tree_direct_insert_and_nearest() {
    let mut t = KDTree::new();
    t.insert(pt(vec![3, 1])).unwrap();
    t.insert(pt(vec![1, 9])).unwrap();
    t.insert(pt(vec![2, 2])).unwrap();
    let r = t.nearest(&pt(vec![0, 0]), 1).unwrap();
    assert_eq!(r.len(), 1);
    assert_eq!(r[0].coordinates(), &vec![2, 2]);
}

#[test]
fn insertion_order_does_not_change_distances() {
    let points: Vec<Vec<i32>> = vec![
        vec![1, 1],
        vec![2, 2],
        vec![3, 3],
        vec![10, 10],
        vec![-4, 6],
        vec![0, -7],
        vec![2, 2],
    ];
    let mut fwd = VectorDatabase::new();
    for c in points.iter() {
        fwd.insert(pt(c.clone())).unwrap();
    }
    let mut rev = VectorDatabase::new();
    for c in points.iter().rev() {
        rev.insert(pt(c.clone())).unwrap();
    }
    let q = pt(vec![1, -1]);
    for k in 0..=points.len() + 1 {
        let a = fwd.search(&q, k).unwrap();
        let b = rev.search(&q, k).unwrap();
        assert_eq!(a.len(), b.len());
        let da: Vec<u128> = a.iter().map(|v| q.distance(v)).collect();
        let db_: Vec<u128> = b.iter().map(|v| q.distance(v)).collect();
        assert_eq!(da, db_);
    }
}

#[test]
fn pruned_search_matches_exhaustive_scan() {
    // A deterministic point cloud; the tree answer must list exactly the
    // k smallest distances that a full scan finds.
    let mut db = VectorDatabase::new();
    let mut seed: i64 = 42;
    let mut all: Vec<Vec<i32>> = Vec::new();
    for _ in 0..60 {
        let mut c = Vec::new();
        for _ in 0..3 {
            seed = (seed * 1103515245 + 12345) % 2147483648;
            c.push((seed % 1000 - 500) as i32);
        }
        all.push(c.clone());
        db.insert(pt(c)).unwrap();
    }
    let q = pt(vec![10, -20, 30]);
    for k in [1usize, 2, 5, 60, 100] {
        let r = db.search(&q, k).unwrap();
        let mut scan: Vec<u128> = all.iter().map(|c| q.distance(&pt(c.clone()))).collect();
        scan.sort();
        scan.truncate(k);
        let got: Vec<u128> = r.iter().map(|v| q.distance(v)).collect();
        assert_eq!(got, scan);
    }
}

#[test]
fn round_trip_preserves_points_and_metadata() {
    let mut db = VectorDatabase::new();
    db.insert(pt_meta(vec![1, 2, 3], "first")).unwrap();
    db.insert(pt(vec![-7, 0, 9])).unwrap();
    db.insert(pt_meta(vec![0, 0, 0], "h\u{e9}llo \u{4e16}\u{754c}")).unwrap();
    let files = db.save_bytes().unwrap();
    assert_eq!(files.len(), 3);
    let back = VectorDatabase::load_bytes(&files).unwrap();
    let vs = back.vectors();
    assert_eq!(vs.len(), 3);
    assert_eq!(vs[0].coordinates(), &vec![1, 2, 3]);
    assert_eq!(vs[0].meta(), &Some("first".to_string()));
    assert_eq!(vs[1].coordinates(), &vec![-7, 0, 9]);
    assert_eq!(vs[1].meta(), &None);
    assert_eq!(vs[2].coordinates(), &vec![0, 0, 0]);
    assert_eq!(vs[2].meta(), &Some("h\u{e9}llo \u{4e16}\u{754c}".to_string()));
}

#[test]
fn encoding_has_the_documented_layout() {
    // One coordinate 0 (stored biased as 2^31) and no metadata.
    let bytes = vdb37::codec::encode_vector(&pt(vec![0]));
    assert_eq!(bytes, vec![1, 0, 0, 0, 0, 0, 0, 0, 0, 0, 0, 0x80, 0]);
    // One coordinate -2^31 (stored as 0) with metadata "A".
    let bytes = vdb37::codec::encode_vector(&pt_meta(vec![i32::MIN], "A"));
    assert_eq!(
        bytes,
        vec![1, 0, 0, 0, 0, 0, 0, 0, 0, 0, 0, 0, 1, 1, 0, 0, 0, 0, 0, 0, 0, 0x41]
    );
}

#[test]
fn decode_rejects_corrupt_bytes() {
    // Truncated header.
    assert_eq!(
        vdb37::codec::decode_vector(&vec![1, 0, 0]).unwrap_err(),
        Error::CorruptData
    );
    // Header promises one coordinate but bytes run out.
    assert_eq!(
        vdb37::codec::decode_vector(&vec![1, 0, 0, 0, 0, 0, 0, 0, 0, 0]).unwrap_err(),
        Error::CorruptData
    );
    // Unknown metadata tag.
    assert_eq!(
        vdb37::codec::decode_vector(&vec![0, 0, 0, 0, 0, 0, 0, 0, 7]).unwrap_err(),
        Error::CorruptData
    );
    // Trailing garbage after a complete point.
    assert_eq!(
        vdb37::codec::decode_vector(&vec![0, 0, 0, 0, 0, 0, 0, 0, 0, 9]).unwrap_err(),
        Error::CorruptData
    );
    // Metadata length prefix that disagrees with the bytes present.
    assert_eq!(
        vdb37::codec::decode_vector(&vec![0, 0, 0, 0, 0, 0, 0, 0, 1, 5, 0, 0, 0, 0, 0, 0, 0, 0x41])
            .unwrap_err(),
        Error::CorruptData
    );
    // Metadata that is not valid UTF-8.
    assert_eq!(
        vdb37::codec::decode_vector(&vec![0, 0, 0, 0, 0, 0, 0, 0, 1, 1, 0, 0, 0, 0, 0, 0, 0, 0xff])
            .unwrap_err(),
        Error::CorruptData
    );
}

#[test]
fn decode_accepts_exactly_what_encode_writes() {
    // Exercises the UTF-8 path through multi-byte characters: a decoder that
    // handed the raw bytes back unchanged could not reproduce this string.
    let v = pt_meta(vec![5, -5], "\u{65e5}\u{672c}\u{8a9e}");
    let bytes = vdb37::codec::encode_vector(&v);
    let back = vdb37::codec::decode_vector(&bytes).unwrap();
    assert_eq!(back.coordinates(), &vec![5, -5]);
    assert_eq!(back.meta(), &Some("\u{65e5}\u{672c}\u{8a9e}".to_string()));
}

#[test]
fn load_bytes_rejects_mixed_dimensions() {
    let f1 = vdb37::codec::encode_vector(&pt(vec![1, 2]));
    let f2 = vdb37::codec::encode_vector(&pt(vec![1, 2, 3]));
    assert_eq!(
        VectorDatabase::load_bytes(&vec![f1, f2]).unwrap_err(),
        Error::DimensionMismatch
    );
}

#[test]
fn named_store_scenario() {
    // A store with keys "a" and "b", each holding two points, written out and
    // reloaded per key, must answer get("a") and get("b") with the original
    // collections; get("c") must report NotFound.
    let mut store = KvVectorDatabase::new();
    let mut a = VectorDatabase::new();
    a.insert(pt(vec![1, 1])).unwrap();
    a.insert(pt(vec![2, 2])).unwrap();
    let mut b = VectorDatabase::new();
    b.insert(pt_meta(vec![5], "five")).unwrap();
    b.insert(pt(vec![-5])).unwrap();
    store.add_db("a".to_string(), a);
    store.add_db("b".to_string(), b);
    assert_eq!(store.len(), 2);

    // Save each keyed collection to its own list of byte files, as one
    // directory per key would hold them, and rebuild a fresh store.
    let mut reloaded = KvVectorDatabase::new();
    for i in 0..store.len() {
        let key = store.key_at(i).clone();
        let files = store.db_at(i).save_bytes().unwrap();
        let db = VectorDatabase::load_bytes(&files).unwrap();
        reloaded.add_db(key, db);
    }

    let got_a = reloaded.get(&"a".to_string()).unwrap();
    assert_eq!(got_a.vectors().len(), 2);
    assert_eq!(got_a.vectors()[0].coordinates(), &vec![1, 1]);
    assert_eq!(got_a.vectors()[1].coordinates(), &vec![2, 2]);
    let got_b = reloaded.get(&"b".to_string()).unwrap();
    assert_eq!(got_b.vectors().len(), 2);
    assert_eq!(got_b.vectors()[0].coordinates(), &vec![5]);
    assert_eq!(got_b.vectors()[0].meta(), &Some("five".to_string()));
    assert_eq!(got_b.vectors()[1].coordinates(), &vec![-5]);
    assert_eq!(reloaded.get(&"c".to_string()).unwrap_err(), Error::NotFound);
}

#[test]
fn named_store_overwrites_on_equal_key() {
    let mut store = KvVectorDatabase::new();
    let mut first = VectorDatabase::new();
    first.insert(pt(vec![1])).unwrap();
    let mut second = VectorDatabase::new();
    second.insert(pt(vec![2])).unwrap();
    second.insert(pt(vec![3])).unwrap();
    store.add_db("k".to_string(), first);
    store.add_db("k".to_string(), second);
    assert_eq!(store.len(), 1);
    let got = store.get(&"k".to_string()).unwrap();
    assert_eq!(got.vectors().len(), 2);
    assert_eq!(got.vectors()[0].coordinates(), &vec![2]);
}
