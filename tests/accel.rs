use rust_db::text::{split_words, str_lt};
use rust_db::{BloomFilter, Indexer, WalBatch, WalWriter};

#[test]
fn bloom_bits_of_one_value() {
    let mut bf = BloomFilter::new(1000);
    bf.add("a");
    // djb2("a") = 5381 * 33 + 97 = 177670; the 31-hash of "a" is 97
    let set: Vec<usize> = bf.bit_array().iter().enumerate().filter(|(_, b)| **b).map(|(i, _)| i).collect();
    assert_eq!(set, vec![97, 670]);
    assert!(bf.contains("a"));
    assert_eq!(bf.size(), 1000);
}

#[test]
fn bloom_no_false_negatives() {
    let mut bf = BloomFilter::new(1000);
    let values: Vec<String> = (0..1000).map(|i| format!("user{}@x", i)).collect();
    for v in &values {
        bf.add(v);
    }
    for v in &values {
        assert!(bf.contains(v));
    }
}

#[test]
fn bloom_rebuild_over_thousand_rows() {
    let mut db = rust_db::Database::new();
    db.create_table("t").unwrap();
    for i in 0..1000 {
        db.insert_row("t", &i.to_string(), vec![("email".to_string(), format!("user{}@x", i))]).unwrap();
    }
    db.build_bloom_filter();
    let bf = db.bloom_filter.as_ref().unwrap();
    for i in 0..1000 {
        assert!(bf.contains(&format!("user{}@x", i)));
    }
}

#[test]
fn bloom_false_positives_when_sparse() {
    // with 100 values in 1000 bits about one bit in five is set
    let mut bf = BloomFilter::new(1000);
    for i in 0..100 {
        bf.add(&format!("user{}@x", i));
    }
    let mut positives = 0;
    for i in 0..1000 {
        if bf.contains(&format!("absent{}@y", i)) {
            positives += 1;
        }
    }
    assert!(positives < 100, "false positives: {}", positives);
}

#[test]
fn bloom_from_bits() {
    assert!(BloomFilter::from_bits(vec![]).is_none());
    let bf = BloomFilter::from_bits(vec![true; 4]).unwrap();
    assert!(bf.contains("anything"));
}

#[test]
fn indexer_add_and_get() {
    let mut idx = Indexer::new();
    assert!(idx.get("a").is_none());
    idx.add("a", "r1");
    idx.add("b", "r2");
    idx.add("a", "r3");
    assert_eq!(idx.get("a").unwrap(), &vec!["r1".to_string(), "r3".to_string()]);
    assert_eq!(idx.get("b").unwrap(), &vec!["r2".to_string()]);
}

#[test]
fn batch_of_twelve_records() {
    let mut batch = WalBatch::new();
    let mut file = String::new();
    for i in 0..12 {
        batch.receive(format!("create_table:t{}", i));
        if batch.due(false) {
            file.push_str(&batch.text());
            batch.clear();
        }
    }
    assert_eq!(file.lines().count(), 10);
    assert_eq!(batch.len(), 2);
    assert!(batch.due(true));
    file.push_str(&batch.text());
    batch.clear();
    assert!(!batch.due(true));
    let lines: Vec<&str> = file.lines().collect();
    assert_eq!(lines.len(), 12);
    for (i, l) in lines.iter().enumerate() {
        assert_eq!(*l, format!("create_table:t{}", i));
    }
}

#[test]
fn writer_queues_records() {
    let (w, h) = WalWriter::new(std::time::Duration::from_millis(5));
    w.log("a".to_string());
    w.log("b".to_string());
    assert_eq!(h.receiver.recv().unwrap(), "a");
    assert_eq!(h.receiver.recv().unwrap(), "b");
    assert_eq!(h.batch_interval, std::time::Duration::from_millis(5));
}

#[test]
fn writer_attached_takes_records() {
    let (w, h) = WalWriter::new(std::time::Duration::from_millis(5));
    let mut db = rust_db::Database::new();
    db.wal_writer = Some(w);
    db.create_table("t").unwrap();
    assert!(db.wal.is_empty());
    assert_eq!(h.receiver.recv().unwrap(), "create_table:t");
}

#[test]
fn words_and_order() {
    assert_eq!(split_words("  a\tbb  c \n"), vec!["a", "bb", "c"]);
    assert!(split_words("   ").is_empty());
    assert!(str_lt("30", "x"));
    assert!(!str_lt("x", "30"));
    assert!(str_lt("ab", "abc"));
    assert!(!str_lt("ab", "ab"));
}
