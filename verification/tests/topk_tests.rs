use heavykeeper::heavykeeper::HeavyKeeper;
use heavykeeper::heavykeeper::Item;

fn scale(p: f64) -> u64 {
    (p * 4294967296.0) as u64
}

#[test]
fn test_end_to_end_ranking() {
    let mut tk = HeavyKeeper::new(3, 100, 3, scale(0.9));
    for _ in 0..5 {
        tk.add(b"a", 1);
    }
    for _ in 0..3 {
        tk.add(b"b", 1);
    }
    tk.add(b"c", 1);
    let items = tk.list();
    assert_eq!(items.len(), 3);
    assert_eq!(items[0].key(), b"a".as_slice());
    assert_eq!(items[0].cnt(), 5);
    assert_eq!(items[1].key(), b"b".as_slice());
    assert_eq!(items[1].cnt(), 3);
    assert_eq!(items[2].key(), b"c".as_slice());
    assert_eq!(items[2].cnt(), 1);
}

#[test]
fn test_heap_decay_halves_counts() {
    let mut tk = HeavyKeeper::new(3, 100, 3, scale(0.9));
    tk.add(b"x", 10);
    tk.set_heap_decay(2);
    tk.set_heap_decay_interval_ms(0);
    tk.add(b"y", 1);
    let items = tk.list();
    let x = items.iter().find(|it| it.key() == b"x".as_slice()).unwrap();
    assert_eq!(x.cnt(), 5);
    let y = items.iter().find(|it| it.key() == b"y".as_slice()).unwrap();
    assert_eq!(y.cnt(), 1);
}

#[test]
fn test_full_heap_rejects_small_estimates() {
    let mut tk = HeavyKeeper::new(2, 100, 3, scale(0.9));
    tk.add(b"aa", 5);
    tk.add(b"bb", 5);
    let before: Vec<(Vec<u8>, u32)> =
        tk.list().iter().map(|i| (i.key().to_vec(), i.cnt())).collect();
    let r = tk.add(b"cc", 1);
    assert!(!r);
    let after: Vec<(Vec<u8>, u32)> =
        tk.list().iter().map(|i| (i.key().to_vec(), i.cnt())).collect();
    assert_eq!(before, after);
}

#[test]
fn test_update_tracked_key() {
    let mut tk = HeavyKeeper::new(2, 100, 3, scale(0.9));
    tk.add(b"k", 1);
    tk.add(b"k", 1);
    let items = tk.list();
    assert_eq!(items.len(), 1);
    assert_eq!(items[0].key(), b"k".as_slice());
    assert_eq!(items[0].cnt(), 2);
}

#[test]
fn test_displaces_minimum() {
    let mut tk = HeavyKeeper::new(1, 100, 3, scale(0.9));
    tk.add(b"a", 3);
    let r = tk.add(b"b", 5);
    assert!(r);
    let items = tk.list();
    assert_eq!(items.len(), 1);
    assert_eq!(items[0].key(), b"b".as_slice());
    assert_eq!(items[0].cnt(), 5);
}

#[test]
fn test_ties_order_by_key() {
    let mut tk = HeavyKeeper::new(3, 100, 3, scale(0.9));
    tk.add(b"zz", 2);
    tk.add(b"mm", 2);
    tk.add(b"aa", 2);
    let items = tk.list();
    assert_eq!(items.len(), 3);
    assert_eq!(items[0].key(), b"aa".as_slice());
    assert_eq!(items[1].key(), b"mm".as_slice());
    assert_eq!(items[2].key(), b"zz".as_slice());
}

#[test]
fn test_decay_table_shape() {
    let tk = HeavyKeeper::new(1, 10, 1, scale(0.9));
    assert_eq!(tk.decay_table_entry(0), 1u64 << 32);
    for i in 0..255usize {
        assert!(tk.decay_table_entry(i + 1) <= tk.decay_table_entry(i));
    }
}

#[test]
fn test_item_accessors() {
    let mut it = Item::default();
    assert_eq!(it.cnt(), 0);
    assert_eq!(it.key(), b"".as_slice());
    it.set_cnt(7);
    assert_eq!(it.cnt(), 7);
}

#[test]
fn test_recovers_heavy_hitters_mostly() {
    let trials = 20;
    let mut ok = 0;
    for _t in 0..trials {
        let mut tk = HeavyKeeper::new(3, 100, 4, scale(0.925));
        let n = 12usize;
        let total = 1200usize;
        for i in 0..n {
            let reps = total / (i + 1);
            let key = format!("k{}", i);
            for _ in 0..reps {
                tk.add(key.as_bytes(), 1);
            }
        }
        let items = tk.list();
        if items.len() == 3
            && items[0].key() == b"k0".as_slice()
            && items[1].key() == b"k1".as_slice()
            && items[2].key() == b"k2".as_slice()
        {
            ok += 1;
        }
    }
    assert!(ok * 100 >= 95 * trials, "recovered the top 3 in only {ok} of {trials} trials");
}
