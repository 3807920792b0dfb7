use egglog_backends::feldera::uf::UfTable;

#[test]
fn smallest_id_leads() {
    let mut t = UfTable::new();
    t.enqueue_union(5, 3);
    assert_eq!(t.find_ro(5), 5);
    t.drain_pending();
    assert_eq!(t.find_ro(5), 3);
    assert_eq!(t.find_ro(3), 3);
    assert_eq!(t.find_ro(9), 9);
    assert_eq!(t.drain_displaced(), vec![5]);
    t.enqueue_union(5, 2);
    t.drain_pending();
    assert_eq!(t.find_ro(5), 2);
    assert_eq!(t.find_ro(3), 2);
    let mut d = t.drain_displaced();
    d.sort();
    assert_eq!(d, vec![3, 5]);
    t.enqueue_union(9, 8);
    t.enqueue_union(8, 7);
    t.drain_pending();
    let mut d = t.drain_displaced();
    d.sort();
    assert_eq!(d, vec![8, 9]);
}
