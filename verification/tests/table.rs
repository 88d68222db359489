use destroyer::tt::{Bound, Table};
use destroyer::MATE;

#[test]
fn roundtrip_and_mate_adjustment() {
    let mut t = Table::new(10);
    t.store(42, 5, 123, Bound::Exact, None, 3);
    let e = t.probe(42, 7).unwrap();
    assert_eq!((e.score, e.depth, e.bound), (123, 5, Bound::Exact));
    assert!(t.probe(43, 0).is_none());
    // mate in 2 plies from a node at ply 4 (score MATE-6 from the root) probed at ply 10
    t.store(7, 3, MATE - 6, Bound::Exact, None, 4);
    assert_eq!(t.probe(7, 10).unwrap().score, MATE - 12);
    t.store(8, 3, -(MATE - 6), Bound::Exact, None, 4);
    assert_eq!(t.probe(8, 10).unwrap().score, -(MATE - 12));
}

#[test]
fn deeper_entry_is_not_replaced_by_shallower_bound() {
    let mut t = Table::new(10);
    t.store(1, 8, 50, Bound::Lower, None, 0);
    t.store(1, 2, 10, Bound::Upper, None, 0);
    assert_eq!(t.probe(1, 0).unwrap().depth, 8);
    t.store(1, 2, 10, Bound::Exact, None, 0); // exact always wins
    assert_eq!(t.probe(1, 0).unwrap().depth, 2);
}
