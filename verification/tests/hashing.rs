use sanity_gc::addr_hashing_bit::{
    VMLocalAddrspaceHashingBitSpec, HASHED, HASHED_MOVED, UNHASHED,
};

#[test]
fn an_object_is_unhashed_until_marked() {
    let mut spec = VMLocalAddrspaceHashingBitSpec::new();
    assert_eq!(spec.check_hashing_status(0x1000), UNHASHED);
    spec.mark_hashed(0x1000);
    assert_eq!(spec.check_hashing_status(0x1000), HASHED);
    assert_eq!(spec.check_hashing_status(0x1008), UNHASHED);
    spec.mark_hashed_moved(0x1000);
    assert_eq!(spec.check_hashing_status(0x1000), HASHED_MOVED);
    spec.mark_hashed_moved(0x1008);
    assert_eq!(spec.check_hashing_status(0x1008), HASHED_MOVED);
    spec.mark_hashed(0x1008);
    assert_eq!(spec.check_hashing_status(0x1008), HASHED);
    assert_eq!((UNHASHED, HASHED, HASHED_MOVED), (0, 1, 2));
}
