//! Keys, free-list heads, slots and the chunked vector.
use atomic_slotmap::chunks::{capacity_limit, len_limit, reservation_target};
use atomic_slotmap::head::SENTINEL;
use atomic_slotmap::location::{chunk_capacity, get_location, last_chunk, STARTS};
use atomic_slotmap::slot::MAX_REFCOUNT;
use atomic_slotmap::{
    pack_free_head, unpack_free_head, AtomicVec, DefaultIfLoom, DefaultKey, DropInPlace, Key,
    KeyData, KeyDataRead, Slot,
};

#[test]
fn heads_pack_the_tag_above_the_index() {
    assert_eq!(pack_free_head(0, SENTINEL), 0xffff_ffff);
    assert_eq!(pack_free_head(1, 2), 0x1_0000_0002);
    assert_eq!(pack_free_head(0xdead_beef, 0xcafe_babe), 0xdead_beef_cafe_babe);
    assert_eq!(unpack_free_head(0xdead_beef_cafe_babe), (0xdead_beef, 0xcafe_babe));
    for (tag, index) in [(0, 0), (u32::MAX, 0), (0, u32::MAX), (7, 9)] {
        assert_eq!(unpack_free_head(pack_free_head(tag, index)), (tag, index));
    }
}

#[test]
fn keys_have_odd_versions() {
    let key = KeyData::new(5, 2);
    assert_eq!((key.idx(), key.version()), (5, 3));
    assert_eq!(key.as_ffi(), (3 << 32) | 5);
    let key = KeyData::new(5, 3);
    assert_eq!((key.idx(), key.version()), (5, 3));
    // any word is a key
    let key = KeyData::from_ffi(0);
    assert_eq!((key.idx(), key.version()), (0, 1));
    let key = KeyData::from_ffi(0xffff_fffe_1234_5678);
    assert_eq!((key.idx(), key.version()), (0x1234_5678, 0xffff_ffff));
    assert_eq!(KeyData::from_ffi(key.as_ffi()), key);
    // a key is its index and its version
    assert_eq!(DefaultKey::from_data(KeyData::new(5, 2)), DefaultKey::from_data(KeyData::new(5, 3)));
    assert_ne!(DefaultKey::from_data(KeyData::new(5, 4)), DefaultKey::from_data(KeyData::new(5, 3)));
    assert_ne!(DefaultKey::from_data(KeyData::new(6, 3)), DefaultKey::from_data(KeyData::new(5, 3)));
}

#[test]
fn keys_agree_with_those_of_slotmap() {
    for word in [0, 1, 0x1_0000_0000, 0x2_0000_0007, u64::MAX, 0xffff_ffff] {
        let theirs = slotmap::KeyData::from_ffi(word);
        let ours = KeyData::from_ffi(word);
        assert_eq!(ours.as_ffi(), theirs.as_ffi());
        let key = DefaultKey::from_data(ours);
        assert_eq!(key.is_null(), slotmap::Key::is_null(&slotmap::DefaultKey::from(theirs)));
    }
}

#[test]
fn the_null_key_has_the_last_index() {
    let null = DefaultKey::null();
    assert!(null.is_null());
    assert_eq!(null.data().as_ffi(), 0x1_ffff_ffff);
    assert!(!DefaultKey::from_data(KeyData::new(0, 1)).is_null());
    assert!(DefaultKey::from_data(KeyData::new(u32::MAX, 7)).is_null());
}

#[test]
fn indices_lie_in_chunks_that_grow_by_four() {
    assert_eq!(get_location(0), (0, 0));
    assert_eq!(get_location(31), (0, 31));
    assert_eq!(get_location(32), (1, 0));
    assert_eq!(get_location(159), (1, 127));
    assert_eq!(get_location(160), (2, 0));
    assert_eq!(get_location(2863311519), (13, 2147483647));
    assert_eq!(get_location(2863311520), (14, 0));
    assert_eq!(get_location(u32::MAX), (14, 1431655775));
    for k in 0..14 {
        assert_eq!(STARTS[k] as usize + chunk_capacity(k), STARTS[k + 1] as usize);
        assert_eq!(get_location(STARTS[k]), (k, 0));
        assert_eq!(get_location(STARTS[k + 1] - 1), (k, chunk_capacity(k) - 1));
    }
    assert_eq!(chunk_capacity(14), 8589934592);
    assert_eq!(last_chunk(1), 0);
    assert_eq!(last_chunk(33), 1);
    assert_eq!(last_chunk(0x1_0000_0001), 14);
}

#[test]
fn reservations_have_a_limit() {
    assert_eq!((len_limit(), capacity_limit()), (0xffff_ffff, 11453246112));
    assert_eq!(reservation_target(0, 0, 0), Some(0));
    assert_eq!(reservation_target(40, 7, 32), Some(40));
    assert_eq!(reservation_target(40, 7, 34), Some(41));
    assert_eq!(reservation_target(40, 40, 1), Some(41));
    assert_eq!(reservation_target(3, 2, 11453246110), Some(11453246112));
    assert_eq!(reservation_target(3, 2, 11453246111), None);
    assert_eq!(reservation_target(3, 2, usize::MAX), None);
}

fn slot(ref_count: u32, version: u32) -> Slot<u8> {
    Slot { data: Some(9), next_free: 4, ref_count, version }
}

#[test]
fn slots_count_references() {
    let mut s = slot(1, 5);
    assert_eq!(s.acquire_guard(5), Ok(()));
    assert_eq!(s.ref_count, 2);
    // another version
    assert_eq!(s.acquire_guard(7), Err(false));
    assert_eq!(s.ref_count, 2);
    s.inc_ref_count_for_clone();
    assert_eq!(s.ref_count, 3);
    assert!(!s.dec_ref_count());
    assert!(!s.dec_ref_count());
    assert!(s.dec_ref_count());
    // nobody is left
    assert_eq!(s.acquire_guard(5), Err(false));
    assert_eq!(s.ref_count, 0);

    let mut s = slot(MAX_REFCOUNT, 5);
    assert_eq!(s.acquire_guard(5), Ok(()));
    assert_eq!(s.ref_count, 0xFFFF_FF01);
}

#[test]
fn slots_drop_their_values() {
    let mut s = slot(0, 5);
    assert_eq!(s.data_ptr(), Some(&9));
    s.drop_inner_value();
    assert_eq!(s.data_ptr(), None);

    assert!(slot(0, 4).debug_assert_exclusively_owned());
    assert!(!slot(1, 4).debug_assert_exclusively_owned());
    assert!(!slot(0, 5).debug_assert_exclusively_owned());

    // only an occupied slot drops its value with the map
    let mut s = slot(1, 5);
    s.drop();
    assert_eq!(s.data, None);
    let mut s = slot(1, 6);
    s.drop_in_place();
    assert_eq!(s.data, Some(9));

    let fresh: Slot<u8> = Slot::zeroed();
    assert_eq!((fresh.data, fresh.next_free, fresh.ref_count, fresh.version), (None, 0, 0, 0));
}

#[test]
fn vectors_grow_by_whole_chunks() {
    let mut vec: AtomicVec<Slot<u8>> = AtomicVec::new();
    assert_eq!((vec.len(), vec.capacity()), (0, 0));
    assert!(vec.get(0).is_none());
    for i in 0..33 {
        assert_eq!(vec.push_zeroed(), i);
    }
    assert_eq!((vec.len(), vec.capacity()), (33, 160));
    vec.get_unchecked_ptr(32).version = 7;
    assert_eq!(vec.get(32).unwrap().version, 7);
    assert_eq!(vec.get_unchecked(31).version, 0);
    assert!(vec.get(33).is_none());
    vec.reserve(127);
    assert_eq!(vec.capacity(), 160);
    vec.reserve(128);
    assert_eq!(vec.capacity(), 672);
    vec.reserve(128);
    assert_eq!(vec.capacity(), 672);
    vec.reserve(0);
    assert_eq!(vec.capacity(), 672);
    assert_eq!(vec.len(), 33);
    assert!(vec.has_chunk(2));
    assert!(!vec.has_chunk(3));
    vec.drop();
    assert_eq!((vec.len(), vec.capacity()), (0, 0));
}

#[test]
fn a_vector_may_have_an_index_whose_chunk_is_missing() {
    let mut vec: AtomicVec<Slot<u8>> = AtomicVec::new();
    assert_eq!(vec.claim_index(), 0);
    assert_eq!((vec.len(), vec.capacity()), (1, 0));
    vec.drop_elements();
    assert_eq!(vec.len(), 1);
    assert!(vec.ensure_chunk_exists(0));
    assert!(!vec.ensure_chunk_exists(0));
    assert_eq!(vec.get(0).unwrap().version, 0);
}
