use rusttalk::om::{
    counted, for_every_oop, for_every_oop_reverse, hash, int_val, is_int, to_word_size, Loc, OM,
    BIG_SIZE, LAST_OOP, MAX_INT, MIN_INT, NON_PTR, OT_SIZE, REST_BITMAP, REST_FREE, REST_PTRS,
};
use rusttalk::std_ptrs::{class_label, MINUS_ONE_PTR, NIL_PTR, ONE_PTR, TWO_PTR, ZERO_PTR};

#[test]
fn tagged_integers_are_recognised() {
    assert!(is_int(ZERO_PTR));
    assert!(is_int(MINUS_ONE_PTR));
    assert!(!is_int(NIL_PTR));
    assert!(!is_int(0x7FFF_FFFF));
}

#[test]
fn int_val_sign_extends_the_low_31_bits() {
    assert_eq!(int_val(ZERO_PTR), 0);
    assert_eq!(int_val(ONE_PTR), 1);
    assert_eq!(int_val(TWO_PTR), 2);
    assert_eq!(int_val(MINUS_ONE_PTR), -1);
    assert_eq!(int_val(0x8000_0000 | 0x3FFF_FFFF), MAX_INT);
    assert_eq!(int_val(0x8000_0000 | 0x4000_0000), MIN_INT);
    assert_eq!(int_val(5), 5);
}

#[test]
fn int_obj_then_int_val_gives_the_integer_back() {
    let om = OM::new();
    for i in [0, 1, -1, 42, -42, MAX_INT, MIN_INT, 123_456, -987_654] {
        assert_eq!(int_val(om.int_obj(i)), i);
    }
}

#[test]
fn int_obj_keeps_the_low_31_bits_only() {
    let om = OM::new();
    assert_eq!(om.int_obj(1), 1);
    assert_eq!(om.int_obj(-1), 0x7FFF_FFFF);
    assert!(!is_int(om.int_obj(7)));
}

#[test]
fn is_int_val_is_the_small_integer_range() {
    let om = OM::new();
    assert!(om.is_int_val(0));
    assert!(om.is_int_val(MAX_INT));
    assert!(om.is_int_val(MIN_INT));
    assert!(!om.is_int_val(MAX_INT + 1));
    assert!(!om.is_int_val(MIN_INT - 1));
    assert!(!om.is_int_val(i32::MAX));
}

#[test]
fn hash_word_size_and_counted() {
    assert_eq!(hash(77), 77);
    assert_eq!(to_word_size(0), 0);
    assert_eq!(to_word_size(1), 1);
    assert_eq!(to_word_size(4), 1);
    assert_eq!(to_word_size(5), 2);
    assert!(!counted(26));
    assert!(counted(27));
    assert!(counted(LAST_OOP as u32));
    assert!(!counted(LAST_OOP as u32 + 1));
    assert!(!counted(ONE_PTR));
}

#[test]
fn new_memory_has_every_entry_free() {
    let om = OM::new();
    assert_eq!(om.object_space.len(), 1);
    assert_eq!(om.fcl_heads.len(), BIG_SIZE + 1);
    assert_eq!(om.free_ptr, NON_PTR);
    assert_eq!(om.oops_left, 0);
    assert_eq!(om.active_context, NIL_PTR);
    for oop in [0u32, 1, 500, (OT_SIZE - 1) as u32] {
        assert!(om.is_free(oop));
        assert!(!om.is_ptrs(oop));
        assert!(!om.is_bitmap(oop));
        assert_eq!(om.get_count(oop), 0);
        assert_eq!(om.get_class(oop), NIL_PTR);
        assert_eq!(om.get_size(oop), 0);
        assert_eq!(om.get_rest(oop), REST_FREE);
        assert_eq!(om.get_loc(oop), Loc::Index { index: 0 });
    }
}

#[test]
fn setters_change_one_entry() {
    let mut om = OM::new();
    om.set_count(30, 7);
    om.set_size(30, 48);
    om.set_class(30, 99);
    om.set_rest(30, REST_PTRS);
    om.set_loc(30, Loc::Address { addr: 12 });
    assert_eq!(om.get_count(30), 7);
    assert_eq!(om.get_size(30), 48);
    assert_eq!(om.len(30), 12);
    assert_eq!(om.get_class(30), 99);
    assert!(om.is_ptrs(30));
    assert!(!om.is_free(30));
    assert_eq!(om.location_addr(30), 12);
    assert_eq!(om.addr_of_oop(30), 12);
    assert_eq!(om.get_count(31), 0);
    assert!(om.is_free(31));
    om.set_loc(31, Loc::Index { index: 5 });
    assert_eq!(om.location_index(31), 5);
    om.set_rest(32, REST_BITMAP);
    assert!(om.is_bitmap(32));
}

fn memory_with_object(oop: u32, addr: usize, words: usize) -> OM {
    let mut om = OM::new();
    om.object_space = vec![0; 64];
    om.set_loc(oop, Loc::Address { addr });
    om.set_rest(oop, REST_PTRS);
    om.set_size(oop, words * 4);
    om
}

#[test]
fn fetch_reads_the_body_words() {
    let mut om = memory_with_object(40, 10, 4);
    om.object_space[10] = 5;
    om.object_space[13] = 8;
    assert_eq!(om.fetch_ptr(40, 0), 5);
    assert_eq!(om.fetch_ptr(40, 3), 8);
    assert_eq!(om.fetch_ptr(40, -1), 0);
}

#[test]
fn store_then_fetch_gives_the_value_and_moves_counts() {
    let mut om = memory_with_object(40, 10, 4);
    om.object_space[11] = 50;
    om.set_count(50, 3);
    om.store_ptr(40, 1, 60);
    assert_eq!(om.fetch_ptr(40, 1), 60);
    assert_eq!(om.get_count(60), 1);
    assert_eq!(om.get_count(50), 2);
    assert_eq!(om.fetch_ptr(40, 0), 0);
    assert_eq!(om.fetch_ptr(40, 2), 0);
}

#[test]
fn store_of_uncounted_values_keeps_counts() {
    let mut om = memory_with_object(40, 10, 4);
    om.store_ptr(40, 2, ONE_PTR);
    assert_eq!(om.fetch_ptr(40, 2), ONE_PTR);
    om.store_ptr(40, 2, NIL_PTR);
    assert_eq!(om.fetch_ptr(40, 2), NIL_PTR);
    assert_eq!(om.get_count(NIL_PTR), 0);
}

#[test]
fn dec_ref_undoes_inc_ref() {
    let mut om = OM::new();
    om.set_count(100, 9);
    om.inc_ref(100);
    assert_eq!(om.get_count(100), 10);
    om.dec_ref(100);
    assert_eq!(om.get_count(100), 9);
    om.inc_ref(3);
    assert_eq!(om.get_count(3), 0);
}

#[test]
fn fetch_class_of_integers_and_objects() {
    let mut om = OM::new();
    om.set_class(45, 17);
    assert_eq!(om.fetch_class(45), 17);
    assert_eq!(om.fetch_class(ONE_PTR), 6);
}

#[test]
fn register_active_context_records_it() {
    let mut om = OM::new();
    om.register_active_context(77);
    assert_eq!(om.active_context, 77);
}

#[test]
fn free_list_prepend_makes_the_entry_the_head() {
    let mut om = OM::new();
    om.free_list_prepend(10);
    om.free_list_prepend(20);
    assert_eq!(om.free_ptr, 20);
    assert_eq!(om.location_index(20), 10);
    assert_eq!(om.location_index(10), NON_PTR as usize);
}

#[test]
fn every_oop_in_both_orders() {
    let up = for_every_oop();
    let down = for_every_oop_reverse();
    assert_eq!(up.len(), OT_SIZE);
    assert_eq!(down.len(), OT_SIZE);
    assert_eq!(up[0], 0);
    assert_eq!(up[OT_SIZE - 1], LAST_OOP as u32);
    let mut reversed = up.clone();
    reversed.reverse();
    assert_eq!(reversed, down);
}

#[test]
fn free_list_links_every_free_entry_lowest_first() {
    let mut om = OM::new();
    for oop in 0..OT_SIZE as u32 {
        om.set_rest(oop, REST_PTRS);
    }
    om.set_rest(7, REST_FREE);
    om.set_rest(3, REST_FREE);
    om.set_rest(900, REST_FREE);
    om.initialize_free_list();
    assert_eq!(om.free_ptr, 3);
    assert_eq!(om.location_index(3), 7);
    assert_eq!(om.location_index(7), 900);
    assert_eq!(om.location_index(900), NON_PTR as usize);
    assert_eq!(om.oops_left, 3);
}

#[test]
fn object_space_places_entries_at_their_offsets() {
    let mut om = OM::new();
    om.set_rest(0, REST_PTRS);
    om.set_rest(1, REST_BITMAP);
    om.set_rest(2, REST_FREE);
    om.initialize_object_space(vec![9, 8, 7, 6], vec![2, 5, 1]);
    assert_eq!(om.object_space, vec![9, 8, 7, 6]);
    assert_eq!(om.get_loc(0), Loc::Address { addr: 2 });
    assert_eq!(om.get_loc(1), Loc::Index { index: 5 });
    assert_eq!(om.get_loc(2), Loc::Index { index: 0 });
    assert_eq!(om.fetch_ptr(0, 1), 6);
}

#[test]
fn free_chunks_start_with_the_first_free_entry() {
    let mut om = OM::new();
    om.initialize_free_list();
    om.initialize_free_chunks(400);
    assert_eq!(om.fcl_heads[BIG_SIZE], 0);
    assert_eq!(om.free_ptr, 1);
    assert_eq!(om.get_loc(0), Loc::Address { addr: 100 });
    assert_eq!(om.get_size(0), (rusttalk::om::OM_SIZE - 400) / 4);
    assert_eq!(om.get_class(0), NON_PTR);
    assert!(!om.is_free(0));
    assert!(!om.is_ptrs(0));
}

#[test]
fn copy_halfwords_copies_low_halves_first() {
    let mut om = OM::new();
    om.object_space = vec![0x1111_2222, 0x3333_4444, 0, 0];
    om.copy_halfwords(0, 2, 3);
    assert_eq!(om.object_space[2], 0x1111_2222);
    assert_eq!(om.object_space[3], 0x0000_4444);
}

#[test]
fn class_labels_of_the_listing() {
    assert_eq!(class_label(6), Some("(smi)"));
    assert_eq!(class_label(8), Some("(array)"));
    assert_eq!(class_label(11), Some("(meth_ctx)"));
    assert_eq!(class_label(20), Some("(character)"));
    assert_eq!(class_label(1), Some("(unknown)"));
    assert_eq!(class_label(26), Some("(unknown)"));
    assert_eq!(class_label(27), None);
    assert_eq!(class_label(0x629), None);
}

/// A memory with nil at word 0, the system dictionary (holding nil) at
/// word 1, an unreachable object of 50 words at word 10, and no free chunk.
fn memory_with_garbage() -> OM {
    let mut om = OM::new();
    om.object_space = vec![0; 100];
    om.set_rest(NIL_PTR, 0);
    om.set_loc(NIL_PTR, Loc::Address { addr: 0 });
    om.set_rest(9, REST_PTRS);
    om.set_loc(9, Loc::Address { addr: 1 });
    om.set_size(9, 4);
    om.object_space[1] = NIL_PTR;
    om.set_rest(30, REST_PTRS);
    om.set_loc(30, Loc::Address { addr: 10 });
    om.set_size(30, 200);
    om.object_space[10] = 77;
    om.initialize_free_list();
    om
}

#[test]
fn allocation_collects_garbage_when_no_chunk_fits() {
    let mut om = memory_with_garbage();
    let free_before = om.oops_left;
    let oop = om.inst_ptrs(8, 3);
    assert_eq!(om.get_class(oop), 8);
    assert_eq!(om.get_size(oop), 12);
    assert!(om.is_ptrs(oop));
    for i in 0..3 {
        assert_eq!(om.fetch_ptr(oop, i), NIL_PTR);
    }
    assert_eq!(oop, 30);
    assert_eq!(om.location_addr(oop), 10);
    assert_eq!(om.fcl_heads[BIG_SIZE], 0);
    assert_eq!(om.location_addr(0), 13);
    assert_eq!(om.get_size(0), 47 * 4);
    assert_eq!(om.get_loc(9), Loc::Address { addr: 1 });
    assert_eq!(om.fetch_ptr(9, 0), NIL_PTR);
    assert_eq!(om.get_count(9), 1);
    assert_eq!(om.get_count(NIL_PTR), 1);
    assert_eq!(om.oops_left, free_before);
}
