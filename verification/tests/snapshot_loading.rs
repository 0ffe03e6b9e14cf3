use rusttalk::om::{Loc, OM, NON_PTR, OM_SIZE, OT_SIZE, REST_FREE, REST_PTRS};
use rusttalk::snapshot::{image_header, load, load_manchester, loadable, table_offset, MANCHESTER2};
use rusttalk::std_ptrs::NIL_PTR;

/// One entry of the object table of an image.
struct Entry {
    offset: i32,
    count: u8,
    rest: u8,
    size: i32,
    class: u32,
}

/// An image of the given object-space words and object-table entries.
fn image(words: &[u32], entries: &[Entry], image_type: i16) -> Vec<u8> {
    let mut bytes = Vec::new();
    bytes.extend_from_slice(&(words.len() as i32).to_be_bytes());
    bytes.extend_from_slice(&(entries.len() as i32).to_be_bytes());
    bytes.extend_from_slice(&image_type.to_be_bytes());
    bytes.resize(512, 0);
    for w in words {
        bytes.extend_from_slice(&w.to_be_bytes());
    }
    let start = (bytes.len() + 511) / 512 * 512;
    bytes.resize(start, 0);
    for e in entries {
        bytes.extend_from_slice(&e.offset.to_be_bytes());
    }
    for e in entries {
        bytes.push(e.count);
    }
    for e in entries {
        bytes.push(e.rest);
    }
    for e in entries {
        bytes.extend_from_slice(&e.size.to_be_bytes());
    }
    for e in entries {
        bytes.extend_from_slice(&e.class.to_be_bytes());
    }
    bytes
}

fn sample() -> Vec<u8> {
    image(
        &[0xDEAD_BEEF, 0x0102_0304, 7, 8],
        &[
            Entry { offset: 0, count: 0, rest: REST_FREE, size: 0, class: 0 },
            Entry { offset: 1, count: 3, rest: REST_PTRS, size: 8, class: 5 },
            Entry { offset: 0, count: 200, rest: REST_PTRS, size: 4, class: 0x0102_0304 },
        ],
        MANCHESTER2,
    )
}

#[test]
fn a_sample_image_is_loadable() {
    let om = OM::new();
    assert!(loadable(&sample(), &om));
}

#[test]
fn loading_reads_words_big_endian() {
    let mut om = OM::new();
    load(&sample(), &mut om);
    assert_eq!(om.object_space.len(), OM_SIZE);
    assert_eq!(om.object_space[0], 0xDEAD_BEEF);
    assert_eq!(om.object_space[1], 0x0102_0304);
    assert_eq!(om.object_space[2], 7);
    assert_eq!(om.object_space[3], 8);
    assert_eq!(om.object_space[4], 0);
}

#[test]
fn loading_fills_the_object_table() {
    let mut om = OM::new();
    load(&sample(), &mut om);
    assert_eq!(om.get_count(1), 3);
    assert_eq!(om.get_count(2), 200);
    assert_eq!(om.get_rest(1), REST_PTRS);
    assert_eq!(om.get_size(1), 8);
    assert_eq!(om.get_size(2), 4);
    assert_eq!(om.get_class(1), 5);
    assert_eq!(om.get_class(2), 0x0102_0304);
    assert_eq!(om.get_loc(1), Loc::Address { addr: 1 });
    assert_eq!(om.get_loc(2), Loc::Address { addr: 0 });
    assert_eq!(om.fetch_ptr(1, 0), 0x0102_0304);
    assert_eq!(om.fetch_ptr(2, 3), 8);
}

#[test]
fn loading_links_the_free_entries_and_makes_one_big_chunk() {
    let mut om = OM::new();
    load(&sample(), &mut om);
    assert_eq!(om.fcl_heads[rusttalk::om::BIG_SIZE], 0);
    assert_eq!(om.get_loc(0), Loc::Address { addr: 1 });
    assert_eq!(om.get_size(0), (OM_SIZE - 4) / 4);
    assert_eq!(om.get_class(0), NON_PTR);
    assert_eq!(om.get_rest(0), 0);
    assert_eq!(om.free_ptr, 3);
    assert_eq!(om.location_index(3), 4);
    assert_eq!(om.oops_left, OT_SIZE - 2);
}

#[test]
fn a_loaded_image_can_allocate() {
    let mut om = OM::new();
    load(&sample(), &mut om);
    let oop = om.inst_ptrs(8, 3);
    assert_eq!(oop, 0);
    assert_eq!(om.location_addr(oop), 1);
    assert_eq!(om.fcl_heads[rusttalk::om::BIG_SIZE], 3);
    assert_eq!(om.location_addr(3), 4);
    let words = ((OM_SIZE - 4) / 4 + 3) / 4;
    assert_eq!(om.get_size(3), (words - 3) * 4);
    assert_eq!(om.free_ptr, 4);
    assert_eq!(om.get_class(oop), 8);
    assert_eq!(om.get_size(oop), 12);
    assert!(om.is_ptrs(oop));
    assert_eq!(om.fetch_ptr(oop, 0), NIL_PTR);
    assert_eq!(om.fetch_ptr(oop, 2), NIL_PTR);
    assert_eq!(om.get_class(1), 5);
}

#[test]
fn load_manchester_takes_the_lengths_given() {
    let bytes = sample();
    let mut om = OM::new();
    load_manchester(&bytes, &mut om, 2, 3);
    assert_eq!(om.object_space[0], 0xDEAD_BEEF);
    assert_eq!(om.object_space[1], 0x0102_0304);
    assert_eq!(om.object_space[2], 0);
}

#[test]
fn other_image_types_are_not_loadable() {
    let om = OM::new();
    let bytes = image(&[1, 2], &[], 42);
    assert!(!loadable(&bytes, &om));
}

#[test]
fn short_or_truncated_images_are_not_loadable() {
    let om = OM::new();
    assert!(!loadable(&[0, 0, 0, 0, 0, 0, 0, 0, 0], &om));
    let mut bytes = sample();
    bytes.truncate(bytes.len() - 1);
    assert!(!loadable(&bytes, &om));
    let mut long_header = image(&[], &[], MANCHESTER2);
    long_header[3] = 9;
    assert!(!loadable(&long_header, &om));
}

#[test]
fn an_empty_image_is_loadable() {
    let om = OM::new();
    let bytes = image(&[], &[], MANCHESTER2);
    assert!(loadable(&bytes, &om));
}

#[test]
fn a_full_table_with_no_free_entry_is_not_loadable() {
    let om = OM::new();
    let entries: Vec<Entry> = (0..OT_SIZE)
        .map(|_| Entry { offset: 0, count: 0, rest: REST_PTRS, size: 0, class: 0 })
        .collect();
    let bytes = image(&[], &entries, MANCHESTER2);
    assert!(!loadable(&bytes, &om));
}

#[test]
fn header_fields_are_big_endian() {
    let bytes = [0, 0, 1, 2, 0xFF, 0xFF, 0xFF, 0xFE, 0, 43];
    assert_eq!(image_header(&bytes), (258, -2, 43));
    let bytes = [0x80, 0, 0, 0, 0, 0, 0, 0, 0xFF, 0xFF];
    assert_eq!(image_header(&bytes), (i32::MIN, 0, -1));
}

#[test]
fn the_table_starts_at_the_next_multiple_of_512() {
    assert_eq!(table_offset(0), 512);
    assert_eq!(table_offset(1), 1024);
    assert_eq!(table_offset(128), 1024);
    assert_eq!(table_offset(129), 1536);
}
