use scheme_heap::{Header, Mem, MemRead, MemWrite, Memory, Tag};
use std::mem::size_of;

#[test]
fn read_usize() {
    let mem: Vec<u8> = vec![
        0x00, 0x00, 0x00, 0x11, 0x22, 0x33, 0x44, 0x55, 0x66, 0x77, 0x00, 0x00,
    ];

    let expected = if size_of::<usize>() == 8 {
        0x77_66_55_44_33_22_11_00
    } else {
        0x33_22_11_00
    };

    assert_eq!(usize::read(&mem, 2), expected);
}

#[test]
fn write_usize() {
    let mut mem: Vec<u8> = vec![0x00; 14];

    let bytes: usize = if size_of::<usize>() == 8 {
        0x77_66_55_44_33_22_11_00
    } else {
        0x33_22_11_00
    };

    bytes.write(&mut mem, 5);

    if size_of::<usize>() == 8 {
        assert_eq!(
            &mem[5..13],
            [0x00, 0x11, 0x22, 0x33, 0x44, 0x55, 0x66, 0x77]
        );
    } else {
        assert_eq!(&mem[5..9], [0x00, 0x11, 0x22, 0x33]);
    };
}

#[test]
fn write_read_usize() {
    let mut mem: Vec<u8> = vec![0x00; 23];

    let bytes: usize = if size_of::<usize>() == 8 {
        0x34_a5_88_9f_31_90_93_ea
    } else {
        0x31_90_93_ea
    };

    let addr = 4;

    bytes.write(&mut mem, addr);

    assert_eq!(usize::read(&mem, addr), bytes);
}

#[test]
fn write_read_header() {
    let mut mem: Vec<u8> = vec![0x00; 128];

    let header = Header {
        next: 2451423,
        size: 7813423,
        allocd: true,
        marked: false,
    };
    let addr = 34;

    header.write(&mut mem, addr);

    assert_eq!(Header::read(&mem, addr), header);
}

#[test]
fn word_write_touches_only_its_bytes() {
    let mut mem: Vec<u8> = vec![0xAA; 20];
    let w = size_of::<usize>();
    0usize.write(&mut mem, 3);
    assert_eq!(mem[2], 0xAA);
    assert!(mem[3..3 + w].iter().all(|b| *b == 0));
    assert_eq!(mem[3 + w], 0xAA);
    assert_eq!(0usize.size(), w);
}

#[test]
fn header_layout_and_flags() {
    let mut mem: Vec<u8> = vec![0x00; 64];
    let w = size_of::<usize>();
    let header = Header {
        next: 0x0102,
        size: 7,
        allocd: true,
        marked: true,
    };
    assert_eq!(header.size(), 2 * w + 1);
    header.write(&mut mem, 1);
    assert_eq!(mem[1], 0x02);
    assert_eq!(mem[2], 0x01);
    assert_eq!(mem[1 + w], 7);
    assert_eq!(mem[1 + 2 * w], 0b1100_0000);
    assert_eq!(Header::read(&mem, 1), header);

    let only_marked = Header {
        next: 0,
        size: 0,
        allocd: false,
        marked: true,
    };
    only_marked.write(&mut mem, 1);
    assert_eq!(mem[1 + 2 * w], 0b0100_0000);
    assert_eq!(Header::read(&mem, 1), only_marked);
}

#[test]
fn zeroed_header_reads_as_nothing() {
    let mem: Vec<u8> = vec![0x00; 40];
    assert_eq!(Header::read(&mem, 3), Header::new(0, 0, false));
}

#[test]
fn header_new_and_set_size() {
    let mut h = Header::new(5, 6, true);
    assert_eq!(
        h,
        Header {
            next: 5,
            size: 6,
            allocd: true,
            marked: false
        }
    );
    h.set_size(99);
    assert_eq!(h.size, 99);
    assert_eq!(h.next, 5);
    assert!(h.allocd);
}

#[test]
fn memory_new_installs_one_free_block() {
    let mem = Memory::new(64);
    assert_eq!(mem.len(), 64);
    let h = Header::read(&mem, 0);
    assert_eq!(h, Header::new(0, 64 - h.size(), false));
    assert_eq!(mem.read(63), 0);
}

#[test]
fn tag_bytes_both_ways() {
    assert_eq!(u8::from(Tag::Box), 0);
    assert_eq!(u8::from(Tag::Nil), 1);
    assert_eq!(u8::from(Tag::Bool), 2);
    assert_eq!(u8::from(Tag::Number), 3);
    assert_eq!(u8::from(Tag::Symbol), 4);
    assert_eq!(u8::from(Tag::Pair), 5);
    assert_eq!(Tag::from_byte(5), Some(Tag::Pair));
    assert_eq!(Tag::from_byte(0), Some(Tag::Box));
    assert_eq!(Tag::from_byte(6), None);
}
