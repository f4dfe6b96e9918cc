use scheme_heap::{children, Header, Heap, HeapError, Mem, MemRead, MemWrite, SchemeObj};
use std::cell::Cell;
use std::mem::size_of;
use std::rc::Rc;

fn header_size() -> usize {
    Header::new(0, 0, false).size()
}

fn pair(car: SchemeObj, cdr: SchemeObj) -> SchemeObj {
    SchemeObj::Pair {
        car: Box::new(car),
        cdr: Box::new(cdr),
    }
}

/// The header addresses of the chain, walked from address 0.
fn walk<M: Mem>(mem: &M) -> Vec<(usize, Header)> {
    let mut out = vec![];
    let mut addr = 0;
    loop {
        let h = Header::read(mem, addr);
        let next = h.next;
        out.push((addr, h));
        if next == 0 {
            return out;
        }
        addr = next;
    }
}

#[test]
fn initalize() {
    let mem = Heap::new(32, Box::new(|| vec![]));
    let header = Header::read(&mem, 0);
    assert_eq!(header, Header::new(0, 32 - header.size(), false));
}

#[test]
fn alloc_split() {
    let size = 128;
    let mut mem = Heap::new(size, Box::new(|| vec![]));

    let n = 12;
    let addr = mem.alloc_bytes(n, false).unwrap();

    let header1 = Header::read(&mem, 0);
    let header2 = Header::read(&mem, header1.size() + n);

    assert_eq!(addr, header1.size());
    assert_eq!(header1, Header::new(header1.size() + n, n, true));
    assert_eq!(
        header2,
        Header::new(0, size - n - 2 * header1.size(), false)
    );
}

#[test]
fn alloc_no_split() {
    let test_header = Header::new(0, 0, false);
    let n = 43;

    let mut mem = Heap::new(test_header.size() + n, Box::new(|| vec![]));

    let addr = mem.alloc_bytes(n, false).unwrap();

    let header1 = Header::read(&mem, 0);

    assert_eq!(addr, header1.size());
    assert_eq!(header1.next, 0);
}

#[test]
fn alloc_too_big_is_out_of_memory() {
    let mut mem = Heap::new(64, Box::new(|| vec![]));
    assert_eq!(mem.alloc_bytes(123, false), Err(HeapError::OutOfMemory));
    assert_eq!(mem.alloc_bytes(123, true), Err(HeapError::OutOfMemory));
    let h = Header::read(&mem, 0);
    assert_eq!(h, Header::new(0, 64 - header_size(), false));
}

#[test]
fn residue_too_small_for_header_is_not_split() {
    let hs = header_size();
    let mut mem = Heap::new(hs + 50, Box::new(|| vec![]));
    let addr = mem.alloc_bytes(50 - hs + 1, false).unwrap();
    assert_eq!(addr, hs);
    assert_eq!(Header::read(&mem, 0), {
        let mut h = Header::new(0, 50, true);
        h.marked = false;
        h
    });
}

#[test]
fn first_fit_takes_earliest_free_block() {
    let hs = header_size();
    let mut mem = Heap::new(512, Box::new(|| vec![]));
    let a = mem.alloc_bytes(10, false).unwrap();
    let b = mem.alloc_bytes(20, false).unwrap();
    assert_eq!(a, hs);
    assert_eq!(b, hs + 10 + hs);
    let chain = walk(&mem);
    assert_eq!(chain.len(), 3);
    assert!(chain[0].1.allocd && chain[1].1.allocd && !chain[2].1.allocd);
}

#[test]
fn chain_covers_heap_and_links_follow_payloads() {
    let hs = header_size();
    let mut mem = Heap::new(300, Box::new(|| vec![]));
    mem.alloc_bytes(7, false).unwrap();
    mem.alloc_bytes(33, false).unwrap();
    mem.alloc_bytes(1, false).unwrap();
    let chain = walk(&mem);
    let total: usize = chain.iter().map(|(_, h)| hs + h.size).sum();
    assert_eq!(total, 300);
    for (addr, h) in &chain {
        if h.next != 0 {
            assert_eq!(h.next, addr + hs + h.size);
        }
    }
}

#[test]
fn object_round_trip() {
    let mut mem = Heap::new(512, Box::new(|| vec![]));
    let obj = pair(
        SchemeObj::Number(7),
        pair(SchemeObj::Bool(true), SchemeObj::Nil),
    );
    let addr = mem.alloc_object(&obj).unwrap();
    let back = mem.read_object(addr).unwrap();
    match back {
        SchemeObj::Pair { car, cdr } => {
            assert!(matches!(*car, SchemeObj::Number(7)));
            match *cdr {
                SchemeObj::Pair { car, cdr } => {
                    assert!(matches!(*car, SchemeObj::Bool(true)));
                    assert!(matches!(*cdr, SchemeObj::Nil));
                }
                other => panic!("expected a pair, got {:?}", other),
            }
        }
        other => panic!("expected a pair, got {:?}", other),
    }
    // The inner pair is boxed in the second slot.
    let slot = 1 + size_of::<usize>();
    assert_eq!(mem.read_byte(addr + 1 + slot), Ok(0));
    assert_eq!(mem.read_byte(addr + 1), Ok(3));
    assert_eq!(mem.read_byte(addr), Ok(5));
}

#[test]
fn primitive_round_trips() {
    let mut mem = Heap::new(512, Box::new(|| vec![]));
    let n = mem.alloc_object(&SchemeObj::Number(-42)).unwrap();
    let s = mem.alloc_object(&SchemeObj::Symbol(9)).unwrap();
    let f = mem.alloc_object(&SchemeObj::Bool(false)).unwrap();
    let z = mem.alloc_object(&SchemeObj::Nil).unwrap();
    assert!(matches!(mem.read_object(n), Ok(SchemeObj::Number(-42))));
    assert!(matches!(mem.read_object(s), Ok(SchemeObj::Symbol(9))));
    assert!(matches!(mem.read_object(f), Ok(SchemeObj::Bool(false))));
    assert!(matches!(mem.read_object(z), Ok(SchemeObj::Nil)));
}

#[test]
fn sizes_match_bytes_written() {
    let w = size_of::<usize>();
    assert_eq!(SchemeObj::Nil.size(), 1 + w);
    assert_eq!(SchemeObj::Number(3).size(), 1 + w);
    let p = pair(SchemeObj::Nil, SchemeObj::Symbol(1));
    assert_eq!(p.size(), 1 + 2 * (1 + w));

    let mut mem: Vec<u8> = vec![0xEE; 64];
    p.write(&mut mem, 4, 0, 0);
    assert_eq!(mem[3], 0xEE);
    assert_eq!(mem[4 + p.size()], 0xEE);
    assert!(mem[4..4 + p.size()].iter().all(|b| *b != 0xEE));

    let mut mem: Vec<u8> = vec![0xEE; 64];
    SchemeObj::Nil.write(&mut mem, 2, 0, 0);
    assert_eq!(mem[2 + SchemeObj::Nil.size()], 0xEE);
    assert!(mem[2..2 + SchemeObj::Nil.size()].iter().all(|b| *b != 0xEE));
}

#[test]
fn decode_errors() {
    let mut mem = Heap::new(128, Box::new(|| vec![]));
    let addr = mem.alloc_object(&SchemeObj::Symbol(1)).unwrap();
    mem.write_byte(addr, 9).unwrap();
    assert!(matches!(mem.read_object(addr), Err(HeapError::UnknownTag)));
    mem.write_byte(addr, 0).unwrap();
    assert!(matches!(mem.read_object(addr), Err(HeapError::InvalidTag)));
    assert!(matches!(mem.read_object(128), Err(HeapError::AddressOutOfRange)));
    assert_eq!(mem.read_byte(128), Err(HeapError::AddressOutOfRange));
    assert_eq!(mem.write_byte(200, 1), Err(HeapError::AddressOutOfRange));
}

#[test]
fn box_cycle_is_too_deep() {
    let mut mem = Heap::new(256, Box::new(|| vec![]));
    let addr = mem
        .alloc_object(&pair(pair(SchemeObj::Nil, SchemeObj::Nil), SchemeObj::Nil))
        .unwrap();
    // Point the car's box back at the outer pair.
    addr.write(&mut mem, addr + 2);
    assert!(matches!(mem.read_object(addr), Err(HeapError::TooDeep)));
}

#[test]
fn children_of_pairs() {
    let mut mem = Heap::new(512, Box::new(|| vec![]));
    let inner = pair(SchemeObj::Nil, SchemeObj::Nil);
    let addr = mem.alloc_object(&pair(inner, SchemeObj::Number(1))).unwrap();
    let kids = children(&mem, addr);
    assert_eq!(kids.len(), 1);
    assert!(matches!(mem.read_object(kids[0]), Ok(SchemeObj::Pair { .. })));
    assert!(children(&mem, kids[0]).is_empty());
}

#[test]
fn gc_reclaims_unreachable() {
    let hs = header_size();
    let pair_size = 1 + 2 * (1 + size_of::<usize>());
    let root = Rc::new(Cell::new(0usize));
    let seen = root.clone();
    let size = 3 * hs + 2 * pair_size + 50;
    let mut mem = Heap::new(size, Box::new(move || vec![seen.get()]));

    let live_pair = mem
        .alloc_object(&pair(SchemeObj::Number(1), SchemeObj::Number(2)))
        .unwrap();
    let dead_pair = mem
        .alloc_object(&pair(SchemeObj::Number(3), SchemeObj::Number(4)))
        .unwrap();
    root.set(live_pair);

    assert_eq!(mem.alloc_bytes(60, false), Err(HeapError::OutOfMemory));
    let got = mem.alloc_bytes(60, true).unwrap();
    assert_eq!(got, dead_pair);

    match mem.read_object(live_pair) {
        Ok(SchemeObj::Pair { car, cdr }) => {
            assert!(matches!(*car, SchemeObj::Number(1)));
            assert!(matches!(*cdr, SchemeObj::Number(2)));
        }
        other => panic!("root lost: {:?}", other),
    }
    let chain = walk(&mem);
    assert!(chain.iter().all(|(_, h)| !h.marked));
    assert_eq!(chain.len(), 3);
    assert_eq!(chain[1].0 + hs, dead_pair);
    assert_eq!(chain[1].1.size, 60);
}

#[test]
fn collect_merges_free_blocks_and_clears_marks() {
    let hs = header_size();
    let root = Rc::new(Cell::new(0usize));
    let seen = root.clone();
    let mut mem = Heap::new(400, Box::new(move || vec![seen.get()]));
    let a = mem.alloc_object(&SchemeObj::Number(1)).unwrap();
    let b = mem.alloc_object(&SchemeObj::Number(2)).unwrap();
    let c = mem.alloc_object(&SchemeObj::Number(3)).unwrap();
    let _d = mem.alloc_object(&SchemeObj::Number(4)).unwrap();
    root.set(c);
    mem.collect();
    let chain = walk(&mem);
    assert!(chain.iter().all(|(_, h)| !h.marked));
    for pair in chain.windows(2) {
        assert!(pair[0].1.allocd || pair[1].1.allocd);
    }
    assert_eq!(chain.len(), 3);
    assert_eq!(chain[0].0, 0);
    assert!(!chain[0].1.allocd);
    assert_eq!(chain[0].1.size, b - a + (c - hs) - b);
    assert_eq!(chain[1].0 + hs, c);
    assert!(chain[1].1.allocd);
    assert!(!chain[2].1.allocd);
    let total: usize = chain.iter().map(|(_, h)| hs + h.size).sum();
    assert_eq!(total, 400);
    assert!(matches!(mem.read_object(c), Ok(SchemeObj::Number(3))));
}

#[test]
fn gc_follows_boxes() {
    let root = Rc::new(Cell::new(0usize));
    let seen = root.clone();
    let mut mem = Heap::new(400, Box::new(move || vec![seen.get()]));
    let outer = mem
        .alloc_object(&pair(pair(SchemeObj::Symbol(5), SchemeObj::Nil), SchemeObj::Nil))
        .unwrap();
    root.set(outer);
    mem.collect();
    match mem.read_object(outer) {
        Ok(SchemeObj::Pair { car, .. }) => match *car {
            SchemeObj::Pair { car, .. } => assert!(matches!(*car, SchemeObj::Symbol(5))),
            other => panic!("inner pair lost: {:?}", other),
        },
        other => panic!("root lost: {:?}", other),
    }
    let chain = walk(&mem);
    assert_eq!(chain.iter().filter(|(_, h)| h.allocd).count(), 2);
}

#[test]
fn collect_from_keeps_reachable_and_ignores_stray_roots() {
    let hs = header_size();
    let mut mem = Heap::new(400, Box::new(|| vec![]));
    let a = mem.alloc_object(&SchemeObj::Number(1)).unwrap();
    let outer = mem
        .alloc_object(&pair(SchemeObj::Nil, pair(SchemeObj::Symbol(8), SchemeObj::Nil)))
        .unwrap();
    let before = walk(&mem);
    mem.collect_from(vec![outer, 3, 9999, a + 1]);
    let after = walk(&mem);
    // `a` was not named by any root: its block is free now.
    assert_eq!(after[0].0, 0);
    assert!(!after[0].1.allocd);
    // The outer pair and the pair it boxes are kept unchanged.
    let kept: Vec<_> = after.iter().filter(|(_, h)| h.allocd).collect();
    assert_eq!(kept.len(), 2);
    for (addr, h) in kept {
        let old = before.iter().find(|(b, _)| b == addr).unwrap();
        assert_eq!(old.1, *h);
    }
    assert!(after.iter().any(|(b, _)| b + hs == outer));
    match mem.read_object(outer) {
        Ok(SchemeObj::Pair { cdr, .. }) => match *cdr {
            SchemeObj::Pair { car, .. } => assert!(matches!(*car, SchemeObj::Symbol(8))),
            other => panic!("inner pair lost: {:?}", other),
        },
        other => panic!("root lost: {:?}", other),
    }
}

#[test]
fn nested_pair_layout_in_small_heap() {
    let w = size_of::<usize>();
    let mut h = Heap::new(256, Box::new(|| vec![]));
    let v = pair(
        SchemeObj::Number(7),
        pair(SchemeObj::Bool(true), SchemeObj::Nil),
    );
    let a = h.alloc_object(&v).unwrap();
    assert_eq!(h.read_byte(a), Ok(5));
    assert_eq!(h.read_byte(a + 1), Ok(3));
    assert_eq!(usize::read(&h, a + 2), 7);
    assert_eq!(h.read_byte(a + 2 + w), Ok(0));
    let inner = usize::read(&h, a + 3 + w);
    match h.read_object(inner) {
        Ok(SchemeObj::Pair { car, cdr }) => {
            assert!(matches!(*car, SchemeObj::Bool(true)));
            assert!(matches!(*cdr, SchemeObj::Nil));
        }
        other => panic!("boxed child lost: {:?}", other),
    }
}

#[test]
fn nested_alloc_collects_and_retries() {
    let hs = header_size();
    let pair_size = 1 + 2 * (1 + size_of::<usize>());
    let mut h = Heap::new(2 * (hs + pair_size) + hs + 8, Box::new(|| vec![]));
    // Garbage that nothing roots fills the heap.
    h.alloc_object(&pair(SchemeObj::Nil, SchemeObj::Nil)).unwrap();
    h.alloc_object(&pair(SchemeObj::Nil, SchemeObj::Nil)).unwrap();
    let v = pair(SchemeObj::Symbol(3), pair(SchemeObj::Number(-1), SchemeObj::Nil));
    let a = h.alloc_object(&v).unwrap();
    match h.read_object(a) {
        Ok(SchemeObj::Pair { car, cdr }) => {
            assert!(matches!(*car, SchemeObj::Symbol(3)));
            match *cdr {
                SchemeObj::Pair { car, cdr } => {
                    assert!(matches!(*car, SchemeObj::Number(-1)));
                    assert!(matches!(*cdr, SchemeObj::Nil));
                }
                other => panic!("expected a pair, got {:?}", other),
            }
        }
        other => panic!("expected a pair, got {:?}", other),
    }
}

#[test]
fn children_of_non_pair_at_end_of_heap() {
    let hs = header_size();
    let w = size_of::<usize>();
    let mut h = Heap::new(hs + 1 + w, Box::new(|| vec![]));
    let a = h.alloc_object(&SchemeObj::Number(5)).unwrap();
    assert!(children(&h, a).is_empty());
}

#[test]
fn new_heap_is_zeroed_past_first_header() {
    let hs = header_size();
    let h = Heap::new(100, Box::new(|| vec![]));
    for k in hs..100 {
        assert_eq!(h.read_byte(k), Ok(0));
    }
}
