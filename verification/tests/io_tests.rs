//! The engine: opening, placement, physical and virtual I/O, closing,
//! and layout snapshots.

use rair::io::RIO;
use rair::ist::IST;
use rair::mapsquery::RIOMap;
use rair::utils::{IoError, IoMode};

fn rw() -> IoMode {
    IoMode {
        read: true,
        write: true,
        cow: false,
    }
}

fn ro() -> IoMode {
    IoMode {
        read: true,
        write: false,
        cow: false,
    }
}

#[test]
fn write_physical_read_virtual() {
    let mut io = RIO::new();
    io.open("malloc://0x5000", rw()).unwrap();
    io.map(0x0, 0x500, 0x500).unwrap();
    io.pwrite(0, &vec![0x12, 0x34, 0x56, 0x78, 0x9a, 0xbc, 0xde])
        .unwrap();
    let mut data = vec![0u8; 7];
    io.vread(0x500, &mut data).unwrap();
    assert_eq!(data, [0x12, 0x34, 0x56, 0x78, 0x9a, 0xbc, 0xde]);
}

#[test]
fn virtual_write_reads_back_physically() {
    let mut io = RIO::new();
    io.open("malloc://0x5000", rw()).unwrap();
    io.map(0x0, 0x500, 0x500).unwrap();
    io.vwrite(0x500, &vec![0x23, 0x45, 0x67, 0x89, 0xab, 0xcd, 0xe1])
        .unwrap();
    let mut data = vec![0u8; 7];
    io.pread(0, &mut data).unwrap();
    assert_eq!(data, [0x23, 0x45, 0x67, 0x89, 0xab, 0xcd, 0xe1]);
}

#[test]
fn layout_survives_a_snapshot() {
    let mut io = RIO::new();
    io.open("malloc://0x500", rw()).unwrap();
    io.open_at("malloc://0x1337", rw(), 0x31000).unwrap();
    io.map(0x31000, 0xfff31000, 0x337).unwrap();
    let listing = io.maps.map_list();
    assert_eq!(
        listing,
        vec![RIOMap {
            paddr: 0x31000,
            vaddr: 0xfff31000,
            size: 0x337
        }]
    );
    let st = io.save_state();
    io.close_all();
    assert_eq!(io.maps.map_list(), vec![]);
    io.load_state(&st).unwrap();
    assert_eq!(io.maps.map_list(), listing);
    let st2 = io.save_state();
    assert_eq!(st2.descs.len(), 2);
    assert_eq!(st2.descs[0].name, "malloc://0x500");
    assert_eq!(st2.descs[0].paddr, 0);
    assert_eq!(st2.descs[0].size, 0x500);
    assert_eq!(st2.descs[1].name, "malloc://0x1337");
    assert_eq!(st2.descs[1].paddr, 0x31000);
    assert_eq!(st2.descs[1].size, 0x1337);
}

#[test]
fn interval_tree_overlap_and_envelope() {
    let mut ist: IST<u64> = IST::new();
    ist.insert(0, 0x90, 1);
    ist.insert(0x100, 0x190, 2);
    ist.insert(0x200, 0x290, 3);
    ist.insert(0x300, 0x390, 4);
    assert_eq!(ist.overlap(0x150, 0x250), vec![2, 3]);
    assert_eq!(ist.delete_envelop(0, 0x400), vec![1, 2, 3, 4]);
    assert_eq!(ist.size(), 0);
}

#[test]
fn physical_round_trip() {
    let mut io = RIO::new();
    io.open("malloc://0x100", rw()).unwrap();
    let x = vec![9, 8, 7, 6, 5];
    io.pwrite(0x20, &x).unwrap();
    let mut y = vec![0u8; 5];
    io.pread(0x20, &mut y).unwrap();
    assert_eq!(y, x);
}

#[test]
fn translation_follows_the_mapping() {
    let mut io = RIO::new();
    io.open("malloc://0x200", rw()).unwrap();
    io.map(0x100, 0x5000, 0x40).unwrap();
    assert_eq!(io.vir_to_phy(0x5000), Some(0x100));
    assert_eq!(io.vir_to_phy(0x5013), Some(0x113));
    assert_eq!(io.vir_to_phy(0x503f), Some(0x13f));
    assert_eq!(io.vir_to_phy(0x5040), None);
}

#[test]
fn unmapping_the_middle_keeps_the_flanks() {
    let mut io = RIO::new();
    io.open("malloc://0x1000", rw()).unwrap();
    io.map(0, 0x1000, 0x300).unwrap();
    io.unmap(0x1100, 0x100).unwrap();
    for i in 0..0x300u64 {
        let expected = i < 0x100 || i >= 0x200;
        assert_eq!(io.is_vir(0x1000 + i, 1), expected);
    }
}

#[test]
fn reads_stop_at_the_last_byte() {
    let mut io = RIO::new();
    io.open("malloc://0x10", rw()).unwrap();
    let mut one = vec![0u8; 1];
    io.pread(0xf, &mut one).unwrap();
    assert_eq!(io.pread(0x10, &mut one).err().unwrap(), IoError::AddressNotFound);
    let mut two = vec![0u8; 2];
    assert_eq!(io.pread(0xf, &mut two).err().unwrap(), IoError::UnexpectedEof);
}

#[test]
fn empty_buffers_are_no_ops() {
    let mut io = RIO::new();
    io.open("malloc://0x10", rw()).unwrap();
    let mut empty: Vec<u8> = vec![];
    io.pread(0, &mut empty).unwrap();
    io.pwrite(0, &empty).unwrap();
    assert_eq!(io.pread(0x100, &mut empty).err().unwrap(), IoError::AddressNotFound);
}

#[test]
fn error_variants_surface() {
    let mut io = RIO::new();
    assert_eq!(
        io.open("badformat://x", ro()).err().unwrap(),
        IoError::IoPluginNotFoundError
    );
    io.open("malloc://0x50", ro()).unwrap();
    assert_eq!(
        io.pwrite(0, &vec![1, 2, 3]).err().unwrap(),
        IoError::PermissionDenied
    );
    assert_eq!(
        io.open_at("malloc://0x50", ro(), 0x10).err().unwrap(),
        IoError::AddressesOverlapError
    );
    assert_eq!(io.close(7).err().unwrap(), IoError::HndlNotFoundError);
    assert_eq!(
        io.map(0x1000, 0x5000, 0x10).err().unwrap(),
        IoError::AddressNotFound
    );
}

#[test]
fn close_removes_descriptor_and_its_mappings() {
    let mut io = RIO::new();
    let h0 = io.open("malloc://0x100", rw()).unwrap();
    let h1 = io.open("malloc://0x100", rw()).unwrap();
    assert_eq!(h0, 0);
    assert_eq!(h1, 1);
    io.map(0, 0x4000, 0x100).unwrap();
    io.map(0x100, 0x5000, 0x100).unwrap();
    io.close(h0).unwrap();
    assert_eq!(
        io.maps.map_list(),
        vec![RIOMap {
            paddr: 0x100,
            vaddr: 0x5000,
            size: 0x100
        }]
    );
    assert_eq!(io.phy_to_hndl(0x0), None);
    assert_eq!(io.phy_to_hndl(0x100), Some(1));
    // A fresh open takes the smallest free handle again.
    let h2 = io.open("malloc://0x10", rw()).unwrap();
    assert_eq!(h2, 0);
}

#[test]
fn placement_fills_the_lowest_gap() {
    let mut io = RIO::new();
    io.open_at("malloc://0x100", rw(), 0x200).unwrap();
    io.open("malloc://0x100", rw()).unwrap();
    io.open("malloc://0x200", rw()).unwrap();
    let st = io.save_state();
    assert_eq!(st.descs[0].paddr, 0);
    assert_eq!(st.descs[0].size, 0x100);
    assert_eq!(st.descs[1].paddr, 0x200);
    assert_eq!(st.descs[2].paddr, 0x300);
    assert_eq!(st.descs[2].size, 0x200);
}

#[test]
fn reads_span_adjacent_descriptors() {
    let mut io = RIO::new();
    io.open("malloc://0x10", rw()).unwrap();
    io.open("malloc://0x10", rw()).unwrap();
    io.pwrite(0xe, &vec![1, 2, 3, 4]).unwrap();
    let mut data = vec![0u8; 4];
    io.pread(0xe, &mut data).unwrap();
    assert_eq!(data, [1, 2, 3, 4]);
}

#[test]
fn aliased_writes_favor_the_last_offset() {
    let mut io = RIO::new();
    io.open("malloc://0x100", rw()).unwrap();
    io.map(0x10, 0x1000, 0x10).unwrap();
    io.map(0x10, 0x2000, 0x10).unwrap();
    let mut buf = vec![0u8; 0x10];
    io.vwrite(0x1000, &vec![0xaa; 0x10]).unwrap();
    io.vread(0x2000, &mut buf).unwrap();
    assert_eq!(buf, vec![0xaa; 0x10]);
}

#[test]
fn open_reports_each_failure() {
    let mut io = RIO::new();
    match io.open("malloc://zz", rw()) {
        Err(IoError::Custom(m)) => assert_eq!(m, "invalid digit found in string"),
        other => panic!("expected a digit failure, got {:?}", other),
    }
    match io.open("malloc://0", rw()) {
        Err(IoError::Custom(m)) => assert_eq!(m, "cannot parse integer from empty string"),
        other => panic!("expected an empty-number failure, got {:?}", other),
    }
    match io.open("malloc://0x0", rw()) {
        Err(IoError::Custom(m)) => assert_eq!(m, "Cannot open an empty source"),
        other => panic!("expected an empty-source failure, got {:?}", other),
    }
}

#[test]
fn record_file_reports_each_failure() {
    let mut io = RIO::new();
    assert_eq!(io.record_file(3).err().unwrap(), IoError::HndlNotFoundError);
    let h = io.open("malloc://0x10", rw()).unwrap();
    match io.record_file(h) {
        Err(IoError::Custom(m)) => assert_eq!(m, "Not a record source"),
        other => panic!("expected a non-record failure, got {:?}", other),
    }
}

#[test]
fn virtual_write_refuses_readonly_sources() {
    let mut io = RIO::new();
    io.open("malloc://0x100", ro()).unwrap();
    io.map(0, 0x1000, 0x100).unwrap();
    assert_eq!(
        io.vwrite(0x1000, &vec![1, 2, 3]).err().unwrap(),
        IoError::PermissionDenied
    );
    let mut buf = vec![0u8; 3];
    io.vread(0x1000, &mut buf).unwrap();
    assert_eq!(buf, [0, 0, 0]);
}

#[test]
fn loading_a_layout_with_a_reused_handle_fails() {
    let mut io = RIO::new();
    io.open("malloc://0x10", rw()).unwrap();
    let mut st = io.save_state();
    let copy = rair::io::DescState {
        name: st.descs[0].name.clone(),
        perm: st.descs[0].perm,
        paddr: 0x100,
        hndl: st.descs[0].hndl,
        size: st.descs[0].size,
    };
    st.descs.push(copy);
    match io.load_state(&st) {
        Err(IoError::Custom(m)) => assert_eq!(m, "Handle already in use"),
        other => panic!("expected a handle clash, got {:?}", other),
    }
}
