//! Single-descriptor reads and writes.

use rair::io::{Backing, RIODesc};
use rair::utils::{IoError, IoMode};

/// The byte pattern the descriptor tests run against: the additive
/// sequence starting 0, 1, reduced modulo 256.
fn data() -> Vec<u8> {
    let mut v: Vec<u8> = vec![0];
    let (mut a, mut b) = (0u64, 1u64);
    while v.len() < 105 {
        v.push((b % 256) as u8);
        let next = a + b;
        a = b;
        b = next;
    }
    v
}

fn desc(perm: IoMode) -> RIODesc {
    let d = data();
    RIODesc {
        hndl: 0,
        name: "mem".to_owned(),
        perm,
        paddr: 0x40000,
        raddr: 0,
        size: d.len() as u64,
        ops: Backing::Mem(d),
    }
}

fn rw() -> IoMode {
    IoMode {
        read: true,
        write: true,
        cow: false,
    }
}

fn ro() -> IoMode {
    IoMode {
        read: true,
        write: false,
        cow: false,
    }
}

#[test]
fn test_desc_read() {
    let desc = desc(ro());
    let mut buffer = vec![0u8; 8];
    // read at the begining
    desc.read(desc.paddr, &mut buffer).unwrap();
    assert_eq!(buffer, [0x00, 0x01, 0x01, 0x02, 0x03, 0x05, 0x08, 0x0d]);
    // read at the middle
    desc.read(desc.paddr + 0x10, &mut buffer).unwrap();
    assert_eq!(buffer, [0xdb, 0x3d, 0x18, 0x55, 0x6d, 0xc2, 0x2f, 0xf1]);
    // read at the end
    desc.read(desc.paddr + 97, &mut buffer).unwrap();
    assert_eq!(buffer, [0x41, 0xc1, 0x02, 0xc3, 0xc5, 0x88, 0x4d, 0xd5]);
}

#[test]
fn test_desc_has_paddr() {
    let desc = desc(ro());
    let len = data().len() as u64;
    assert_eq!(desc.has_paddr(0x40000), true);
    assert_eq!(desc.has_paddr(0x40000 + len), false);
    assert_eq!(desc.has_paddr(0x40000 + len - 1), true);
}

#[test]
fn test_desc_read_errors() {
    let desc = desc(ro());
    let mut buffer = vec![0u8; 8];
    // read past the end
    let e = desc.read(desc.paddr + desc.size, &mut buffer);
    assert_eq!(e.err().unwrap(), IoError::UnexpectedEof);
    // read at the middle past the end
    let e = desc.read(desc.paddr + desc.size - 5, &mut buffer);
    assert_eq!(e.err().unwrap(), IoError::UnexpectedEof);
    // read at the start past the end
    let mut v = vec![0u8; (desc.size + 8) as usize];
    let e = desc.read(desc.paddr, &mut v);
    assert_eq!(e.err().unwrap(), IoError::UnexpectedEof);
}

#[test]
fn test_desc_write() {
    let mut desc = desc(rw());
    let mut buffer = vec![0u8; 8];
    // write at the begining
    desc.write(desc.paddr, &vec![0u8; 8]).unwrap();
    desc.read(desc.paddr, &mut buffer).unwrap();
    assert_eq!(buffer, [0x00; 8]);
    // write at the middle
    desc.write(desc.paddr + 0x10, &vec![0u8; 8]).unwrap();
    desc.read(desc.paddr + 0x10, &mut buffer).unwrap();
    assert_eq!(buffer, [0x00; 8]);
    // write at the end
    desc.write(desc.paddr + 97, &vec![0u8; 8]).unwrap();
    desc.read(desc.paddr + 97, &mut buffer).unwrap();
    assert_eq!(buffer, [0x00; 8]);
}

#[test]
fn test_write_errors() {
    let mut desc = desc(rw());
    // write past the end
    let e = desc.write(desc.paddr + desc.size, &vec![0u8; 8]);
    assert_eq!(e.err().unwrap(), IoError::UnexpectedEof);
    // write at the middle past the end
    let e = desc.write(desc.paddr + desc.size - 5, &vec![0u8; 8]);
    assert_eq!(e.err().unwrap(), IoError::UnexpectedEof);
    // write at the start past the end
    let v = vec![0u8; (desc.size + 8) as usize];
    let e = desc.write(desc.paddr, &v);
    assert_eq!(e.err().unwrap(), IoError::UnexpectedEof);
}
