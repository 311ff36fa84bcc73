//! The map registry: mapping, splitting, unmapping and reverse lookup.

use rair::mapsquery::{RIOMap, RIOMapQuery};
use rair::utils::IoError;

#[test]
fn test_map_unmap() {
    let mut map_query = RIOMapQuery::new();

    // simple file open, map and unmap
    map_query.map(0, 0x4000, 0x100).unwrap();
    assert_eq!(map_query.maps.size(), 1);
    assert_eq!(map_query.rev_maps.size(), 1);

    map_query.unmap(0x4000, 0x100).unwrap();
    assert_eq!(map_query.maps.size(), 0);
    assert_eq!(map_query.rev_maps.size(), 0);

    map_query.map(0, 0x4000, 0x100).unwrap();
    map_query.map(0x100, 0x5000, 0x100).unwrap();
    map_query.map(0x200, 0x2000, 0x100).unwrap();
    map_query.map(0x300, 0x3000, 0x100).unwrap();
    assert_eq!(map_query.maps.size(), 4);
    assert_eq!(map_query.rev_maps.size(), 4);

    map_query.unmap(0x5000, 0x100).unwrap();
    map_query.unmap(0x2000, 0x100).unwrap();
    map_query.unmap(0x3000, 0x100).unwrap();
    map_query.unmap(0x4000, 0x100).unwrap();
    assert_eq!(map_query.maps.size(), 0);
    assert_eq!(map_query.rev_maps.size(), 0);

    map_query.map(0, 0x1000, 0x300).unwrap();
    assert_eq!(map_query.maps.size(), 1);

    map_query.unmap(0x1100, 0x100).unwrap();
    assert_eq!(map_query.maps.size(), 2);

    assert_eq!(
        map_query.split_vaddr_range(0x1000, 0x100).unwrap(),
        vec![RIOMap {
            vaddr: 0x1000,
            paddr: 0,
            size: 0x100
        }]
    );
    assert_eq!(
        map_query.split_vaddr_range(0x1200, 0x100).unwrap(),
        vec![RIOMap {
            vaddr: 0x1200,
            paddr: 0x200,
            size: 0x100
        }]
    );
    assert_eq!(map_query.split_vaddr_range(0x1100, 0x100), None);
}

#[test]
fn test_map_errors() {
    let mut map_query = RIOMapQuery::new();
    map_query.map(0x1000, 0x4000, 0x1000).unwrap();
    let mut e = map_query.map(0x3000, 0x4100, 0x1000).err();
    assert_eq!(e.unwrap(), IoError::AddressesOverlapError);
    assert_eq!(map_query.split_vaddr_range(0x3000, 0x2000), None);
    assert_eq!(map_query.split_vaddr_range(0x3000, 0x3000), None);
    e = map_query.unmap(0x3500, 0x500).err();
    assert_eq!(e.unwrap(), IoError::AddressNotFound);
}

#[test]
fn test_map_iter() {
    let mut map_query = RIOMapQuery::new();
    map_query.map(0, 0x4000, 0x100).unwrap();
    map_query.map(0x100, 0x5000, 0x100).unwrap();
    map_query.map(0x200, 0x2000, 0x100).unwrap();
    map_query.map(0x300, 0x3000, 0x100).unwrap();
    let listing = map_query.map_list();
    let mut iter = listing.into_iter();
    assert_eq!(
        RIOMap {
            paddr: 0x200,
            vaddr: 0x2000,
            size: 0x100
        },
        iter.next().unwrap()
    );
    assert_eq!(
        RIOMap {
            paddr: 0x300,
            vaddr: 0x3000,
            size: 0x100
        },
        iter.next().unwrap()
    );
    assert_eq!(
        RIOMap {
            paddr: 0,
            vaddr: 0x4000,
            size: 0x100
        },
        iter.next().unwrap()
    );
    assert_eq!(
        RIOMap {
            paddr: 0x100,
            vaddr: 0x5000,
            size: 0x100
        },
        iter.next().unwrap()
    );
    assert_eq!(iter.next(), None);
}

#[test]
fn test_split_vaddr_sparce_range() {
    let mut map_query = RIOMapQuery::new();
    map_query.map(0, 0x4000, 0x90).unwrap();
    map_query.map(0x100, 0x5000, 0x90).unwrap();
    map_query.map(0x200, 0x2000, 0x90).unwrap();
    map_query.map(0x300, 0x3000, 0x90).unwrap();
    assert_eq!(
        map_query.split_vaddr_sparce_range(0x1000, 0x5000),
        vec![
            RIOMap {
                paddr: 0x200,
                vaddr: 0x2000,
                size: 0x90
            },
            RIOMap {
                paddr: 0x300,
                vaddr: 0x3000,
                size: 0x90
            },
            RIOMap {
                paddr: 0x0,
                vaddr: 0x4000,
                size: 0x90
            },
            RIOMap {
                paddr: 0x100,
                vaddr: 0x5000,
                size: 0x90
            }
        ]
    );
}

#[test]
fn test_rev_query() {
    let mut map_query = RIOMapQuery::new();
    map_query.map(0, 0x4000, 0x90).unwrap();
    map_query.map(0x100, 0x5000, 0x90).unwrap();
    map_query.map(0x200, 0x2000, 0x90).unwrap();
    map_query.map(0x300, 0x3000, 0x90).unwrap();
    map_query.map(0, 0x6000, 0x90).unwrap();
    map_query.map(0, 0x7000, 0x90).unwrap();
    map_query.map(0, 0x8000, 0x90).unwrap();
    map_query.map(0, 0x9000, 0x90).unwrap();
    map_query.map(0, 0x10000, 0x90).unwrap();
    assert_eq!(
        map_query.rev_query(0x45),
        vec![0x4045, 0x6045, 0x7045, 0x8045, 0x9045, 0x10045]
    );
    assert_eq!(map_query.rev_query(0x145), vec![0x5045]);
    assert_eq!(map_query.rev_query(700), Vec::<u64>::new());
}

#[test]
fn rev_query_six_aliases_ascend() {
    let mut map_query = RIOMapQuery::new();
    for k in 0..6u64 {
        map_query.map(0x100, 0x1000 * (k + 1), 0x80).unwrap();
    }
    assert_eq!(
        map_query.rev_query(0x110),
        vec![0x1010, 0x2010, 0x3010, 0x4010, 0x5010, 0x6010]
    );
}

#[test]
fn partial_unmap_leaves_two_fragments() {
    let mut map_query = RIOMapQuery::new();
    map_query.map(0, 0x1000, 0x300).unwrap();
    map_query.unmap(0x1100, 0x100).unwrap();
    let listing = map_query.map_list();
    assert_eq!(
        listing,
        vec![
            RIOMap {
                paddr: 0,
                vaddr: 0x1000,
                size: 0x100
            },
            RIOMap {
                paddr: 0x200,
                vaddr: 0x1200,
                size: 0x100
            }
        ]
    );
    assert_eq!(map_query.split_vaddr_range(0x1100, 0x100), None);
}

#[test]
fn zero_sized_maps_are_rejected() {
    let mut map_query = RIOMapQuery::new();
    assert_eq!(
        map_query.map(0, 0x1000, 0).err().unwrap(),
        IoError::AddressesOverlapError
    );
    assert_eq!(
        map_query.unmap(0x1000, 0).err().unwrap(),
        IoError::AddressNotFound
    );
}

#[test]
fn rev_query_ascends_whatever_the_insertion_order() {
    let mut map_query = RIOMapQuery::new();
    map_query.map(0x100, 0x9000, 0x80).unwrap();
    map_query.map(0x100, 0x3000, 0x80).unwrap();
    map_query.map(0x100, 0x6000, 0x80).unwrap();
    assert_eq!(map_query.rev_query(0x110), vec![0x3010, 0x6010, 0x9010]);
}
