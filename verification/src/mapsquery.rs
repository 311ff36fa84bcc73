//! The map registry: a many-to-one projection of virtual onto physical
//! addresses, held as two paired interval trees.
//!
//! The forward tree is keyed by virtual intervals and its intervals are
//! pairwise disjoint: one virtual address translates to at most one
//! physical address. The reverse tree is keyed by physical intervals,
//! which may overlap freely: one physical address may be visible at many
//! virtual addresses. Both trees hold value-equal mapping records.

use crate::ist::{
    flat_contains, ist_inserted_at, key_lt, sel_all, sel_overlap, Interval, IST,
};
use crate::utils::IoError;
use vstd::prelude::*;

verus! {

/// A mapping between physical and virtual address space.
#[derive(Debug, Clone, Copy, PartialEq, Eq, Structural)]
pub struct RIOMap {
    /// Start of the physical range.
    pub paddr: u64,
    /// Start of the virtual range.
    pub vaddr: u64,
    /// Length of the mapping in bytes.
    pub size: u64,
}

impl RIOMap {
    /// A live mapping is non-empty and stays inside the 64-bit space on
    /// both sides.
    pub open spec fn wf_spec(self) -> bool {
        &&& self.size >= 1
        &&& self.vaddr + self.size - 1 <= u64::MAX
        &&& self.paddr + self.size - 1 <= u64::MAX
    }

    /// The physical address `p` falls inside this mapping.
    pub open spec fn has_paddr_spec(self, p: int) -> bool {
        self.paddr <= p < self.paddr + self.size
    }

    /// The virtual address `v` falls inside this mapping.
    pub open spec fn has_vaddr_spec(self, v: int) -> bool {
        self.vaddr <= v < self.vaddr + self.size
    }

    /// The virtual interval key of this mapping.
    pub open spec fn vint(self) -> Interval {
        Interval { lo: self.vaddr, hi: (self.vaddr + self.size - 1) as u64 }
    }

    /// The physical interval key of this mapping.
    pub open spec fn pint(self) -> Interval {
        Interval { lo: self.paddr, hi: (self.paddr + self.size - 1) as u64 }
    }

    /// The physical address `p` falls inside this mapping.
    pub fn has_paddr(&self, paddr: u64) -> (r: bool)
        requires
            self.wf_spec(),
        ensures
            r == self.has_paddr_spec(paddr as int),
    {
        paddr >= self.paddr && paddr - self.paddr < self.size
    }

    /// The virtual address `v` falls inside this mapping.
    pub fn has_vaddr(&self, vaddr: u64) -> (r: bool)
        requires
            self.wf_spec(),
        ensures
            r == self.has_vaddr_spec(vaddr as int),
    {
        vaddr >= self.vaddr && vaddr - self.vaddr < self.size
    }

    /// `map` lies entirely inside `self`, on both its physical and its
    /// virtual side.
    pub fn envelop(&self, map: &RIOMap) -> (r: bool)
        requires
            self.wf_spec(),
            map.wf_spec(),
        ensures
            r == (self.has_paddr_spec(map.paddr as int) && self.has_paddr_spec(
                map.paddr + map.size - 1,
            ) && self.has_vaddr_spec(map.vaddr as int) && self.has_vaddr_spec(
                map.vaddr + map.size - 1,
            )),
    {
        self.has_paddr(map.paddr) && self.has_paddr(map.paddr + (map.size - 1)) && self.has_vaddr(
            map.vaddr,
        ) && self.has_vaddr(map.vaddr + (map.size - 1))
    }

    /// Splits the mapping at the virtual address `vaddr`: the first part
    /// covers `[self.vaddr, vaddr)`, the second `[vaddr, end)`.
    pub fn split(self, vaddr: u64) -> (r: (RIOMap, RIOMap))
        requires
            self.wf_spec(),
            self.has_vaddr_spec(vaddr as int),
        ensures
            r.0 == (RIOMap { paddr: self.paddr, vaddr: self.vaddr, size: (vaddr - self.vaddr) as u64 }),
            r.1 == (RIOMap {
                paddr: (self.paddr + (vaddr - self.vaddr)) as u64,
                vaddr,
                size: (self.size - (vaddr - self.vaddr)) as u64,
            }),
    {
        let delta = vaddr - self.vaddr;
        let new_map = RIOMap { vaddr, paddr: self.paddr + delta, size: self.size - delta };
        (RIOMap { paddr: self.paddr, vaddr: self.vaddr, size: delta }, new_map)
    }

    /// The remnants of `self` once the virtual range of `map` is carved
    /// out of it: zero, one or two smaller mappings, in virtual order.
    pub fn remove_projection(self, map: &RIOMap) -> (r: Vec<RIOMap>)
        requires
            self.wf_spec(),
            map.size >= 1,
            self.has_vaddr_spec(map.vaddr as int),
            map.vaddr + map.size <= self.vaddr + self.size,
        ensures
            r@ == remnants_spec(self, *map),
            forall|k: int| 0 <= k < r@.len() ==> (#[trigger] r@[k]).wf_spec(),
    {
        let mut maps: Vec<RIOMap> = Vec::new();
        let mut cur = self;
        if self.vaddr < map.vaddr {
            let (clean, tainted) = cur.split(map.vaddr);
            maps.push(clean);
            cur = tainted;
        }
        if map.vaddr + (map.size - 1) < cur.vaddr + (cur.size - 1) {
            let (_, clean) = cur.split(map.vaddr + map.size);
            maps.push(clean);
        }
        proof {
            assert(maps@ =~= remnants_spec(self, *map));
        }
        maps
    }
}

/// What is left of mapping `m` after carving out the virtual range of
/// `f`: a left remnant when `f` starts after `m`, a right remnant when
/// `f` ends before `m` does.
pub open spec fn remnants_spec(m: RIOMap, f: RIOMap) -> Seq<RIOMap> {
    let left = RIOMap { paddr: m.paddr, vaddr: m.vaddr, size: (f.vaddr - m.vaddr) as u64 };
    let right = RIOMap {
        paddr: (m.paddr + (f.vaddr + f.size - m.vaddr)) as u64,
        vaddr: (f.vaddr + f.size) as u64,
        size: (m.vaddr + m.size - (f.vaddr + f.size)) as u64,
    };
    if m.vaddr < f.vaddr && f.vaddr + f.size < m.vaddr + m.size {
        seq![left, right]
    } else if m.vaddr < f.vaddr {
        seq![left]
    } else if f.vaddr + f.size < m.vaddr + m.size {
        seq![right]
    } else {
        Seq::empty()
    }
}

/// What remains of one mapping once the virtual range `[va, va + sz)`
/// is unmapped: the mapping itself when it misses the range, else its
/// flanks outside the range, left flank first.
pub open spec fn unmap_residue(m: RIOMap, va: int, sz: int) -> Seq<RIOMap> {
    if sz <= 0 || m.vaddr + m.size <= va || va + sz <= m.vaddr {
        seq![m]
    } else {
        (if m.vaddr < va {
            seq![RIOMap { paddr: m.paddr, vaddr: m.vaddr, size: (va - m.vaddr) as u64 }]
        } else {
            Seq::empty()
        }) + (if va + sz < m.vaddr + m.size {
            seq![
                RIOMap {
                    paddr: (m.paddr + (va + sz - m.vaddr)) as u64,
                    vaddr: (va + sz) as u64,
                    size: (m.vaddr + m.size - (va + sz)) as u64,
                },
            ]
        } else {
            Seq::empty()
        })
    }
}

/// Residue pieces are non-empty sub-ranges of their mapping.
proof fn lemma_residue_inside(m: RIOMap, va: int, sz: int, x: RIOMap)
    requires
        m.wf_spec(),
        unmap_residue(m, va, sz).contains(x),
    ensures
        m.vaddr <= x.vaddr,
        x.vaddr + x.size <= m.vaddr + m.size,
        x.size >= 1,
{
    let c = choose|c: int|
        0 <= c < unmap_residue(m, va, sz).len() && unmap_residue(m, va, sz)[c] == x;
}

/// The fragments stand side by side and cover exactly `[va, va + sz)`.
pub open spec fn tiles_spec(frags: Seq<RIOMap>, va: int, sz: int) -> bool {
    &&& frags.len() >= 1
    &&& frags[0].vaddr == va
    &&& forall|k: int|
        0 <= k < frags.len() - 1 ==> (#[trigger] frags[k]).vaddr + frags[k].size == frags[k
            + 1].vaddr
    &&& frags[frags.len() - 1].vaddr + frags[frags.len() - 1].size == va + sz
    &&& forall|k: int| 0 <= k < frags.len() ==> (#[trigger] frags[k]).wf_spec()
}

/// The piece of mapping `m` that falls inside the virtual interval
/// `[lo, hi]`, with its physical start shifted by the same offset.
pub open spec fn clip_spec(m: RIOMap, lo: u64, hi: u64) -> RIOMap {
    let start: int = if lo > m.vaddr {
        lo as int
    } else {
        m.vaddr as int
    };
    let end: int = if hi < m.vaddr + m.size - 1 {
        hi as int
    } else {
        m.vaddr + m.size - 1
    };
    RIOMap {
        paddr: (m.paddr + (start - m.vaddr)) as u64,
        vaddr: start as u64,
        size: (end - start + 1) as u64,
    }
}

/// The registry: the forward tree (`maps`, keyed by virtual intervals)
/// and the reverse tree (`rev_maps`, keyed by physical intervals).
pub struct RIOMapQuery {
    pub maps: IST<RIOMap>,
    pub rev_maps: IST<RIOMap>,
}

impl RIOMapQuery {
    /// The mappings held, in increasing virtual-address order.
    pub open spec fn mappings(&self) -> Seq<RIOMap> {
        Seq::new(self.maps.model().len(), |i: int| self.maps.model()[i].1[0])
    }

    /// The virtual address `a` is mapped.
    pub open spec fn is_mapped(&self, a: int) -> bool {
        exists|i: int|
            0 <= i < self.mappings().len() && (#[trigger] self.mappings()[i]).has_vaddr_spec(a)
    }

    /// The virtual address `a` translates to the physical address `p`.
    pub open spec fn maps_to(&self, a: int, p: int) -> bool {
        exists|i: int|
            0 <= i < self.mappings().len() && (#[trigger] self.mappings()[i]).has_vaddr_spec(a)
                && p == self.mappings()[i].paddr + (a - self.mappings()[i].vaddr)
    }

    /// The mapping `m` is registered.
    pub open spec fn has_map(&self, m: RIOMap) -> bool {
        exists|i: int| 0 <= i < self.mappings().len() && (#[trigger] self.mappings()[i]) == m
    }

    /// Internal consistency of the pair of trees.
    ///
    /// Forward: each entry holds exactly one well-formed mapping under
    /// its virtual interval as key, and the virtual intervals are
    /// pairwise disjoint in increasing order. Reverse: each entry's key
    /// is the physical interval of every mapping it holds, no mapping
    /// appears twice, and the mappings held are exactly those of the
    /// forward tree.
    pub open spec fn inv(&self) -> bool {
        let fm = self.maps.model();
        let rm = self.rev_maps.model();
        &&& self.maps.wf()
        &&& self.rev_maps.wf()
        &&& forall|i: int| 0 <= i < fm.len() ==> (#[trigger] fm[i]).1.len() == 1
        &&& forall|i: int|
            0 <= i < fm.len() ==> (#[trigger] fm[i]).1[0].wf_spec() && fm[i].0 == fm[i].1[0].vint()
        &&& forall|i: int, j: int|
            0 <= i < j < fm.len() ==> (#[trigger] fm[i]).1[0].vaddr + fm[i].1[0].size
                <= (#[trigger] fm[j]).1[0].vaddr
        &&& forall|i: int, k: int|
            0 <= i < rm.len() && 0 <= k < rm[i].1.len() ==> (#[trigger] rm[i].1[k]).wf_spec()
                && rm[i].0 == rm[i].1[k].pint()
        &&& forall|i: int, k: int, i2: int, k2: int|
            0 <= i < rm.len() && 0 <= k < rm[i].1.len() && 0 <= i2 < rm.len() && 0 <= k2
                < rm[i2].1.len() && (i != i2 || k != k2) ==> (#[trigger] rm[i].1[k])
                != (#[trigger] rm[i2].1[k2])
        &&& forall|m: RIOMap| self.has_map(m) <==> flat_contains(rm, m)
    }

    /// Registers the mapping `[vaddr, vaddr + size)` →
    /// `[paddr, paddr + size)`.
    ///
    /// Fails with `AddressesOverlapError`, leaving the registry
    /// untouched, exactly when the mapping is empty, runs past the end
    /// of the 64-bit space on either side, or its virtual range meets an
    /// already mapped address. On success every address of the range
    /// translates through the new mapping and nothing else changes.
    pub fn map(&mut self, paddr: u64, vaddr: u64, size: u64) -> (r: Result<(), IoError>)
        requires
            old(self).inv(),
        ensures
            final(self).inv(),
            r is Err ==> *final(self) == *old(self) && r == Err::<(), IoError>(
                IoError::AddressesOverlapError,
            ),
            r is Err <==> (size == 0 || vaddr + size - 1 > u64::MAX || paddr + size - 1 > u64::MAX
                || exists|a: int| vaddr <= a < vaddr + size && old(self).is_mapped(a)),
            r is Ok ==> {
                &&& forall|a: int, p: int|
                    final(self).maps_to(a, p) <==> (old(self).maps_to(a, p) || (vaddr <= a < vaddr
                        + size && p == paddr + (a - vaddr)))
                &&& forall|a: int|
                    final(self).is_mapped(a) <==> (old(self).is_mapped(a) || vaddr <= a < vaddr
                        + size)
                &&& forall|m: RIOMap|
                    final(self).has_map(m) <==> (old(self).has_map(m) || m == (RIOMap {
                        paddr,
                        vaddr,
                        size,
                    }))
            },
    {
        if size == 0 {
            return Err(IoError::AddressesOverlapError);
        }
        if vaddr > u64::MAX - (size - 1) {
            return Err(IoError::AddressesOverlapError);
        }
        if paddr > u64::MAX - (size - 1) {
            return Err(IoError::AddressesOverlapError);
        }
        let hi = vaddr + (size - 1);
        let ghost fm0 = self.maps.model();
        let ghost q = Interval { lo: vaddr, hi };
        let hits = self.maps.overlap(vaddr, hi);
        proof {
            crate::ist::lemma_sel_overlap_len(fm0, q, 0);
        }
        if hits.len() > 0 {
            proof {
                let j = choose|j: int|
                    0 <= j < fm0.len() && (#[trigger] fm0[j]).0.intersects_spec(q)
                        && fm0[j].1.len() > 0;
                let mj = self.mappings()[j];
                assert(fm0[j].0 == mj.vint());
                let a: int = if mj.vaddr >= vaddr {
                    mj.vaddr as int
                } else {
                    vaddr as int
                };
                assert(mj.has_vaddr_spec(a));
                assert(vaddr <= a < vaddr + size);
                assert(self.is_mapped(a));
            }
            return Err(IoError::AddressesOverlapError);
        }
        proof {
            assert forall|a: int| vaddr <= a < vaddr + size implies !self.is_mapped(a) by {
                if self.is_mapped(a) {
                    let i = choose|i: int|
                        0 <= i < self.mappings().len() && (#[trigger] self.mappings()[i]).has_vaddr_spec(
                            a,
                        );
                    assert(fm0[i].0 == self.mappings()[i].vint());
                    assert(fm0[i].0.intersects_spec(q));
                    assert(fm0[i].1.len() > 0);
                }
            }
        }
        let new_map = RIOMap { paddr, vaddr, size };
        let ghost pre = *self;
        self.insert_mapping(new_map);
        proof {
            assert(pre == *old(self));
            assert forall|a: int, p: int|
                self.maps_to(a, p) <==> (old(self).maps_to(a, p) || (vaddr <= a < vaddr + size
                    && p == paddr + (a - vaddr))) by {
                assert(self.maps_to(a, p) <==> (pre.maps_to(a, p) || (new_map.has_vaddr_spec(a)
                    && p == new_map.paddr + (a - new_map.vaddr))));
            }
            assert forall|a: int|
                self.is_mapped(a) <==> (old(self).is_mapped(a) || vaddr <= a < vaddr + size) by {
                assert(self.is_mapped(a) <==> (pre.is_mapped(a) || new_map.has_vaddr_spec(a)));
            }
            assert forall|m: RIOMap|
                self.has_map(m) <==> (old(self).has_map(m) || m == new_map) by {
                assert(self.has_map(m) <==> (pre.has_map(m) || m == new_map));
            }
        }
        Ok(())
    }

    /// Inserts a well-formed mapping whose virtual range is entirely
    /// unmapped into both trees.
    fn insert_mapping(&mut self, new_map: RIOMap)
        requires
            old(self).inv(),
            new_map.wf_spec(),
            forall|a: int|
                new_map.vaddr <= a < new_map.vaddr + new_map.size ==> !old(self).is_mapped(a),
        ensures
            final(self).inv(),
            forall|a: int, p: int|
                #![all_triggers]
                final(self).maps_to(a, p) <==> (old(self).maps_to(a, p) || (
                new_map.has_vaddr_spec(a) && p == new_map.paddr + (a - new_map.vaddr))),
            forall|a: int|
                #![all_triggers]
                final(self).is_mapped(a) <==> (old(self).is_mapped(a) || new_map.has_vaddr_spec(
                    a,
                )),
            forall|m: RIOMap|
                #![all_triggers]
                final(self).has_map(m) <==> (old(self).has_map(m) || m == new_map),
    {
        let paddr = new_map.paddr;
        let vaddr = new_map.vaddr;
        let size = new_map.size;
        let hi = vaddr + (size - 1);
        let ghost fm0 = self.maps.model();
        let ghost q = Interval { lo: vaddr, hi };
        proof {
            // No forward entry intersects the new virtual interval: a
            // common point would be a mapped address of the range.
            assert forall|j: int| 0 <= j < fm0.len() implies !(#[trigger] fm0[j]).0.intersects_spec(
                q,
            ) by {
                if fm0[j].0.intersects_spec(q) {
                    let mj = self.mappings()[j];
                    assert(mj == fm0[j].1[0]);
                    assert(fm0[j].0 == mj.vint());
                    let a: int = if mj.vaddr >= vaddr {
                        mj.vaddr as int
                    } else {
                        vaddr as int
                    };
                    assert(mj.has_vaddr_spec(a));
                    assert(self.is_mapped(a));
                    assert(vaddr <= a < vaddr + size);
                }
            }
        }
        let ghost old_maps = self.mappings();
        let ghost old_rm = self.rev_maps.model();
        let ghost old_self = *self;
        self.maps.insert(vaddr, hi, new_map);
        let ghost fm1 = self.maps.model();
        let ghost pos = choose|pos: int| ist_inserted_at(fm0, fm1, vaddr, hi, new_map, pos);
        proof {
            // The key is fresh: an equal key would intersect the query.
            if pos < fm0.len() && fm0[pos].0 == (Interval { lo: vaddr, hi }) {
                assert(fm0[pos].0.intersects_spec(q));
                assert(fm0[pos].1.len() > 0);
                assert(false);
            }
            assert(fm1 == fm0.subrange(0, pos) + seq![
                (Interval { lo: vaddr, hi }, seq![new_map]),
            ] + fm0.skip(pos));
            assert forall|i: int| 0 <= i < fm1.len() implies (#[trigger] fm1[i]) == (if i < pos {
                fm0[i]
            } else if i == pos {
                (Interval { lo: vaddr, hi }, seq![new_map])
            } else {
                fm0[i - 1]
            }) by {}
            assert(new_map.wf_spec());
            assert(new_map.vint() == (Interval { lo: vaddr, hi }));
            // Entries before `pos` end before the new mapping starts;
            // entries after start after it ends.
            assert forall|j: int| 0 <= j < pos implies fm0[j].1[0].vaddr + fm0[j].1[0].size
                <= vaddr by {
                assert(key_lt((#[trigger] fm0[j]).0, Interval { lo: vaddr, hi }));
                assert(fm0[j].0 == fm0[j].1[0].vint());
                assert(!fm0[j].0.intersects_spec(q));
            }
            assert forall|j: int| pos <= j < fm0.len() implies vaddr + size
                <= (#[trigger] fm0[j]).1[0].vaddr by {
                assert(!key_lt(fm0[pos].0, Interval { lo: vaddr, hi }));
                assert(!fm0[pos].0.intersects_spec(q));
                if fm0[pos].0.hi < vaddr {
                    assert(key_lt(fm0[pos].0, Interval { lo: vaddr, hi }));
                }
                assert(fm0[pos].0.lo > hi);
                if j > pos {
                    assert(fm0[pos].1[0].vaddr + fm0[pos].1[0].size <= fm0[j].1[0].vaddr);
                    assert(fm0[pos].0 == fm0[pos].1[0].vint());
                }
                assert(fm0[j].0 == fm0[j].1[0].vint());
            }
            // The forward half of the invariant holds again.
            assert forall|i: int, j: int|
                0 <= i < j < fm1.len() implies (#[trigger] fm1[i]).1[0].vaddr + fm1[i].1[0].size
                <= (#[trigger] fm1[j]).1[0].vaddr by {}
            assert(forall|i: int| 0 <= i < fm1.len() ==> (#[trigger] fm1[i]).1.len() == 1);
            assert(forall|i: int|
                0 <= i < fm1.len() ==> (#[trigger] fm1[i]).1[0].wf_spec() && fm1[i].0
                    == fm1[i].1[0].vint());
            // Elementwise relation between the two mapping sequences.
            assert(self.mappings() =~= old_maps.subrange(0, pos) + seq![new_map] + old_maps.skip(
                pos,
            ));
        }
        let ghost mid_self = *self;
        self.rev_maps.insert(paddr, paddr + (size - 1), new_map);
        let ghost rm1 = self.rev_maps.model();
        let ghost rpos = choose|rpos: int|
            #[trigger] ist_inserted_at(old_rm, rm1, paddr, (paddr + (size - 1)) as u64, new_map, rpos);
        proof {
            assert(self.mappings() == mid_self.mappings());
            lemma_mappings_insert_effects(old_self, *self, new_map, pos);
            // The new mapping was not registered before: its own virtual
            // start was unmapped.
            assert(!old_self.has_map(new_map)) by {
                if old_self.has_map(new_map) {
                    let i = choose|i: int|
                        0 <= i < old_maps.len() && (#[trigger] old_maps[i]) == new_map;
                    assert(old_maps[i].has_vaddr_spec(vaddr as int));
                }
            }
            assert(!flat_contains(old_rm, new_map));
            lemma_rev_insert_effects(
                old_rm,
                rm1,
                paddr,
                (paddr + (size - 1)) as u64,
                new_map,
                rpos,
            );
            assert(new_map.pint() == (Interval { lo: paddr, hi: (paddr + (size - 1)) as u64 }));
            assert forall|m: RIOMap| self.has_map(m) <==> flat_contains(rm1, m) by {
                assert(self.has_map(m) <==> (old_self.has_map(m) || m == new_map));
                assert(flat_contains(rm1, m) <==> (flat_contains(old_rm, m) || m == new_map));
            }
        }
    }

    /// Every virtual address of `[va, va + sz)` is mapped.
    pub open spec fn covered(&self, va: int, sz: int) -> bool {
        forall|a: int| va <= a < va + sz ==> self.is_mapped(a)
    }

    /// `f` is an aligned piece of one registered mapping: its virtual
    /// range lies inside the mapping's and its physical start keeps the
    /// mapping's offset.
    pub open spec fn frag_of(&self, f: RIOMap) -> bool {
        exists|i: int|
            0 <= i < self.mappings().len() && {
                let m = #[trigger] self.mappings()[i];
                &&& m.vaddr <= f.vaddr
                &&& f.vaddr + f.size <= m.vaddr + m.size
                &&& f.paddr == m.paddr + (f.vaddr - m.vaddr)
            }
    }

    /// Tiles the virtual range `[vaddr, vaddr + size)` with the pieces
    /// of the registered mappings it intersects.
    ///
    /// Returns `None`, exactly when the range is empty or has an
    /// unmapped hole; otherwise the fragments are non-empty, adjacent,
    /// start at `vaddr`, end at `vaddr + size`, and each is an aligned
    /// piece of one registered mapping, so that every address of the
    /// range translates through its fragment.
    #[verifier::rlimit(100)]
    pub fn split_vaddr_range(&self, vaddr: u64, size: u64) -> (r: Option<Vec<RIOMap>>)
        requires
            self.inv(),
        ensures
            r is Some <==> (size >= 1 && self.covered(vaddr as int, size as int)),
            r matches Some(f) ==> {
                &&& tiles_spec(f@, vaddr as int, size as int)
                &&& forall|k: int| 0 <= k < f@.len() ==> self.frag_of(#[trigger] f@[k])
            },
    {
        if size == 0 {
            return None;
        }
        if vaddr > u64::MAX - (size - 1) {
            proof {
                let bad: int = u64::MAX as int + 1;
                assert(vaddr <= bad < vaddr + size);
                assert(!self.is_mapped(bad));
            }
            return None;
        }
        let hi = vaddr + (size - 1);
        let ghost fm = self.maps.model();
        let ghost q = Interval { lo: vaddr, hi };
        let hits = self.maps.overlap(vaddr, hi);
        proof {
            lemma_hits_props(*self, q);
        }
        let ghost fs = hits@;
        if hits.len() == 0 {
            proof {
                assert((vaddr as int) < vaddr + size);
                if self.is_mapped(vaddr as int) {
                    let i = choose|i: int|
                        0 <= i < self.mappings().len()
                            && (#[trigger] self.mappings()[i]).has_vaddr_spec(vaddr as int);
                    assert(self.mappings()[i].vint().intersects_spec(q));
                    assert(fs.contains(self.mappings()[i]));
                }
            }
            return None;
        }
        let mut ranges: Vec<RIOMap> = Vec::new();
        let mut start: u64 = vaddr;
        let mut remaining: u64 = size;
        let mut idx: usize = 0;
        while idx < hits.len()
            invariant
                self.inv(),
                fs == hits@,
                fm == self.maps.model(),
                q == (Interval { lo: vaddr, hi }),
                size >= 1,
                vaddr + size - 1 <= u64::MAX,
                hi == vaddr + size - 1,
                0 <= idx <= fs.len(),
                1 <= remaining <= size,
                start == vaddr + (size - remaining),
                forall|a: int|
                    0 <= a < fs.len() ==> self.has_map(#[trigger] fs[a]) && fs[a].wf_spec()
                        && fs[a].vint().intersects_spec(q),
                forall|a: int, b: int|
                    0 <= a < b < fs.len() ==> (#[trigger] fs[a]).vaddr + fs[a].size
                        <= (#[trigger] fs[b]).vaddr,
                forall|j: int|
                    0 <= j < self.mappings().len()
                        && (#[trigger] self.mappings()[j]).vint().intersects_spec(q)
                        ==> fs.contains(self.mappings()[j]),
                forall|j: int|
                    0 <= j < idx ==> (#[trigger] fs[j]).vaddr + fs[j].size <= start,
                idx == 0 ==> start == vaddr,
                idx >= 1 ==> start <= fs[idx - 1].vaddr + fs[idx - 1].size,
                forall|a: int| vaddr <= a < start ==> self.is_mapped(a),
                ranges@.len() == idx,
                idx >= 1 ==> ranges@[0].vaddr == vaddr,
                forall|k: int|
                    0 <= k < ranges@.len() - 1 ==> (#[trigger] ranges@[k]).vaddr + ranges@[k].size
                        == ranges@[k + 1].vaddr,
                idx >= 1 ==> ranges@[idx - 1].vaddr + ranges@[idx - 1].size == start,
                forall|k: int|
                    0 <= k < ranges@.len() ==> (#[trigger] ranges@[k]).wf_spec() && self.frag_of(
                        ranges@[k],
                    ),
            decreases hits.len() - idx,
        {
            let m = hits[idx];
            if start < m.vaddr {
                proof {
                    assert(vaddr <= start && (start as int) < vaddr + size);
                    if self.is_mapped(start as int) {
                        let i = choose|i: int|
                            0 <= i < self.mappings().len()
                                && (#[trigger] self.mappings()[i]).has_vaddr_spec(start as int);
                        let mm = self.mappings()[i];
                        assert(mm == self.maps.model()[i].1[0]);
                        assert(mm.wf_spec());
                        assert(mm.vint().intersects_spec(q));
                        assert(fs.contains(mm));
                        let c = choose|c: int| 0 <= c < fs.len() && (#[trigger] fs[c]) == mm;
                        if c < idx {
                            assert(fs[c].vaddr + fs[c].size <= start);
                        } else if c > idx {
                            assert(fs[idx as int].vaddr + fs[idx as int].size <= fs[c].vaddr);
                        }
                        assert(false);
                    }
                }
                return None;
            }
            let offset = start - m.vaddr;
            // The hit still has room past `start`: the first hit reaches
            // into the queried range, and at every later hit `start`
            // stands exactly at the hit's beginning.
            proof {
                assert(fs[idx as int].vint().intersects_spec(q));
                if idx == 0 {
                    assert(m.vaddr + m.size - 1 >= vaddr);
                } else {
                    assert(fs[idx - 1].vaddr + fs[idx - 1].size <= fs[idx as int].vaddr);
                    assert(start == m.vaddr);
                }
                assert(offset < m.size);
            }
            let avail = m.size - offset;
            let delta = if remaining < avail {
                remaining
            } else {
                avail
            };
            let frag = RIOMap { paddr: m.paddr + offset, vaddr: start, size: delta };
            proof {
                let i = choose|i: int|
                    0 <= i < self.mappings().len() && (#[trigger] self.mappings()[i]) == m;
                assert(frag.wf_spec());
                assert(self.frag_of(frag));
                assert forall|a: int| vaddr <= a < start + delta implies self.is_mapped(a) by {
                    if start <= a {
                        assert(self.mappings()[i].has_vaddr_spec(a));
                    }
                }
            }
            ranges.push(frag);
            remaining = remaining - delta;
            if remaining == 0 {
                proof {
                    assert(start + delta == vaddr + size);
                    assert(tiles_spec(ranges@, vaddr as int, size as int));
                }
                return Some(ranges);
            }
            start = start + delta;
            idx = idx + 1;
            proof {
                assert(fs[idx - 1].vaddr + fs[idx - 1].size >= start) by {
                    assert(ranges@[idx - 1].size == delta);
                }
                assert forall|j: int|
                    0 <= j < idx implies (#[trigger] fs[j]).vaddr + fs[j].size <= start by {
                    if j < idx - 1 {
                        assert(fs[j].vaddr + fs[j].size <= fs[idx - 1].vaddr);
                    } else {
                        assert(delta == avail || remaining == 0);
                        assert(fs[j].vaddr + offset + avail == fs[j].vaddr + fs[j].size);
                    }
                }
            }
        }
        proof {
            assert(vaddr <= start && (start as int) < vaddr + size);
            if self.is_mapped(start as int) {
                let i = choose|i: int|
                    0 <= i < self.mappings().len()
                        && (#[trigger] self.mappings()[i]).has_vaddr_spec(start as int);
                let mm = self.mappings()[i];
                assert(mm.vint().intersects_spec(q));
                assert(fs.contains(mm));
                let c = choose|c: int| 0 <= c < fs.len() && (#[trigger] fs[c]) == mm;
                assert(fs[c].vaddr + fs[c].size <= start);
                assert(false);
            }
        }
        None
    }

    /// Removes one aligned fragment of one registered mapping: the
    /// enveloping mapping leaves both trees and its remnants outside the
    /// fragment are reinserted, so that exactly the fragment's addresses
    /// lose their translation. Returns the enveloping mapping as a ghost
    /// witness.
    #[verifier::rlimit(100)]
    fn unmap_fragment(&mut self, f: RIOMap) -> (g: Ghost<RIOMap>)
        requires
            old(self).inv(),
            f.wf_spec(),
            old(self).frag_of(f),
        ensures
            final(self).inv(),
            forall|a: int, p: int|
                #![all_triggers]
                final(self).maps_to(a, p) <==> (old(self).maps_to(a, p) && !f.has_vaddr_spec(a)),
            forall|a: int|
                #![all_triggers]
                final(self).is_mapped(a) <==> (old(self).is_mapped(a) && !f.has_vaddr_spec(a)),
            old(self).has_map(g@) && g@.vaddr <= f.vaddr && f.vaddr + f.size <= g@.vaddr + g@.size
                && f.paddr == g@.paddr + (f.vaddr - g@.vaddr),
            forall|x: RIOMap|
                #![all_triggers]
                final(self).has_map(x) <==> ((old(self).has_map(x) && x != g@) || remnants_spec(
                    g@,
                    f,
                ).contains(x)),
    {
        let ghost orig = *self;
        let ghost fm0 = self.maps.model();
        let parents = self.maps.at(f.vaddr);
        proof {
            let w = choose|i: int|
                0 <= i < self.mappings().len() && {
                    let m = #[trigger] self.mappings()[i];
                    &&& m.vaddr <= f.vaddr
                    &&& f.vaddr + f.size <= m.vaddr + m.size
                    &&& f.paddr == m.paddr + (f.vaddr - m.vaddr)
                };
            assert(fm0[w].0 == self.mappings()[w].vint());
            assert(fm0[w].0.intersects_spec(Interval { lo: f.vaddr, hi: f.vaddr }));
            crate::ist::lemma_sel_overlap_complete(fm0, Interval { lo: f.vaddr, hi: f.vaddr }, 0, w, 0);
            assert(parents@.contains(self.mappings()[w]));
            assert(parents@.len() > 0);
            crate::ist::lemma_sel_overlap_elem(fm0, Interval { lo: f.vaddr, hi: f.vaddr }, 0, 0);
        }
        let pm = parents[0];
        let ghost wpos = choose|i: int|
            0 <= i < orig.mappings().len() && (#[trigger] orig.mappings()[i]) == pm;
        proof {
            // `parents[0]` is a registered mapping whose virtual interval
            // contains the fragment's start.
            let (j, k) = choose|j: int, k: int|
                0 <= j < fm0.len() && 0 <= k < fm0[j].1.len() && (#[trigger] fm0[j].1[k])
                    == parents@[0] && fm0[j].0.intersects_spec(Interval { lo: f.vaddr, hi: f.vaddr });
            assert(pm == self.mappings()[j]);
            assert(fm0[j].0 == pm.vint());
            assert(pm.has_vaddr_spec(f.vaddr as int));
            // It is the same mapping as the fragment's envelope: two
            // registered mappings cannot share an address.
            let w = choose|i: int|
                0 <= i < self.mappings().len() && {
                    let m = #[trigger] self.mappings()[i];
                    &&& m.vaddr <= f.vaddr
                    &&& f.vaddr + f.size <= m.vaddr + m.size
                    &&& f.paddr == m.paddr + (f.vaddr - m.vaddr)
                };
            assert(self.mappings()[w].has_vaddr_spec(f.vaddr as int));
            if w != j {
                if w < j {
                    assert(self.mappings()[w].vaddr + self.mappings()[w].size
                        <= self.mappings()[j].vaddr);
                } else {
                    assert(self.mappings()[j].vaddr + self.mappings()[j].size
                        <= self.mappings()[w].vaddr);
                }
            }
            assert(self.mappings()[w] == pm);
            assert(pm.vaddr <= f.vaddr && f.vaddr + f.size <= pm.vaddr + pm.size && f.paddr
                == pm.paddr + (f.vaddr - pm.vaddr));
            assert(orig.mappings()[j] == pm);
            assert(0 <= wpos < orig.mappings().len() && orig.mappings()[wpos] == pm);
        }
        // Remove the enveloping mapping from the forward tree.
        let _removed = self.maps.delete(pm.vaddr, pm.vaddr + (pm.size - 1));
        let ghost s1 = *self;
        proof {
            let key = pm.vint();
            assert(fm0[wpos].0 == key);
            let di = choose|i: int| 0 <= i < fm0.len() && (#[trigger] fm0[i]).0 == key;
            if di != wpos {
                assert(key_lt(fm0[if di < wpos {
                    di
                } else {
                    wpos
                }].0, fm0[if di < wpos {
                    wpos
                } else {
                    di
                }].0));
            }
            assert(di == wpos);
            assert(self.maps.model() == fm0.subrange(0, wpos) + fm0.skip(wpos + 1));
            assert(self.mappings() =~= orig.mappings().subrange(0, wpos) + orig.mappings().skip(
                wpos + 1,
            ));
            lemma_mappings_remove_effects(orig, *self, pm, wpos);
            // Forward invariant pieces survive the removal.
            assert forall|i: int, j: int|
                0 <= i < j < self.maps.model().len() implies (
            #[trigger] self.maps.model()[i]).1[0].vaddr + self.maps.model()[i].1[0].size
                <= (#[trigger] self.maps.model()[j]).1[0].vaddr by {
                let fm1 = self.maps.model();
                assert(fm1[i] == if i < wpos {
                    fm0[i]
                } else {
                    fm0[i + 1]
                });
                assert(fm1[j] == if j < wpos {
                    fm0[j]
                } else {
                    fm0[j + 1]
                });
            }
            assert forall|i: int|
                0 <= i < self.maps.model().len() implies ((#[trigger] self.maps.model()[i]).1.len()
                == 1 && self.maps.model()[i].1[0].wf_spec() && self.maps.model()[i].0
                == self.maps.model()[i].1[0].vint()) by {
                assert(self.maps.model()[i] == if i < wpos {
                    fm0[i]
                } else {
                    fm0[i + 1]
                });
            }
        }
        // Remove every mapping stored under the enveloping mapping's
        // physical interval from the reverse tree, and put back those
        // that are not the enveloping mapping itself.
        let ghost rm0 = self.rev_maps.model();
        let revs = self.rev_maps.delete(pm.paddr, pm.paddr + (pm.size - 1));
        proof {
            assert(flat_contains(rm0, pm)) by {
                assert(orig.has_map(pm));
            }
            let (i, k) = choose|i: int, k: int|
                0 <= i < rm0.len() && 0 <= k < rm0[i].1.len() && (#[trigger] rm0[i].1[k]) == pm;
            assert(rm0[i].0 == pm.pint());
            assert(rm0[i].0 == (Interval { lo: pm.paddr, hi: (pm.paddr + (pm.size - 1)) as u64 }));
        }
        let ghost rdi = choose|i: int|
            0 <= i < rm0.len() && (#[trigger] rm0[i]).0 == (Interval {
                lo: pm.paddr,
                hi: (pm.paddr + (pm.size - 1)) as u64,
            });
        proof {
            assert(revs@ == rm0[rdi].1);
            assert(self.rev_maps.model() == rm0.subrange(0, rdi) + rm0.skip(rdi + 1));
            lemma_rev_delete_effects(rm0, self.rev_maps.model(), revs@, rdi);
            assert forall|i: int, k: int|
                0 <= i < self.rev_maps.model().len() && 0 <= k
                    < self.rev_maps.model()[i].1.len() implies (
            #[trigger] self.rev_maps.model()[i].1[k]).wf_spec() && self.rev_maps.model()[i].0
                == self.rev_maps.model()[i].1[k].pint() by {
                assert(self.rev_maps.model()[i] == if i < rdi {
                    rm0[i]
                } else {
                    rm0[i + 1]
                });
            }
            assert(revs@.contains(pm)) by {
                let (i, k) = choose|i: int, k: int|
                    0 <= i < rm0.len() && 0 <= k < rm0[i].1.len() && (#[trigger] rm0[i].1[k]) == pm;
                assert(rm0[i].0 == pm.pint());
                assert(i == rdi);
                assert(revs@[k] == pm);
            }
        }
        let ghost rmd = self.rev_maps.model();
        let mut ri: usize = 0;
        while ri < revs.len()
            invariant
                self.maps == s1.maps,
                f.wf_spec(),
                self.rev_maps.wf(),
                0 <= ri <= revs@.len(),
                forall|k: int, k2: int|
                    0 <= k < revs@.len() && 0 <= k2 < revs@.len() && k != k2 ==> (
                    #[trigger] revs@[k]) != (#[trigger] revs@[k2]),
                forall|k: int|
                    0 <= k < revs@.len() ==> (#[trigger] revs@[k]).wf_spec() && revs@[k].pint()
                        == pm.pint(),
                forall|x: RIOMap|
                    #![all_triggers]
                    flat_contains(self.rev_maps.model(), x) <==> ((flat_contains(rmd, x)
                        && !revs@.contains(x)) || exists|k: int|
                        0 <= k < ri && (#[trigger] revs@[k]) == x && x != pm),
                forall|x: RIOMap| flat_contains(rmd, x) ==> !revs@.contains(x),
                forall|i: int, k: int|
                    0 <= i < self.rev_maps.model().len() && 0 <= k
                        < self.rev_maps.model()[i].1.len() ==> (
                    #[trigger] self.rev_maps.model()[i].1[k]).wf_spec()
                        && self.rev_maps.model()[i].0 == self.rev_maps.model()[i].1[k].pint(),
                forall|i: int, k: int, i2: int, k2: int|
                    0 <= i < self.rev_maps.model().len() && 0 <= k
                        < self.rev_maps.model()[i].1.len() && 0 <= i2
                        < self.rev_maps.model().len() && 0 <= k2
                        < self.rev_maps.model()[i2].1.len() && (i != i2 || k != k2) ==> (
                    #[trigger] self.rev_maps.model()[i].1[k])
                        != (#[trigger] self.rev_maps.model()[i2].1[k2]),
            decreases revs.len() - ri,
        {
            let rv = revs[ri];
            let is_pm = rv.paddr == pm.paddr && rv.vaddr == pm.vaddr && rv.size == pm.size;
            if !is_pm {
                let ghost rmc = self.rev_maps.model();
                proof {
                    assert(!flat_contains(rmc, rv)) by {
                        if flat_contains(rmd, rv) {
                            assert(revs@.contains(rv));
                        }
                        if exists|k: int| 0 <= k < ri && (#[trigger] revs@[k]) == rv {
                            let k = choose|k: int| 0 <= k < ri && (#[trigger] revs@[k]) == rv;
                            assert(revs@[k] != revs@[ri as int]);
                        }
                    }
                    assert(rv.wf_spec());
                }
                self.rev_maps.insert(rv.paddr, rv.paddr + (rv.size - 1), rv);
                proof {
                    let rpos = choose|rpos: int|
                        #[trigger] ist_inserted_at(
                            rmc,
                            self.rev_maps.model(),
                            rv.paddr,
                            (rv.paddr + (rv.size - 1)) as u64,
                            rv,
                            rpos,
                        );
                    assert(rv.pint() == (Interval {
                        lo: rv.paddr,
                        hi: (rv.paddr + (rv.size - 1)) as u64,
                    }));
                    lemma_rev_insert_effects(
                        rmc,
                        self.rev_maps.model(),
                        rv.paddr,
                        (rv.paddr + (rv.size - 1)) as u64,
                        rv,
                        rpos,
                    );
                    assert forall|x: RIOMap|
                        #![all_triggers]
                        flat_contains(self.rev_maps.model(), x) <==> ((flat_contains(rmd, x)
                            && !revs@.contains(x)) || exists|k: int|
                            0 <= k < ri + 1 && (#[trigger] revs@[k]) == x && x != pm) by {
                        if flat_contains(self.rev_maps.model(), x) {
                            if x == rv {
                                assert(revs@[ri as int] == x && x != pm);
                            }
                        }
                        if exists|k: int| 0 <= k < ri + 1 && (#[trigger] revs@[k]) == x && x != pm {
                            let k = choose|k: int|
                                0 <= k < ri + 1 && (#[trigger] revs@[k]) == x && x != pm;
                        }
                    }
                }
            } else {
                proof {
                    assert(rv == pm);
                    assert forall|x: RIOMap|
                        #![all_triggers]
                        flat_contains(self.rev_maps.model(), x) <==> ((flat_contains(rmd, x)
                            && !revs@.contains(x)) || exists|k: int|
                            0 <= k < ri + 1 && (#[trigger] revs@[k]) == x && x != pm) by {
                        if exists|k: int| 0 <= k < ri + 1 && (#[trigger] revs@[k]) == x && x != pm {
                            let k = choose|k: int|
                                0 <= k < ri + 1 && (#[trigger] revs@[k]) == x && x != pm;
                            if k == ri {
                                assert(false);
                            }
                        }
                    }
                }
            }
            ri = ri + 1;
        }
        let ghost s2 = *self;
        proof {
            // At this point both trees hold exactly the old mappings
            // except the enveloping one.
            assert forall|x: RIOMap|
                flat_contains(self.rev_maps.model(), x) <==> (s2.has_map(x)) by {
                assert(s2.mappings() == s1.mappings());
                assert(flat_contains(self.rev_maps.model(), x) <==> ((flat_contains(rmd, x)
                    && !revs@.contains(x)) || exists|k: int|
                    0 <= k < revs@.len() && (#[trigger] revs@[k]) == x && x != pm));
                assert(flat_contains(rmd, x) <==> (flat_contains(rm0, x) && !revs@.contains(x)));
                if exists|k: int| 0 <= k < revs@.len() && (#[trigger] revs@[k]) == x && x != pm {
                    let k = choose|k: int|
                        0 <= k < revs@.len() && (#[trigger] revs@[k]) == x && x != pm;
                    assert(rm0[rdi].1[k] == x);
                    assert(flat_contains(rm0, x));
                }
                assert((flat_contains(rm0, x) && (!revs@.contains(x) || x != pm)) <==> (
                flat_contains(rm0, x) && x != pm)) by {
                    if flat_contains(rm0, x) && x == pm {
                        assert(revs@.contains(pm));
                    }
                }
                assert(flat_contains(rm0, x) <==> orig.has_map(x));
                assert(s2.has_map(x) <==> (orig.has_map(x) && x != pm));
            }
            assert(s2.inv());
        }
        // Reinsert what is left of the enveloping mapping outside the
        // fragment.
        let rems = pm.remove_projection(&f);
        let ghost pre1 = *self;
        if rems.len() >= 1 {
            let r0 = rems[0];
            proof {
                assert(remnants_spec(pm, f)[0] == r0);
                assert forall|a: int| r0.vaddr <= a < r0.vaddr + r0.size implies !pre1.is_mapped(
                    a,
                ) by {
                    assert(pm.has_vaddr_spec(a));
                    if pre1.is_mapped(a) {
                        assert(orig.is_mapped(a) && !pm.has_vaddr_spec(a));
                    }
                }
            }
            self.insert_mapping(r0);
        }
        let ghost pre2 = *self;
        if rems.len() >= 2 {
            let r1 = rems[1];
            proof {
                assert(remnants_spec(pm, f)[1] == r1);
                assert forall|a: int| r1.vaddr <= a < r1.vaddr + r1.size implies !pre2.is_mapped(
                    a,
                ) by {
                    assert(pm.has_vaddr_spec(a));
                    assert(!f.has_vaddr_spec(a));
                    if pre2.is_mapped(a) {
                        if rems@.len() >= 1 && rems@[0].has_vaddr_spec(a) {
                            assert(false);
                        }
                        assert(pre1.is_mapped(a));
                        assert(orig.is_mapped(a) && !pm.has_vaddr_spec(a));
                    }
                }
            }
            self.insert_mapping(r1);
        }
        proof {
            assert(s2.mappings() =~= s1.mappings());
            assert(s2.mappings() == orig.mappings().subrange(0, wpos) + orig.mappings().skip(
                wpos + 1,
            ));
            lemma_mappings_remove_effects(orig, s2, pm, wpos);
            // Translation after the surgery: removed inside the
            // fragment, untouched elsewhere.
            assert forall|a: int, p: int|
                #![all_triggers]
                self.maps_to(a, p) <==> (orig.maps_to(a, p) && !f.has_vaddr_spec(a)) by {
                let rs = remnants_spec(pm, f);
                if self.maps_to(a, p) {
                    if !(s2.maps_to(a, p)) {
                        // Through a remnant: the parent gave the same
                        // translation.
                        assert(pm.has_vaddr_spec(a) && !f.has_vaddr_spec(a) && p == pm.paddr + (a
                            - pm.vaddr));
                        assert(orig.maps_to(a, p));
                    } else {
                        assert(orig.maps_to(a, p) && !pm.has_vaddr_spec(a));
                        assert(!f.has_vaddr_spec(a));
                    }
                }
                if orig.maps_to(a, p) && !f.has_vaddr_spec(a) {
                    if pm.has_vaddr_spec(a) {
                        // The address survives in one of the remnants.
                        assert(p == pm.paddr + (a - pm.vaddr)) by {
                            let i = choose|i: int|
                                0 <= i < orig.mappings().len()
                                    && (#[trigger] orig.mappings()[i]).has_vaddr_spec(a) && p
                                    == orig.mappings()[i].paddr + (a - orig.mappings()[i].vaddr);
                            if orig.mappings()[i] != pm {
                                let w = wpos;
                                if i < w {
                                    assert(orig.mappings()[i].vaddr + orig.mappings()[i].size
                                        <= orig.mappings()[w].vaddr);
                                } else if i > w {
                                    assert(orig.mappings()[w].vaddr + orig.mappings()[w].size
                                        <= orig.mappings()[i].vaddr);
                                }
                                assert(i == w);
                            }
                        };
                        if a < f.vaddr {
                            assert(rs[0].has_vaddr_spec(a) && p == rs[0].paddr + (a
                                - rs[0].vaddr));
                            assert(self.maps_to(a, p));
                        } else {
                            let last = rs.len() - 1;
                            assert(rs[last].has_vaddr_spec(a) && p == rs[last].paddr + (a
                                - rs[last].vaddr));
                            assert(self.maps_to(a, p));
                        }
                    } else {
                        assert(s2.maps_to(a, p));
                        assert(self.maps_to(a, p));
                    }
                }
            }
            assert forall|a: int|
                #![all_triggers]
                self.is_mapped(a) <==> (orig.is_mapped(a) && !f.has_vaddr_spec(a)) by {
                if self.is_mapped(a) {
                    let i = choose|i: int|
                        0 <= i < self.mappings().len()
                            && (#[trigger] self.mappings()[i]).has_vaddr_spec(a);
                    let m = self.mappings()[i];
                    assert(self.maps_to(a, m.paddr + (a - m.vaddr)));
                }
                if orig.is_mapped(a) && !f.has_vaddr_spec(a) {
                    let i = choose|i: int|
                        0 <= i < orig.mappings().len()
                            && (#[trigger] orig.mappings()[i]).has_vaddr_spec(a);
                    let m = orig.mappings()[i];
                    assert(orig.maps_to(a, m.paddr + (a - m.vaddr)));
                    assert(self.maps_to(a, m.paddr + (a - m.vaddr)));
                }
            }
            assert forall|x: RIOMap|
                #![all_triggers]
                self.has_map(x) <==> ((orig.has_map(x) && x != pm) || remnants_spec(pm, f).contains(
                    x,
                )) by {
                let rs = remnants_spec(pm, f);
                assert(self.has_map(x) <==> (s2.has_map(x) || (rs.len() >= 1 && x == rs[0]) || (
                rs.len() >= 2 && x == rs[1])));
                if rs.contains(x) {
                    let k = choose|k: int| 0 <= k < rs.len() && rs[k] == x;
                }
                if (rs.len() >= 1 && x == rs[0]) {
                    assert(rs.contains(x));
                }
                if (rs.len() >= 2 && x == rs[1]) {
                    assert(rs.contains(x));
                }
            }
        }
        Ghost(pm)
    }

    /// Unregisters every mapping of the virtual range
    /// `[vaddr, vaddr + size)`.
    ///
    /// Fails with `AddressNotFound`, leaving the registry untouched,
    /// exactly when the range is empty or not fully covered by
    /// mappings. On success every intersecting mapping is removed and
    /// its flanks outside the range are re-registered: exactly the
    /// range's addresses lose their translation, and the registered
    /// set becomes the residues of the old mappings.
    #[verifier::rlimit(100)]
    pub fn unmap(&mut self, vaddr: u64, size: u64) -> (r: Result<(), IoError>)
        requires
            old(self).inv(),
        ensures
            final(self).inv(),
            r is Err ==> *final(self) == *old(self) && r == Err::<(), IoError>(
                IoError::AddressNotFound,
            ),
            r is Ok <==> (size >= 1 && old(self).covered(vaddr as int, size as int)),
            r is Ok ==> {
                &&& forall|a: int, p: int|
                    #![all_triggers]
                    final(self).maps_to(a, p) <==> (old(self).maps_to(a, p) && !(vaddr <= a < vaddr
                        + size))
                &&& forall|a: int|
                    #![all_triggers]
                    final(self).is_mapped(a) <==> (old(self).is_mapped(a) && !(vaddr <= a < vaddr
                        + size))
                &&& forall|x: RIOMap|
                    #![all_triggers]
                    final(self).has_map(x) <==> exists|i: int|
                        0 <= i < old(self).mappings().len() && (#[trigger] unmap_residue(
                            old(self).mappings()[i],
                            vaddr as int,
                            size as int,
                        )).contains(x)
            },
    {
        match self.split_vaddr_range(vaddr, size) {
            None => {
                return Err(IoError::AddressNotFound);
            },
            Some(_) => {},
        };
        proof {
            assert(self.is_mapped(vaddr + size - 1));
            let iw = choose|iw: int|
                0 <= iw < self.mappings().len() && (#[trigger] self.mappings()[iw]).has_vaddr_spec(
                    vaddr + size - 1,
                );
            assert(self.mappings()[iw].wf_spec());
        }
        let hi = vaddr + (size - 1);
        let ghost orig = *self;
        let ghost q = Interval { lo: vaddr, hi };
        let ghost fm = self.maps.model();
        let victims = self.maps.overlap(vaddr, hi);
        proof {
            lemma_hits_props(*self, q);
            assert forall|i: int, k2: int, i2: int, k22: int|
                0 <= i < fm.len() && 0 <= k2 < fm[i].1.len() && 0 <= i2 < fm.len() && 0 <= k22
                    < fm[i2].1.len() && (i != i2 || k2 != k22) implies (#[trigger] fm[i].1[k2])
                != (#[trigger] fm[i2].1[k22]) by {
                assert(k2 == 0 && k22 == 0 && i != i2);
                assert(fm[i].1[0] == self.mappings()[i]);
                assert(fm[i2].1[0] == self.mappings()[i2]);
                if i < i2 {
                    assert(self.mappings()[i].vaddr + self.mappings()[i].size
                        <= self.mappings()[i2].vaddr);
                } else {
                    assert(self.mappings()[i2].vaddr + self.mappings()[i2].size
                        <= self.mappings()[i].vaddr);
                }
            }
            crate::ist::lemma_sel_overlap_nodup(fm, q, 0);
        }
        let ghost vs = victims@;
        let mut k: usize = 0;
        while k < victims.len()
            invariant
                self.inv(),
                orig.inv(),
                vs == victims@,
                q == (Interval { lo: vaddr, hi }),
                size >= 1,
                vaddr + size - 1 <= u64::MAX,
                hi == vaddr + size - 1,
                0 <= k <= vs.len(),
                forall|c: int|
                    0 <= c < vs.len() ==> orig.has_map(#[trigger] vs[c]) && vs[c].wf_spec()
                        && vs[c].vint().intersects_spec(q),
                forall|c1: int, c2: int|
                    0 <= c1 < vs.len() && 0 <= c2 < vs.len() && c1 != c2 ==> (#[trigger] vs[c1])
                        != (#[trigger] vs[c2]),
                forall|i: int|
                    0 <= i < orig.mappings().len()
                        && (#[trigger] orig.mappings()[i]).vint().intersects_spec(q)
                        ==> vs.contains(orig.mappings()[i]),
                forall|c: int| k <= c < vs.len() ==> self.has_map(#[trigger] vs[c]),
                forall|a: int, p: int|
                    #![all_triggers]
                    self.maps_to(a, p) <==> (orig.maps_to(a, p) && !exists|c: int|
                        0 <= c < k && (#[trigger] vs[c]).has_vaddr_spec(a) && vaddr <= a < vaddr
                            + size),
                forall|a: int|
                    #![all_triggers]
                    self.is_mapped(a) <==> (orig.is_mapped(a) && !exists|c: int|
                        0 <= c < k && (#[trigger] vs[c]).has_vaddr_spec(a) && vaddr <= a < vaddr
                            + size),
                forall|x: RIOMap|
                    #![all_triggers]
                    self.has_map(x) <==> ((exists|c: int|
                        0 <= c < k && (#[trigger] unmap_residue(
                            vs[c],
                            vaddr as int,
                            size as int,
                        )).contains(x)) || (orig.has_map(x) && !exists|c: int|
                        0 <= c < k && (#[trigger] vs[c]) == x)),
            decreases victims.len() - k,
        {
            let v = victims[k];
            // The piece of this mapping inside the range.
            let fstart = if vaddr > v.vaddr {
                vaddr
            } else {
                v.vaddr
            };
            let vend = v.vaddr + (v.size - 1);
            let fend = if hi < vend {
                hi
            } else {
                vend
            };
            let f = RIOMap { paddr: v.paddr + (fstart - v.vaddr), vaddr: fstart, size: fend
                - fstart + 1 };
            proof {
                assert(f.wf_spec());
                assert(self.has_map(vs[k as int]));
                let iv = choose|iv: int|
                    0 <= iv < self.mappings().len() && (#[trigger] self.mappings()[iv]) == v;
                assert(self.frag_of(f));
            }
            let ghost before = *self;
            let g = self.unmap_fragment(f);
            proof {
                // The enveloping mapping is this victim: both held the
                // fragment's first address in the same registry.
                assert(g@ == v) by {
                    assert(before.has_map(g@) && before.has_map(v));
                    let i1 = choose|i1: int|
                        0 <= i1 < before.mappings().len() && (#[trigger] before.mappings()[i1])
                            == g@;
                    let i2 = choose|i2: int|
                        0 <= i2 < before.mappings().len() && (#[trigger] before.mappings()[i2])
                            == v;
                    assert(g@.has_vaddr_spec(f.vaddr as int));
                    assert(v.has_vaddr_spec(f.vaddr as int));
                    if i1 != i2 {
                        if i1 < i2 {
                            assert(before.mappings()[i1].vaddr + before.mappings()[i1].size
                                <= before.mappings()[i2].vaddr);
                        } else {
                            assert(before.mappings()[i2].vaddr + before.mappings()[i2].size
                                <= before.mappings()[i1].vaddr);
                        }
                    }
                }
                // The removed piece's remnants are exactly the
                // victim's residue.
                assert(remnants_spec(v, f) =~= unmap_residue(v, vaddr as int, size as int));
                // The fragment's addresses are the victim's addresses
                // inside the range.
                assert forall|a: int|
                    f.has_vaddr_spec(a) <==> (v.has_vaddr_spec(a) && vaddr <= a < vaddr
                        + size) by {}
                // Translation bookkeeping.
                assert forall|a: int, p: int|
                    #![all_triggers]
                    self.maps_to(a, p) <==> (orig.maps_to(a, p) && !exists|c: int|
                        0 <= c < k + 1 && (#[trigger] vs[c]).has_vaddr_spec(a) && vaddr <= a
                            < vaddr + size) by {
                    assert(self.maps_to(a, p) <==> (before.maps_to(a, p) && !f.has_vaddr_spec(
                        a,
                    )));
                    if exists|c: int|
                        0 <= c < k + 1 && (#[trigger] vs[c]).has_vaddr_spec(a) && vaddr <= a
                            < vaddr + size {
                        let c = choose|c: int|
                            0 <= c < k + 1 && (#[trigger] vs[c]).has_vaddr_spec(a) && vaddr <= a
                                < vaddr + size;
                    }
                    if v.has_vaddr_spec(a) && vaddr <= a < vaddr + size {
                        assert(vs[k as int].has_vaddr_spec(a));
                    }
                }
                assert forall|a: int|
                    #![all_triggers]
                    self.is_mapped(a) <==> (orig.is_mapped(a) && !exists|c: int|
                        0 <= c < k + 1 && (#[trigger] vs[c]).has_vaddr_spec(a) && vaddr <= a
                            < vaddr + size) by {
                    assert(self.is_mapped(a) <==> (before.is_mapped(a) && !f.has_vaddr_spec(a)));
                    if exists|c: int|
                        0 <= c < k + 1 && (#[trigger] vs[c]).has_vaddr_spec(a) && vaddr <= a
                            < vaddr + size {
                        let c = choose|c: int|
                            0 <= c < k + 1 && (#[trigger] vs[c]).has_vaddr_spec(a) && vaddr <= a
                                < vaddr + size;
                    }
                    if v.has_vaddr_spec(a) && vaddr <= a < vaddr + size {
                        assert(vs[k as int].has_vaddr_spec(a));
                    }
                }
                // Residue bookkeeping.
                assert forall|x: RIOMap|
                    #![all_triggers]
                    self.has_map(x) <==> ((exists|c: int|
                        0 <= c < k + 1 && (#[trigger] unmap_residue(
                            vs[c],
                            vaddr as int,
                            size as int,
                        )).contains(x)) || (orig.has_map(x) && !exists|c: int|
                        0 <= c < k + 1 && (#[trigger] vs[c]) == x)) by {
                    assert(self.has_map(x) <==> ((before.has_map(x) && x != g@)
                        || remnants_spec(g@, f).contains(x)));
                    if self.has_map(x) {
                        if remnants_spec(g@, f).contains(x) {
                            assert(unmap_residue(vs[k as int], vaddr as int, size as int).contains(
                                x,
                            ));
                        } else {
                            assert(before.has_map(x) && x != v);
                            if exists|c: int|
                                0 <= c < k && (#[trigger] unmap_residue(
                                    vs[c],
                                    vaddr as int,
                                    size as int,
                                )).contains(x) {
                            } else {
                                assert(orig.has_map(x));
                                if exists|c: int| 0 <= c < k + 1 && (#[trigger] vs[c]) == x {
                                    let c = choose|c: int|
                                        0 <= c < k + 1 && (#[trigger] vs[c]) == x;
                                    assert(c != k);
                                    assert(false);
                                }
                            }
                        }
                    }
                    if exists|c: int|
                        0 <= c < k + 1 && (#[trigger] unmap_residue(
                            vs[c],
                            vaddr as int,
                            size as int,
                        )).contains(x) {
                        let c = choose|c: int|
                            0 <= c < k + 1 && (#[trigger] unmap_residue(
                                vs[c],
                                vaddr as int,
                                size as int,
                            )).contains(x);
                        if c < k {
                            assert(before.has_map(x));
                            // A residue piece of an earlier victim is
                            // not the mapping just removed: their
                            // ranges are disjoint.
                            assert(x != g@) by {
                                lemma_residue_inside(vs[c], vaddr as int, size as int, x);
                                if x == v {
                                    assert(vs[c] != v);
                                    let cc = choose|cc: int|
                                        0 <= cc < orig.mappings().len() && (
                                        #[trigger] orig.mappings()[cc]) == vs[c];
                                    let cv = choose|cv: int|
                                        0 <= cv < orig.mappings().len() && (
                                        #[trigger] orig.mappings()[cv]) == v;
                                    if cc < cv {
                                        assert(orig.mappings()[cc].vaddr
                                            + orig.mappings()[cc].size
                                            <= orig.mappings()[cv].vaddr);
                                    } else {
                                        assert(orig.mappings()[cv].vaddr
                                            + orig.mappings()[cv].size
                                            <= orig.mappings()[cc].vaddr);
                                    }
                                }
                            }
                            assert(self.has_map(x));
                        } else {
                            assert(remnants_spec(g@, f).contains(x));
                            assert(self.has_map(x));
                        }
                    }
                    if orig.has_map(x) && !exists|c: int| 0 <= c < k + 1 && (#[trigger] vs[c])
                        == x {
                        assert(before.has_map(x));
                        assert(x != vs[k as int]);
                        assert(self.has_map(x));
                    }
                }
                // Later victims are still registered.
                assert forall|c: int| k + 1 <= c < vs.len() implies self.has_map(
                    #[trigger] vs[c],
                ) by {
                    assert(before.has_map(vs[c]));
                    assert(vs[c] != vs[k as int]);
                }
            }
            k = k + 1;
        }
        proof {
            // Fold the per-victim bookkeeping into the stated range
            // and residue forms.
            assert forall|a: int, p: int|
                #![all_triggers]
                self.maps_to(a, p) <==> (orig.maps_to(a, p) && !(vaddr <= a < vaddr + size)) by {
                if orig.maps_to(a, p) && vaddr <= a < vaddr + size {
                    let i = choose|i: int|
                        0 <= i < orig.mappings().len()
                            && (#[trigger] orig.mappings()[i]).has_vaddr_spec(a) && p
                            == orig.mappings()[i].paddr + (a - orig.mappings()[i].vaddr);
                    assert(orig.mappings()[i].vint().intersects_spec(q));
                    assert(vs.contains(orig.mappings()[i]));
                    let c = choose|c: int|
                        0 <= c < vs.len() && (#[trigger] vs[c]) == orig.mappings()[i];
                    assert(vs[c].has_vaddr_spec(a));
                }
            }
            assert forall|a: int|
                #![all_triggers]
                self.is_mapped(a) <==> (orig.is_mapped(a) && !(vaddr <= a < vaddr + size)) by {
                if orig.is_mapped(a) && vaddr <= a < vaddr + size {
                    let i = choose|i: int|
                        0 <= i < orig.mappings().len()
                            && (#[trigger] orig.mappings()[i]).has_vaddr_spec(a);
                    assert(orig.mappings()[i].vint().intersects_spec(q));
                    assert(vs.contains(orig.mappings()[i]));
                    let c = choose|c: int|
                        0 <= c < vs.len() && (#[trigger] vs[c]) == orig.mappings()[i];
                    assert(vs[c].has_vaddr_spec(a));
                }
            }
            lemma_unmap_residue_fold(orig, *self, vs, q, vaddr, size);
        }
        Ok(())
    }

    /// Every virtual address that currently translates to `paddr`: each
    /// mapping whose physical range contains `paddr` contributes the
    /// virtual alias of that byte, in ascending order, none twice.
    pub fn rev_query(&self, paddr: u64) -> (r: Vec<u64>)
        requires
            self.inv(),
        ensures
            forall|x: u64|
                #![all_triggers]
                r@.contains(x) <==> exists|i: int|
                    0 <= i < self.mappings().len()
                        && (#[trigger] self.mappings()[i]).has_paddr_spec(paddr as int) && x
                        == self.mappings()[i].vaddr + (paddr - self.mappings()[i].paddr),
            r@.no_duplicates(),
            forall|a: int, b: int| 0 <= a < b < r@.len() ==> r@[a] < r@[b],
    {
        let ghost rm = self.rev_maps.model();
        let ghost q = Interval { lo: paddr, hi: paddr };
        let hits = self.rev_maps.at(paddr);
        proof {
            assert forall|c: int|
                0 <= c < hits@.len() implies self.has_map(#[trigger] hits@[c])
                && hits@[c].wf_spec() && hits@[c].has_paddr_spec(paddr as int) by {
                crate::ist::lemma_sel_overlap_elem(rm, q, 0, c);
                let (j, k) = choose|j: int, k: int|
                    0 <= j < rm.len() && 0 <= k < rm[j].1.len() && (#[trigger] rm[j].1[k])
                        == hits@[c] && rm[j].0.intersects_spec(q);
                assert(rm[j].0 == hits@[c].pint());
                assert(flat_contains(rm, hits@[c]));
            }
            assert forall|i: int|
                0 <= i < self.mappings().len()
                    && (#[trigger] self.mappings()[i]).has_paddr_spec(paddr as int) implies
                hits@.contains(self.mappings()[i]) by {
                let m = self.mappings()[i];
                assert(self.has_map(m));
                assert(flat_contains(rm, m));
                let (j, k) = choose|j: int, k: int|
                    0 <= j < rm.len() && 0 <= k < rm[j].1.len() && (#[trigger] rm[j].1[k]) == m;
                assert(rm[j].0 == m.pint());
                assert(rm[j].0.intersects_spec(q));
                crate::ist::lemma_sel_overlap_complete(rm, q, 0, j, k);
            }
            crate::ist::lemma_sel_overlap_nodup(rm, q, 0);
        }
        let mut r: Vec<u64> = Vec::new();
        let mut i: usize = 0;
        while i < hits.len()
            invariant
                self.inv(),
                q == (Interval { lo: paddr, hi: paddr }),
                0 <= i <= hits@.len(),
                r@.len() == i,
                forall|c: int|
                    0 <= c < hits@.len() ==> self.has_map(#[trigger] hits@[c])
                        && hits@[c].wf_spec() && hits@[c].has_paddr_spec(paddr as int),
                forall|c: int|
                    0 <= c < i ==> (#[trigger] r@[c]) == hits@[c].vaddr + (paddr
                        - hits@[c].paddr),
            decreases hits.len() - i,
        {
            let m = hits[i];
            r.push(m.vaddr + (paddr - m.paddr));
            i = i + 1;
        }
        proof {
            assert forall|x: u64|
                #![all_triggers]
                r@.contains(x) <==> exists|i2: int|
                    0 <= i2 < self.mappings().len()
                        && (#[trigger] self.mappings()[i2]).has_paddr_spec(paddr as int) && x
                        == self.mappings()[i2].vaddr + (paddr - self.mappings()[i2].paddr) by {
                if r@.contains(x) {
                    let c = choose|c: int| 0 <= c < r@.len() && r@[c] == x;
                    let m = hits@[c];
                    let i2 = choose|i2: int|
                        0 <= i2 < self.mappings().len() && (#[trigger] self.mappings()[i2]) == m;
                    assert(self.mappings()[i2].has_paddr_spec(paddr as int) && x
                        == self.mappings()[i2].vaddr + (paddr - self.mappings()[i2].paddr));
                }
                if exists|i2: int|
                    0 <= i2 < self.mappings().len()
                        && (#[trigger] self.mappings()[i2]).has_paddr_spec(paddr as int) && x
                        == self.mappings()[i2].vaddr + (paddr - self.mappings()[i2].paddr) {
                    let i2 = choose|i2: int|
                        0 <= i2 < self.mappings().len()
                            && (#[trigger] self.mappings()[i2]).has_paddr_spec(paddr as int) && x
                            == self.mappings()[i2].vaddr + (paddr - self.mappings()[i2].paddr);
                    let m = self.mappings()[i2];
                    assert(hits@.contains(m));
                    let c = choose|c: int| 0 <= c < hits@.len() && (#[trigger] hits@[c]) == m;
                    assert(r@[c] == x);
                }
            }
            assert forall|c1: int, c2: int|
                0 <= c1 < r@.len() && 0 <= c2 < r@.len() && c1 != c2 implies r@[c1] != r@[c2] by {
                let m1 = hits@[c1];
                let m2 = hits@[c2];
                assert(m1 != m2);
                if r@[c1] == r@[c2] {
                    let x = r@[c1];
                    assert(m1.has_vaddr_spec(x as int));
                    assert(m2.has_vaddr_spec(x as int));
                    let i1 = choose|i1: int|
                        0 <= i1 < self.mappings().len() && (#[trigger] self.mappings()[i1]) == m1;
                    let i2 = choose|i2: int|
                        0 <= i2 < self.mappings().len() && (#[trigger] self.mappings()[i2]) == m2;
                    if i1 < i2 {
                        assert(self.mappings()[i1].vaddr + self.mappings()[i1].size
                            <= self.mappings()[i2].vaddr);
                    } else if i2 < i1 {
                        assert(self.mappings()[i2].vaddr + self.mappings()[i2].size
                            <= self.mappings()[i1].vaddr);
                    }
                }
            }
        }
        sort_ascending(&mut r);
        proof {
            assert forall|a: int, b: int| 0 <= a < b < r@.len() implies r@[a] < r@[b] by {
                assert(r@[a] <= r@[b]);
                assert(r@[a] != r@[b]);
            }
        }
        r
    }

    /// Tiles the virtual range `[vaddr, vaddr + size)` with the pieces
    /// of the registered mappings it intersects, skipping unmapped
    /// holes: the fragments are disjoint, in increasing virtual order,
    /// and cover exactly the mapped addresses of the range.
    #[verifier::rlimit(100)]
    pub fn split_vaddr_sparce_range(&self, vaddr: u64, size: u64) -> (r: Vec<RIOMap>)
        requires
            self.inv(),
        ensures
            forall|k: int|
                0 <= k < r@.len() ==> (#[trigger] r@[k]).wf_spec() && self.frag_of(r@[k]) && vaddr
                    <= r@[k].vaddr && r@[k].vaddr + r@[k].size <= vaddr + size,
            forall|k1: int, k2: int|
                0 <= k1 < k2 < r@.len() ==> (#[trigger] r@[k1]).vaddr + r@[k1].size
                    <= (#[trigger] r@[k2]).vaddr,
            forall|a: int|
                #![all_triggers]
                (vaddr <= a < vaddr + size && self.is_mapped(a)) <==> exists|k: int|
                    0 <= k < r@.len() && (#[trigger] r@[k]).has_vaddr_spec(a),
            ({
                // Exactly one fragment per intersecting mapping: the
                // result is the clip of each overlap hit, in order.
                let hi: u64 = if size >= 1 && vaddr > u64::MAX - (size - 1) {
                    u64::MAX
                } else if size >= 1 {
                    (vaddr + (size - 1)) as u64
                } else {
                    vaddr
                };
                let fs = sel_overlap(self.maps.model(), Interval { lo: vaddr, hi }, 0);
                size >= 1 ==> r@.len() == fs.len() && forall|c: int|
                    0 <= c < r@.len() ==> (#[trigger] r@[c]) == clip_spec(fs[c], vaddr, hi)
            }),
            size == 0 ==> r@ == Seq::<RIOMap>::empty(),
    {
        if size == 0 {
            return Vec::new();
        }
        let hi = if vaddr > u64::MAX - (size - 1) {
            u64::MAX
        } else {
            vaddr + (size - 1)
        };
        let ghost fm = self.maps.model();
        let ghost q = Interval { lo: vaddr, hi };
        let hits = self.maps.overlap(vaddr, hi);
        proof {
            lemma_hits_props(*self, q);
        }
        let ghost fs = hits@;
        let mut r: Vec<RIOMap> = Vec::new();
        let mut i: usize = 0;
        while i < hits.len()
            invariant
                self.inv(),
                fs == hits@,
                q == (Interval { lo: vaddr, hi }),
                size >= 1,
                hi == if vaddr > u64::MAX - (size - 1) {
                    u64::MAX
                } else {
                    (vaddr + (size - 1)) as u64
                },
                0 <= i <= fs.len(),
                r@.len() == i,
                forall|c: int|
                    0 <= c < fs.len() ==> self.has_map(#[trigger] fs[c]) && fs[c].wf_spec()
                        && fs[c].vint().intersects_spec(q),
                forall|c1: int, c2: int|
                    0 <= c1 < c2 < fs.len() ==> (#[trigger] fs[c1]).vaddr + fs[c1].size
                        <= (#[trigger] fs[c2]).vaddr,
                forall|j: int|
                    0 <= j < self.mappings().len()
                        && (#[trigger] self.mappings()[j]).vint().intersects_spec(q)
                        ==> fs.contains(self.mappings()[j]),
                forall|c: int| 0 <= c < i ==> (#[trigger] r@[c]) == clip_spec(fs[c], vaddr, hi),
            decreases hits.len() - i,
        {
            let m = hits[i];
            let start = if vaddr > m.vaddr {
                vaddr
            } else {
                m.vaddr
            };
            let mend = m.vaddr + (m.size - 1);
            let end = if hi < mend {
                hi
            } else {
                mend
            };
            let frag = RIOMap {
                paddr: m.paddr + (start - m.vaddr),
                vaddr: start,
                size: end - start + 1,
            };
            proof {
                assert(frag == clip_spec(fs[i as int], vaddr, hi));
            }
            r.push(frag);
            i = i + 1;
        }
        proof {
            assert forall|k: int|
                0 <= k < r@.len() implies (#[trigger] r@[k]).wf_spec() && self.frag_of(r@[k])
                && vaddr <= r@[k].vaddr && r@[k].vaddr + r@[k].size <= vaddr + size by {
                let m = fs[k];
                assert(r@[k] == clip_spec(m, vaddr, hi));
                let j = choose|j: int|
                    0 <= j < self.mappings().len() && (#[trigger] self.mappings()[j]) == m;
                assert(self.frag_of(r@[k]));
            }
            assert forall|k1: int, k2: int|
                0 <= k1 < k2 < r@.len() implies (#[trigger] r@[k1]).vaddr + r@[k1].size
                <= (#[trigger] r@[k2]).vaddr by {
                assert(fs[k1].vaddr + fs[k1].size <= fs[k2].vaddr);
                assert(r@[k1] == clip_spec(fs[k1], vaddr, hi));
                assert(r@[k2] == clip_spec(fs[k2], vaddr, hi));
            }
            assert forall|a: int|
                #![all_triggers]
                (vaddr <= a < vaddr + size && self.is_mapped(a)) <==> exists|k: int|
                    0 <= k < r@.len() && (#[trigger] r@[k]).has_vaddr_spec(a) by {
                if vaddr <= a < vaddr + size && self.is_mapped(a) {
                    let j = choose|j: int|
                        0 <= j < self.mappings().len()
                            && (#[trigger] self.mappings()[j]).has_vaddr_spec(a);
                    let m = self.mappings()[j];
                    assert(a <= u64::MAX);
                    assert(a <= hi);
                    assert(m.vint().intersects_spec(q));
                    assert(fs.contains(m));
                    let c = choose|c: int| 0 <= c < fs.len() && (#[trigger] fs[c]) == m;
                    assert(r@[c] == clip_spec(m, vaddr, hi));
                    assert(r@[c].has_vaddr_spec(a));
                }
                if exists|k: int| 0 <= k < r@.len() && (#[trigger] r@[k]).has_vaddr_spec(a) {
                    let k = choose|k: int|
                        0 <= k < r@.len() && (#[trigger] r@[k]).has_vaddr_spec(a);
                    let m = fs[k];
                    assert(r@[k] == clip_spec(m, vaddr, hi));
                    let j = choose|j: int|
                        0 <= j < self.mappings().len() && (#[trigger] self.mappings()[j]) == m;
                    assert(self.mappings()[j].has_vaddr_spec(a));
                }
            }
        }
        r
    }

    /// The registered mappings, in increasing virtual-address order.
    pub fn map_list(&self) -> (r: Vec<RIOMap>)
        requires
            self.inv(),
        ensures
            r@ == self.mappings(),
    {
        let r = self.maps.values_list();
        proof {
            lemma_sel_all_is_mappings(*self, 0);
            assert(r@ =~= self.mappings());
        }
        r
    }

    /// Unregisters every mapping whose physical range meets
    /// `[lo, hi]`, each one entirely: afterwards an address translates
    /// exactly when its old mapping's physical range avoided the given
    /// interval.
    #[verifier::rlimit(100)]
    pub fn unmap_paddr_range(&mut self, lo: u64, hi: u64)
        requires
            old(self).inv(),
            lo <= hi,
        ensures
            final(self).inv(),
            forall|a: int, p: int|
                #![all_triggers]
                final(self).maps_to(a, p) <==> exists|i: int|
                    0 <= i < old(self).mappings().len() && {
                        let m = #[trigger] old(self).mappings()[i];
                        &&& m.has_vaddr_spec(a)
                        &&& p == m.paddr + (a - m.vaddr)
                        &&& !m.pint().intersects_spec(Interval { lo, hi })
                    },
            forall|a: int|
                #![all_triggers]
                final(self).is_mapped(a) <==> exists|i: int|
                    0 <= i < old(self).mappings().len() && {
                        let m = #[trigger] old(self).mappings()[i];
                        &&& m.has_vaddr_spec(a)
                        &&& !m.pint().intersects_spec(Interval { lo, hi })
                    },
    {
        let ghost orig = *self;
        let ghost q = Interval { lo, hi };
        let ghost rm = self.rev_maps.model();
        let victims = self.rev_maps.overlap(lo, hi);
        proof {
            assert forall|c: int|
                0 <= c < victims@.len() implies self.has_map(#[trigger] victims@[c])
                && victims@[c].wf_spec() && victims@[c].pint().intersects_spec(q) by {
                crate::ist::lemma_sel_overlap_elem(rm, q, 0, c);
                let (j, k) = choose|j: int, k: int|
                    0 <= j < rm.len() && 0 <= k < rm[j].1.len() && (#[trigger] rm[j].1[k])
                        == victims@[c] && rm[j].0.intersects_spec(q);
                assert(rm[j].0 == victims@[c].pint());
                assert(flat_contains(rm, victims@[c]));
            }
            assert forall|i: int|
                0 <= i < orig.mappings().len()
                    && (#[trigger] orig.mappings()[i]).pint().intersects_spec(q) implies
                victims@.contains(orig.mappings()[i]) by {
                let m = orig.mappings()[i];
                assert(orig.has_map(m));
                assert(flat_contains(rm, m));
                let (j, k) = choose|j: int, k: int|
                    0 <= j < rm.len() && 0 <= k < rm[j].1.len() && (#[trigger] rm[j].1[k]) == m;
                assert(rm[j].0 == m.pint());
                crate::ist::lemma_sel_overlap_complete(rm, q, 0, j, k);
            }
            crate::ist::lemma_sel_overlap_nodup(rm, q, 0);
        }
        let ghost vs = victims@;
        let mut k: usize = 0;
        while k < victims.len()
            invariant
                self.inv(),
                orig.inv(),
                vs == victims@,
                q == (Interval { lo, hi }),
                0 <= k <= vs.len(),
                forall|c: int|
                    0 <= c < vs.len() ==> orig.has_map(#[trigger] vs[c]) && vs[c].wf_spec()
                        && vs[c].pint().intersects_spec(q),
                forall|c1: int, c2: int|
                    0 <= c1 < vs.len() && 0 <= c2 < vs.len() && c1 != c2 ==> (#[trigger] vs[c1])
                        != (#[trigger] vs[c2]),
                forall|i: int|
                    0 <= i < orig.mappings().len()
                        && (#[trigger] orig.mappings()[i]).pint().intersects_spec(q)
                        ==> vs.contains(orig.mappings()[i]),
                forall|a: int, p: int|
                    #![all_triggers]
                    self.maps_to(a, p) <==> (orig.maps_to(a, p) && !exists|c: int|
                        0 <= c < k && (#[trigger] vs[c]).has_vaddr_spec(a)),
                forall|a: int|
                    #![all_triggers]
                    self.is_mapped(a) <==> (orig.is_mapped(a) && !exists|c: int|
                        0 <= c < k && (#[trigger] vs[c]).has_vaddr_spec(a)),
            decreases victims.len() - k,
        {
            let v = victims[k];
            let ghost before = *self;
            proof {
                // The victim's own range is still fully mapped: no
                // earlier victim shares any of its virtual addresses.
                assert forall|a: int|
                    v.vaddr <= a < v.vaddr + v.size implies before.is_mapped(a) by {
                    let i = choose|i: int|
                        0 <= i < orig.mappings().len() && (#[trigger] orig.mappings()[i]) == v;
                    assert(orig.mappings()[i].has_vaddr_spec(a));
                    assert(orig.is_mapped(a));
                    if exists|c: int| 0 <= c < k && (#[trigger] vs[c]).has_vaddr_spec(a) {
                        let c = choose|c: int|
                            0 <= c < k && (#[trigger] vs[c]).has_vaddr_spec(a);
                        let i2 = choose|i2: int|
                            0 <= i2 < orig.mappings().len() && (#[trigger] orig.mappings()[i2])
                                == vs[c];
                        assert(vs[c] != v);
                        if i2 < i {
                            assert(orig.mappings()[i2].vaddr + orig.mappings()[i2].size
                                <= orig.mappings()[i].vaddr);
                        } else if i < i2 {
                            assert(orig.mappings()[i].vaddr + orig.mappings()[i].size
                                <= orig.mappings()[i2].vaddr);
                        }
                        assert(i == i2);
                        assert(false);
                    }
                }
            }
            let res = self.unmap(v.vaddr, v.size);
            proof {
                assert(res is Ok);
                assert forall|a: int, p: int|
                    #![all_triggers]
                    self.maps_to(a, p) <==> (orig.maps_to(a, p) && !exists|c: int|
                        0 <= c < k + 1 && (#[trigger] vs[c]).has_vaddr_spec(a)) by {
                    assert(self.maps_to(a, p) <==> (before.maps_to(a, p) && !(v.vaddr <= a
                        < v.vaddr + v.size)));
                    if exists|c: int| 0 <= c < k + 1 && (#[trigger] vs[c]).has_vaddr_spec(a) {
                        let c = choose|c: int|
                            0 <= c < k + 1 && (#[trigger] vs[c]).has_vaddr_spec(a);
                    }
                    if v.has_vaddr_spec(a) {
                        assert(vs[k as int].has_vaddr_spec(a));
                    }
                }
                assert forall|a: int|
                    #![all_triggers]
                    self.is_mapped(a) <==> (orig.is_mapped(a) && !exists|c: int|
                        0 <= c < k + 1 && (#[trigger] vs[c]).has_vaddr_spec(a)) by {
                    assert(self.is_mapped(a) <==> (before.is_mapped(a) && !(v.vaddr <= a < v.vaddr
                        + v.size)));
                    if exists|c: int| 0 <= c < k + 1 && (#[trigger] vs[c]).has_vaddr_spec(a) {
                        let c = choose|c: int|
                            0 <= c < k + 1 && (#[trigger] vs[c]).has_vaddr_spec(a);
                    }
                    if v.has_vaddr_spec(a) {
                        assert(vs[k as int].has_vaddr_spec(a));
                    }
                }
            }
            k = k + 1;
        }
        proof {
            assert forall|a: int, p: int|
                #![all_triggers]
                self.maps_to(a, p) <==> exists|i: int|
                    0 <= i < orig.mappings().len() && {
                        let m = #[trigger] orig.mappings()[i];
                        &&& m.has_vaddr_spec(a)
                        &&& p == m.paddr + (a - m.vaddr)
                        &&& !m.pint().intersects_spec(q)
                    } by {
                if self.maps_to(a, p) {
                    assert(orig.maps_to(a, p));
                    let i = choose|i: int|
                        0 <= i < orig.mappings().len()
                            && (#[trigger] orig.mappings()[i]).has_vaddr_spec(a) && p
                            == orig.mappings()[i].paddr + (a - orig.mappings()[i].vaddr);
                    let m = orig.mappings()[i];
                    if m.pint().intersects_spec(q) {
                        assert(vs.contains(m));
                        let c = choose|c: int| 0 <= c < vs.len() && (#[trigger] vs[c]) == m;
                        assert(vs[c].has_vaddr_spec(a));
                        assert(false);
                    }
                }
                if exists|i: int|
                    0 <= i < orig.mappings().len() && {
                        let m = #[trigger] orig.mappings()[i];
                        &&& m.has_vaddr_spec(a)
                        &&& p == m.paddr + (a - m.vaddr)
                        &&& !m.pint().intersects_spec(q)
                    } {
                    let i = choose|i: int|
                        0 <= i < orig.mappings().len() && {
                            let m = #[trigger] orig.mappings()[i];
                            &&& m.has_vaddr_spec(a)
                            &&& p == m.paddr + (a - m.vaddr)
                            &&& !m.pint().intersects_spec(q)
                        };
                    let m = orig.mappings()[i];
                    assert(orig.maps_to(a, p));
                    if exists|c: int| 0 <= c < vs.len() && (#[trigger] vs[c]).has_vaddr_spec(a) {
                        let c = choose|c: int|
                            0 <= c < vs.len() && (#[trigger] vs[c]).has_vaddr_spec(a);
                        let i2 = choose|i2: int|
                            0 <= i2 < orig.mappings().len() && (#[trigger] orig.mappings()[i2])
                                == vs[c];
                        if i2 < i {
                            assert(orig.mappings()[i2].vaddr + orig.mappings()[i2].size
                                <= orig.mappings()[i].vaddr);
                        } else if i < i2 {
                            assert(orig.mappings()[i].vaddr + orig.mappings()[i].size
                                <= orig.mappings()[i2].vaddr);
                        }
                        assert(i == i2);
                        assert(false);
                    }
                    assert(self.maps_to(a, p));
                }
            }
            assert forall|a: int|
                #![all_triggers]
                self.is_mapped(a) <==> exists|i: int|
                    0 <= i < orig.mappings().len() && {
                        let m = #[trigger] orig.mappings()[i];
                        &&& m.has_vaddr_spec(a)
                        &&& !m.pint().intersects_spec(q)
                    } by {
                if self.is_mapped(a) {
                    let j = choose|j: int|
                        0 <= j < self.mappings().len()
                            && (#[trigger] self.mappings()[j]).has_vaddr_spec(a);
                    let mj = self.mappings()[j];
                    assert(self.maps_to(a, mj.paddr + (a - mj.vaddr)));
                }
                if exists|i: int|
                    0 <= i < orig.mappings().len() && {
                        let m = #[trigger] orig.mappings()[i];
                        &&& m.has_vaddr_spec(a)
                        &&& !m.pint().intersects_spec(q)
                    } {
                    let i = choose|i: int|
                        0 <= i < orig.mappings().len() && {
                            let m = #[trigger] orig.mappings()[i];
                            &&& m.has_vaddr_spec(a)
                            &&& !m.pint().intersects_spec(q)
                        };
                    let m = orig.mappings()[i];
                    assert(self.maps_to(a, m.paddr + (a - m.vaddr)));
                }
            }
        }
    }

    /// An empty registry.
    pub fn new() -> (r: RIOMapQuery)
        ensures
            r.inv(),
            r.mappings() == Seq::<RIOMap>::empty(),
    {
        let r = RIOMapQuery { maps: IST::new(), rev_maps: IST::new() };
        proof {
            assert(r.mappings() =~= Seq::<RIOMap>::empty());
            assert(forall|m: RIOMap| !r.has_map(m));
            assert(forall|m: RIOMap| !flat_contains(r.rev_maps.model(), m));
        }
        r
    }
}

/// Law: registering a mapping of size `s` at `(p, v)` makes every
/// offset `k < s` of its virtual range translate to `p + k`.
///
/// The two hypotheses are exactly what a successful `map(p, v, s)`
/// ensures of the registry before and after the call.
pub proof fn lemma_map_then_translate(
    pre: RIOMapQuery,
    post: RIOMapQuery,
    p: u64,
    v: u64,
    s: u64,
    k: u64,
)
    requires
        k < s,
        forall|a: int, q: int|
            #![all_triggers]
            post.maps_to(a, q) <==> (pre.maps_to(a, q) || (v <= a < v + s && q == p + (a - v))),
    ensures
        post.maps_to(v + k, p + k),
{
}

/// Law: mapping `(p, v, s)` and then unmapping `[v + a, v + a + b)`
/// leaves exactly the flanks of the range mapped: for `i < s` with no
/// older mapping at `v + i`, the address `v + i` stays mapped exactly
/// when `i < a` or `i >= a + b`.
///
/// The two quantified hypotheses are exactly what the successful
/// `map(p, v, s)` and `unmap(v + a, b)` calls ensure of the registry
/// across the three states.
pub proof fn lemma_map_unmap_flanks(
    s0: RIOMapQuery,
    s1: RIOMapQuery,
    s2: RIOMapQuery,
    v: u64,
    s: u64,
    a: u64,
    b: u64,
    i: u64,
)
    requires
        i < s,
        a + b <= s,
        !s0.is_mapped(v + i),
        forall|x: int|
            #![all_triggers]
            s1.is_mapped(x) <==> (s0.is_mapped(x) || v <= x < v + s),
        forall|x: int|
            #![all_triggers]
            s2.is_mapped(x) <==> (s1.is_mapped(x) && !(v + a <= x < v + a + b)),
    ensures
        s2.is_mapped(v + i) <==> (i < a || a + b <= i),
{
}

/// Adjacent tiles are ordered: an earlier fragment ends no later than a
/// later one begins.
pub proof fn lemma_tiles_ordered(frags: Seq<RIOMap>, va: int, sz: int, k: int, j: int)
    requires
        tiles_spec(frags, va, sz),
        0 <= k < j < frags.len(),
    ensures
        frags[k].vaddr + frags[k].size <= frags[j].vaddr,
    decreases j - k,
{
    if j == k + 1 {
    } else {
        lemma_tiles_ordered(frags, va, sz, k + 1, j);
    }
}

/// The mapping-level reading of removing the forward entry of `pm` at
/// position `pos`: exactly `pm`'s addresses lose their translation, and
/// exactly `pm` leaves the registered set.
proof fn lemma_mappings_remove_effects(s0: RIOMapQuery, s1: RIOMapQuery, pm: RIOMap, pos: int)
    requires
        s0.inv(),
        0 <= pos < s0.mappings().len(),
        s0.mappings()[pos] == pm,
        s1.mappings() == s0.mappings().subrange(0, pos) + s0.mappings().skip(pos + 1),
    ensures
        forall|a: int, p: int|
            #![all_triggers]
            s1.maps_to(a, p) <==> (s0.maps_to(a, p) && !pm.has_vaddr_spec(a)),
        forall|a: int|
            #![all_triggers]
            s1.is_mapped(a) <==> (s0.is_mapped(a) && !pm.has_vaddr_spec(a)),
        forall|x: RIOMap|
            #![all_triggers]
            s1.has_map(x) <==> (s0.has_map(x) && x != pm),
{
    let m0 = s0.mappings();
    let m1 = s1.mappings();
    assert(m1.len() == m0.len() - 1);
    assert forall|i: int| 0 <= i < m1.len() implies (#[trigger] m1[i]) == (if i < pos {
        m0[i]
    } else {
        m0[i + 1]
    }) by {}
    assert forall|i: int| 0 <= i < m0.len() implies (#[trigger] m0[i]) == s0.maps.model()[i].1[0]
        by {}
    assert forall|a: int, p: int|
        #![all_triggers]
        s1.maps_to(a, p) implies (s0.maps_to(a, p) && !pm.has_vaddr_spec(a)) by {
        let i = choose|i: int|
            0 <= i < m1.len() && (#[trigger] m1[i]).has_vaddr_spec(a) && p == m1[i].paddr + (a
                - m1[i].vaddr);
        let i0: int = if i < pos {
            i
        } else {
            i + 1
        };
        assert(m0[i0].has_vaddr_spec(a) && p == m0[i0].paddr + (a - m0[i0].vaddr));
        if pm.has_vaddr_spec(a) {
            if i0 < pos {
                assert(m0[i0].vaddr + m0[i0].size <= m0[pos].vaddr);
            } else {
                assert(m0[pos].vaddr + m0[pos].size <= m0[i0].vaddr);
            }
        }
    }
    assert forall|a: int, p: int|
        #![all_triggers]
        (s0.maps_to(a, p) && !pm.has_vaddr_spec(a)) implies s1.maps_to(a, p) by {
        let i = choose|i: int|
            0 <= i < m0.len() && (#[trigger] m0[i]).has_vaddr_spec(a) && p == m0[i].paddr + (a
                - m0[i].vaddr);
        assert(i != pos);
        if i < pos {
            assert(m1[i].has_vaddr_spec(a) && p == m1[i].paddr + (a - m1[i].vaddr));
        } else {
            assert(m1[i - 1].has_vaddr_spec(a) && p == m1[i - 1].paddr + (a - m1[i - 1].vaddr));
        }
    }
    assert forall|a: int|
        #![all_triggers]
        s1.is_mapped(a) implies (s0.is_mapped(a) && !pm.has_vaddr_spec(a)) by {
        let i = choose|i: int| 0 <= i < m1.len() && (#[trigger] m1[i]).has_vaddr_spec(a);
        let i0: int = if i < pos {
            i
        } else {
            i + 1
        };
        assert(m0[i0].has_vaddr_spec(a));
        if pm.has_vaddr_spec(a) {
            if i0 < pos {
                assert(m0[i0].vaddr + m0[i0].size <= m0[pos].vaddr);
            } else {
                assert(m0[pos].vaddr + m0[pos].size <= m0[i0].vaddr);
            }
        }
    }
    assert forall|a: int|
        #![all_triggers]
        (s0.is_mapped(a) && !pm.has_vaddr_spec(a)) implies s1.is_mapped(a) by {
        let i = choose|i: int| 0 <= i < m0.len() && (#[trigger] m0[i]).has_vaddr_spec(a);
        assert(i != pos);
        if i < pos {
            assert(m1[i].has_vaddr_spec(a));
        } else {
            assert(m1[i - 1].has_vaddr_spec(a));
        }
    }
    assert forall|x: RIOMap|
        #![all_triggers]
        s1.has_map(x) implies (s0.has_map(x) && x != pm) by {
        let i = choose|i: int| 0 <= i < m1.len() && (#[trigger] m1[i]) == x;
        let i0: int = if i < pos {
            i
        } else {
            i + 1
        };
        assert(m0[i0] == x);
        if x == pm {
            if i0 < pos {
                assert(m0[i0].vaddr + m0[i0].size <= m0[pos].vaddr);
            } else {
                assert(m0[pos].vaddr + m0[pos].size <= m0[i0].vaddr);
            }
            assert(m0[i0].wf_spec());
        }
    }
    assert forall|x: RIOMap|
        #![all_triggers]
        (s0.has_map(x) && x != pm) implies s1.has_map(x) by {
        let i = choose|i: int| 0 <= i < m0.len() && (#[trigger] m0[i]) == x;
        assert(i != pos);
        if i < pos {
            assert(m1[i] == x);
        } else {
            assert(m1[i - 1] == x);
        }
    }
}

/// Removing one reverse entry removes exactly the mappings it held.
proof fn lemma_rev_delete_effects(
    rm0: Seq<(Interval, Seq<RIOMap>)>,
    rm1: Seq<(Interval, Seq<RIOMap>)>,
    vals: Seq<RIOMap>,
    di: int,
)
    requires
        0 <= di < rm0.len(),
        vals == rm0[di].1,
        rm1 == rm0.subrange(0, di) + rm0.skip(di + 1),
        forall|i: int, k: int, i2: int, k2: int|
            0 <= i < rm0.len() && 0 <= k < rm0[i].1.len() && 0 <= i2 < rm0.len() && 0 <= k2
                < rm0[i2].1.len() && (i != i2 || k != k2) ==> (#[trigger] rm0[i].1[k])
                != (#[trigger] rm0[i2].1[k2]),
    ensures
        forall|x: RIOMap|
            #![all_triggers]
            flat_contains(rm1, x) <==> (flat_contains(rm0, x) && !vals.contains(x)),
        forall|i: int, k: int, i2: int, k2: int|
            0 <= i < rm1.len() && 0 <= k < rm1[i].1.len() && 0 <= i2 < rm1.len() && 0 <= k2
                < rm1[i2].1.len() && (i != i2 || k != k2) ==> (#[trigger] rm1[i].1[k])
                != (#[trigger] rm1[i2].1[k2]),
{
    assert(rm1.len() == rm0.len() - 1);
    assert forall|i: int| 0 <= i < rm1.len() implies (#[trigger] rm1[i]) == (if i < di {
        rm0[i]
    } else {
        rm0[i + 1]
    }) by {}
    assert forall|x: RIOMap|
        #![all_triggers]
        flat_contains(rm1, x) implies (flat_contains(rm0, x) && !vals.contains(x)) by {
        let (i, k) = choose|i: int, k: int|
            0 <= i < rm1.len() && 0 <= k < rm1[i].1.len() && (#[trigger] rm1[i].1[k]) == x;
        let i0: int = if i < di {
            i
        } else {
            i + 1
        };
        assert(rm0[i0].1[k] == x);
        if vals.contains(x) {
            let k2 = choose|k2: int| 0 <= k2 < vals.len() && vals[k2] == x;
            assert(rm0[di].1[k2] == x);
            assert(i0 != di);
        }
    }
    assert forall|x: RIOMap|
        #![all_triggers]
        (flat_contains(rm0, x) && !vals.contains(x)) implies flat_contains(rm1, x) by {
        let (i, k) = choose|i: int, k: int|
            0 <= i < rm0.len() && 0 <= k < rm0[i].1.len() && (#[trigger] rm0[i].1[k]) == x;
        if i == di {
            assert(vals[k] == x);
        } else if i < di {
            assert(rm1[i].1[k] == x);
        } else {
            assert(rm1[i - 1].1[k] == x);
        }
    }
    assert forall|i: int, k: int, i2: int, k2: int|
        0 <= i < rm1.len() && 0 <= k < rm1[i].1.len() && 0 <= i2 < rm1.len() && 0 <= k2
            < rm1[i2].1.len() && (i != i2 || k != k2) implies (#[trigger] rm1[i].1[k])
        != (#[trigger] rm1[i2].1[k2]) by {
        let i0: int = if i < di {
            i
        } else {
            i + 1
        };
        let i20: int = if i2 < di {
            i2
        } else {
            i2 + 1
        };
        assert(rm1[i].1[k] == rm0[i0].1[k]);
        assert(rm1[i2].1[k2] == rm0[i20].1[k2]);
    }
}

/// Under the registry invariant, flattening the forward tree's values
/// yields the mapping sequence itself.
proof fn lemma_sel_all_is_mappings(s: RIOMapQuery, i: int)
    requires
        s.inv(),
        0 <= i <= s.maps.model().len(),
    ensures
        sel_all(s.maps.model(), i) =~= s.mappings().skip(i),
    decreases s.maps.model().len() - i,
{
    let fm = s.maps.model();
    if i >= fm.len() {
        assert(sel_all(fm, i) =~= s.mappings().skip(i));
    } else {
        lemma_sel_all_is_mappings(s, i + 1);
        assert(fm[i].1 =~= seq![s.mappings()[i]]);
        assert(sel_all(fm, i) =~= seq![s.mappings()[i]] + s.mappings().skip(i + 1));
        assert(sel_all(fm, i) =~= s.mappings().skip(i));
    }
}

/// Sorts ascending, keeping exactly the same values.
fn sort_ascending(v: &mut Vec<u64>)
    ensures
        final(v)@.len() == old(v)@.len(),
        forall|x: u64| #![all_triggers] final(v)@.contains(x) <==> old(v)@.contains(x),
        old(v)@.no_duplicates() ==> final(v)@.no_duplicates(),
        forall|a: int, b: int| 0 <= a < b < final(v)@.len() ==> final(v)@[a] <= final(v)@[b],
{
    let n = v.len();
    let mut i: usize = 1;
    while i < n
        invariant
            1 <= i,
            i <= n || n == 0,
            n == v@.len(),
            v@.len() == old(v)@.len(),
            forall|x: u64| #![all_triggers] v@.contains(x) <==> old(v)@.contains(x),
            old(v)@.no_duplicates() ==> v@.no_duplicates(),
            forall|a: int, b: int| 0 <= a < b < i ==> v@[a] <= v@[b],
        decreases n - i,
    {
        let mut j: usize = i;
        while j > 0 && v[j - 1] > v[j]
            invariant
                0 <= j <= i < n,
                n == v@.len(),
                v@.len() == old(v)@.len(),
                forall|x: u64| #![all_triggers] v@.contains(x) <==> old(v)@.contains(x),
                old(v)@.no_duplicates() ==> v@.no_duplicates(),
                forall|a: int, b: int| 0 <= a < b <= i && b != j ==> v@[a] <= v@[b],
                forall|a: int| j < a <= i ==> v@[j as int] <= #[trigger] v@[a],
            decreases j,
        {
            let ghost pre = v@;
            let x = v[j - 1];
            let y = v[j];
            v[j - 1] = y;
            v[j] = x;
            proof {
                assert(v@ =~= pre.update(j - 1, y).update(j as int, x));
                assert forall|z: u64| #![all_triggers] v@.contains(z) <==> pre.contains(z) by {
                    if v@.contains(z) {
                        let c = choose|c: int| 0 <= c < v@.len() && v@[c] == z;
                        if c == j - 1 {
                            assert(pre[j as int] == z);
                        } else if c == j {
                            assert(pre[j - 1] == z);
                        } else {
                            assert(pre[c] == z);
                        }
                    }
                    if pre.contains(z) {
                        let c = choose|c: int| 0 <= c < pre.len() && pre[c] == z;
                        if c == j - 1 {
                            assert(v@[j as int] == z);
                        } else if c == j {
                            assert(v@[j - 1] == z);
                        } else {
                            assert(v@[c] == z);
                        }
                    }
                }
                if pre.no_duplicates() {
                    assert forall|a: int, b: int|
                        0 <= a < v@.len() && 0 <= b < v@.len() && a != b implies v@[a] != v@[b] by {
                        let a0: int = if a == j - 1 {
                            j as int
                        } else if a == j {
                            j - 1
                        } else {
                            a
                        };
                        let b0: int = if b == j - 1 {
                            j as int
                        } else if b == j {
                            j - 1
                        } else {
                            b
                        };
                        assert(v@[a] == pre[a0] && v@[b] == pre[b0] && a0 != b0);
                    }
                }
                assert forall|a: int, b: int|
                    0 <= a < b <= i && b != j - 1 implies v@[a] <= v@[b] by {
                    if b == j {
                        if a < j - 1 {
                            assert(pre[a] <= pre[j - 1]);
                        }
                    } else if a == j - 1 {
                        assert(pre[j as int] <= pre[b]);
                    } else if a == j {
                        assert(pre[j - 1] <= pre[b]);
                    }
                }
                assert forall|a: int| j - 1 < a <= i implies v@[j - 1] <= #[trigger] v@[a] by {
                    if a == j {
                    } else {
                        assert(pre[j as int] <= pre[a]);
                    }
                }
            }
            j = j - 1;
        }
        proof {
            assert forall|a: int, b: int| 0 <= a < b <= i implies v@[a] <= v@[b] by {
                if b == j {
                    if j > 0 {
                        if a < j - 1 {
                            assert(v@[a] <= v@[j - 1]);
                        }
                    }
                }
            }
        }
        i = i + 1;
    }
}

/// What an overlap query on the forward tree hands back, under the
/// registry invariant: registered, well-formed, intersecting mappings,
/// in disjoint increasing virtual order, and all of the intersecting
/// ones.
proof fn lemma_hits_props(s: RIOMapQuery, q: Interval)
    requires
        s.inv(),
    ensures
        ({
            let fs = sel_overlap(s.maps.model(), q, 0);
            &&& forall|a: int|
                0 <= a < fs.len() ==> s.has_map(#[trigger] fs[a]) && fs[a].wf_spec()
                    && fs[a].vint().intersects_spec(q)
            &&& forall|a: int, b: int|
                0 <= a < b < fs.len() ==> (#[trigger] fs[a]).vaddr + fs[a].size
                    <= (#[trigger] fs[b]).vaddr
            &&& forall|j: int|
                0 <= j < s.mappings().len() && (#[trigger] s.mappings()[j]).vint().intersects_spec(
                    q,
                ) ==> fs.contains(s.mappings()[j])
        }),
{
    let fm = s.maps.model();
    let fs = sel_overlap(fm, q, 0);
    assert forall|a: int|
        0 <= a < fs.len() implies s.has_map(#[trigger] fs[a]) && fs[a].wf_spec()
        && fs[a].vint().intersects_spec(q) by {
        crate::ist::lemma_sel_overlap_elem(fm, q, 0, a);
        let (j, k) = choose|j: int, k: int|
            0 <= j < fm.len() && 0 <= k < fm[j].1.len() && (#[trigger] fm[j].1[k]) == fs[a]
                && fm[j].0.intersects_spec(q);
        assert(k == 0);
        assert(s.mappings()[j] == fm[j].1[0]);
        assert(fs[a] == s.mappings()[j]);
    }
    assert forall|a: int, b: int|
        0 <= a < b < fs.len() implies (#[trigger] fs[a]).vaddr + fs[a].size
        <= (#[trigger] fs[b]).vaddr by {
        crate::ist::lemma_sel_overlap_order(fm, q, 0, a, b);
        let (ja, jb) = choose|ja: int, jb: int|
            0 <= ja < jb < fm.len() && fs[a] == (#[trigger] fm[ja]).1[0] && fs[b] == (
            #[trigger] fm[jb]).1[0] && fm[ja].0.intersects_spec(q) && fm[jb].0.intersects_spec(q);
        assert(fm[ja].1[0].vaddr + fm[ja].1[0].size <= fm[jb].1[0].vaddr);
    }
    assert forall|j: int|
        0 <= j < s.mappings().len() && (#[trigger] s.mappings()[j]).vint().intersects_spec(
            q,
        ) implies fs.contains(s.mappings()[j]) by {
        assert(fm[j].0 == s.mappings()[j].vint());
        crate::ist::lemma_sel_overlap_complete(fm, q, 0, j, 0);
        assert(fm[j].1[0] == s.mappings()[j]);
    }
}

/// Folds the per-victim residue bookkeeping of an unmap into the
/// residue of every old mapping.
#[verifier::rlimit(100)]
proof fn lemma_unmap_residue_fold(
    orig: RIOMapQuery,
    snew: RIOMapQuery,
    vs: Seq<RIOMap>,
    q: Interval,
    vaddr: u64,
    size: u64,
)
    requires
        orig.inv(),
        size >= 1,
        vaddr + size - 1 <= u64::MAX,
        q == (Interval { lo: vaddr, hi: (vaddr + size - 1) as u64 }),
        forall|c: int|
            0 <= c < vs.len() ==> orig.has_map(#[trigger] vs[c]) && vs[c].wf_spec()
                && vs[c].vint().intersects_spec(q),
        forall|i: int|
            0 <= i < orig.mappings().len()
                && (#[trigger] orig.mappings()[i]).vint().intersects_spec(q) ==> vs.contains(
                orig.mappings()[i],
            ),
        forall|x: RIOMap|
            #![all_triggers]
            snew.has_map(x) <==> ((exists|c: int|
                0 <= c < vs.len() && (#[trigger] unmap_residue(
                    vs[c],
                    vaddr as int,
                    size as int,
                )).contains(x)) || (orig.has_map(x) && !exists|c: int|
                0 <= c < vs.len() && (#[trigger] vs[c]) == x)),
    ensures
        forall|x: RIOMap|
            #![all_triggers]
            snew.has_map(x) <==> exists|i: int|
                0 <= i < orig.mappings().len() && (#[trigger] unmap_residue(
                    orig.mappings()[i],
                    vaddr as int,
                    size as int,
                )).contains(x),
{
    assert forall|x: RIOMap|
                #![all_triggers]
                snew.has_map(x) <==> exists|i: int|
                    0 <= i < orig.mappings().len() && (#[trigger] unmap_residue(
                        orig.mappings()[i],
                        vaddr as int,
                        size as int,
                    )).contains(x) by {
                if snew.has_map(x) {
                    if exists|c: int|
                        0 <= c < vs.len() && (#[trigger] unmap_residue(
                            vs[c],
                            vaddr as int,
                            size as int,
                        )).contains(x) {
                        let c = choose|c: int|
                            0 <= c < vs.len() && (#[trigger] unmap_residue(
                                vs[c],
                                vaddr as int,
                                size as int,
                            )).contains(x);
                        let i = choose|i: int|
                            0 <= i < orig.mappings().len() && (#[trigger] orig.mappings()[i])
                                == vs[c];
                        assert(unmap_residue(orig.mappings()[i], vaddr as int, size as int).contains(
                            x,
                        ));
                    } else {
                        assert(orig.has_map(x) && !exists|c: int| 0 <= c < vs.len() && (
                        #[trigger] vs[c]) == x);
                        let i = choose|i: int|
                            0 <= i < orig.mappings().len() && (#[trigger] orig.mappings()[i]) == x;
                        assert(!x.vint().intersects_spec(q)) by {
                            if x.vint().intersects_spec(q) {
                                assert(vs.contains(orig.mappings()[i]));
                                let c = choose|c: int|
                                    0 <= c < vs.len() && (#[trigger] vs[c]) == x;
                            }
                        }
                        assert(orig.maps.model()[i].1[0] == x);
                        assert(x.wf_spec());
                        assert(x.vaddr > q.hi || x.vint().hi < q.lo);
                        assert(x.vint().hi == x.vaddr + x.size - 1);
                        assert(x.vaddr + x.size <= vaddr || vaddr + size <= x.vaddr);
                        assert(unmap_residue(x, vaddr as int, size as int) =~= seq![x]);
                        assert(unmap_residue(x, vaddr as int, size as int)[0] == x);
                        assert(unmap_residue(orig.mappings()[i], vaddr as int, size as int).contains(
                            x,
                        ));
                    }
                }
                if exists|i: int|
                    0 <= i < orig.mappings().len() && (#[trigger] unmap_residue(
                        orig.mappings()[i],
                        vaddr as int,
                        size as int,
                    )).contains(x) {
                    let i = choose|i: int|
                        0 <= i < orig.mappings().len() && (#[trigger] unmap_residue(
                            orig.mappings()[i],
                            vaddr as int,
                            size as int,
                        )).contains(x);
                    let m = orig.mappings()[i];
                    if m.vint().intersects_spec(q) {
                        assert(vs.contains(m));
                        let c = choose|c: int| 0 <= c < vs.len() && (#[trigger] vs[c]) == m;
                        assert(unmap_residue(vs[c], vaddr as int, size as int).contains(x));
                        assert(snew.has_map(x));
                    } else {
                        assert(unmap_residue(m, vaddr as int, size as int) =~= seq![m]);
                        assert(unmap_residue(m, vaddr as int, size as int)[0] == m);
                        assert(x == m);
                        assert(orig.has_map(x));
                        assert(!exists|c: int| 0 <= c < vs.len() && (#[trigger] vs[c]) == x) by {
                            if exists|c: int| 0 <= c < vs.len() && (#[trigger] vs[c]) == x {
                                let c = choose|c: int|
                                    0 <= c < vs.len() && (#[trigger] vs[c]) == x;
                                assert(vs[c].vint().intersects_spec(q));
                            }
                        }
                        assert(snew.has_map(x));
                    }
                }
            }
}

/// The mapping-level reading of one forward insertion at position
/// `pos`: exactly the new mapping's addresses gain a translation, and
/// exactly the new mapping joins the registered set.
proof fn lemma_mappings_insert_effects(s0: RIOMapQuery, s1: RIOMapQuery, nm: RIOMap, pos: int)
    requires
        0 <= pos <= s0.mappings().len(),
        s1.mappings() == s0.mappings().subrange(0, pos) + seq![nm] + s0.mappings().skip(pos),
    ensures
        forall|a: int, p: int|
            s1.maps_to(a, p) <==> (s0.maps_to(a, p) || (nm.has_vaddr_spec(a) && p == nm.paddr + (a
                - nm.vaddr))),
        forall|a: int| s1.is_mapped(a) <==> (s0.is_mapped(a) || nm.has_vaddr_spec(a)),
        forall|m: RIOMap| s1.has_map(m) <==> (s0.has_map(m) || m == nm),
{
    let m0 = s0.mappings();
    let m1 = s1.mappings();
    assert(m1.len() == m0.len() + 1);
    assert forall|i: int| 0 <= i < m1.len() implies (#[trigger] m1[i]) == (if i < pos {
        m0[i]
    } else if i == pos {
        nm
    } else {
        m0[i - 1]
    }) by {}
    assert forall|a: int, p: int|
        s1.maps_to(a, p) implies (s0.maps_to(a, p) || (nm.has_vaddr_spec(a) && p == nm.paddr + (a
        - nm.vaddr))) by {
        let i = choose|i: int|
            0 <= i < m1.len() && (#[trigger] m1[i]).has_vaddr_spec(a) && p == m1[i].paddr + (a
                - m1[i].vaddr);
        if i < pos {
            assert(m0[i].has_vaddr_spec(a) && p == m0[i].paddr + (a - m0[i].vaddr));
        } else if i > pos {
            assert(m0[i - 1].has_vaddr_spec(a) && p == m0[i - 1].paddr + (a - m0[i - 1].vaddr));
        }
    }
    assert forall|a: int, p: int|
        (s0.maps_to(a, p) || (nm.has_vaddr_spec(a) && p == nm.paddr + (a - nm.vaddr))) implies
        s1.maps_to(a, p) by {
        if s0.maps_to(a, p) {
            let i = choose|i: int|
                0 <= i < m0.len() && (#[trigger] m0[i]).has_vaddr_spec(a) && p == m0[i].paddr + (a
                    - m0[i].vaddr);
            if i < pos {
                assert(m1[i].has_vaddr_spec(a) && p == m1[i].paddr + (a - m1[i].vaddr));
            } else {
                assert(m1[i + 1].has_vaddr_spec(a) && p == m1[i + 1].paddr + (a - m1[i
                    + 1].vaddr));
            }
        } else {
            assert(m1[pos].has_vaddr_spec(a) && p == m1[pos].paddr + (a - m1[pos].vaddr));
        }
    }
    assert forall|a: int| s1.is_mapped(a) implies (s0.is_mapped(a) || nm.has_vaddr_spec(a)) by {
        let i = choose|i: int| 0 <= i < m1.len() && (#[trigger] m1[i]).has_vaddr_spec(a);
        if i < pos {
            assert(m0[i].has_vaddr_spec(a));
        } else if i > pos {
            assert(m0[i - 1].has_vaddr_spec(a));
        }
    }
    assert forall|a: int| (s0.is_mapped(a) || nm.has_vaddr_spec(a)) implies s1.is_mapped(a) by {
        if s0.is_mapped(a) {
            let i = choose|i: int| 0 <= i < m0.len() && (#[trigger] m0[i]).has_vaddr_spec(a);
            if i < pos {
                assert(m1[i].has_vaddr_spec(a));
            } else {
                assert(m1[i + 1].has_vaddr_spec(a));
            }
        } else {
            assert(m1[pos].has_vaddr_spec(a));
        }
    }
    assert forall|m: RIOMap| s1.has_map(m) implies (s0.has_map(m) || m == nm) by {
        let i = choose|i: int| 0 <= i < m1.len() && (#[trigger] m1[i]) == m;
        if i < pos {
            assert(m0[i] == m);
        } else if i > pos {
            assert(m0[i - 1] == m);
        }
    }
    assert forall|m: RIOMap| (s0.has_map(m) || m == nm) implies s1.has_map(m) by {
        if s0.has_map(m) {
            let i = choose|i: int| 0 <= i < m0.len() && (#[trigger] m0[i]) == m;
            if i < pos {
                assert(m1[i] == m);
            } else {
                assert(m1[i + 1] == m);
            }
        } else {
            assert(m1[pos] == m);
        }
    }
}

/// One insertion into the reverse tree, read at the level of its stored
/// mappings: exactly `v` is added, every value still sits under its own
/// physical interval as key, and no value appears twice.
proof fn lemma_rev_insert_effects(
    rm0: Seq<(Interval, Seq<RIOMap>)>,
    rm1: Seq<(Interval, Seq<RIOMap>)>,
    lo: u64,
    hi: u64,
    v: RIOMap,
    rpos: int,
)
    requires
        ist_inserted_at(rm0, rm1, lo, hi, v, rpos),
        !flat_contains(rm0, v),
        v.wf_spec(),
        v.pint() == (Interval { lo, hi }),
        forall|i: int, k: int|
            0 <= i < rm0.len() && 0 <= k < rm0[i].1.len() ==> (#[trigger] rm0[i].1[k]).wf_spec()
                && rm0[i].0 == rm0[i].1[k].pint(),
        forall|i: int, k: int, i2: int, k2: int|
            0 <= i < rm0.len() && 0 <= k < rm0[i].1.len() && 0 <= i2 < rm0.len() && 0 <= k2
                < rm0[i2].1.len() && (i != i2 || k != k2) ==> (#[trigger] rm0[i].1[k])
                != (#[trigger] rm0[i2].1[k2]),
    ensures
        forall|x: RIOMap| flat_contains(rm1, x) <==> (flat_contains(rm0, x) || x == v),
        forall|i: int, k: int|
            0 <= i < rm1.len() && 0 <= k < rm1[i].1.len() ==> (#[trigger] rm1[i].1[k]).wf_spec()
                && rm1[i].0 == rm1[i].1[k].pint(),
        forall|i: int, k: int, i2: int, k2: int|
            0 <= i < rm1.len() && 0 <= k < rm1[i].1.len() && 0 <= i2 < rm1.len() && 0 <= k2
                < rm1[i2].1.len() && (i != i2 || k != k2) ==> (#[trigger] rm1[i].1[k])
                != (#[trigger] rm1[i2].1[k2]),
{
    let key = Interval { lo, hi };
    if rpos < rm0.len() && rm0[rpos].0 == key {
        let nv = rm0[rpos].1.push(v);
        assert(rm1 == rm0.update(rpos, (key, nv)));
        assert forall|i: int| 0 <= i < rm1.len() implies (#[trigger] rm1[i]) == (if i == rpos {
            (key, nv)
        } else {
            rm0[i]
        }) by {}
        assert forall|i: int, k: int|
            0 <= i < rm1.len() && 0 <= k < rm1[i].1.len() implies (
        #[trigger] rm1[i].1[k]).wf_spec() && rm1[i].0 == rm1[i].1[k].pint() by {
            if i == rpos {
                if k < rm0[rpos].1.len() {
                    assert(rm1[i].1[k] == rm0[rpos].1[k]);
                } else {
                    assert(rm1[i].1[k] == v);
                }
            }
        }
        assert forall|x: RIOMap| flat_contains(rm1, x) implies (flat_contains(rm0, x) || x == v) by {
            let (i, k) = choose|i: int, k: int|
                0 <= i < rm1.len() && 0 <= k < rm1[i].1.len() && (#[trigger] rm1[i].1[k]) == x;
            if i == rpos && k == rm0[rpos].1.len() {
            } else {
                assert(rm0[i].1[k] == x);
            }
        }
        assert forall|x: RIOMap| (flat_contains(rm0, x) || x == v) implies flat_contains(rm1, x) by {
            if flat_contains(rm0, x) {
                let (i, k) = choose|i: int, k: int|
                    0 <= i < rm0.len() && 0 <= k < rm0[i].1.len() && (#[trigger] rm0[i].1[k]) == x;
                assert(rm1[i].1[k] == x);
            } else {
                assert(rm1[rpos].1[rm0[rpos].1.len() as int] == v);
            }
        }
        assert forall|i: int, k: int, i2: int, k2: int|
            0 <= i < rm1.len() && 0 <= k < rm1[i].1.len() && 0 <= i2 < rm1.len() && 0 <= k2
                < rm1[i2].1.len() && (i != i2 || k != k2) implies (#[trigger] rm1[i].1[k])
            != (#[trigger] rm1[i2].1[k2]) by {
            let x1 = rm1[i].1[k];
            let x2 = rm1[i2].1[k2];
            let fresh1 = i == rpos && k == rm0[rpos].1.len();
            let fresh2 = i2 == rpos && k2 == rm0[rpos].1.len();
            if fresh1 && !fresh2 {
                assert(x2 == rm0[i2].1[k2]);
                assert(flat_contains(rm0, x2));
                assert(x1 == v);
            } else if !fresh1 && fresh2 {
                assert(x1 == rm0[i].1[k]);
                assert(flat_contains(rm0, x1));
                assert(x2 == v);
            } else if !fresh1 && !fresh2 {
                assert(x1 == rm0[i].1[k]);
                assert(x2 == rm0[i2].1[k2]);
            }
        }
    } else {
        assert(rm1 == rm0.subrange(0, rpos) + seq![(key, seq![v])] + rm0.skip(rpos));
        assert forall|i: int| 0 <= i < rm1.len() implies (#[trigger] rm1[i]) == (if i < rpos {
            rm0[i]
        } else if i == rpos {
            (key, seq![v])
        } else {
            rm0[i - 1]
        }) by {}
        assert forall|i: int, k: int|
            0 <= i < rm1.len() && 0 <= k < rm1[i].1.len() implies (
        #[trigger] rm1[i].1[k]).wf_spec() && rm1[i].0 == rm1[i].1[k].pint() by {
            if i < rpos {
                assert(rm1[i].1[k] == rm0[i].1[k]);
            } else if i == rpos {
                assert(rm1[i].1[k] == v);
            } else {
                assert(rm1[i].1[k] == rm0[i - 1].1[k]);
            }
        }
        assert forall|x: RIOMap| flat_contains(rm1, x) implies (flat_contains(rm0, x) || x == v) by {
            let (i, k) = choose|i: int, k: int|
                0 <= i < rm1.len() && 0 <= k < rm1[i].1.len() && (#[trigger] rm1[i].1[k]) == x;
            if i < rpos {
                assert(rm0[i].1[k] == x);
            } else if i > rpos {
                assert(rm0[i - 1].1[k] == x);
            }
        }
        assert forall|x: RIOMap| (flat_contains(rm0, x) || x == v) implies flat_contains(rm1, x) by {
            if flat_contains(rm0, x) {
                let (i, k) = choose|i: int, k: int|
                    0 <= i < rm0.len() && 0 <= k < rm0[i].1.len() && (#[trigger] rm0[i].1[k]) == x;
                if i < rpos {
                    assert(rm1[i].1[k] == x);
                } else {
                    assert(rm1[i + 1].1[k] == x);
                }
            } else {
                assert(rm1[rpos].1[0] == v);
            }
        }
        assert forall|i: int, k: int, i2: int, k2: int|
            0 <= i < rm1.len() && 0 <= k < rm1[i].1.len() && 0 <= i2 < rm1.len() && 0 <= k2
                < rm1[i2].1.len() && (i != i2 || k != k2) implies (#[trigger] rm1[i].1[k])
            != (#[trigger] rm1[i2].1[k2]) by {
            let x1 = rm1[i].1[k];
            let x2 = rm1[i2].1[k2];
            if i == rpos && i2 != rpos {
                let j2 = if i2 < rpos {
                    i2
                } else {
                    i2 - 1
                };
                assert(x2 == rm0[j2].1[k2]);
                assert(flat_contains(rm0, x2));
                assert(x1 == v);
            } else if i != rpos && i2 == rpos {
                let j1 = if i < rpos {
                    i
                } else {
                    i - 1
                };
                assert(x1 == rm0[j1].1[k]);
                assert(flat_contains(rm0, x1));
                assert(x2 == v);
            } else if i != rpos && i2 != rpos {
                let j1 = if i < rpos {
                    i
                } else {
                    i - 1
                };
                let j2 = if i2 < rpos {
                    i2
                } else {
                    i2 - 1
                };
                assert(x1 == rm0[j1].1[k]);
                assert(x2 == rm0[j2].1[k2]);
                assert(j1 != j2 || k != k2);
            }
        }
    }
}

} // verus!
