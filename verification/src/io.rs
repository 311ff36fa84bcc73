//! The I/O engine: open byte sources laid out in a synthetic 64-bit
//! physical address space, with a virtual overlay mapped through the
//! registry.
//!
//! Descriptors are kept sorted by physical address and never overlap.
//! Reads and writes through a physical address locate the descriptors
//! by their ranges and fan the request out; the request must be
//! covered by adjacent descriptors without a hole. Virtual reads and
//! writes first translate through the map registry.

use crate::ist::Interval;
use crate::mapsquery::{RIOMap, RIOMapQuery};
use crate::srec::{spec_get, SrecInternal};
use crate::utils::{IoError, IoMode};
use vstd::prelude::*;
use vstd::string::StringSliceAdditionalSpecFns;

verus! {

/// What backs an open descriptor: an in-memory buffer (scratch
/// allocations and whole files handed in by the embedding application)
/// or a parsed sparse record source.
pub enum Backing {
    Mem(Vec<u8>),
    Record(SrecInternal),
}

/// One open byte source, placed at `paddr` in the physical space.
pub struct RIODesc {
    pub hndl: u64,
    pub name: String,
    pub perm: IoMode,
    pub paddr: u64,
    pub raddr: u64,
    pub size: u64,
    pub ops: Backing,
}

impl RIODesc {
    /// The handle the descriptor was opened under.
    pub open spec fn hndl_spec(&self) -> u64 {
        self.hndl
    }

    /// The plugin-native base address.
    pub open spec fn raddr_spec(&self) -> u64 {
        self.raddr
    }

    /// A live descriptor is non-empty, fits the 64-bit space, and its
    /// backing is consistent with its size.
    pub open spec fn wf(&self) -> bool {
        &&& self.size >= 1
        &&& self.paddr + self.size - 1 <= u64::MAX
        &&& self.raddr_spec() + self.size - 1 <= u64::MAX
        &&& match self.ops {
            Backing::Mem(b) => b@.len() == self.size && self.raddr_spec() == 0,
            Backing::Record(s) => s.bytes.wf() && s.prot == self.perm,
        }
    }

    /// The physical address `a` falls inside this descriptor.
    pub open spec fn has_paddr_spec(&self, a: int) -> bool {
        self.paddr <= a < self.paddr + self.size
    }

    /// The byte this descriptor serves at physical address `a`.
    pub open spec fn byte_at(&self, a: int) -> u8 {
        match self.ops {
            Backing::Mem(b) => b@[a - self.paddr],
            Backing::Record(s) => s.bytes.byte_at((a - self.paddr + self.raddr_spec()) as u64),
        }
    }

    /// The handle the descriptor was opened under.
    pub fn get_hndl(&self) -> (r: u64)
        ensures
            r == self.hndl_spec(),
    {
        self.hndl
    }

    /// The physical address `a` falls inside this descriptor.
    pub fn has_paddr(&self, paddr: u64) -> (r: bool)
        requires
            self.wf(),
        ensures
            r == self.has_paddr_spec(paddr as int),
    {
        paddr >= self.paddr && paddr - self.paddr < self.size
    }

    /// Reads `buffer.len()` bytes served at physical address `paddr`
    /// through this descriptor alone.
    ///
    /// On an in-memory source a read past the end fails with
    /// `UnexpectedEof`; a sparse record source serves zero for
    /// unpopulated addresses anywhere past its base.
    pub fn read(&self, paddr: u64, buffer: &mut Vec<u8>) -> (r: Result<(), IoError>)
        requires
            self.wf(),
            paddr >= self.paddr,
            paddr - self.paddr + self.raddr_spec() + old(buffer)@.len() <= u64::MAX,
        ensures
            final(buffer)@.len() == old(buffer)@.len(),
            r is Ok <==> (self.ops is Record || paddr - self.paddr + old(buffer)@.len()
                <= self.size),
            r is Err ==> r == Err::<(), IoError>(IoError::UnexpectedEof) && final(buffer)@ == old(
                buffer,
            )@,
            r is Ok ==> forall|k: int|
                0 <= k < final(buffer)@.len() ==> (#[trigger] final(buffer)@[k]) == (
                match self.ops {
                    Backing::Mem(b) => b@[paddr - self.paddr + k],
                    Backing::Record(s) => s.bytes.byte_at(
                        (paddr - self.paddr + self.raddr_spec() + k) as u64,
                    ),
                }),
    {
        let off = paddr - self.paddr;
        let len = buffer.len();
        match &self.ops {
            Backing::Mem(b) => {
                let bl = b.len();
                if off > bl as u64 || (bl as u64) - off < len as u64 {
                    return Err(IoError::UnexpectedEof);
                }
                let mut k: usize = 0;
                while k < len
                    invariant
                        0 <= k <= len,
                        buffer@.len() == len,
                        self.ops matches Backing::Mem(b2) && b2@.len() >= off + len,
                        self.ops->Mem_0@.len() <= usize::MAX,
                        off == paddr - self.paddr,
                        forall|j: int|
                            0 <= j < k ==> (#[trigger] buffer@[j]) == self.ops->Mem_0@[off + j],
                    decreases len - k,
                {
                    let b2 = match &self.ops {
                        Backing::Mem(b2) => b2,
                        Backing::Record(_) => {
                            proof {
                                assert(false);
                            }
                            return Err(IoError::UnexpectedEof);
                        },
                    };
                    buffer[k] = b2[(off as usize) + k];
                    k = k + 1;
                }
                Ok(())
            },
            Backing::Record(s) => s.read(off + self.raddr, buffer),
        }
    }

    /// Writes `buffer` at physical address `paddr` through this
    /// descriptor alone, with the same bounds as `read`; the
    /// descriptor's permission is not consulted here, as in-memory
    /// sources leave that to the engine.
    pub fn write(&mut self, paddr: u64, buffer: &Vec<u8>) -> (r: Result<(), IoError>)
        requires
            old(self).wf(),
            paddr >= old(self).paddr,
            paddr - old(self).paddr + old(self).raddr_spec() + buffer@.len() <= u64::MAX,
        ensures
            final(self).wf(),
            final(self).hndl_spec() == old(self).hndl_spec(),
            final(self).name == old(self).name,
            final(self).perm == old(self).perm,
            final(self).paddr == old(self).paddr,
            final(self).raddr_spec() == old(self).raddr_spec(),
            final(self).size == old(self).size,
            r is Ok <==> ((old(self).ops is Record && old(self).perm.writeable())
                || (old(self).ops is Mem && paddr - old(self).paddr + buffer@.len() <= old(
                self,
            ).size)),
            r is Err ==> *final(self) == *old(self),
            r is Ok ==> forall|k: int|
                0 <= k < buffer@.len() ==> final(self).byte_at(paddr + k) == buffer@[k],
            r is Ok ==> forall|x: int|
                old(self).has_paddr_spec(x) && !(paddr <= x < paddr + buffer@.len())
                    ==> final(self).byte_at(x) == old(self).byte_at(x),
    {
        let off = paddr - self.paddr;
        let len = buffer.len();
        let ghost pre = *self;
        match &mut self.ops {
            Backing::Mem(b) => {
                let bl = b.len();
                if off > bl as u64 || (bl as u64) - off < len as u64 {
                    return Err(IoError::UnexpectedEof);
                }
                let mut k: usize = 0;
                while k < len
                    invariant
                        0 <= k <= len,
                        buffer@.len() == len,
                        pre.ops is Mem,
                        self.ops matches Backing::Mem(b2) && b2@.len() == pre.ops->Mem_0@.len(),
                        pre.ops->Mem_0@.len() >= off + len,
                        pre.ops->Mem_0@.len() <= usize::MAX,
                        off == pre.paddr - pre.paddr + (paddr - pre.paddr),
                        self.hndl_spec() == pre.hndl_spec(),
                        self.name == pre.name,
                        self.perm == pre.perm,
                        self.paddr == pre.paddr,
                        self.raddr_spec() == pre.raddr_spec(),
                        self.size == pre.size,
                        forall|j: int|
                            0 <= j < k ==> (#[trigger] self.ops->Mem_0@[off + j]) == buffer@[j],
                        forall|x: int|
                            0 <= x < pre.ops->Mem_0@.len() && !(off <= x < off + k)
                                ==> self.ops->Mem_0@[x] == pre.ops->Mem_0@[x],
                    decreases len - k,
                {
                    let b2 = match &mut self.ops {
                        Backing::Mem(b2) => b2,
                        Backing::Record(_) => {
                            proof {
                                assert(false);
                            }
                            return Err(IoError::UnexpectedEof);
                        },
                    };
                    let l2 = b2.len();
                    proof {
                        assert(off + k < l2 as u64);
                    }
                    b2[(off as usize) + k] = buffer[k];
                    k = k + 1;
                }
                proof {
                    assert forall|k2: int|
                        0 <= k2 < buffer@.len() implies self.byte_at(paddr + k2) == buffer@[
                        k2] by {
                        assert(self.ops->Mem_0@[off + k2] == buffer@[k2]);
                    }
                }
                Ok(())
            },
            Backing::Record(s) => {
                let base = off + self.raddr;
                let r = s.write(base, buffer.as_slice());
                match r {
                    Ok(_) => {
                        proof {
                            assert forall|k2: int|
                                0 <= k2 < buffer@.len() implies self.byte_at(paddr + k2)
                                == buffer@[k2] by {
                                assert(spec_get(
                                    self.ops->Record_0.bytes.model(),
                                    (base + k2) as u64,
                                ) == Some(buffer@[k2]));
                            }
                        }
                        Ok(())
                    },
                    Err(e) => Err(e),
                }
            },
        }
    }

    /// Reads the byte served at physical address `a`.
    fn read_byte(&self, a: u64) -> (r: u8)
        requires
            self.wf(),
            self.has_paddr_spec(a as int),
        ensures
            r == self.byte_at(a as int),
    {
        let off = a - self.paddr;
        match &self.ops {
            Backing::Mem(b) => {
                let l = b.len();
                proof {
                    assert(off < l as u64);
                }
                b[off as usize]
            },
            Backing::Record(s) => match s.bytes.get(off + self.raddr) {
                Some(v) => v,
                None => 0,
            },
        }
    }

    /// Overwrites the byte served at physical address `a`.
    fn write_byte(&mut self, a: u64, b: u8)
        requires
            old(self).wf(),
            old(self).has_paddr_spec(a as int),
        ensures
            final(self).wf(),
            final(self).hndl_spec() == old(self).hndl_spec(),
            final(self).name == old(self).name,
            final(self).perm == old(self).perm,
            final(self).paddr == old(self).paddr,
            final(self).raddr_spec() == old(self).raddr_spec(),
            final(self).size == old(self).size,
            final(self).byte_at(a as int) == b,
            forall|x: int|
                old(self).has_paddr_spec(x) && x != a ==> final(self).byte_at(x) == old(
                    self,
                ).byte_at(x),
            final(self).ops is Mem <==> old(self).ops is Mem,
            (final(self).ops is Record && old(self).ops is Record) ==> ({
                let s2 = final(self).ops->Record_0;
                let s1 = old(self).ops->Record_0;
                s2.uri == s1.uri && s2.prot == s1.prot && s2.header == s1.header
                    && s2.start_address == s1.start_address
            }),
    {
        let off = a - self.paddr;
        match &mut self.ops {
            Backing::Mem(bv) => {
                let l = bv.len();
                proof {
                    assert(off < l as u64);
                }
                bv[off as usize] = b;
            },
            Backing::Record(s) => {
                s.bytes.set(off + self.raddr, b);
            },
        }
    }
}

/// The full rendered file text of a record source, as the codec
/// regenerates it.
pub open spec fn srec_render(s: SrecInternal) -> Seq<u8> {
    crate::srec::header_line(s.header@) + crate::srec::render_data(
        s.bytes.model(),
        0,
        (s.bytes.model().len() + 1) as nat,
    ) + crate::srec::eof_part(s.start_address)
}

/// The URI names the engine's own scratch scheme: it begins with the
/// nine characters `malloc://` and at least one more follows.
pub open spec fn is_malloc_uri(s: Seq<u8>) -> bool {
    s.len() >= 10 && s[0] == 109 && s[1] == 97 && s[2] == 108 && s[3] == 108 && s[4] == 111
        && s[5] == 99 && s[6] == 58 && s[7] == 47 && s[8] == 47
}

/// The URI names the record scheme: it begins with `srec://`.
pub open spec fn is_srec_uri(s: Seq<u8>) -> bool {
    s.len() >= 7 && s[0] == 115 && s[1] == 114 && s[2] == 101 && s[3] == 99 && s[4] == 58 && s[5]
        == 47 && s[6] == 47
}

/// Some open descriptor carries the handle `h`.
pub open spec fn handle_used(descs: Seq<RIODesc>, h: u64) -> bool {
    exists|i: int| 0 <= i < descs.len() && (#[trigger] descs[i]).hndl_spec() == h
}

/// The indices whose descriptor carries a handle of at most `n`.
spec fn handle_idx_set(descs: Seq<RIODesc>, n: int) -> Set<int> {
    Set::new(|i: int| 0 <= i < descs.len() && descs[i].hndl_spec() <= n)
}

/// Carrying every handle up to `n` takes at least `n + 1` descriptors
/// when no handle repeats.
proof fn lemma_handle_count(descs: Seq<RIODesc>, n: int)
    requires
        0 <= n <= u64::MAX,
        forall|i: int, j: int|
            0 <= i < descs.len() && 0 <= j < descs.len() && i != j ==> (
            #[trigger] descs[i]).hndl_spec() != (#[trigger] descs[j]).hndl_spec(),
        forall|h: u64| h <= n ==> #[trigger] handle_used(descs, h),
    ensures
        handle_idx_set(descs, n).finite(),
        handle_idx_set(descs, n).len() >= n + 1,
    decreases n,
{
    let s = handle_idx_set(descs, n);
    vstd::set_lib::lemma_int_range(0, descs.len() as int);
    assert(s.subset_of(vstd::set_lib::set_int_range(0, descs.len() as int)));
    vstd::set_lib::lemma_len_subset(s, vstd::set_lib::set_int_range(0, descs.len() as int));
    assert(handle_used(descs, n as u64));
    let w = choose|i: int|
        0 <= i < descs.len() && (#[trigger] descs[i]).hndl_spec() == n as u64;
    assert(s.contains(w));
    if n == 0 {
        assert(s.remove(w).len() == s.len() - 1);
        assert(s.len() >= 1);
    } else {
        lemma_handle_count(descs, n - 1);
        let s0 = handle_idx_set(descs, n - 1);
        assert(!s0.contains(w));
        assert(s0.insert(w).subset_of(s));
        assert(s0.insert(w).len() == s0.len() + 1);
        vstd::set_lib::lemma_len_subset(s0.insert(w), s);
    }
}

/// Pigeonhole for handles: a table with pairwise distinct handles that
/// uses every handle up to its own length must be longer than that.
proof fn lemma_handles_pigeonhole(descs: Seq<RIODesc>, n: int)
    requires
        0 <= n <= u64::MAX,
        forall|i: int, j: int|
            0 <= i < descs.len() && 0 <= j < descs.len() && i != j ==> (
            #[trigger] descs[i]).hndl_spec() != (#[trigger] descs[j]).hndl_spec(),
        forall|h: u64| h <= n ==> #[trigger] handle_used(descs, h),
    ensures
        descs.len() > n,
{
    lemma_handle_count(descs, n);
    vstd::set_lib::lemma_int_range(0, descs.len() as int);
    assert(handle_idx_set(descs, n).subset_of(
        vstd::set_lib::set_int_range(0, descs.len() as int),
    ));
    vstd::set_lib::lemma_len_subset(
        handle_idx_set(descs, n),
        vstd::set_lib::set_int_range(0, descs.len() as int),
    );
}

/// The descriptor carrying handle `h`; meaningful where `handle_used`
/// holds and handles are unique.
pub open spec fn desc_of(descs: Seq<RIODesc>, h: u64) -> RIODesc {
    descs[choose|i: int| 0 <= i < descs.len() && (#[trigger] descs[i]).hndl_spec() == h]
}

/// The descriptor as placed at physical address `p`.
pub open spec fn placed_at(desc: RIODesc, p: u64) -> RIODesc {
    RIODesc {
        hndl: desc.hndl,
        name: desc.name,
        perm: desc.perm,
        paddr: p,
        raddr: desc.raddr,
        size: desc.size,
        ops: desc.ops,
    }
}

/// The engine: the table of open descriptors, sorted by physical
/// address, and the registry of virtual mappings.
pub struct RIO {
    pub descs: Vec<RIODesc>,
    pub maps: RIOMapQuery,
}

impl RIO {
    /// Internal consistency: a valid map registry, well-formed
    /// descriptors in strictly increasing non-overlapping physical
    /// order, no handle used twice.
    pub open spec fn inv(&self) -> bool {
        &&& self.maps.inv()
        &&& self.descs_wf()
    }

    /// The descriptor half of the invariant: well-formed descriptors in
    /// strictly increasing non-overlapping physical order, no handle
    /// used twice.
    pub open spec fn descs_wf(&self) -> bool {
        &&& forall|i: int| 0 <= i < self.descs@.len() ==> (#[trigger] self.descs@[i]).wf()
        &&& forall|i: int, j: int|
            0 <= i < j < self.descs@.len() ==> (#[trigger] self.descs@[i]).paddr
                + self.descs@[i].size <= (#[trigger] self.descs@[j]).paddr
        &&& forall|i: int, j: int|
            0 <= i < self.descs@.len() && 0 <= j < self.descs@.len() && i != j ==> (
            #[trigger] self.descs@[i]).hndl_spec() != (#[trigger] self.descs@[j]).hndl_spec()
    }

    /// The physical address `a` is backed by some descriptor.
    pub open spec fn backed(&self, a: int) -> bool {
        exists|i: int| 0 <= i < self.descs@.len() && (#[trigger] self.descs@[i]).has_paddr_spec(a)
    }

    /// The byte the physical space serves at `a`.
    pub open spec fn phys_at(&self, a: int) -> u8 {
        if self.backed(a) {
            let i = choose|i: int|
                0 <= i < self.descs@.len() && (#[trigger] self.descs@[i]).has_paddr_spec(a);
            self.descs@[i].byte_at(a)
        } else {
            0
        }
    }

    /// An empty engine.
    pub fn new() -> (r: RIO)
        ensures
            r.inv(),
            r.descs@.len() == 0,
            r.maps.mappings().len() == 0,
    {
        RIO { descs: Vec::new(), maps: RIOMapQuery::new() }
    }

    /// The descriptor index backing physical address `a`, if any.
    fn backed_at(&self, a: u64) -> (r: Option<usize>)
        requires
            self.descs_wf(),
        ensures
            r matches Some(i) ==> i < self.descs@.len() && self.descs@[i as int].has_paddr_spec(
                a as int,
            ),
            r is None <==> !self.backed(a as int),
    {
        let mut i: usize = 0;
        while i < self.descs.len()
            invariant
                self.descs_wf(),
                0 <= i <= self.descs@.len(),
                forall|j: int|
                    0 <= j < i ==> !(#[trigger] self.descs@[j]).has_paddr_spec(a as int),
            decreases self.descs.len() - i,
        {
            if self.descs[i].has_paddr(a) {
                return Some(i);
            }
            i = i + 1;
        }
        None
    }

    /// At a backed address, the serving descriptor is the unique one
    /// containing it.
    proof fn lemma_phys_at_witness(&self, a: int, i: int)
        requires
            self.descs_wf(),
            0 <= i < self.descs@.len(),
            self.descs@[i].has_paddr_spec(a),
        ensures
            self.phys_at(a) == self.descs@[i].byte_at(a),
    {
        let c = choose|c: int|
            0 <= c < self.descs@.len() && (#[trigger] self.descs@[c]).has_paddr_spec(a);
        if c != i {
            if c < i {
                assert(self.descs@[c].paddr + self.descs@[c].size <= self.descs@[i].paddr);
            } else {
                assert(self.descs@[i].paddr + self.descs@[i].size <= self.descs@[c].paddr);
            }
        }
    }

    /// The whole range `[paddr, paddr + size)` is backed, gap-free, and
    /// begins inside a descriptor.
    ///
    /// Because descriptors never overlap, full coverage is the same as
    /// the absence of any hole between adjacent descriptors under the
    /// range.
    pub fn is_phy(&self, paddr: u64, size: u64) -> (r: bool)
        requires
            self.inv(),
        ensures
            r == (self.backed(paddr as int) && forall|a: int|
                paddr <= a < paddr + size ==> self.backed(a)),
    {
        if self.backed_at(paddr).is_none() {
            return false;
        }
        let mut off: u64 = 0;
        while off < size
            invariant
                self.inv(),
                0 <= off <= size,
                self.backed(paddr as int),
                forall|a: int| paddr <= a < paddr + off ==> self.backed(a),
            decreases size - off,
        {
            if paddr > u64::MAX - off {
                proof {
                    assert(!self.backed(paddr + off));
                }
                return false;
            }
            if self.backed_at(paddr + off).is_none() {
                return false;
            }
            off = off + 1;
        }
        true
    }

    /// The handle of the descriptor backing `paddr`, if any.
    pub fn phy_to_hndl(&self, paddr: u64) -> (r: Option<u64>)
        requires
            self.inv(),
        ensures
            r is Some <==> self.backed(paddr as int),
            r matches Some(h) ==> exists|i: int|
                0 <= i < self.descs@.len() && (#[trigger] self.descs@[i]).has_paddr_spec(
                    paddr as int,
                ) && h == self.descs@[i].hndl_spec(),
    {
        match self.backed_at(paddr) {
            Some(i) => Some(self.descs[i].get_hndl()),
            None => None,
        }
    }

    /// A fresh descriptor could sit at `[p, p + size)` without meeting
    /// any open one, inside the 64-bit space.
    pub open spec fn fits(&self, p: int, size: int) -> bool {
        &&& 0 <= p
        &&& p + size <= u64::MAX + 1
        &&& forall|i: int|
            0 <= i < self.descs@.len() ==> ((#[trigger] self.descs@[i]).paddr + self.descs@[i].size
                <= p || p + size <= self.descs@[i].paddr)
    }

    /// The smallest handle not in use: with pairwise distinct handles
    /// at most `self.descs` handles are taken, so one of the first
    /// `self.descs.len() + 1` candidates is free. Only a table of
    /// `u64::MAX` descriptors, which no memory holds, reports
    /// `TooManyFilesError`.
    fn get_new_hndl(&self) -> (r: Result<u64, IoError>)
        requires
            self.inv(),
        ensures
            r is Ok <==> self.descs@.len() < u64::MAX,
            r matches Ok(h) ==> !handle_used(self.descs@, h) && (forall|h2: u64|
                h2 < h ==> #[trigger] handle_used(self.descs@, h2)),
            r is Err ==> r == Err::<u64, IoError>(IoError::TooManyFilesError),
    {
        let n = self.descs.len();
        if n as u64 == u64::MAX {
            return Err(IoError::TooManyFilesError);
        }
        let mut cand: u64 = 0;
        while cand <= n as u64
            invariant
                self.inv(),
                n == self.descs@.len(),
                n < u64::MAX,
                0 <= cand <= n + 1,
                forall|h2: u64| h2 < cand ==> #[trigger] handle_used(self.descs@, h2),
            decreases n + 1 - cand,
        {
            let mut used = false;
            let mut i: usize = 0;
            while i < n
                invariant
                    self.inv(),
                    n == self.descs@.len(),
                    0 <= i <= n,
                    used <==> exists|j: int|
                        0 <= j < i && (#[trigger] self.descs@[j]).hndl_spec() == cand,
                decreases n - i,
            {
                if self.descs[i].get_hndl() == cand {
                    used = true;
                }
                i = i + 1;
            }
            if !used {
                return Ok(cand);
            }
            cand = cand + 1;
        }
        proof {
            lemma_handles_pigeonhole(self.descs@, n as int);
        }
        Err(IoError::TooManyFilesError)
    }

    /// Places a fresh descriptor at the lowest physical address where
    /// it fits in a gap between open descriptors, or after the last
    /// one; reports `TooManyFilesError` when the 64-bit space is
    /// exhausted.
    #[verifier::rlimit(100)]
    fn insert_desc(&mut self, desc: RIODesc) -> (r: Result<u64, IoError>)
        requires
            old(self).inv(),
            desc.wf(),
            forall|i: int|
                0 <= i < old(self).descs@.len() ==> (#[trigger] old(self).descs@[i]).hndl_spec()
                    != desc.hndl_spec(),
        ensures
            r is Err ==> *final(self) == *old(self) && r == Err::<u64, IoError>(
                IoError::TooManyFilesError,
            ),
            r is Err <==> !(exists|p: int| #[trigger] old(self).fits(p, desc.size as int)),
            r matches Ok(h) ==> ({
                &&& h == desc.hndl_spec()
                &&& final(self).inv()
                &&& final(self).maps == old(self).maps
                &&& final(self).descs@.len() == old(self).descs@.len() + 1
                &&& exists|pos: int, p: int|
                    #![all_triggers]
                    {
                        &&& 0 <= pos <= old(self).descs@.len()
                        &&& old(self).fits(p, desc.size as int)
                        &&& (forall|p2: int|
                            0 <= p2 < p ==> !old(self).fits(p2, desc.size as int))
                        &&& final(self).descs@ == old(self).descs@.subrange(0, pos) + seq![
                            placed_at(desc, p as u64),
                        ] + old(self).descs@.skip(pos)
                    }
            }),
    {
        let ghost orig = *self;
        let mut start: u64 = 0;
        let mut i: usize = 0;
        let n = self.descs.len();
        while i < n
            invariant
                self.inv(),
                *self == orig,
                orig == *old(self),
                n == self.descs@.len(),
                desc.wf(),
                forall|j: int|
                    0 <= j < self.descs@.len() ==> (#[trigger] self.descs@[j]).hndl_spec()
                        != desc.hndl_spec(),
                0 <= i <= n,
                forall|j: int|
                    0 <= j < i ==> (#[trigger] self.descs@[j]).paddr + self.descs@[j].size
                        <= start,
                forall|p2: int| 0 <= p2 < start ==> !self.fits(p2, desc.size as int),
                i < n ==> start <= self.descs@[i as int].paddr,
            decreases n - i,
        {
            if self.descs[i].paddr - start >= desc.size {
                // The gap before descriptor `i` takes the new one.
                let ghost pos = i as int;
                let ghost p = start as int;
                proof {
                    assert(self.fits(p, desc.size as int)) by {
                        assert forall|j: int|
                            0 <= j < self.descs@.len() implies ((
                        #[trigger] self.descs@[j]).paddr + self.descs@[j].size <= p || p
                            + desc.size <= self.descs@[j].paddr) by {
                            if j >= i {
                                assert(self.descs@[i as int].paddr <= self.descs@[j].paddr);
                            }
                        }
                    }
                }
                let h = desc.hndl;
                let mut placed = desc;
                placed.paddr = start;
                self.descs.insert(i, placed);
                proof {
                    assert(placed == placed_at(desc, start));
                    assert(self.descs@ =~= orig.descs@.subrange(0, pos) + seq![
                        placed_at(desc, start),
                    ] + orig.descs@.skip(pos));
                    lemma_insert_desc_inv(orig, *self, placed, pos);
                }
                return Ok(h);
            }
            proof {
                let iold = i as int;
                let dend = self.descs@[iold].paddr + self.descs@[iold].size;
                assert forall|p2: int| 0 <= p2 < dend implies !self.fits(
                    p2,
                    desc.size as int,
                ) by {
                    if start <= p2 {
                        assert(!(self.descs@[iold].paddr + self.descs@[iold].size <= p2));
                        assert(!(p2 + desc.size <= self.descs@[iold].paddr));
                    }
                }
            }
            if self.descs[i].size > u64::MAX - self.descs[i].paddr {
                // The descriptor reaches the end of the space: nothing
                // fits beyond it.
                proof {
                    assert forall|p2: int| true implies !self.fits(p2, desc.size as int) by {
                        let iold = i as int;
                        if p2 >= self.descs@[iold].paddr + self.descs@[iold].size {
                            assert(p2 + desc.size > u64::MAX + 1);
                        }
                    }
                }
                return Err(IoError::TooManyFilesError);
            }
            start = self.descs[i].paddr + self.descs[i].size;
            i = i + 1;
        }
        if desc.size - 1 > u64::MAX - start {
            proof {
                assert forall|p2: int| true implies !self.fits(p2, desc.size as int) by {
                    if p2 >= start {
                        assert(p2 + desc.size > u64::MAX + 1);
                    }
                }
            }
            return Err(IoError::TooManyFilesError);
        }
        let ghost pos = n as int;
        let ghost p = start as int;
        proof {
            assert(self.fits(p, desc.size as int));
        }
        let h = desc.hndl;
        let mut placed = desc;
        placed.paddr = start;
        self.descs.push(placed);
        proof {
            assert(placed == placed_at(desc, start));
            assert(self.descs@ =~= orig.descs@.subrange(0, pos) + seq![
                placed_at(desc, start),
            ] + orig.descs@.skip(pos));
            lemma_insert_desc_inv(orig, *self, placed, pos);
        }
        Ok(h)
    }

    /// Places a fresh descriptor at exactly `at`; a collision with any
    /// open descriptor, or running past the end of the space, is
    /// `AddressesOverlapError`.
    fn insert_desc_at(&mut self, desc: RIODesc, at: u64) -> (r: Result<u64, IoError>)
        requires
            old(self).inv(),
            desc.wf(),
            forall|i: int|
                0 <= i < old(self).descs@.len() ==> (#[trigger] old(self).descs@[i]).hndl_spec()
                    != desc.hndl_spec(),
        ensures
            r is Err ==> *final(self) == *old(self) && r == Err::<u64, IoError>(
                IoError::AddressesOverlapError,
            ),
            r is Err <==> !old(self).fits(at as int, desc.size as int),
            r matches Ok(h) ==> ({
                &&& h == desc.hndl_spec()
                &&& final(self).inv()
                &&& final(self).maps == old(self).maps
                &&& final(self).descs@.len() == old(self).descs@.len() + 1
                &&& exists|pos: int|
                    #![all_triggers]
                    0 <= pos <= old(self).descs@.len() && final(self).descs@ == old(
                        self,
                    ).descs@.subrange(0, pos) + seq![placed_at(desc, at)] + old(
                        self,
                    ).descs@.skip(pos)
            }),
    {
        let ghost orig = *self;
        if desc.size - 1 > u64::MAX - at {
            return Err(IoError::AddressesOverlapError);
        }
        let n = self.descs.len();
        let mut pos: usize = 0;
        while pos < n && self.descs[pos].paddr < at
            invariant
                self.inv(),
                *self == orig,
                n == self.descs@.len(),
                0 <= pos <= n,
                forall|j: int| 0 <= j < pos ==> (#[trigger] self.descs@[j]).paddr < at,
                pos < n ==> true,
            decreases n - pos,
        {
            pos = pos + 1;
        }
        // Collisions can only involve the neighbours of the insertion
        // point.
        if pos > 0 {
            let prev = &self.descs[pos - 1];
            if at - prev.paddr < prev.size {
                proof {
                    assert(!self.fits(at as int, desc.size as int)) by {
                        assert(!(self.descs@[pos - 1].paddr + self.descs@[pos - 1].size
                            <= at as int));
                        assert(!(at + desc.size <= self.descs@[pos - 1].paddr));
                    }
                }
                return Err(IoError::AddressesOverlapError);
            }
        }
        if pos < n {
            let next = &self.descs[pos];
            if next.paddr - at < desc.size {
                proof {
                    assert(!self.fits(at as int, desc.size as int)) by {
                        assert(!(self.descs@[pos as int].paddr + self.descs@[pos as int].size
                            <= at as int));
                        assert(!(at + desc.size <= self.descs@[pos as int].paddr));
                    }
                }
                return Err(IoError::AddressesOverlapError);
            }
        }
        proof {
            assert(self.fits(at as int, desc.size as int)) by {
                assert forall|j: int|
                    0 <= j < self.descs@.len() implies ((#[trigger] self.descs@[j]).paddr
                    + self.descs@[j].size <= at as int || at + desc.size
                    <= self.descs@[j].paddr) by {
                    if j < pos as int {
                        if j < pos - 1 {
                            assert(self.descs@[j].paddr + self.descs@[j].size
                                <= self.descs@[pos - 1].paddr);
                        }
                    } else {
                        assert(self.descs@[pos as int].paddr <= self.descs@[j].paddr);
                    }
                }
            }
        }
        let h = desc.hndl;
        let mut placed = desc;
        placed.paddr = at;
        self.descs.insert(pos, placed);
        proof {
            assert(placed == placed_at(desc, at));
            assert(self.descs@ =~= orig.descs@.subrange(0, pos as int) + seq![
                placed_at(desc, at),
            ] + orig.descs@.skip(pos as int));
            lemma_insert_desc_inv(orig, *self, placed, pos as int);
        }
        Ok(h)
    }

    /// Reads `buf.len()` bytes at physical address `paddr` into `buf`.
    ///
    /// Fails with `AddressNotFound`, leaving the buffer untouched, when
    /// `paddr` itself is unbacked; with `UnexpectedEof` when the range
    /// runs into a hole or past the last adjacent descriptor. On
    /// success the buffer holds exactly the bytes of the physical
    /// space.
    pub fn pread(&self, paddr: u64, buf: &mut Vec<u8>) -> (r: Result<(), IoError>)
        requires
            self.inv(),
        ensures
            final(buf)@.len() == old(buf)@.len(),
            r == Err::<(), IoError>(IoError::AddressNotFound) <==> !self.backed(paddr as int),
            r == Err::<(), IoError>(IoError::UnexpectedEof) <==> (self.backed(paddr as int)
                && exists|a: int| paddr <= a < paddr + old(buf)@.len() && !self.backed(a)),
            r is Ok <==> (self.backed(paddr as int) && forall|a: int|
                paddr <= a < paddr + old(buf)@.len() ==> self.backed(a)),
            r is Err ==> final(buf)@ == old(buf)@,
            r is Ok ==> forall|k: int|
                0 <= k < final(buf)@.len() ==> (#[trigger] final(buf)@[k]) == self.phys_at(
                    paddr + k,
                ),
    {
        let len = buf.len();
        if self.backed_at(paddr).is_none() {
            return Err(IoError::AddressNotFound);
        }
        if !self.is_phy(paddr, len as u64) {
            proof {
                assert(exists|a: int| paddr <= a < paddr + len && !self.backed(a));
            }
            return Err(IoError::UnexpectedEof);
        }
        proof {
            if len > 0 {
                assert(self.backed(paddr + len - 1));
                let c = choose|c: int|
                    0 <= c < self.descs@.len() && (#[trigger] self.descs@[c]).has_paddr_spec(
                        paddr + len - 1,
                    );
                assert(self.descs@[c].wf());
            }
        }
        let mut k: usize = 0;
        while k < len
            invariant
                self.inv(),
                0 <= k <= len,
                buf@.len() == len,
                len <= usize::MAX,
                forall|a: int| paddr <= a < paddr + len ==> self.backed(a),
                paddr + len <= u64::MAX + 1,
                forall|j: int|
                    0 <= j < k ==> (#[trigger] buf@[j]) == self.phys_at(paddr + j),
            decreases len - k,
        {
            let a = paddr + (k as u64);
            let i = match self.backed_at(a) {
                Some(i) => i,
                None => {
                    proof {
                        assert(self.backed(a as int));
                    }
                    return Err(IoError::UnexpectedEof);
                },
            };
            let b = self.descs[i].read_byte(a);
            proof {
                self.lemma_phys_at_witness(a as int, i as int);
            }
            buf[k] = b;
            k = k + 1;
        }
        Ok(())
    }

    /// Writes `buf` at physical address `paddr`.
    ///
    /// Fails with `AddressNotFound` when `paddr` itself is unbacked,
    /// with `UnexpectedEof` when the range runs into a hole, and with
    /// `PermissionDenied` when a touched descriptor lacks write and
    /// copy-on-write permission; a failed write changes nothing. On
    /// success exactly the addressed bytes of the physical space are
    /// replaced; descriptor placement, handles, permissions and the
    /// map registry stay as they were.
    #[verifier::rlimit(100)]
    pub fn pwrite(&mut self, paddr: u64, buf: &Vec<u8>) -> (r: Result<(), IoError>)
        requires
            old(self).inv(),
        ensures
            final(self).inv(),
            r == Err::<(), IoError>(IoError::AddressNotFound) <==> !old(self).backed(
                paddr as int,
            ),
            r == Err::<(), IoError>(IoError::UnexpectedEof) <==> (old(self).backed(paddr as int)
                && exists|a: int| paddr <= a < paddr + buf@.len() && !old(self).backed(a)),
            r == Err::<(), IoError>(IoError::PermissionDenied) <==> (old(self).backed(paddr as int)
                && (forall|a: int| paddr <= a < paddr + buf@.len() ==> old(self).backed(a))
                && exists|i: int|
                0 <= i < old(self).descs@.len() && (exists|a: int|
                    paddr <= a < paddr + buf@.len() && (#[trigger] old(self).descs@[i]).has_paddr_spec(
                        a,
                    )) && !old(self).descs@[i].perm.writeable()),
            r is Ok <==> (old(self).backed(paddr as int) && (forall|a: int|
                paddr <= a < paddr + buf@.len() ==> old(self).backed(a)) && (forall|i: int|
                0 <= i < old(self).descs@.len() && (exists|a: int|
                    paddr <= a < paddr + buf@.len() && (#[trigger] old(self).descs@[i]).has_paddr_spec(
                        a,
                    )) ==> old(self).descs@[i].perm.writeable())),
            r is Err ==> *final(self) == *old(self),
            r is Ok ==> {
                &&& forall|a: int|
                    #![all_triggers]
                    final(self).backed(a) <==> old(self).backed(a)
                &&& forall|a: int|
                    paddr <= a < paddr + buf@.len() ==> final(self).phys_at(a) == buf@[a - paddr]
                &&& forall|a: int|
                    old(self).backed(a) && !(paddr <= a < paddr + buf@.len()) ==> final(self).phys_at(
                        a,
                    ) == old(self).phys_at(a)
                &&& final(self).maps == old(self).maps
                &&& final(self).descs@.len() == old(self).descs@.len()
                &&& forall|i: int|
                    #![all_triggers]
                    0 <= i < final(self).descs@.len() ==> {
                        &&& final(self).descs@[i].hndl_spec() == old(self).descs@[i].hndl_spec()
                        &&& final(self).descs@[i].name == old(self).descs@[i].name
                        &&& final(self).descs@[i].perm == old(self).descs@[i].perm
                        &&& final(self).descs@[i].paddr == old(self).descs@[i].paddr
                        &&& final(self).descs@[i].size == old(self).descs@[i].size
                    }
            },
    {
        let len = buf.len();
        if self.backed_at(paddr).is_none() {
            return Err(IoError::AddressNotFound);
        }
        if !self.is_phy(paddr, len as u64) {
            proof {
                assert(exists|a: int| paddr <= a < paddr + len && !self.backed(a));
            }
            return Err(IoError::UnexpectedEof);
        }
        proof {
            if len > 0 {
                assert(self.backed(paddr + len - 1));
                let c = choose|c: int|
                    0 <= c < self.descs@.len() && (#[trigger] self.descs@[c]).has_paddr_spec(
                        paddr + len - 1,
                    );
                assert(self.descs@[c].wf());
            }
        }
        // Check the permission of every touched descriptor up front.
        let mut k: usize = 0;
        while k < len
            invariant
                self.inv(),
                *self == *old(self),
                0 <= k <= len,
                len == buf@.len(),
                len <= usize::MAX,
                self.backed(paddr as int),
                forall|a: int| paddr <= a < paddr + len ==> self.backed(a),
                paddr + len <= u64::MAX + 1,
                forall|i: int|
                    0 <= i < self.descs@.len() && (exists|a: int|
                        paddr <= a < paddr + k && (#[trigger] self.descs@[i]).has_paddr_spec(a))
                        ==> self.descs@[i].perm.writeable(),
            decreases len - k,
        {
            let a = paddr + (k as u64);
            let i = match self.backed_at(a) {
                Some(i) => i,
                None => {
                    proof {
                        assert(self.backed(a as int));
                    }
                    return Err(IoError::UnexpectedEof);
                },
            };
            if !self.descs[i].perm.write && !self.descs[i].perm.cow {
                return Err(IoError::PermissionDenied);
            }
            proof {
                assert forall|i2: int|
                    0 <= i2 < self.descs@.len() && (exists|a2: int|
                        paddr <= a2 < paddr + (k + 1) && (
                        #[trigger] self.descs@[i2]).has_paddr_spec(a2)) implies
                    self.descs@[i2].perm.writeable() by {
                    let a2 = choose|a2: int|
                        paddr <= a2 < paddr + (k + 1) && (#[trigger] self.descs@[i2]).has_paddr_spec(
                            a2,
                        );
                    if a2 == a as int {
                        if i2 != i as int {
                            if i2 < i as int {
                                assert(self.descs@[i2].paddr + self.descs@[i2].size
                                    <= self.descs@[i as int].paddr);
                            } else {
                                assert(self.descs@[i as int].paddr + self.descs@[i as int].size
                                    <= self.descs@[i2].paddr);
                            }
                        }
                    }
                }
            }
            k = k + 1;
        }
        // All checks passed: apply the bytes.
        let ghost pre = *self;
        let mut k2: usize = 0;
        while k2 < len
            invariant
                self.inv(),
                0 <= k2 <= len,
                len == buf@.len(),
                len <= usize::MAX,
                paddr + len <= u64::MAX + 1,
                self.maps == pre.maps,
                self.descs@.len() == pre.descs@.len(),
                forall|i: int|
                    #![all_triggers]
                    0 <= i < self.descs@.len() ==> {
                        &&& self.descs@[i].hndl_spec() == pre.descs@[i].hndl_spec()
                        &&& self.descs@[i].name == pre.descs@[i].name
                        &&& self.descs@[i].perm == pre.descs@[i].perm
                        &&& self.descs@[i].paddr == pre.descs@[i].paddr
                        &&& self.descs@[i].size == pre.descs@[i].size
                    },
                forall|a: int| #![all_triggers] self.backed(a) <==> pre.backed(a),
                forall|a: int| paddr <= a < paddr + len ==> pre.backed(a),
                forall|a: int|
                    paddr <= a < paddr + k2 ==> self.phys_at(a) == buf@[a - paddr],
                forall|a: int|
                    pre.backed(a) && !(paddr <= a < paddr + k2) ==> self.phys_at(a) == pre.phys_at(
                        a,
                    ),
            decreases len - k2,
        {
            let a = paddr + (k2 as u64);
            let i = match self.backed_at(a) {
                Some(i) => i,
                None => {
                    proof {
                        assert(self.backed(a as int));
                    }
                    return Err(IoError::UnexpectedEof);
                },
            };
            let ghost before = *self;
            let b = buf[k2];
            let desc = &mut self.descs[i];
            desc.write_byte(a, b);
            proof {
                assert forall|x: int, j: int|
                    0 <= j < self.descs@.len() && self.descs@[j].has_paddr_spec(x) && j != i as int
                        implies #[trigger] self.descs@[j].byte_at(x) == before.descs@[j].byte_at(
                    x,
                ) by {
                    assert(self.descs@[j] == before.descs@[j]);
                }
                assert forall|x: int| #![all_triggers] self.backed(x) <==> before.backed(x) by {
                    if self.backed(x) {
                        let c = choose|c: int|
                            0 <= c < self.descs@.len() && (#[trigger] self.descs@[c]).has_paddr_spec(
                                x,
                            );
                        assert(before.descs@[c].has_paddr_spec(x));
                    }
                    if before.backed(x) {
                        let c = choose|c: int|
                            0 <= c < before.descs@.len() && (
                            #[trigger] before.descs@[c]).has_paddr_spec(x);
                        assert(self.descs@[c].has_paddr_spec(x));
                    }
                }
                assert forall|x: int|
                    paddr <= x < paddr + (k2 + 1) implies self.phys_at(x) == buf@[x - paddr] by {
                    if x == a as int {
                        self.lemma_phys_at_witness(x, i as int);
                    } else {
                        assert(pre.backed(x));
                        assert(before.backed(x));
                        let c = choose|c: int|
                            0 <= c < before.descs@.len() && (
                            #[trigger] before.descs@[c]).has_paddr_spec(x);
                        before.lemma_phys_at_witness(x, c);
                        self.lemma_phys_at_witness(x, c);
                        if c == i as int {
                            assert(self.descs@[c].byte_at(x) == before.descs@[c].byte_at(x));
                        }
                    }
                }
                assert forall|x: int|
                    pre.backed(x) && !(paddr <= x < paddr + (k2 + 1)) implies self.phys_at(x)
                    == pre.phys_at(x) by {
                    assert(before.backed(x));
                    let c = choose|c: int|
                        0 <= c < before.descs@.len() && (
                        #[trigger] before.descs@[c]).has_paddr_spec(x);
                    before.lemma_phys_at_witness(x, c);
                    self.lemma_phys_at_witness(x, c);
                    if c == i as int {
                        assert(self.descs@[c].byte_at(x) == before.descs@[c].byte_at(x));
                    }
                }
            }
            k2 = k2 + 1;
        }
        Ok(())
    }
}

/// The saved shape of one open descriptor: everything but the bytes it
/// serves.
pub struct DescState {
    pub name: String,
    pub perm: IoMode,
    pub paddr: u64,
    pub hndl: u64,
    pub size: u64,
}

/// A serializable snapshot of the engine's layout: the open
/// descriptors' placement and the registered mappings.
pub struct EngineState {
    pub descs: Vec<DescState>,
    pub maps: Vec<RIOMap>,
}

impl RIO {
    /// Opens an in-memory source holding `data` and places it at the
    /// lowest physical address where it fits.
    pub fn open_mem(&mut self, uri: &str, flags: IoMode, data: Vec<u8>) -> (r: Result<
        u64,
        IoError,
    >)
        requires
            old(self).inv(),
            1 <= data@.len() <= u64::MAX,
        ensures
            final(self).inv(),
            r is Err ==> *final(self) == *old(self),
            r is Ok <==> (old(self).descs@.len() < u64::MAX && exists|p: int|
                #[trigger] old(self).fits(p, data@.len() as int)),
            r is Err ==> r == Err::<u64, IoError>(IoError::TooManyFilesError),
            r matches Ok(h) ==> ({
                &&& final(self).maps == old(self).maps
                &&& !handle_used(old(self).descs@, h)
                &&& (forall|h2: u64| h2 < h ==> #[trigger] handle_used(old(self).descs@, h2))
                &&& final(self).descs@.len() == old(self).descs@.len() + 1
                &&& exists|pos: int, p: int|
                    #![trigger old(self).fits(p, data@.len() as int), final(self).descs@[pos]]
                    {
                        &&& 0 <= pos <= old(self).descs@.len()
                        &&& old(self).fits(p, data@.len() as int)
                        &&& (forall|p2: int|
                            0 <= p2 < p ==> !old(self).fits(p2, data@.len() as int))
                        &&& (forall|i: int|
                            0 <= i < pos ==> final(self).descs@[i] == old(self).descs@[i])
                        &&& (forall|i: int|
                            pos < i < final(self).descs@.len() ==> final(self).descs@[i] == old(
                                self,
                            ).descs@[i - 1])
                        &&& ({
                            let d = final(self).descs@[pos];
                            &&& d.hndl_spec() == h
                            &&& d.name@ == uri@
                            &&& d.perm == flags
                            &&& d.paddr == p
                            &&& d.raddr_spec() == 0
                            &&& d.size == data@.len()
                            &&& (d.ops matches Backing::Mem(b) && b@ == data@)
                        })
                    }
            }),
    {
        let hndl = match self.get_new_hndl() {
            Ok(h) => h,
            Err(e) => {
                return Err(e);
            },
        };
        let size = data.len() as u64;
        let desc = RIODesc {
            hndl,
            name: uri.to_owned(),
            perm: flags,
            paddr: 0,
            raddr: 0,
            size,
            ops: Backing::Mem(data),
        };
        let r = self.insert_desc(desc);
        proof {
            if r matches Ok(h) {
                let (pos, p) = choose|pos: int, p: int|
                    #![all_triggers]
                    {
                        &&& 0 <= pos <= old(self).descs@.len()
                        &&& old(self).fits(p, desc.size as int)
                        &&& (forall|p2: int|
                            0 <= p2 < p ==> !old(self).fits(p2, desc.size as int))
                        &&& self.descs@ == old(self).descs@.subrange(0, pos) + seq![
                            placed_at(desc, p as u64),
                        ] + old(self).descs@.skip(pos)
                    };
                assert forall|i: int| 0 <= i < pos implies self.descs@[i] == old(
                    self,
                ).descs@[i] by {}
                assert forall|i: int|
                    pos < i < self.descs@.len() implies self.descs@[i] == old(self).descs@[i
                    - 1] by {}
                assert(self.descs@[pos] == placed_at(desc, p as u64));
            }
        }
        r
    }

    /// Opens an in-memory source holding `data` at exactly physical
    /// address `at`.
    pub fn open_mem_at(&mut self, uri: &str, flags: IoMode, data: Vec<u8>, at: u64) -> (r: Result<
        u64,
        IoError,
    >)
        requires
            old(self).inv(),
            1 <= data@.len() <= u64::MAX,
        ensures
            final(self).inv(),
            r is Err ==> *final(self) == *old(self),
            r is Ok <==> (old(self).descs@.len() < u64::MAX && old(self).fits(
                at as int,
                data@.len() as int,
            )),
            r == Err::<u64, IoError>(IoError::TooManyFilesError) <==> old(self).descs@.len()
                >= u64::MAX,
            r == Err::<u64, IoError>(IoError::AddressesOverlapError) <==> (old(
                self,
            ).descs@.len() < u64::MAX && !old(self).fits(at as int, data@.len() as int)),
            r matches Ok(h) ==> ({
                &&& final(self).maps == old(self).maps
                &&& !handle_used(old(self).descs@, h)
                &&& (forall|h2: u64| h2 < h ==> #[trigger] handle_used(old(self).descs@, h2))
                &&& old(self).fits(at as int, data@.len() as int)
                &&& final(self).descs@.len() == old(self).descs@.len() + 1
                &&& exists|pos: int|
                    #![trigger final(self).descs@[pos]]
                    {
                        &&& 0 <= pos <= old(self).descs@.len()
                        &&& (forall|i: int|
                            0 <= i < pos ==> final(self).descs@[i] == old(self).descs@[i])
                        &&& (forall|i: int|
                            pos < i < final(self).descs@.len() ==> final(self).descs@[i] == old(
                                self,
                            ).descs@[i - 1])
                        &&& ({
                            let d = final(self).descs@[pos];
                            &&& d.hndl_spec() == h
                            &&& d.name@ == uri@
                            &&& d.perm == flags
                            &&& d.paddr == at
                            &&& d.raddr_spec() == 0
                            &&& d.size == data@.len()
                            &&& (d.ops matches Backing::Mem(b) && b@ == data@)
                        })
                    }
            }),
    {
        let hndl = match self.get_new_hndl() {
            Ok(h) => h,
            Err(e) => {
                return Err(e);
            },
        };
        let size = data.len() as u64;
        let desc = RIODesc {
            hndl,
            name: uri.to_owned(),
            perm: flags,
            paddr: 0,
            raddr: 0,
            size,
            ops: Backing::Mem(data),
        };
        let r = self.insert_desc_at(desc, at);
        proof {
            if r matches Ok(h) {
                let pos = choose|pos: int|
                    #![all_triggers]
                    0 <= pos <= old(self).descs@.len() && self.descs@ == old(
                        self,
                    ).descs@.subrange(0, pos) + seq![placed_at(desc, at)] + old(
                        self,
                    ).descs@.skip(pos);
                assert forall|i: int| 0 <= i < pos implies self.descs@[i] == old(
                    self,
                ).descs@[i] by {}
                assert forall|i: int|
                    pos < i < self.descs@.len() implies self.descs@[i] == old(self).descs@[i
                    - 1] by {}
                assert(self.descs@[pos] == placed_at(desc, at));
            }
        }
        r
    }

    /// Opens a URI.
    ///
    /// The engine itself serves `malloc://<size>` with a fresh
    /// zero-filled scratch buffer, the size read with the usual numeric
    /// prefix conventions; every other URI is left to the embedding
    /// application's plugins and fails with `IoPluginNotFoundError`.
    pub fn open(&mut self, uri: &str, flags: IoMode) -> (r: Result<u64, IoError>)
        requires
            old(self).inv(),
        ensures
            final(self).inv(),
            r is Err ==> *final(self) == *old(self),
            r == Err::<u64, IoError>(IoError::IoPluginNotFoundError) <==> !is_malloc_uri(
                uri.spec_bytes(),
            ),
            ({
                let s = uri.spec_bytes();
                &&& (is_malloc_uri(s) && !crate::helper::num_parses(s, 9) ==> (r matches Err(e)
                    && e is Custom))
                &&& (is_malloc_uri(s) && crate::helper::num_parses(s, 9)
                    && crate::helper::num_value(s, 9) == 0 ==> (r matches Err(e) && (
                e matches IoError::Custom(m) && m@ == "Cannot open an empty source"@)))
                &&& (r is Ok <==> (is_malloc_uri(s) && crate::helper::num_parses(s, 9)
                    && crate::helper::num_value(s, 9) >= 1 && old(self).descs@.len() < u64::MAX
                    && exists|p: int|
                    #[trigger] old(self).fits(p, crate::helper::num_value(s, 9))))
                &&& (r matches Ok(h) ==> ({
                    let n = crate::helper::num_value(s, 9);
                    &&& final(self).maps == old(self).maps
                    &&& !handle_used(old(self).descs@, h)
                    &&& (forall|h2: u64|
                        h2 < h ==> #[trigger] handle_used(old(self).descs@, h2))
                    &&& final(self).descs@.len() == old(self).descs@.len() + 1
                    &&& exists|pos: int, p: int|
                        #![trigger old(self).fits(p, crate::helper::num_value(s, 9)), final(self).descs@[pos]]
                        {
                            &&& 0 <= pos <= old(self).descs@.len()
                            &&& old(self).fits(p, n)
                            &&& (forall|p2: int| 0 <= p2 < p ==> !old(self).fits(p2, n))
                            &&& (forall|i: int|
                                0 <= i < pos ==> final(self).descs@[i] == old(self).descs@[i])
                            &&& (forall|i: int|
                                pos < i < final(self).descs@.len() ==> final(self).descs@[i]
                                    == old(self).descs@[i - 1])
                            &&& ({
                                let d = final(self).descs@[pos];
                                &&& d.hndl_spec() == h
                                &&& d.name@ == uri@
                                &&& d.perm == flags
                                &&& d.paddr == p
                                &&& d.raddr_spec() == 0
                                &&& d.size == n
                                &&& (d.ops matches Backing::Mem(b) && b@.len() == n && forall|
                                    k: int,
                                |
                                    0 <= k < b@.len() ==> b@[k] == 0)
                            })
                        }
                }))
            }),
    {
        let bs = uri.as_bytes();
        // The scheme prefix `malloc://`.
        if bs.len() < 10 || bs[0] != 109 || bs[1] != 97 || bs[2] != 108 || bs[3] != 108 || bs[4]
            != 111 || bs[5] != 99 || bs[6] != 58 || bs[7] != 47 || bs[8] != 47 {
            return Err(IoError::IoPluginNotFoundError);
        }
        let size = match crate::helper::num_from_bytes(bs, 9) {
            Ok(v) => v,
            Err(e) => {
                return Err(e);
            },
        };
        if size == 0 {
            return Err(IoError::Custom("Cannot open an empty source".to_owned()));
        }
        let mut data: Vec<u8> = Vec::new();
        let mut filled: u64 = 0;
        while filled < size
            invariant
                0 <= filled <= size,
                data@.len() == filled,
                forall|k: int| 0 <= k < filled ==> data@[k] == 0,
            decreases size - filled,
        {
            data.push(0);
            filled = filled + 1;
        }
        self.open_mem(uri, flags, data)
    }

    /// Opens a URI at exactly physical address `at`; a collision with
    /// an open descriptor is `AddressesOverlapError`. As with `open`,
    /// the engine itself serves only `malloc://<size>`.
    pub fn open_at(&mut self, uri: &str, flags: IoMode, at: u64) -> (r: Result<u64, IoError>)
        requires
            old(self).inv(),
        ensures
            final(self).inv(),
            r is Err ==> *final(self) == *old(self),
            r == Err::<u64, IoError>(IoError::IoPluginNotFoundError) <==> !is_malloc_uri(
                uri.spec_bytes(),
            ),
            ({
                let s = uri.spec_bytes();
                &&& (is_malloc_uri(s) && !crate::helper::num_parses(s, 9) ==> (r matches Err(e)
                    && e is Custom))
                &&& (is_malloc_uri(s) && crate::helper::num_parses(s, 9)
                    && crate::helper::num_value(s, 9) == 0 ==> (r matches Err(e) && (
                e matches IoError::Custom(m) && m@ == "Cannot open an empty source"@)))
                &&& (r is Ok <==> (is_malloc_uri(s) && crate::helper::num_parses(s, 9)
                    && crate::helper::num_value(s, 9) >= 1 && old(self).descs@.len() < u64::MAX
                    && old(self).fits(at as int, crate::helper::num_value(s, 9))))
                &&& (is_malloc_uri(s) && crate::helper::num_parses(s, 9)
                    && crate::helper::num_value(s, 9) >= 1 ==> (r == Err::<u64, IoError>(
                    IoError::AddressesOverlapError,
                ) <==> (old(self).descs@.len() < u64::MAX && !old(self).fits(
                    at as int,
                    crate::helper::num_value(s, 9),
                ))))
                &&& (r matches Ok(h) ==> ({
                    let n = crate::helper::num_value(s, 9);
                    &&& final(self).maps == old(self).maps
                    &&& !handle_used(old(self).descs@, h)
                    &&& (forall|h2: u64|
                        h2 < h ==> #[trigger] handle_used(old(self).descs@, h2))
                    &&& final(self).descs@.len() == old(self).descs@.len() + 1
                    &&& exists|pos: int|
                        #![trigger final(self).descs@[pos]]
                        {
                            &&& 0 <= pos <= old(self).descs@.len()
                            &&& (forall|i: int|
                                0 <= i < pos ==> final(self).descs@[i] == old(self).descs@[i])
                            &&& (forall|i: int|
                                pos < i < final(self).descs@.len() ==> final(self).descs@[i]
                                    == old(self).descs@[i - 1])
                            &&& ({
                                let d = final(self).descs@[pos];
                                &&& d.hndl_spec() == h
                                &&& d.name@ == uri@
                                &&& d.perm == flags
                                &&& d.paddr == at
                                &&& d.raddr_spec() == 0
                                &&& d.size == n
                                &&& (d.ops matches Backing::Mem(b) && b@.len() == n && forall|
                                    k: int,
                                |
                                    0 <= k < b@.len() ==> b@[k] == 0)
                            })
                        }
                }))
            }),
    {
        let bs = uri.as_bytes();
        if bs.len() < 10 || bs[0] != 109 || bs[1] != 97 || bs[2] != 108 || bs[3] != 108 || bs[4]
            != 111 || bs[5] != 99 || bs[6] != 58 || bs[7] != 47 || bs[8] != 47 {
            return Err(IoError::IoPluginNotFoundError);
        }
        let size = match crate::helper::num_from_bytes(bs, 9) {
            Ok(v) => v,
            Err(e) => {
                return Err(e);
            },
        };
        if size == 0 {
            return Err(IoError::Custom("Cannot open an empty source".to_owned()));
        }
        let mut data: Vec<u8> = Vec::new();
        let mut filled: u64 = 0;
        while filled < size
            invariant
                0 <= filled <= size,
                data@.len() == filled,
                forall|k: int| 0 <= k < filled ==> data@[k] == 0,
            decreases size - filled,
        {
            data.push(0);
            filled = filled + 1;
        }
        self.open_mem_at(uri, flags, data, at)
    }

    /// Opens an S-record source from the text of its file and places
    /// it at the lowest physical address where it fits. The parsed
    /// sparse bytes become the backing; the descriptor's natural base
    /// is the lowest populated address and its size the populated
    /// extent. A malformed line fails with its exact message; an empty
    /// or 64-bit-spanning byte map cannot be opened.
    pub fn open_srec(&mut self, uri: &str, flags: IoMode, text: &[u8]) -> (r: Result<
        u64,
        IoError,
    >)
        requires
            old(self).inv(),
        ensures
            final(self).inv(),
            r is Err ==> *final(self) == *old(self),
            !is_srec_uri(uri.spec_bytes()) ==> (r matches Err(e) && (e matches IoError::Custom(m)
                && m@ == "Invalid uri "@ + uri@)),
            is_srec_uri(uri.spec_bytes()) ==> ({
                let sp = srec_parse(text@);
                &&& (sp matches Err(line) ==> (r matches Err(e) && (e matches IoError::Custom(m)
                    && m@ == crate::srec::invalid_line_msg(line))))
                &&& (sp matches Ok(t) ==> {
                    &&& ((!exists|k: u64| #[trigger] t.0.dom().contains(k)) ==> (r matches Err(e)
                        && (e matches IoError::Custom(m) && m@
                        == "Cannot open an empty source"@)))
                    &&& (r is Ok <==> (old(self).descs@.len() < u64::MAX && exists|
                        lo: u64,
                        hi: u64,
                        p: int,
                    |
                        #![trigger crate::srec::is_min_key(t.0, lo), crate::srec::is_max_key(t.0, hi), old(self).fits(p, hi - lo + 1)]
                        crate::srec::is_min_key(t.0, lo) && crate::srec::is_max_key(t.0, hi) && hi
                            - lo < u64::MAX && old(self).fits(p, hi - lo + 1)))
                    &&& (r matches Ok(h) ==> ({
                        &&& final(self).maps == old(self).maps
                        &&& !handle_used(old(self).descs@, h)
                        &&& (forall|h2: u64|
                            h2 < h ==> #[trigger] handle_used(old(self).descs@, h2))
                        &&& final(self).descs@.len() == old(self).descs@.len() + 1
                        &&& exists|pos: int, p: int|
                            #![trigger final(self).descs@[pos], old(self).fits(p, final(self).descs@[pos].size as int)]
                            {
                                &&& 0 <= pos <= old(self).descs@.len()
                                &&& (forall|i: int|
                                    0 <= i < pos ==> final(self).descs@[i] == old(
                                        self,
                                    ).descs@[i])
                                &&& (forall|i: int|
                                    pos < i < final(self).descs@.len() ==> final(self).descs@[i]
                                        == old(self).descs@[i - 1])
                                &&& ({
                                    let d = final(self).descs@[pos];
                                    &&& d.hndl_spec() == h
                                    &&& d.name@ == uri@
                                    &&& d.perm == flags
                                    &&& d.paddr == p
                                    &&& old(self).fits(p, d.size as int)
                                    &&& (forall|p2: int|
                                        0 <= p2 < p ==> !old(self).fits(p2, d.size as int))
                                    &&& crate::srec::is_min_key(t.0, d.raddr_spec())
                                    &&& crate::srec::is_max_key(
                                        t.0,
                                        (d.raddr_spec() + d.size - 1) as u64,
                                    )
                                    &&& (d.ops matches Backing::Record(sr) && {
                                        &&& crate::srec::mem_of(sr.bytes.model()) == t.0
                                        &&& sr.header@ == t.1
                                        &&& sr.start_address == Some(t.2)
                                        &&& sr.prot == flags
                                        &&& sr.uri@ == uri@
                                    })
                                })
                            }
                    }))
                })
            }),
    {
        let bs = uri.as_bytes();
        if bs.len() < 7 || bs[0] != 115 || bs[1] != 114 || bs[2] != 101 || bs[3] != 99 || bs[4]
            != 58 || bs[5] != 47 || bs[6] != 47 {
            let mut msg = String::new();
            msg.append("Invalid uri ");
            msg.append(uri);
            return Err(IoError::Custom(msg));
        }
        let mut internal = SrecInternal::new(uri.to_owned(), flags);
        match internal.parse_srec(text) {
            Ok(_) => {},
            Err(e) => {
                proof {
                    assert(crate::srec::mem_of(Seq::<(u64, u8)>::empty()) =~= crate::srec::mem_of(
                        Seq::<(u64, u8)>::empty(),
                    ));
                }
                return Err(e);
            },
        }
        let ghost sp = srec_parse(text@);
        let ghost t = sp->Ok_0;
        proof {
            assert(sp is Ok && crate::srec::mem_of(internal.bytes.model()) == t.0
                && internal.header@ == t.1 && internal.start_address == Some(t.2));
        }
        let lo = match internal.bytes.first() {
            Some((k, _)) => k,
            None => {
                proof {
                    lemma_mem_of_empty(internal.bytes.model(), t.0);
                }
                return Err(IoError::Custom("Cannot open an empty source".to_owned()));
            },
        };
        let hi = match internal.bytes.last() {
            Some((k, _)) => k,
            None => {
                proof {
                    lemma_mem_of_empty(internal.bytes.model(), t.0);
                }
                return Err(IoError::Custom("Cannot open an empty source".to_owned()));
            },
        };
        proof {
            if internal.bytes.model().len() > 1 {
                assert(internal.bytes.model()[0].0 < internal.bytes.model()[
                    internal.bytes.model().len() - 1].0);
            }
            crate::srec::lemma_sparse_bounds(internal.bytes);
            assert(crate::srec::is_min_key(t.0, lo));
            assert(crate::srec::is_max_key(t.0, hi));
        }
        if hi - lo == u64::MAX {
            proof {
                lemma_min_max_unique(t.0, lo, hi);
            }
            return Err(IoError::Custom("Source too large".to_owned()));
        }
        let size = internal.size();
        let hndl = match self.get_new_hndl() {
            Ok(h) => h,
            Err(e) => {
                return Err(e);
            },
        };
        let desc = RIODesc {
            hndl,
            name: uri.to_owned(),
            perm: flags,
            paddr: 0,
            raddr: lo,
            size,
            ops: Backing::Record(internal),
        };
        let r = self.insert_desc(desc);
        proof {
            lemma_min_max_unique(t.0, lo, hi);
            if r matches Ok(h) {
                let (pos, p) = choose|pos: int, p: int|
                    #![all_triggers]
                    {
                        &&& 0 <= pos <= old(self).descs@.len()
                        &&& old(self).fits(p, desc.size as int)
                        &&& (forall|p2: int|
                            0 <= p2 < p ==> !old(self).fits(p2, desc.size as int))
                        &&& self.descs@ == old(self).descs@.subrange(0, pos) + seq![
                            placed_at(desc, p as u64),
                        ] + old(self).descs@.skip(pos)
                    };
                assert forall|i: int| 0 <= i < pos implies self.descs@[i] == old(
                    self,
                ).descs@[i] by {}
                assert forall|i: int|
                    pos < i < self.descs@.len() implies self.descs@[i] == old(self).descs@[i
                    - 1] by {}
                assert(self.descs@[pos] == placed_at(desc, p as u64));
                assert(crate::srec::is_min_key(t.0, lo) && crate::srec::is_max_key(t.0, hi) && hi
                    - lo < u64::MAX && old(self).fits(p, hi - lo + 1));
            } else {
                assert(!(exists|p: int| #[trigger] old(self).fits(p, desc.size as int)));
                assert forall|lo2: u64, hi2: u64, p: int|
                    #![trigger crate::srec::is_min_key(t.0, lo2), crate::srec::is_max_key(t.0, hi2), old(self).fits(p, hi2 - lo2 + 1)]
                    crate::srec::is_min_key(t.0, lo2) && crate::srec::is_max_key(t.0, hi2) && hi2
                        - lo2 < u64::MAX implies !old(self).fits(p, hi2 - lo2 + 1) by {
                    lemma_min_max_unique(t.0, lo2, hi2);
                    lemma_min_max_unique(t.0, lo, hi);
                    assert(lo2 == lo && hi2 == hi);
                }
            }
        }
        r
    }

    /// Opens an S-record source from its file text at exactly
    /// physical address `at`, with the same parsing, base and extent
    /// as `open_srec`; a collision with an open descriptor is
    /// `AddressesOverlapError`.
    pub fn open_srec_at(&mut self, uri: &str, flags: IoMode, text: &[u8], at: u64) -> (r: Result<
        u64,
        IoError,
    >)
        requires
            old(self).inv(),
        ensures
            final(self).inv(),
            r is Err ==> *final(self) == *old(self),
            !is_srec_uri(uri.spec_bytes()) ==> (r matches Err(e) && (e matches IoError::Custom(m)
                && m@ == "Invalid uri "@ + uri@)),
            is_srec_uri(uri.spec_bytes()) ==> ({
                let sp = srec_parse(text@);
                &&& (sp matches Err(line) ==> (r matches Err(e) && (e matches IoError::Custom(m)
                    && m@ == crate::srec::invalid_line_msg(line))))
                &&& (sp matches Ok(t) ==> {
                    &&& ((!exists|k: u64| #[trigger] t.0.dom().contains(k)) ==> (r matches Err(e)
                        && (e matches IoError::Custom(m) && m@
                        == "Cannot open an empty source"@)))
                    &&& (r is Ok <==> (old(self).descs@.len() < u64::MAX && exists|
                        lo: u64,
                        hi: u64,
                    |
                        #![trigger crate::srec::is_min_key(t.0, lo), crate::srec::is_max_key(t.0, hi)]
                        crate::srec::is_min_key(t.0, lo) && crate::srec::is_max_key(t.0, hi) && hi
                            - lo < u64::MAX && old(self).fits(at as int, hi - lo + 1)))
                    &&& (r == Err::<u64, IoError>(IoError::AddressesOverlapError) <==> (old(
                        self,
                    ).descs@.len() < u64::MAX && exists|lo: u64, hi: u64|
                        #![trigger crate::srec::is_min_key(t.0, lo), crate::srec::is_max_key(t.0, hi)]
                        crate::srec::is_min_key(t.0, lo) && crate::srec::is_max_key(t.0, hi) && hi
                            - lo < u64::MAX && !old(self).fits(at as int, hi - lo + 1)))
                    &&& (r matches Ok(h) ==> ({
                        &&& final(self).maps == old(self).maps
                        &&& !handle_used(old(self).descs@, h)
                        &&& (forall|h2: u64|
                            h2 < h ==> #[trigger] handle_used(old(self).descs@, h2))
                        &&& final(self).descs@.len() == old(self).descs@.len() + 1
                        &&& exists|pos: int|
                            #![trigger final(self).descs@[pos]]
                            {
                                &&& 0 <= pos <= old(self).descs@.len()
                                &&& (forall|i: int|
                                    0 <= i < pos ==> final(self).descs@[i] == old(
                                        self,
                                    ).descs@[i])
                                &&& (forall|i: int|
                                    pos < i < final(self).descs@.len() ==> final(self).descs@[i]
                                        == old(self).descs@[i - 1])
                                &&& ({
                                    let d = final(self).descs@[pos];
                                    &&& d.hndl_spec() == h
                                    &&& d.name@ == uri@
                                    &&& d.perm == flags
                                    &&& d.paddr == at
                                    &&& crate::srec::is_min_key(t.0, d.raddr_spec())
                                    &&& crate::srec::is_max_key(
                                        t.0,
                                        (d.raddr_spec() + d.size - 1) as u64,
                                    )
                                    &&& (d.ops matches Backing::Record(sr) && {
                                        &&& crate::srec::mem_of(sr.bytes.model()) == t.0
                                        &&& sr.header@ == t.1
                                        &&& sr.start_address == Some(t.2)
                                        &&& sr.prot == flags
                                        &&& sr.uri@ == uri@
                                    })
                                })
                            }
                    }))
                })
            }),
    {
        let bs = uri.as_bytes();
        if bs.len() < 7 || bs[0] != 115 || bs[1] != 114 || bs[2] != 101 || bs[3] != 99 || bs[4]
            != 58 || bs[5] != 47 || bs[6] != 47 {
            let mut msg = String::new();
            msg.append("Invalid uri ");
            msg.append(uri);
            return Err(IoError::Custom(msg));
        }
        let mut internal = SrecInternal::new(uri.to_owned(), flags);
        match internal.parse_srec(text) {
            Ok(_) => {},
            Err(e) => {
                return Err(e);
            },
        }
        let ghost sp = srec_parse(text@);
        let ghost t = sp->Ok_0;
        proof {
            assert(sp is Ok && crate::srec::mem_of(internal.bytes.model()) == t.0
                && internal.header@ == t.1 && internal.start_address == Some(t.2));
        }
        let lo = match internal.bytes.first() {
            Some((k, _)) => k,
            None => {
                proof {
                    lemma_mem_of_empty(internal.bytes.model(), t.0);
                }
                return Err(IoError::Custom("Cannot open an empty source".to_owned()));
            },
        };
        let hi = match internal.bytes.last() {
            Some((k, _)) => k,
            None => {
                proof {
                    lemma_mem_of_empty(internal.bytes.model(), t.0);
                }
                return Err(IoError::Custom("Cannot open an empty source".to_owned()));
            },
        };
        proof {
            if internal.bytes.model().len() > 1 {
                assert(internal.bytes.model()[0].0 < internal.bytes.model()[
                    internal.bytes.model().len() - 1].0);
            }
            crate::srec::lemma_sparse_bounds(internal.bytes);
            assert(crate::srec::is_min_key(t.0, lo));
            assert(crate::srec::is_max_key(t.0, hi));
        }
        if hi - lo == u64::MAX {
            proof {
                lemma_min_max_unique(t.0, lo, hi);
            }
            return Err(IoError::Custom("Source too large".to_owned()));
        }
        let size = internal.size();
        let hndl = match self.get_new_hndl() {
            Ok(h) => h,
            Err(e) => {
                return Err(e);
            },
        };
        let desc = RIODesc {
            hndl,
            name: uri.to_owned(),
            perm: flags,
            paddr: 0,
            raddr: lo,
            size,
            ops: Backing::Record(internal),
        };
        let r = self.insert_desc_at(desc, at);
        proof {
            lemma_min_max_unique(t.0, lo, hi);
            assert forall|lo2: u64, hi2: u64|
                #![trigger crate::srec::is_min_key(t.0, lo2), crate::srec::is_max_key(t.0, hi2)]
                crate::srec::is_min_key(t.0, lo2) && crate::srec::is_max_key(
                    t.0,
                    hi2,
                ) implies lo2 == lo && hi2 == hi by {}
            if r matches Ok(h) {
                let pos = choose|pos: int|
                    #![all_triggers]
                    0 <= pos <= old(self).descs@.len() && self.descs@ == old(
                        self,
                    ).descs@.subrange(0, pos) + seq![placed_at(desc, at)] + old(
                        self,
                    ).descs@.skip(pos);
                assert forall|i: int| 0 <= i < pos implies self.descs@[i] == old(
                    self,
                ).descs@[i] by {}
                assert forall|i: int|
                    pos < i < self.descs@.len() implies self.descs@[i] == old(self).descs@[i
                    - 1] by {}
                assert(self.descs@[pos] == placed_at(desc, at));
            }
        }
        r
    }


    /// The regenerated file text of the S-record source opened under
    /// `hndl`, to be written back to its file by the embedding
    /// application after writes. Succeeds exactly for a live record
    /// source whose addresses and start fit the 32-bit record forms
    /// and whose header fits one record; each failure names its cause.
    pub fn record_file(&self, hndl: u64) -> (r: Result<Vec<u8>, IoError>)
        requires
            self.inv(),
        ensures
            r == Err::<Vec<u8>, IoError>(IoError::HndlNotFoundError) <==> !handle_used(
                self.descs@,
                hndl,
            ),
            handle_used(self.descs@, hndl) ==> ({
                let d = desc_of(self.descs@, hndl);
                &&& (d.ops is Mem ==> (r matches Err(e) && (e matches IoError::Custom(m) && m@
                    == "Not a record source"@)))
                &&& (d.ops matches Backing::Record(s) ==> ({
                    let in_bounds = (s.bytes.model().len() > 0
                        ==> s.bytes.model()[s.bytes.model().len() - 1].0 < 0x1_0000_0000) && (
                    s.start_address matches Some(sa) ==> sa < 0x1_0000_0000);
                    &&& (r is Ok <==> (in_bounds && s.header@.len() <= 0xfc))
                    &&& (r matches Ok(v) ==> v@ == srec_render(s))
                    &&& (!in_bounds ==> (r matches Err(e) && (e matches IoError::Custom(m) && m@
                        == "Source too large"@)))
                    &&& (in_bounds && s.header@.len() > 0xfc ==> (r matches Err(e) && (
                    e matches IoError::Custom(m) && m@
                        == "Cannot write S0 Entry with size > 0xff"@)))
                }))
            }),
    {
        let mut i: usize = 0;
        while i < self.descs.len()
            invariant
                self.inv(),
                0 <= i <= self.descs@.len(),
                forall|j: int| 0 <= j < i ==> (#[trigger] self.descs@[j]).hndl_spec() != hndl,
            decreases self.descs.len() - i,
        {
            if self.descs[i].get_hndl() == hndl {
                proof {
                    let c = choose|c: int|
                        0 <= c < self.descs@.len() && (#[trigger] self.descs@[c]).hndl_spec()
                            == hndl;
                    if c != i as int {
                        assert(self.descs@[c].hndl_spec()
                            != self.descs@[i as int].hndl_spec());
                    }
                    assert(desc_of(self.descs@, hndl) == self.descs@[i as int]);
                }
                match &self.descs[i].ops {
                    Backing::Record(s) => {
                        match s.bytes.last() {
                            Some((k, _)) => {
                                if k >= 0x1_0000_0000 {
                                    return Err(
                                        IoError::Custom("Source too large".to_owned()),
                                    );
                                }
                            },
                            None => {},
                        }
                        match s.start_address {
                            Some(sa) => {
                                if sa >= 0x1_0000_0000 {
                                    return Err(
                                        IoError::Custom("Source too large".to_owned()),
                                    );
                                }
                            },
                            None => {},
                        }
                        proof {
                            if s.bytes.model().len() > 0 {
                                assert(s.bytes.model()[s.bytes.model().len() - 1].0
                                    < 0x1_0000_0000);
                            }
                        }
                        return s.serialize_srec();
                    },
                    Backing::Mem(_) => {
                        return Err(
                            IoError::Custom("Not a record source".to_owned()),
                        );
                    },
                }
            }
            i = i + 1;
        }
        Err(IoError::HndlNotFoundError)
    }

    /// Closes the descriptor opened under `hndl` and unregisters every
    /// mapping that references physical bytes it owns; an unknown
    /// handle is `HndlNotFoundError`.
    pub fn close(&mut self, hndl: u64) -> (r: Result<(), IoError>)
        requires
            old(self).inv(),
        ensures
            final(self).inv(),
            r is Err ==> *final(self) == *old(self) && r == Err::<(), IoError>(
                IoError::HndlNotFoundError,
            ),
            r is Ok <==> handle_used(old(self).descs@, hndl),
            r is Ok ==> exists|i: int|
                #![all_triggers]
                {
                    &&& 0 <= i < old(self).descs@.len()
                    &&& old(self).descs@[i].hndl_spec() == hndl
                    &&& final(self).descs@ == old(self).descs@.subrange(0, i) + old(
                        self,
                    ).descs@.skip(i + 1)
                },
            // Every mapping that referenced physical bytes of the
            // closed descriptor is gone; the rest translate as before.
            r is Ok ==> ({
                let d = desc_of(old(self).descs@, hndl);
                let drange = Interval { lo: d.paddr, hi: (d.paddr + d.size - 1) as u64 };
                &&& forall|a: int, p: int|
                    #![all_triggers]
                    final(self).maps.maps_to(a, p) <==> exists|j: int|
                        0 <= j < old(self).maps.mappings().len() && {
                            let m = #[trigger] old(self).maps.mappings()[j];
                            &&& m.has_vaddr_spec(a)
                            &&& p == m.paddr + (a - m.vaddr)
                            &&& !m.pint().intersects_spec(drange)
                        }
                &&& forall|a: int|
                    #![all_triggers]
                    final(self).maps.is_mapped(a) <==> exists|j: int|
                        0 <= j < old(self).maps.mappings().len() && {
                            let m = #[trigger] old(self).maps.mappings()[j];
                            &&& m.has_vaddr_spec(a)
                            &&& !m.pint().intersects_spec(drange)
                        }
            }),
    {
        let mut i: usize = 0;
        let n = self.descs.len();
        while i < n
            invariant
                self.inv(),
                *self == *old(self),
                n == self.descs@.len(),
                0 <= i <= n,
                forall|j: int| 0 <= j < i ==> (#[trigger] self.descs@[j]).hndl_spec() != hndl,
            decreases n - i,
        {
            if self.descs[i].get_hndl() == hndl {
                let d = self.descs.remove(i);
                proof {
                    assert forall|a: int, b: int|
                        0 <= a < b < self.descs@.len() implies (#[trigger] self.descs@[a]).paddr
                        + self.descs@[a].size <= (#[trigger] self.descs@[b]).paddr by {
                        assert(self.descs@[a] == if a < i as int {
                            old(self).descs@[a]
                        } else {
                            old(self).descs@[a + 1]
                        });
                        assert(self.descs@[b] == if b < i as int {
                            old(self).descs@[b]
                        } else {
                            old(self).descs@[b + 1]
                        });
                    }
                    assert forall|a: int|
                        0 <= a < self.descs@.len() implies (#[trigger] self.descs@[a]).wf() by {
                        assert(self.descs@[a] == if a < i as int {
                            old(self).descs@[a]
                        } else {
                            old(self).descs@[a + 1]
                        });
                    }
                    assert forall|a: int, b: int|
                        0 <= a < self.descs@.len() && 0 <= b < self.descs@.len() && a != b implies (
                    #[trigger] self.descs@[a]).hndl_spec() != (
                    #[trigger] self.descs@[b]).hndl_spec() by {
                        assert(self.descs@[a] == if a < i as int {
                            old(self).descs@[a]
                        } else {
                            old(self).descs@[a + 1]
                        });
                        assert(self.descs@[b] == if b < i as int {
                            old(self).descs@[b]
                        } else {
                            old(self).descs@[b + 1]
                        });
                    }
                }
                self.maps.unmap_paddr_range(d.paddr, d.paddr + (d.size - 1));
                proof {
                    // The removed descriptor is the one the handle
                    // names: handles are unique.
                    let c = choose|c: int|
                        0 <= c < old(self).descs@.len() && (
                        #[trigger] old(self).descs@[c]).hndl_spec() == hndl;
                    assert(old(self).descs@[i as int].hndl_spec() == hndl);
                    if c != i as int {
                        assert(old(self).descs@[c].hndl_spec()
                            != old(self).descs@[i as int].hndl_spec());
                    }
                    assert(desc_of(old(self).descs@, hndl) == d);
                }
                return Ok(());
            }
            i = i + 1;
        }
        Err(IoError::HndlNotFoundError)
    }

    /// Drops every descriptor and every mapping.
    pub fn close_all(&mut self)
        ensures
            final(self).inv(),
            final(self).descs@.len() == 0,
            final(self).maps.mappings().len() == 0,
    {
        self.descs = Vec::new();
        self.maps = RIOMapQuery::new();
    }

    /// Registers the mapping `[vaddr, vaddr + size)` →
    /// `[paddr, paddr + size)`.
    ///
    /// Fails with `AddressNotFound` when the physical range is not
    /// fully backed, and with `AddressesOverlapError` as the registry
    /// does; descriptors are never touched.
    pub fn map(&mut self, paddr: u64, vaddr: u64, size: u64) -> (r: Result<(), IoError>)
        requires
            old(self).inv(),
        ensures
            final(self).inv(),
            final(self).descs == old(self).descs,
            r is Err ==> *final(self) == *old(self),
            r == Err::<(), IoError>(IoError::AddressNotFound) <==> !(old(self).backed(
                paddr as int,
            ) && forall|a: int| paddr <= a < paddr + size ==> old(self).backed(a)),
            r == Err::<(), IoError>(IoError::AddressesOverlapError) <==> (old(self).backed(
                paddr as int,
            ) && (forall|a: int| paddr <= a < paddr + size ==> old(self).backed(a)) && (size == 0
                || vaddr + size - 1 > u64::MAX || paddr + size - 1 > u64::MAX || exists|a: int|
                vaddr <= a < vaddr + size && old(self).maps.is_mapped(a))),
            r is Ok <==> (old(self).backed(paddr as int) && (forall|a: int|
                paddr <= a < paddr + size ==> old(self).backed(a)) && size >= 1 && vaddr + size - 1
                <= u64::MAX && paddr + size - 1 <= u64::MAX && !(exists|a: int|
                vaddr <= a < vaddr + size && old(self).maps.is_mapped(a))),
            r is Ok ==> {
                &&& forall|a: int, p: int|
                    #![all_triggers]
                    final(self).maps.maps_to(a, p) <==> (old(self).maps.maps_to(a, p) || (vaddr
                        <= a < vaddr + size && p == paddr + (a - vaddr)))
                &&& forall|a: int|
                    #![all_triggers]
                    final(self).maps.is_mapped(a) <==> (old(self).maps.is_mapped(a) || vaddr <= a
                        < vaddr + size)
                &&& forall|m: RIOMap|
                    #![all_triggers]
                    final(self).maps.has_map(m) <==> (old(self).maps.has_map(m) || m == (RIOMap {
                        paddr,
                        vaddr,
                        size,
                    }))
            },
    {
        if !self.is_phy(paddr, size) {
            return Err(IoError::AddressNotFound);
        }
        let ghost descs0 = self.descs;
        let r = self.maps.map(paddr, vaddr, size);
        match r {
            Ok(_) => Ok(()),
            Err(e) => Err(e),
        }
    }

    /// Unregisters the mappings of the virtual range
    /// `[vaddr, vaddr + size)`, as the registry does: exactly the
    /// range's addresses lose their translation and the registered set
    /// becomes the old mappings' residues outside the range.
    /// Descriptors are never touched.
    pub fn unmap(&mut self, vaddr: u64, size: u64) -> (r: Result<(), IoError>)
        requires
            old(self).inv(),
        ensures
            final(self).inv(),
            final(self).descs == old(self).descs,
            r is Err ==> *final(self) == *old(self) && r == Err::<(), IoError>(
                IoError::AddressNotFound,
            ),
            r is Ok <==> (size >= 1 && old(self).maps.covered(vaddr as int, size as int)),
            r is Ok ==> {
                &&& forall|a: int, p: int|
                    #![all_triggers]
                    final(self).maps.maps_to(a, p) <==> (old(self).maps.maps_to(a, p) && !(vaddr
                        <= a < vaddr + size))
                &&& forall|a: int|
                    #![all_triggers]
                    final(self).maps.is_mapped(a) <==> (old(self).maps.is_mapped(a) && !(vaddr
                        <= a < vaddr + size))
                &&& forall|x: RIOMap|
                    #![all_triggers]
                    final(self).maps.has_map(x) <==> exists|i: int|
                        0 <= i < old(self).maps.mappings().len() && (
                        #[trigger] crate::mapsquery::unmap_residue(
                            old(self).maps.mappings()[i],
                            vaddr as int,
                            size as int,
                        )).contains(x)
            },
    {
        self.maps.unmap(vaddr, size)
    }

    /// First-hit translation of one virtual address.
    pub fn vir_to_phy(&self, vaddr: u64) -> (r: Option<u64>)
        requires
            self.inv(),
        ensures
            r is Some <==> self.maps.is_mapped(vaddr as int),
            r matches Some(p) ==> self.maps.maps_to(vaddr as int, p as int),
    {
        match self.maps.split_vaddr_range(vaddr, 1) {
            Some(frags) => {
                proof {
                    assert(frags@[0].has_vaddr_spec(vaddr as int));
                    assert(self.maps.frag_of(frags@[0]));
                    let i = choose|i: int|
                        0 <= i < self.maps.mappings().len() && {
                            let m = #[trigger] self.maps.mappings()[i];
                            &&& m.vaddr <= frags@[0].vaddr
                            &&& frags@[0].vaddr + frags@[0].size <= m.vaddr + m.size
                            &&& frags@[0].paddr == m.paddr + (frags@[0].vaddr - m.vaddr)
                        };
                    assert(self.maps.mappings()[i].has_vaddr_spec(vaddr as int));
                }
                Some(frags[0].paddr)
            },
            None => None,
        }
    }

    /// The virtual range `[vaddr, vaddr + size)` is fully tiled by
    /// mappings; an empty range asks only that `vaddr` itself is
    /// mapped.
    pub fn is_vir(&self, vaddr: u64, size: u64) -> (r: bool)
        requires
            self.inv(),
        ensures
            size == 0 ==> r == self.maps.is_mapped(vaddr as int),
            size >= 1 ==> r == self.maps.covered(vaddr as int, size as int),
    {
        if size == 0 {
            self.maps.split_vaddr_range(vaddr, 1).is_some()
        } else {
            self.maps.split_vaddr_range(vaddr, size).is_some()
        }
    }

    /// Reads `buf.len()` bytes at virtual address `vaddr`.
    ///
    /// Fails with `AddressNotFound`, leaving the buffer untouched,
    /// exactly when the virtual range is not fully mapped, and with
    /// `UnexpectedEof` exactly when it is but some translated byte is
    /// unbacked. On success the buffer holds the translated bytes.
    #[verifier::rlimit(100)]
    pub fn vread(&self, vaddr: u64, buf: &mut Vec<u8>) -> (r: Result<(), IoError>)
        requires
            self.inv(),
        ensures
            final(buf)@.len() == old(buf)@.len(),
            old(buf)@.len() == 0 ==> (r is Ok <==> self.maps.is_mapped(vaddr as int)),
            old(buf)@.len() == 0 && !self.maps.is_mapped(vaddr as int) ==> r == Err::<
                (),
                IoError,
            >(IoError::AddressNotFound),
            old(buf)@.len() >= 1 ==> (r == Err::<(), IoError>(IoError::AddressNotFound)
                <==> !self.maps.covered(vaddr as int, old(buf)@.len() as int)),
            old(buf)@.len() >= 1 ==> (r == Err::<(), IoError>(IoError::UnexpectedEof) <==> (
            self.maps.covered(vaddr as int, old(buf)@.len() as int) && exists|k: int, p: int|
                0 <= k < old(buf)@.len() && (#[trigger] self.maps.maps_to(vaddr + k, p))
                    && !self.backed(p))),
            old(buf)@.len() >= 1 ==> (r is Ok <==> (self.maps.covered(
                vaddr as int,
                old(buf)@.len() as int,
            ) && (forall|k: int, p: int|
                0 <= k < old(buf)@.len() && (#[trigger] self.maps.maps_to(vaddr + k, p))
                    ==> self.backed(p)))),
            r is Ok ==> forall|k: int, p: int|
                0 <= k < final(buf)@.len() && self.maps.maps_to(vaddr + k, p) ==> final(buf)@[k]
                    == self.phys_at(p),
    {
        let len = buf.len();
        if len == 0 {
            match self.maps.split_vaddr_range(vaddr, 1) {
                Some(_) => {
                    return Ok(());
                },
                None => {
                    return Err(IoError::AddressNotFound);
                },
            }
        }
        let frags = match self.maps.split_vaddr_range(vaddr, len as u64) {
            Some(f) => f,
            None => {
                return Err(IoError::AddressNotFound);
            },
        };
        // Check that every translated byte is backed before filling.
        let mut fi: usize = 0;
        while fi < frags.len()
            invariant
                self.inv(),
                buf@ == old(buf)@,
                buf@.len() == len,
                self.maps.covered(vaddr as int, len as int),
                len >= 1,
                tiles_ok(frags@, vaddr as int, len as int),
                0 <= fi <= frags@.len(),
                forall|k: int| 0 <= k < frags@.len() ==> self.maps.frag_of(#[trigger] frags@[k]),
                forall|k: int| 0 <= k < frags@.len() ==> (#[trigger] frags@[k]).wf_spec(),
                forall|k: int, j: int|
                    0 <= k < fi && 0 <= j < frags@[k].size ==> #[trigger] self.backed(
                        frags@[k].paddr + j,
                    ),
            decreases frags.len() - fi,
        {
            let f = frags[fi];
            if !self.is_phy(f.paddr, f.size) {
                // A translated byte of this fragment is unbacked.
                proof {
                    lemma_unbacked_witness(self, frags@, vaddr as int, len as int, fi as int);
                }
                return Err(IoError::UnexpectedEof);
            }
            proof {
                assert forall|j: int| 0 <= j < f.size implies #[trigger] self.backed(
                    f.paddr + j,
                ) by {}
            }
            fi = fi + 1;
        }
        // Fill, fragment by fragment.
        let ghost frs = frags@;
        let mut off: usize = 0;
        let mut fi2: usize = 0;
        while fi2 < frags.len()
            invariant
                self.descs_wf(),
                frs == frags@,
                0 <= fi2 <= frs.len(),
                buf@.len() == len,
                len <= usize::MAX,
                tiles_ok(frs, vaddr as int, len as int),
                forall|k: int, j: int|
                    0 <= k < frs.len() && 0 <= j < frs[k].size ==> #[trigger] self.backed(
                        frs[k].paddr + j,
                    ),
                fi2 < frs.len() ==> off == frs[fi2 as int].vaddr - vaddr,
                fi2 == frs.len() ==> off == len,
                forall|c: int, j: int|
                    0 <= c < fi2 && 0 <= j < frs[c].size ==> buf@[frs[c].vaddr - vaddr + j]
                        == #[trigger] self.phys_at(frs[c].paddr + j),
            decreases frags.len() - fi2,
        {
            let f = frags[fi2];
            proof {
                lemma_tile_bounds(frs, vaddr as int, len as int, fi2 as int);
            }
            let ghost before_buf = buf@;
            self.read_frag(f, buf, off);
            proof {
                assert forall|c: int, j: int|
                    0 <= c < fi2 + 1 && 0 <= j < frs[c].size implies buf@[frs[c].vaddr - vaddr
                    + j] == #[trigger] self.phys_at(frs[c].paddr + j) by {
                    if c < fi2 {
                        crate::mapsquery::lemma_tiles_ordered(
                            frs,
                            vaddr as int,
                            len as int,
                            c,
                            fi2 as int,
                        );
                        lemma_tile_bounds(frs, vaddr as int, len as int, c);
                        assert(0 <= frs[c].vaddr - vaddr + j);
                        assert(frs[c].vaddr - vaddr + j < off);
                        assert(buf@[frs[c].vaddr - vaddr + j] == before_buf[frs[c].vaddr - vaddr
                            + j]);
                    } else {
                        assert(buf@[off + j] == self.phys_at(f.paddr + j));
                    }
                }
            }
            off = off + (f.size as usize);
            fi2 = fi2 + 1;
            proof {
                if fi2 < frs.len() {
                    assert(frs[fi2 - 1].vaddr + frs[fi2 - 1].size == frs[fi2 as int].vaddr);
                }
            }
        }
        proof {
            assert forall|k: int, p: int|
                #![trigger self.maps.maps_to(vaddr + k, p)]
                0 <= k < len && self.maps.maps_to(vaddr + k, p) implies buf@[k] == self.phys_at(
                p,
            ) && self.backed(p) by {
                let c = lemma_tile_locate(frs, vaddr as int, len as int, k);
                let j = vaddr + k - frs[c].vaddr;
                assert(self.maps.frag_of(frs[c]));
                let i2 = choose|i2: int|
                    0 <= i2 < self.maps.mappings().len() && {
                        let m = #[trigger] self.maps.mappings()[i2];
                        &&& m.vaddr <= frs[c].vaddr
                        &&& frs[c].vaddr + frs[c].size <= m.vaddr + m.size
                        &&& frs[c].paddr == m.paddr + (frs[c].vaddr - m.vaddr)
                    };
                let m = self.maps.mappings()[i2];
                assert(m.has_vaddr_spec(vaddr + k));
                assert(self.maps.maps_to(vaddr + k, m.paddr + (vaddr + k - m.vaddr)));
                lemma_maps_to_unique(self.maps, vaddr + k, p, m.paddr + (vaddr + k - m.vaddr));
                assert(p == frs[c].paddr + j);
                assert(buf@[frs[c].vaddr - vaddr + j] == self.phys_at(frs[c].paddr + j));
                assert(self.backed(frs[c].paddr + j));
            }
            assert(self.maps.covered(vaddr as int, len as int));
            assert(forall|k: int, p: int|
                0 <= k < len && (#[trigger] self.maps.maps_to(vaddr + k, p)) ==> self.backed(p));
            assert(len == old(buf)@.len());
        }
        Ok(())
    }

    /// Writes `buf` at virtual address `vaddr`.
    ///
    /// Fails with `AddressNotFound`, changing nothing, when the virtual
    /// range is not fully mapped; forwards the physical errors
    /// otherwise, still changing nothing. On success exactly the
    /// translated bytes of the physical space are replaced.
    #[verifier::rlimit(100)]
    pub fn vwrite(&mut self, vaddr: u64, buf: &Vec<u8>) -> (r: Result<(), IoError>)
        requires
            old(self).inv(),
        ensures
            final(self).inv(),
            final(self).maps == old(self).maps,
            r is Err ==> *final(self) == *old(self),
            buf@.len() == 0 ==> (r is Ok <==> old(self).maps.is_mapped(vaddr as int)),
            buf@.len() == 0 && !old(self).maps.is_mapped(vaddr as int) ==> r == Err::<
                (),
                IoError,
            >(IoError::AddressNotFound),
            buf@.len() >= 1 ==> (r == Err::<(), IoError>(IoError::AddressNotFound)
                <==> !old(self).maps.covered(vaddr as int, buf@.len() as int)),
            buf@.len() >= 1 ==> (r == Err::<(), IoError>(IoError::UnexpectedEof) <==> (old(
                self,
            ).maps.covered(vaddr as int, buf@.len() as int) && exists|k: int, p: int|
                0 <= k < buf@.len() && (#[trigger] old(self).maps.maps_to(vaddr + k, p)) && !old(
                    self,
                ).backed(p))),
            buf@.len() >= 1 ==> (r == Err::<(), IoError>(IoError::PermissionDenied) <==> (old(
                self,
            ).maps.covered(vaddr as int, buf@.len() as int) && (forall|k: int, p: int|
                0 <= k < buf@.len() && (#[trigger] old(self).maps.maps_to(vaddr + k, p)) ==> old(
                    self,
                ).backed(p)) && exists|k: int, p: int, i: int|
                #![trigger old(self).maps.maps_to(vaddr + k, p), old(self).descs@[i]]
                0 <= k < buf@.len() && old(self).maps.maps_to(vaddr + k, p) && 0 <= i < old(
                    self,
                ).descs@.len() && old(self).descs@[i].has_paddr_spec(p) && !old(
                    self,
                ).descs@[i].perm.writeable())),
            buf@.len() >= 1 ==> (r is Ok <==> (old(self).maps.covered(
                vaddr as int,
                buf@.len() as int,
            ) && (forall|k: int, p: int|
                0 <= k < buf@.len() && (#[trigger] old(self).maps.maps_to(vaddr + k, p)) ==> old(
                    self,
                ).backed(p)) && (forall|k: int, p: int, i: int|
                #![trigger old(self).maps.maps_to(vaddr + k, p), old(self).descs@[i]]
                0 <= k < buf@.len() && old(self).maps.maps_to(vaddr + k, p) && 0 <= i < old(
                    self,
                ).descs@.len() && old(self).descs@[i].has_paddr_spec(p) ==> old(
                    self,
                ).descs@[i].perm.writeable()))),
            r is Ok ==> {
                &&& forall|a: int|
                    #![all_triggers]
                    final(self).backed(a) <==> old(self).backed(a)
                &&& forall|k: int, p: int|
                    0 <= k < buf@.len() && old(self).maps.maps_to(vaddr + k, p) && (forall|k2: int|
                        k < k2 < buf@.len() ==> !(#[trigger] old(self).maps.maps_to(
                            vaddr + k2,
                            p,
                        ))) ==> final(self).phys_at(p) == buf@[k]
            },
    {
        let len = buf.len();
        if len == 0 {
            match self.maps.split_vaddr_range(vaddr, 1) {
                Some(_) => {
                    return Ok(());
                },
                None => {
                    return Err(IoError::AddressNotFound);
                },
            }
        }
        let frags = match self.maps.split_vaddr_range(vaddr, len as u64) {
            Some(f) => f,
            None => {
                return Err(IoError::AddressNotFound);
            },
        };
        // Pass one: every translated byte must be backed.
        let mut fi0: usize = 0;
        while fi0 < frags.len()
            invariant
                self.inv(),
                *self == *old(self),
                buf@.len() == len,
                len >= 1,
                self.maps.covered(vaddr as int, len as int),
                tiles_ok(frags@, vaddr as int, len as int),
                0 <= fi0 <= frags@.len(),
                forall|k: int| 0 <= k < frags@.len() ==> self.maps.frag_of(#[trigger] frags@[k]),
                forall|k: int| 0 <= k < frags@.len() ==> (#[trigger] frags@[k]).wf_spec(),
                forall|k: int, j: int|
                    0 <= k < fi0 && 0 <= j < frags@[k].size ==> #[trigger] self.backed(
                        frags@[k].paddr + j,
                    ),
            decreases frags.len() - fi0,
        {
            let f = frags[fi0];
            if !self.is_phy(f.paddr, f.size) {
                // A translated byte of this fragment is unbacked.
                proof {
                    lemma_unbacked_witness(self, frags@, vaddr as int, len as int, fi0 as int);
                }
                return Err(IoError::UnexpectedEof);
            }
            proof {
                assert forall|j: int| 0 <= j < f.size implies #[trigger] self.backed(
                    f.paddr + j,
                ) by {}
            }
            fi0 = fi0 + 1;
        }
        proof {
            // Every translated byte of the range is backed.
            assert forall|k: int, p: int|
                #![trigger old(self).maps.maps_to(vaddr + k, p)]
                0 <= k < len && old(self).maps.maps_to(vaddr + k, p) implies old(self).backed(
                p,
            ) by {
                let c = lemma_tile_locate(frags@, vaddr as int, len as int, k);
                let j = vaddr + k - frags@[c].vaddr;
                assert(self.maps.frag_of(frags@[c]));
                let i2 = choose|i2: int|
                    0 <= i2 < self.maps.mappings().len() && {
                        let m = #[trigger] self.maps.mappings()[i2];
                        &&& m.vaddr <= frags@[c].vaddr
                        &&& frags@[c].vaddr + frags@[c].size <= m.vaddr + m.size
                        &&& frags@[c].paddr == m.paddr + (frags@[c].vaddr - m.vaddr)
                    };
                let m = self.maps.mappings()[i2];
                assert(m.has_vaddr_spec(vaddr + k));
                assert(self.maps.maps_to(vaddr + k, m.paddr + (vaddr + k - m.vaddr)));
                lemma_maps_to_unique(self.maps, vaddr + k, p, m.paddr + (vaddr + k - m.vaddr));
                assert(p == frags@[c].paddr + j);
                assert(self.backed(frags@[c].paddr + j));
            }
        }
        // Pass two: every descriptor under a translated byte must be
        // writable.
        let mut fi: usize = 0;
        while fi < frags.len()
            invariant
                self.inv(),
                *self == *old(self),
                buf@.len() == len,
                len >= 1,
                self.maps.covered(vaddr as int, len as int),
                tiles_ok(frags@, vaddr as int, len as int),
                0 <= fi <= frags@.len(),
                forall|k: int| 0 <= k < frags@.len() ==> self.maps.frag_of(#[trigger] frags@[k]),
                forall|k: int| 0 <= k < frags@.len() ==> (#[trigger] frags@[k]).wf_spec(),
                forall|k: int, j: int|
                    0 <= k < frags@.len() && 0 <= j < frags@[k].size ==> #[trigger] self.backed(
                        frags@[k].paddr + j,
                    ),
                forall|k: int, p: int|
                    #![trigger old(self).maps.maps_to(vaddr + k, p)]
                    0 <= k < len && old(self).maps.maps_to(vaddr + k, p) ==> old(self).backed(p),
                forall|k: int, i: int|
                    #![trigger frags@[k], self.descs@[i]]
                    0 <= k < fi && 0 <= i < self.descs@.len() && (exists|j: int|
                        0 <= j < frags@[k].size && (#[trigger] self.descs@[i].has_paddr_spec(
                            frags@[k].paddr + j,
                        ))) ==> self.descs@[i].perm.writeable(),
            decreases frags.len() - fi,
        {
            let f = frags[fi];
            proof {
                lemma_tile_bounds(frags@, vaddr as int, len as int, fi as int);
                assert forall|a: int| f.paddr <= a < f.paddr + f.size implies self.backed(a) by {
                    assert(self.backed(frags@[fi as int].paddr + (a - f.paddr)));
                }
            }
            let mut j: u64 = 0;
            while j < f.size
                invariant
                    self.inv(),
                    *self == *old(self),
                    buf@.len() == len,
                    len >= 1,
                    self.maps.covered(vaddr as int, len as int),
                    self.maps.frag_of(f),
                    vaddr <= f.vaddr,
                    f.vaddr - vaddr + f.size <= len,
                    0 <= j <= f.size,
                    f.wf_spec(),
                    forall|a: int| f.paddr <= a < f.paddr + f.size ==> self.backed(a),
                    forall|k: int, p: int|
                        #![trigger old(self).maps.maps_to(vaddr + k, p)]
                        0 <= k < len && old(self).maps.maps_to(vaddr + k, p) ==> old(self).backed(
                            p,
                        ),
                    forall|i: int|
                        0 <= i < self.descs@.len() && (exists|j2: int|
                            0 <= j2 < j && (#[trigger] self.descs@[i].has_paddr_spec(
                                f.paddr + j2,
                            ))) ==> self.descs@[i].perm.writeable(),
                decreases f.size - j,
            {
                let a = f.paddr + j;
                let i = match self.backed_at(a) {
                    Some(i) => i,
                    None => {
                        proof {
                            assert(self.backed(a as int));
                        }
                        return Err(IoError::UnexpectedEof);
                    },
                };
                if !self.descs[i].perm.write && !self.descs[i].perm.cow {
                    // A descriptor under a translated byte refuses
                    // writes.
                    proof {
                        let k = f.vaddr - vaddr + j;
                        let i2 = choose|i2: int|
                            0 <= i2 < self.maps.mappings().len() && {
                                let m = #[trigger] self.maps.mappings()[i2];
                                &&& m.vaddr <= f.vaddr
                                &&& f.vaddr + f.size <= m.vaddr + m.size
                                &&& f.paddr == m.paddr + (f.vaddr - m.vaddr)
                            };
                        let m = self.maps.mappings()[i2];
                        assert(m.has_vaddr_spec(vaddr + k));
                        assert(a as int == m.paddr + (vaddr + k - m.vaddr));
                        assert(self.maps.maps_to(vaddr + k, a as int));
                        assert(0 <= k < len);
                        assert(self.descs@[i as int].has_paddr_spec(a as int));
                        assert(!self.descs@[i as int].perm.writeable());
                    }
                    return Err(IoError::PermissionDenied);
                }
                proof {
                    assert forall|i2: int|
                        0 <= i2 < self.descs@.len() && (exists|j2: int|
                            0 <= j2 < j + 1 && (#[trigger] self.descs@[i2].has_paddr_spec(
                                f.paddr + j2,
                            ))) implies self.descs@[i2].perm.writeable() by {
                        let j2 = choose|j2: int|
                            0 <= j2 < j + 1 && (#[trigger] self.descs@[i2].has_paddr_spec(
                                f.paddr + j2,
                            ));
                        if j2 == j as int && i2 != i as int {
                            if i2 < i as int {
                                assert(self.descs@[i2].paddr + self.descs@[i2].size
                                    <= self.descs@[i as int].paddr);
                            } else {
                                assert(self.descs@[i as int].paddr + self.descs@[i as int].size
                                    <= self.descs@[i2].paddr);
                            }
                        }
                    }
                }
                j = j + 1;
            }
            fi = fi + 1;
        }
        proof {
            // Every descriptor under a translated byte is writable.
            assert forall|k: int, p: int, i: int|
                #![trigger old(self).maps.maps_to(vaddr + k, p), old(self).descs@[i]]
                0 <= k < len && old(self).maps.maps_to(vaddr + k, p) && 0 <= i
                    < old(self).descs@.len() && old(self).descs@[i].has_paddr_spec(p) implies old(
                self,
            ).descs@[i].perm.writeable() by {
                let c = lemma_tile_locate(frags@, vaddr as int, len as int, k);
                let j = vaddr + k - frags@[c].vaddr;
                assert(self.maps.frag_of(frags@[c]));
                let i2 = choose|i2: int|
                    0 <= i2 < self.maps.mappings().len() && {
                        let m = #[trigger] self.maps.mappings()[i2];
                        &&& m.vaddr <= frags@[c].vaddr
                        &&& frags@[c].vaddr + frags@[c].size <= m.vaddr + m.size
                        &&& frags@[c].paddr == m.paddr + (frags@[c].vaddr - m.vaddr)
                    };
                let m = self.maps.mappings()[i2];
                assert(m.has_vaddr_spec(vaddr + k));
                assert(self.maps.maps_to(vaddr + k, m.paddr + (vaddr + k - m.vaddr)));
                lemma_maps_to_unique(self.maps, vaddr + k, p, m.paddr + (vaddr + k - m.vaddr));
                assert(p == frags@[c].paddr + j);
                assert(self.descs@[i].has_paddr_spec(frags@[c].paddr + j));
                assert(self.descs@[i].perm.writeable());
            }
        }
        // Apply, fragment by fragment.
        let ghost pre = *self;
        let ghost frs = frags@;
        let mut off: usize = 0;
        let mut fi2: usize = 0;
        while fi2 < frags.len()
            invariant
                self.descs_wf(),
                pre.inv(),
                pre == *old(self),
                frs == frags@,
                0 <= fi2 <= frs.len(),
                buf@.len() == len,
                len <= usize::MAX,
                tiles_ok(frs, vaddr as int, len as int),
                self.maps == pre.maps,
                forall|k: int| 0 <= k < frs.len() ==> pre.maps.frag_of(#[trigger] frs[k]),
                forall|k: int, j: int|
                    0 <= k < frs.len() && 0 <= j < frs[k].size ==> #[trigger] pre.backed(
                        frs[k].paddr + j,
                    ),
                fi2 < frs.len() ==> off == frs[fi2 as int].vaddr - vaddr,
                fi2 == frs.len() ==> off == len,
                forall|a: int| #![all_triggers] self.backed(a) <==> pre.backed(a),
                self.descs@.len() == pre.descs@.len(),
                forall|i: int|
                    #![all_triggers]
                    0 <= i < self.descs@.len() ==> {
                        &&& self.descs@[i].hndl_spec() == pre.descs@[i].hndl_spec()
                        &&& self.descs@[i].name == pre.descs@[i].name
                        &&& self.descs@[i].perm == pre.descs@[i].perm
                        &&& self.descs@[i].paddr == pre.descs@[i].paddr
                        &&& self.descs@[i].size == pre.descs@[i].size
                    },
                forall|c: int, j: int|
                    #![trigger frs[c].paddr + j]
                    0 <= c < fi2 && 0 <= j < frs[c].size && (forall|c2: int|
                        c < c2 < fi2 ==> !((#[trigger] frs[c2]).paddr <= frs[c].paddr + j
                            < frs[c2].paddr + frs[c2].size)) ==> self.phys_at(frs[c].paddr + j)
                        == buf@[frs[c].vaddr - vaddr + j],
                forall|a: int|
                    pre.backed(a) && !(exists|c: int|
                        0 <= c < fi2 && (#[trigger] frs[c]).paddr <= a < frs[c].paddr
                            + frs[c].size) ==> self.phys_at(a) == pre.phys_at(a),
            decreases frags.len() - fi2,
        {
            let f = frags[fi2];
            proof {
                lemma_tile_bounds(frs, vaddr as int, len as int, fi2 as int);
                assert forall|j: int| 0 <= j < f.size implies #[trigger] self.backed(
                    f.paddr + j,
                ) by {
                    assert(pre.backed(frs[fi2 as int].paddr + j));
                }
            }
            let ghost before = *self;
            self.write_frag(f, buf, off);
            proof {
                assert forall|c: int, j: int|
                    #![trigger frs[c].paddr + j]
                    0 <= c < fi2 + 1 && 0 <= j < frs[c].size && (forall|c2: int|
                        c < c2 < fi2 + 1 ==> !((#[trigger] frs[c2]).paddr <= frs[c].paddr + j
                            < frs[c2].paddr + frs[c2].size)) implies self.phys_at(
                    frs[c].paddr + j,
                ) == buf@[frs[c].vaddr - vaddr + j] by {
                    if c == fi2 as int {
                        assert(self.phys_at(f.paddr + j) == buf@[off + j]);
                    } else {
                        assert(!(f.paddr <= frs[c].paddr + j < f.paddr + f.size));
                        assert(before.backed(frs[c].paddr + j));
                        assert(self.phys_at(frs[c].paddr + j) == before.phys_at(
                            frs[c].paddr + j,
                        ));
                    }
                }
                assert forall|a: int|
                    pre.backed(a) && !(exists|c: int|
                        0 <= c < fi2 + 1 && (#[trigger] frs[c]).paddr <= a < frs[c].paddr
                            + frs[c].size) implies self.phys_at(a) == pre.phys_at(a) by {
                    assert(!(f.paddr <= a < f.paddr + f.size));
                    assert(before.backed(a));
                    assert(self.phys_at(a) == before.phys_at(a));
                }
            }
            off = off + (f.size as usize);
            fi2 = fi2 + 1;
            proof {
                if fi2 < frs.len() {
                    assert(frs[fi2 - 1].vaddr + frs[fi2 - 1].size == frs[fi2 as int].vaddr);
                }
            }
        }
        proof {
            assert(pre == *old(self));
            assert forall|k: int, p: int|
                0 <= k < buf@.len() && pre.maps.maps_to(vaddr + k, p) && (forall|k2: int|
                    k < k2 < buf@.len() ==> !(#[trigger] pre.maps.maps_to(
                        vaddr + k2,
                        p,
                    ))) implies self.phys_at(p) == buf@[k] by {
                let c = lemma_tile_locate(frs, vaddr as int, len as int, k);
                let j = vaddr + k - frs[c].vaddr;
                assert(pre.maps.frag_of(frs[c]));
                let i2 = choose|i2: int|
                    0 <= i2 < pre.maps.mappings().len() && {
                        let m = #[trigger] pre.maps.mappings()[i2];
                        &&& m.vaddr <= frs[c].vaddr
                        &&& frs[c].vaddr + frs[c].size <= m.vaddr + m.size
                        &&& frs[c].paddr == m.paddr + (frs[c].vaddr - m.vaddr)
                    };
                let m = pre.maps.mappings()[i2];
                assert(m.has_vaddr_spec(vaddr + k));
                assert(pre.maps.maps_to(vaddr + k, m.paddr + (vaddr + k - m.vaddr)));
                lemma_maps_to_unique(pre.maps, vaddr + k, p, m.paddr + (vaddr + k - m.vaddr));
                assert(p == frs[c].paddr + j);
                // No later fragment covers this physical byte again: a
                // later offset would translate to it.
                assert forall|c2: int|
                    c < c2 < frs.len() implies !((#[trigger] frs[c2]).paddr <= p < frs[c2].paddr
                    + frs[c2].size) by {
                    if frs[c2].paddr <= p < frs[c2].paddr + frs[c2].size {
                        lemma_tile_bounds(frs, vaddr as int, len as int, c2);
                        crate::mapsquery::lemma_tiles_ordered(frs, vaddr as int, len as int, c, c2);
                        let j2 = p - frs[c2].paddr;
                        let k2 = frs[c2].vaddr - vaddr + j2;
                        assert(0 <= k2 < len);
                        assert(k < k2);
                        assert(pre.maps.frag_of(frs[c2]));
                        let i3 = choose|i3: int|
                            0 <= i3 < pre.maps.mappings().len() && {
                                let m3 = #[trigger] pre.maps.mappings()[i3];
                                &&& m3.vaddr <= frs[c2].vaddr
                                &&& frs[c2].vaddr + frs[c2].size <= m3.vaddr + m3.size
                                &&& frs[c2].paddr == m3.paddr + (frs[c2].vaddr - m3.vaddr)
                            };
                        let m3 = pre.maps.mappings()[i3];
                        assert(m3.has_vaddr_spec(vaddr + k2));
                        assert(p == m3.paddr + (vaddr + k2 - m3.vaddr));
                        assert(pre.maps.maps_to(vaddr + k2, p));
                        assert(false);
                    }
                }
                assert(self.phys_at(frs[c].paddr + j) == buf@[frs[c].vaddr - vaddr + j]);
            }
            assert forall|p: int|
                old(self).backed(p) && (forall|k: int|
                    0 <= k < buf@.len() ==> !(#[trigger] old(self).maps.maps_to(
                        vaddr + k,
                        p,
                    ))) implies self.phys_at(p) == old(self).phys_at(p) by {
                if exists|c: int|
                    0 <= c < frs.len() && (#[trigger] frs[c]).paddr <= p < frs[c].paddr
                        + frs[c].size {
                    let c = choose|c: int|
                        0 <= c < frs.len() && (#[trigger] frs[c]).paddr <= p < frs[c].paddr
                            + frs[c].size;
                    let j2 = p - frs[c].paddr;
                    lemma_tile_bounds(frs, vaddr as int, len as int, c);
                    let k = frs[c].vaddr - vaddr + j2;
                    assert(0 <= k < len);
                    assert(pre.maps.frag_of(frs[c]));
                    let i2 = choose|i2: int|
                        0 <= i2 < pre.maps.mappings().len() && {
                            let m = #[trigger] pre.maps.mappings()[i2];
                            &&& m.vaddr <= frs[c].vaddr
                            &&& frs[c].vaddr + frs[c].size <= m.vaddr + m.size
                            &&& frs[c].paddr == m.paddr + (frs[c].vaddr - m.vaddr)
                        };
                    let m = pre.maps.mappings()[i2];
                    assert(m.has_vaddr_spec(vaddr + k));
                    assert(p == m.paddr + (vaddr + k - m.vaddr));
                    assert(pre.maps.maps_to(vaddr + k, p));
                    assert(false);
                }
            }
        }
        Ok(())
    }

    /// Reads one fragment's bytes into `buf` at offset `off`.
    fn read_frag(&self, f: RIOMap, buf: &mut Vec<u8>, off: usize)
        requires
            self.descs_wf(),
            f.wf_spec(),
            forall|j: int| 0 <= j < f.size ==> #[trigger] self.backed(f.paddr + j),
            off + f.size <= old(buf)@.len(),
        ensures
            final(buf)@.len() == old(buf)@.len(),
            forall|j: int|
                0 <= j < f.size ==> final(buf)@[off + j] == #[trigger] self.phys_at(
                    f.paddr + j,
                ),
            forall|k: int|
                0 <= k < old(buf)@.len() && !(off <= k < off + f.size) ==> final(buf)@[k] == old(
                    buf,
                )@[k],
    {
        let mut j: u64 = 0;
        let len = buf.len();
        while j < f.size
            invariant
                self.descs_wf(),
                f.wf_spec(),
                forall|j2: int| 0 <= j2 < f.size ==> #[trigger] self.backed(f.paddr + j2),
                off + f.size <= len,
                buf@.len() == len,
                len <= usize::MAX,
                0 <= j <= f.size,
                forall|j2: int|
                    0 <= j2 < j ==> buf@[off + j2] == #[trigger] self.phys_at(f.paddr + j2),
                forall|k: int|
                    0 <= k < len && !(off <= k < off + j) ==> buf@[k] == old(buf)@[k],
            decreases f.size - j,
        {
            let a = f.paddr + j;
            proof {
                assert(self.backed(f.paddr + j as int));
            }
            let i = match self.backed_at(a) {
                Some(i) => i,
                None => {
                    proof {
                        assert(false);
                    }
                    return ;
                },
            };
            let b = self.descs[i].read_byte(a);
            proof {
                self.lemma_phys_at_witness(a as int, i as int);
            }
            buf[off + (j as usize)] = b;
            j = j + 1;
        }
    }

    /// Writes one fragment's bytes from `buf` at offset `off` into the
    /// physical space.
    fn write_frag(&mut self, f: RIOMap, buf: &Vec<u8>, off: usize)
        requires
            old(self).descs_wf(),
            f.wf_spec(),
            forall|j: int| 0 <= j < f.size ==> #[trigger] old(self).backed(f.paddr + j),
            off + f.size <= buf@.len(),
        ensures
            final(self).descs_wf(),
            final(self).maps == old(self).maps,
            final(self).descs@.len() == old(self).descs@.len(),
            forall|i: int|
                #![all_triggers]
                0 <= i < final(self).descs@.len() ==> {
                    &&& final(self).descs@[i].hndl_spec() == old(self).descs@[i].hndl_spec()
                    &&& final(self).descs@[i].name == old(self).descs@[i].name
                    &&& final(self).descs@[i].perm == old(self).descs@[i].perm
                    &&& final(self).descs@[i].paddr == old(self).descs@[i].paddr
                    &&& final(self).descs@[i].size == old(self).descs@[i].size
                },
            forall|a: int| #![all_triggers] final(self).backed(a) <==> old(self).backed(a),
            forall|j: int|
                0 <= j < f.size ==> #[trigger] final(self).phys_at(f.paddr + j) == buf@[off
                    + j],
            forall|a: int|
                old(self).backed(a) && !(f.paddr <= a < f.paddr + f.size) ==> final(self).phys_at(
                    a,
                ) == old(self).phys_at(a),
    {
        let ghost pre = *self;
        let len = buf.len();
        let mut j: u64 = 0;
        while j < f.size
            invariant
                self.descs_wf(),
                pre.descs_wf(),
                pre == *old(self),
                f.wf_spec(),
                forall|j2: int| 0 <= j2 < f.size ==> #[trigger] pre.backed(f.paddr + j2),
                off + f.size <= len,
                buf@.len() == len,
                len <= usize::MAX,
                0 <= j <= f.size,
                self.maps == pre.maps,
                self.descs@.len() == pre.descs@.len(),
                forall|i: int|
                    #![all_triggers]
                    0 <= i < self.descs@.len() ==> {
                        &&& self.descs@[i].hndl_spec() == pre.descs@[i].hndl_spec()
                        &&& self.descs@[i].name == pre.descs@[i].name
                        &&& self.descs@[i].perm == pre.descs@[i].perm
                        &&& self.descs@[i].paddr == pre.descs@[i].paddr
                        &&& self.descs@[i].size == pre.descs@[i].size
                    },
                forall|a: int| #![all_triggers] self.backed(a) <==> pre.backed(a),
                forall|j2: int|
                    0 <= j2 < j ==> #[trigger] self.phys_at(f.paddr + j2) == buf@[off + j2],
                forall|a: int|
                    pre.backed(a) && !(f.paddr <= a < f.paddr + j) ==> self.phys_at(a)
                        == pre.phys_at(a),
            decreases f.size - j,
        {
            let a = f.paddr + j;
            proof {
                assert(pre.backed(f.paddr + j as int));
                assert(self.backed(a as int));
            }
            let i = match self.backed_at(a) {
                Some(i) => i,
                None => {
                    proof {
                        assert(false);
                    }
                    return ;
                },
            };
            let ghost before = *self;
            let b = buf[off + (j as usize)];
            let desc = &mut self.descs[i];
            desc.write_byte(a, b);
            proof {
                assert forall|x: int| #![all_triggers] self.backed(x) <==> before.backed(x) by {
                    if self.backed(x) {
                        let c = choose|c: int|
                            0 <= c < self.descs@.len() && (#[trigger] self.descs@[c]).has_paddr_spec(
                                x,
                            );
                        assert(before.descs@[c].has_paddr_spec(x));
                    }
                    if before.backed(x) {
                        let c = choose|c: int|
                            0 <= c < before.descs@.len() && (
                            #[trigger] before.descs@[c]).has_paddr_spec(x);
                        assert(self.descs@[c].has_paddr_spec(x));
                    }
                }
                self.lemma_phys_at_witness(a as int, i as int);
                assert forall|x: int|
                    before.backed(x) && x != a implies self.phys_at(x) == before.phys_at(x) by {
                    let c = choose|c: int|
                        0 <= c < before.descs@.len() && (
                        #[trigger] before.descs@[c]).has_paddr_spec(x);
                    before.lemma_phys_at_witness(x, c);
                    self.lemma_phys_at_witness(x, c);
                    if c == i as int {
                        assert(self.descs@[c].byte_at(x) == before.descs@[c].byte_at(x));
                    }
                }
            }
            j = j + 1;
        }
    }

    /// Snapshots the engine's layout: descriptor placement and the
    /// registered mappings, without the bytes they serve.
    pub fn save_state(&self) -> (r: EngineState)
        requires
            self.inv(),
        ensures
            r.descs@.len() == self.descs@.len(),
            forall|i: int|
                0 <= i < r.descs@.len() ==> {
                    let d = #[trigger] r.descs@[i];
                    &&& d.name@ == self.descs@[i].name@
                    &&& d.perm == self.descs@[i].perm
                    &&& d.paddr == self.descs@[i].paddr
                    &&& d.hndl == self.descs@[i].hndl_spec()
                    &&& d.size == self.descs@[i].size
                },
            r.maps@ == self.maps.mappings(),
    {
        let mut ds: Vec<DescState> = Vec::new();
        let mut i: usize = 0;
        while i < self.descs.len()
            invariant
                self.inv(),
                0 <= i <= self.descs@.len(),
                ds@.len() == i,
                forall|k: int|
                    0 <= k < i ==> {
                        let d = #[trigger] ds@[k];
                        &&& d.name@ == self.descs@[k].name@
                        &&& d.perm == self.descs@[k].perm
                        &&& d.paddr == self.descs@[k].paddr
                        &&& d.hndl == self.descs@[k].hndl_spec()
                        &&& d.size == self.descs@[k].size
                    },
            decreases self.descs.len() - i,
        {
            let d = &self.descs[i];
            ds.push(
                DescState {
                    name: clone_string(&d.name),
                    perm: d.perm,
                    paddr: d.paddr,
                    hndl: d.hndl,
                    size: d.size,
                },
            );
            i = i + 1;
        }
        let ms = self.maps.map_list();
        EngineState { descs: ds, maps: ms }
    }

    /// Rebuilds an engine from a saved layout: each descriptor comes
    /// back as a zero-filled scratch source of the saved size at its
    /// saved place and handle (the embedding application rewrites real
    /// file contents afterwards), and each saved mapping is
    /// re-registered. Succeeds exactly on a loadable layout; a failed
    /// load leaves the engine holding only rebuilt pieces of the
    /// layout, never the old state.
    #[verifier::rlimit(100)]
    pub fn load_state(&mut self, st: &EngineState) -> (r: Result<(), IoError>)
        requires
            old(self).inv(),
        ensures
            final(self).inv(),
            r is Ok <==> loadable(*st),
            forall|j: int|
                0 <= j < final(self).descs@.len() ==> #[trigger] is_restored_of(
                    final(self).descs@[j],
                    st.descs@,
                    st.descs@.len() as int,
                ),
            forall|mm: RIOMap|
                #![all_triggers]
                final(self).maps.has_map(mm) ==> st.maps@.contains(mm),
            r is Ok ==> ({
                &&& final(self).descs@.len() == st.descs@.len()
                &&& forall|k: int|
                    0 <= k < st.descs@.len() ==> #[trigger] has_restored(
                        final(self).descs@,
                        st.descs@[k],
                    )
                &&& forall|mm: RIOMap|
                    #![all_triggers]
                    final(self).maps.has_map(mm) <==> st.maps@.contains(mm)
            }),
    {
        self.close_all();
        let n_descs = st.descs.len();
        let mut i: usize = 0;
        while i < n_descs
            invariant
                self.inv(),
                n_descs == st.descs@.len(),
                0 <= i <= st.descs@.len(),
                st.descs@.len() <= usize::MAX,
                self.descs@.len() == i,
                self.maps.mappings().len() == 0,
                forall|k: int|
                    0 <= k < i ==> #[trigger] has_restored(self.descs@, st.descs@[k]),
                forall|j: int|
                    0 <= j < self.descs@.len() ==> #[trigger] is_restored_of(
                        self.descs@[j],
                        st.descs@,
                        i as int,
                    ),
                forall|k: int| 0 <= k < i ==> desc_entry_ok(#[trigger] st.descs@[k]),
                forall|k: int, j: int|
                    0 <= k < j < i ==> desc_pair_ok(
                        #[trigger] st.descs@[k],
                        #[trigger] st.descs@[j],
                    ),
            decreases st.descs.len() - i,
        {
            let d = &st.descs[i];
            if d.size < 1 {
                proof {
                    assert(!desc_entry_ok(st.descs@[i as int]));
                    lemma_partial_restore_widen(self.descs@, st.descs@, i as int);
                    assert forall|mm: RIOMap| !self.maps.has_map(mm) by {}
                }
                return Err(IoError::Custom("Cannot open an empty source".to_owned()));
            }
            let mut data: Vec<u8> = Vec::new();
            let mut filled: u64 = 0;
            while filled < d.size
                invariant
                    0 <= filled <= d.size,
                    data@.len() == filled,
                    forall|x: int| 0 <= x < filled ==> data@[x] == 0,
                decreases d.size - filled,
            {
                data.push(0);
                filled = filled + 1;
            }
            let mut used = false;
            let mut k: usize = 0;
            while k < self.descs.len()
                invariant
                    self.inv(),
                    0 <= k <= self.descs@.len(),
                    used <==> exists|j: int|
                        0 <= j < k && (#[trigger] self.descs@[j]).hndl_spec() == d.hndl,
                decreases self.descs.len() - k,
            {
                if self.descs[k].get_hndl() == d.hndl {
                    used = true;
                }
                k = k + 1;
            }
            if used {
                proof {
                    // The clashing table handle came from an earlier
                    // saved descriptor.
                    let j = choose|j: int|
                        0 <= j < self.descs@.len() && (#[trigger] self.descs@[j]).hndl_spec()
                            == d.hndl;
                    assert(is_restored_of(self.descs@[j], st.descs@, i as int));
                    let k2 = choose|k2: int|
                        0 <= k2 < i && restored_desc(self.descs@[j], #[trigger] st.descs@[k2]);
                    assert(st.descs@[k2].hndl == st.descs@[i as int].hndl);
                    assert(!desc_pair_ok(st.descs@[k2], st.descs@[i as int]));
                    assert(!loadable(*st));
                    lemma_partial_restore_widen(self.descs@, st.descs@, i as int);
                    assert forall|mm: RIOMap| !self.maps.has_map(mm) by {}
                }
                return Err(IoError::Custom("Handle already in use".to_owned()));
            }
            let desc = RIODesc {
                hndl: d.hndl,
                name: clone_string(&d.name),
                perm: d.perm,
                paddr: 0,
                raddr: 0,
                size: d.size,
                ops: Backing::Mem(data),
            };
            let ghost before = *self;
            match self.insert_desc_at(desc, d.paddr) {
                Ok(_) => {},
                Err(e) => {
                    proof {
                        // Placement failed: the layout either runs past
                        // the 64-bit space or collides with an earlier
                        // saved descriptor.
                        assert(before.descs@.len() < u64::MAX);
                        assert(!before.fits(d.paddr as int, d.size as int));
                        if d.paddr + d.size <= u64::MAX as int + 1 {
                            let j = choose|j: int|
                                0 <= j < before.descs@.len() && !((
                                #[trigger] before.descs@[j]).paddr + before.descs@[j].size
                                    <= d.paddr as int || d.paddr + d.size
                                    <= before.descs@[j].paddr);
                            assert(is_restored_of(before.descs@[j], st.descs@, i as int));
                            let k2 = choose|k2: int|
                                0 <= k2 < i && restored_desc(
                                    before.descs@[j],
                                    #[trigger] st.descs@[k2],
                                );
                            assert(!desc_pair_ok(st.descs@[k2], st.descs@[i as int]));
                        } else {
                            assert(!desc_entry_ok(st.descs@[i as int]));
                        }
                        assert(!loadable(*st));
                        lemma_partial_restore_widen(self.descs@, st.descs@, i as int);
                        assert forall|mm: RIOMap| !self.maps.has_map(mm) by {}
                    }
                    return Err(e);
                },
            }
            proof {
                let pos = choose|pos: int|
                    #![all_triggers]
                    0 <= pos <= before.descs@.len() && self.descs@ == before.descs@.subrange(
                        0,
                        pos,
                    ) + seq![placed_at(desc, d.paddr)] + before.descs@.skip(pos);
                assert forall|j2: int| 0 <= j2 < self.descs@.len() implies (
                #[trigger] self.descs@[j2]) == (if j2 < pos {
                    before.descs@[j2]
                } else if j2 == pos {
                    placed_at(desc, d.paddr)
                } else {
                    before.descs@[j2 - 1]
                }) by {}
                assert(restored_desc(self.descs@[pos], st.descs@[i as int]));
                assert forall|k2: int|
                    0 <= k2 < i + 1 implies #[trigger] has_restored(
                    self.descs@,
                    st.descs@[k2],
                ) by {
                    if k2 < i {
                        assert(has_restored(before.descs@, st.descs@[k2]));
                        let j0 = choose|j0: int|
                            0 <= j0 < before.descs@.len() && restored_desc(
                                #[trigger] before.descs@[j0],
                                st.descs@[k2],
                            );
                        if j0 < pos {
                            assert(restored_desc(self.descs@[j0], st.descs@[k2]));
                        } else {
                            assert(restored_desc(self.descs@[j0 + 1], st.descs@[k2]));
                        }
                    } else {
                        assert(restored_desc(self.descs@[pos], st.descs@[k2]));
                    }
                }
                assert forall|j2: int|
                    0 <= j2 < self.descs@.len() implies #[trigger] is_restored_of(
                    self.descs@[j2],
                    st.descs@,
                    i as int + 1,
                ) by {
                    if j2 == pos {
                        assert(restored_desc(self.descs@[pos], st.descs@[i as int]));
                    } else {
                        let j0: int = if j2 < pos {
                            j2
                        } else {
                            j2 - 1
                        };
                        assert(is_restored_of(before.descs@[j0], st.descs@, i as int));
                        let k2 = choose|k2: int|
                            0 <= k2 < i && restored_desc(
                                before.descs@[j0],
                                #[trigger] st.descs@[k2],
                            );
                        assert(restored_desc(self.descs@[j2], st.descs@[k2]));
                    }
                }
                // The accepted placement extends the loadable prefix.
                assert(before.fits(d.paddr as int, d.size as int));
                assert(desc_entry_ok(st.descs@[i as int]));
                assert forall|k2: int|
                    0 <= k2 < i implies desc_pair_ok(
                    #[trigger] st.descs@[k2],
                    st.descs@[i as int],
                ) by {
                    assert(has_restored(before.descs@, st.descs@[k2]));
                    let j0 = choose|j0: int|
                        0 <= j0 < before.descs@.len() && restored_desc(
                            #[trigger] before.descs@[j0],
                            st.descs@[k2],
                        );
                    assert(before.descs@[j0].paddr + before.descs@[j0].size <= d.paddr as int
                        || d.paddr + d.size <= before.descs@[j0].paddr);
                    assert(before.descs@[j0].hndl_spec() != d.hndl);
                }
            }
            i = i + 1;
        }
        let ghost descs_done = self.descs;
        let mut m: usize = 0;
        while m < st.maps.len()
            invariant
                self.inv(),
                0 <= m <= st.maps@.len(),
                self.descs == descs_done,
                descs_done@.len() == st.descs@.len(),
                forall|k: int|
                    0 <= k < st.descs@.len() ==> #[trigger] has_restored(
                        descs_done@,
                        st.descs@[k],
                    ),
                forall|j: int|
                    0 <= j < descs_done@.len() ==> #[trigger] is_restored_of(
                        descs_done@[j],
                        st.descs@,
                        st.descs@.len() as int,
                    ),
                forall|k: int| 0 <= k < st.descs@.len() ==> desc_entry_ok(#[trigger] st.descs@[k]),
                forall|k: int, j: int|
                    0 <= k < j < st.descs@.len() ==> desc_pair_ok(
                        #[trigger] st.descs@[k],
                        #[trigger] st.descs@[j],
                    ),
                forall|mm: RIOMap|
                    #![all_triggers]
                    self.maps.has_map(mm) <==> exists|k: int|
                        0 <= k < m && (#[trigger] st.maps@[k]) == mm,
                forall|m2: int| 0 <= m2 < m ==> #[trigger] map_entry_ok(*st, m2),
                forall|m2: int, m3: int|
                    0 <= m2 < m3 < m ==> map_pair_disjoint(
                        #[trigger] st.maps@[m2],
                        #[trigger] st.maps@[m3],
                    ),
            decreases st.maps.len() - m,
        {
            let mp = st.maps[m];
            let ghost before = *self;
            match self.map(mp.paddr, mp.vaddr, mp.size) {
                Ok(_) => {},
                Err(e) => {
                    proof {
                        // A loadable layout would have made this map
                        // call succeed.
                        if loadable(*st) {
                            assert(map_entry_ok(*st, m as int));
                            assert forall|a: int|
                                mp.paddr <= a < mp.paddr + mp.size implies before.backed(a) by {
                                assert(state_backs(st.descs@, a));
                                let k2 = choose|k2: int|
                                    0 <= k2 < st.descs@.len() && (
                                    #[trigger] st.descs@[k2]).paddr <= a < st.descs@[k2].paddr
                                        + st.descs@[k2].size;
                                assert(has_restored(descs_done@, st.descs@[k2]));
                                let j0 = choose|j0: int|
                                    0 <= j0 < descs_done@.len() && restored_desc(
                                        #[trigger] descs_done@[j0],
                                        st.descs@[k2],
                                    );
                                assert(before.descs@[j0].has_paddr_spec(a));
                            }
                            assert forall|a: int|
                                mp.vaddr <= a < mp.vaddr + mp.size implies
                                !before.maps.is_mapped(a) by {
                                if before.maps.is_mapped(a) {
                                    let idx = choose|idx: int|
                                        0 <= idx < before.maps.mappings().len() && (
                                        #[trigger] before.maps.mappings()[idx]).has_vaddr_spec(a);
                                    let mm = before.maps.mappings()[idx];
                                    assert(before.maps.has_map(mm));
                                    let k2 = choose|k2: int|
                                        0 <= k2 < m && (#[trigger] st.maps@[k2]) == mm;
                                    assert(map_pair_disjoint(st.maps@[k2], st.maps@[m as int]));
                                }
                            }
                            assert(false);
                        }
                        assert forall|j2: int|
                            0 <= j2 < self.descs@.len() implies #[trigger] is_restored_of(
                            self.descs@[j2],
                            st.descs@,
                            st.descs@.len() as int,
                        ) by {}
                        assert forall|mm: RIOMap|
                            #![all_triggers]
                            self.maps.has_map(mm) implies st.maps@.contains(mm) by {
                            let k2 = choose|k2: int|
                                0 <= k2 < m && (#[trigger] st.maps@[k2]) == mm;
                        }
                    }
                    return Err(e);
                },
            }
            proof {
                assert forall|mm: RIOMap|
                    #![all_triggers]
                    self.maps.has_map(mm) <==> exists|k: int|
                        0 <= k < m + 1 && (#[trigger] st.maps@[k]) == mm by {
                    assert(self.maps.has_map(mm) <==> (before.maps.has_map(mm) || mm == (RIOMap {
                        paddr: mp.paddr,
                        vaddr: mp.vaddr,
                        size: mp.size,
                    })));
                    if mm == mp {
                        assert(st.maps@[m as int] == mm);
                    }
                    if exists|k: int| 0 <= k < m + 1 && (#[trigger] st.maps@[k]) == mm {
                        let k = choose|k: int| 0 <= k < m + 1 && (#[trigger] st.maps@[k]) == mm;
                    }
                }
                // The accepted mapping extends the loadable prefix.
                assert(map_entry_ok(*st, m as int)) by {
                    assert forall|a: int|
                        mp.paddr <= a < mp.paddr + mp.size implies #[trigger] state_backs(
                        st.descs@,
                        a,
                    ) by {
                        assert(before.backed(a));
                        let j0 = choose|j0: int|
                            0 <= j0 < before.descs@.len() && (
                            #[trigger] before.descs@[j0]).has_paddr_spec(a);
                        assert(is_restored_of(descs_done@[j0], st.descs@, st.descs@.len() as int));
                        let k2 = choose|k2: int|
                            0 <= k2 < st.descs@.len() && restored_desc(
                                descs_done@[j0],
                                #[trigger] st.descs@[k2],
                            );
                        assert(st.descs@[k2].paddr <= a < st.descs@[k2].paddr
                            + st.descs@[k2].size);
                    }
                }
                assert forall|m2: int|
                    0 <= m2 < m implies map_pair_disjoint(
                    #[trigger] st.maps@[m2],
                    st.maps@[m as int],
                ) by {
                    if !map_pair_disjoint(st.maps@[m2], st.maps@[m as int]) {
                        let mm = st.maps@[m2];
                        assert(before.maps.has_map(mm));
                        let a: int = if mm.vaddr >= mp.vaddr {
                            mm.vaddr as int
                        } else {
                            mp.vaddr as int
                        };
                        let idx = choose|idx: int|
                            0 <= idx < before.maps.mappings().len() && (
                            #[trigger] before.maps.mappings()[idx]) == mm;
                        assert(before.maps.mappings()[idx].has_vaddr_spec(a));
                        assert(before.maps.is_mapped(a));
                        assert(mp.vaddr <= a < mp.vaddr + mp.size);
                        assert(false);
                    }
                }
            }
            m = m + 1;
        }
        proof {
            assert forall|mm: RIOMap|
                #![all_triggers]
                self.maps.has_map(mm) <==> st.maps@.contains(mm) by {}
            assert(self.descs@ == descs_done@);
            assert(loadable(*st));
        }
        Ok(())
    }
}

/// Adjacent fragments tile the range, as the registry's splitter
/// promises.
pub open spec fn tiles_ok(frs: Seq<RIOMap>, va: int, sz: int) -> bool {
    crate::mapsquery::tiles_spec(frs, va, sz)
}

/// One virtual address translates to at most one physical address.
proof fn lemma_maps_to_unique(m: RIOMapQuery, a: int, p1: int, p2: int)
    requires
        m.inv(),
        m.maps_to(a, p1),
        m.maps_to(a, p2),
    ensures
        p1 == p2,
{
    let i1 = choose|i: int|
        0 <= i < m.mappings().len() && (#[trigger] m.mappings()[i]).has_vaddr_spec(a) && p1
            == m.mappings()[i].paddr + (a - m.mappings()[i].vaddr);
    let i2 = choose|i: int|
        0 <= i < m.mappings().len() && (#[trigger] m.mappings()[i]).has_vaddr_spec(a) && p2
            == m.mappings()[i].paddr + (a - m.mappings()[i].vaddr);
    if i1 != i2 {
        if i1 < i2 {
            assert(m.mappings()[i1].vaddr + m.mappings()[i1].size <= m.mappings()[i2].vaddr);
        } else {
            assert(m.mappings()[i2].vaddr + m.mappings()[i2].size <= m.mappings()[i1].vaddr);
        }
    }
}

/// Law: writing bytes at a physical range and reading the same range
/// back yields the written bytes.
///
/// The hypotheses are exactly what a successful `pwrite(paddr, x)`
/// ensures of the engine and what a successful `pread(paddr, y)` on
/// the resulting state ensures of the buffer.
pub proof fn lemma_pwrite_pread_round_trip(s1: RIO, paddr: u64, x: Seq<u8>, y: Seq<u8>)
    requires
        forall|a: int| paddr <= a < paddr + x.len() ==> s1.phys_at(a) == x[a - paddr],
        y.len() == x.len(),
        forall|k: int| 0 <= k < y.len() ==> y[k] == s1.phys_at(paddr + k),
    ensures
        y == x,
{
    assert forall|k: int| 0 <= k < y.len() implies y[k] == x[k] by {
        assert(y[k] == s1.phys_at(paddr + k));
        assert(s1.phys_at(paddr + k) == x[k]);
    }
    assert(y =~= x);
}

/// The descriptor `d` is the rebuilt, zero-filled form of the saved
/// descriptor `sd`.
pub open spec fn restored_desc(d: RIODesc, sd: DescState) -> bool {
    &&& d.hndl_spec() == sd.hndl
    &&& d.name@ == sd.name@
    &&& d.perm == sd.perm
    &&& d.paddr == sd.paddr
    &&& d.raddr_spec() == 0
    &&& d.size == sd.size
    &&& (d.ops matches Backing::Mem(b) && b@.len() == sd.size && forall|x: int|
        0 <= x < b@.len() ==> b@[x] == 0)
}

/// Some descriptor of the table is the rebuilt form of `sd`.
pub open spec fn has_restored(descs: Seq<RIODesc>, sd: DescState) -> bool {
    exists|j: int| 0 <= j < descs.len() && restored_desc(#[trigger] descs[j], sd)
}

/// The descriptor `d` is the rebuilt form of one of the first `n`
/// saved descriptors.
pub open spec fn is_restored_of(d: RIODesc, sts: Seq<DescState>, n: int) -> bool {
    exists|k: int| 0 <= k < n && restored_desc(d, #[trigger] sts[k])
}

/// Widens a partial-restoration bound to the whole saved list.
proof fn lemma_partial_restore_widen(descs: Seq<RIODesc>, sts: Seq<DescState>, n: int)
    requires
        0 <= n <= sts.len(),
        forall|j: int| 0 <= j < descs.len() ==> #[trigger] is_restored_of(descs[j], sts, n),
    ensures
        forall|j: int|
            0 <= j < descs.len() ==> #[trigger] is_restored_of(descs[j], sts, sts.len() as int),
{
    assert forall|j: int|
        0 <= j < descs.len() implies #[trigger] is_restored_of(
        descs[j],
        sts,
        sts.len() as int,
    ) by {
        assert(is_restored_of(descs[j], sts, n));
        let k = choose|k: int| 0 <= k < n && restored_desc(descs[j], #[trigger] sts[k]);
        assert(restored_desc(descs[j], sts[k]));
    }
}

/// One saved descriptor is non-empty and fits the 64-bit space.
pub open spec fn desc_entry_ok(d: DescState) -> bool {
    &&& d.size >= 1
    &&& d.paddr + d.size - 1 <= u64::MAX
}

/// Two saved descriptors share no handle and no physical byte.
pub open spec fn desc_pair_ok(a: DescState, b: DescState) -> bool {
    &&& a.hndl != b.hndl
    &&& (a.paddr + a.size <= b.paddr || b.paddr + b.size <= a.paddr)
}

/// Some saved descriptor's physical range holds the address `a`.
pub open spec fn state_backs(descs: Seq<DescState>, a: int) -> bool {
    exists|k: int|
        0 <= k < descs.len() && (#[trigger] descs[k]).paddr <= a < descs[k].paddr
            + descs[k].size
}

/// The `m`-th saved mapping is non-empty, fits the 64-bit space on
/// both sides, and rests entirely on saved physical bytes.
pub open spec fn map_entry_ok(st: EngineState, m: int) -> bool {
    let mp = st.maps@[m];
    &&& mp.size >= 1
    &&& mp.vaddr + mp.size - 1 <= u64::MAX
    &&& mp.paddr + mp.size - 1 <= u64::MAX
    &&& forall|a: int|
        mp.paddr <= a < mp.paddr + mp.size ==> #[trigger] state_backs(st.descs@, a)
}

/// Two saved mappings share no virtual byte.
pub open spec fn map_pair_disjoint(a: RIOMap, b: RIOMap) -> bool {
    a.vaddr + a.size <= b.vaddr || b.vaddr + b.size <= a.vaddr
}

/// A saved layout the engine can hold: well-formed pairwise-fitting
/// descriptors, and mappings that are backed by them and pairwise
/// disjoint on the virtual side.
pub open spec fn loadable(st: EngineState) -> bool {
    &&& forall|k: int| 0 <= k < st.descs@.len() ==> desc_entry_ok(#[trigger] st.descs@[k])
    &&& forall|k: int, j: int|
        0 <= k < j < st.descs@.len() ==> desc_pair_ok(
            #[trigger] st.descs@[k],
            #[trigger] st.descs@[j],
        )
    &&& forall|m: int| 0 <= m < st.maps@.len() ==> #[trigger] map_entry_ok(st, m)
    &&& forall|m: int, m2: int|
        0 <= m < m2 < st.maps@.len() ==> map_pair_disjoint(
            #[trigger] st.maps@[m],
            #[trigger] st.maps@[m2],
        )
}

/// The whole-file parse of a record source's text from a fresh state.
pub open spec fn srec_parse(text: Seq<u8>) -> Result<(Map<u64, u8>, Seq<u8>, u64), int> {
    crate::srec::parse_spec(
        text,
        0,
        crate::srec::mem_of(Seq::<(u64, u8)>::empty()),
        Seq::<u8>::empty(),
        1,
        (text.len() + 1) as nat,
    )
}

/// An empty sparse store backs an empty memory.
proof fn lemma_mem_of_empty(model: Seq<(u64, u8)>, mem: Map<u64, u8>)
    requires
        model.len() == 0,
        mem == crate::srec::mem_of(model),
    ensures
        !exists|k: u64| #[trigger] mem.dom().contains(k),
{
    assert forall|k: u64| !(#[trigger] mem.dom().contains(k)) by {
        assert(crate::srec::spec_get(model, k) is None);
    }
}

/// Lowest and highest populated addresses are unique.
proof fn lemma_min_max_unique(m: Map<u64, u8>, lo: u64, hi: u64)
    requires
        crate::srec::is_min_key(m, lo),
        crate::srec::is_max_key(m, hi),
    ensures
        forall|lo2: u64| #[trigger] crate::srec::is_min_key(m, lo2) ==> lo2 == lo,
        forall|hi2: u64| #[trigger] crate::srec::is_max_key(m, hi2) ==> hi2 == hi,
{
}

/// The fragment whose virtual range holds offset `k` of a tiled range.
proof fn lemma_tile_locate(frs: Seq<RIOMap>, va: int, sz: int, k: int) -> (c: int)
    requires
        crate::mapsquery::tiles_spec(frs, va, sz),
        0 <= k < sz,
    ensures
        0 <= c < frs.len(),
        frs[c].vaddr <= va + k < frs[c].vaddr + frs[c].size,
{
    lemma_tile_locate_from(frs, va, sz, k, 0)
}

/// The walk behind `lemma_tile_locate`.
proof fn lemma_tile_locate_from(frs: Seq<RIOMap>, va: int, sz: int, k: int, c: int) -> (r: int)
    requires
        crate::mapsquery::tiles_spec(frs, va, sz),
        0 <= k < sz,
        0 <= c < frs.len(),
        frs[c].vaddr <= va + k,
    ensures
        0 <= r < frs.len(),
        frs[r].vaddr <= va + k < frs[r].vaddr + frs[r].size,
    decreases frs.len() - c,
{
    if va + k < frs[c].vaddr + frs[c].size {
        c
    } else {
        assert(c < frs.len() - 1) by {
            if c == frs.len() - 1 {
                assert(va + k >= va + sz);
            }
        }
        assert(frs[c + 1].vaddr == frs[c].vaddr + frs[c].size);
        lemma_tile_locate_from(frs, va, sz, k, c + 1)
    }
}

/// When a fragment of a tiled, fully mapped range has an unbacked
/// physical byte, some offset of the range translates to an unbacked
/// address.
proof fn lemma_unbacked_witness(s: &RIO, frs: Seq<RIOMap>, va: int, sz: int, fi: int)
    requires
        s.inv(),
        crate::mapsquery::tiles_spec(frs, va, sz),
        0 <= fi < frs.len(),
        s.maps.frag_of(frs[fi]),
        frs[fi].wf_spec(),
        !(s.backed(frs[fi].paddr as int) && forall|a: int|
            frs[fi].paddr <= a < frs[fi].paddr + frs[fi].size ==> s.backed(a)),
    ensures
        exists|k: int, p: int|
            0 <= k < sz && (#[trigger] s.maps.maps_to(va + k, p)) && !s.backed(p),
{
    let f = frs[fi];
    let a: int = if !s.backed(f.paddr as int) {
        f.paddr as int
    } else {
        choose|a: int| f.paddr <= a < f.paddr + f.size && !s.backed(a)
    };
    assert(f.paddr <= a < f.paddr + f.size);
    lemma_tile_bounds(frs, va, sz, fi);
    let k = f.vaddr - va + (a - f.paddr);
    assert(0 <= k < sz);
    let i2 = choose|i2: int|
        0 <= i2 < s.maps.mappings().len() && {
            let m = #[trigger] s.maps.mappings()[i2];
            &&& m.vaddr <= f.vaddr
            &&& f.vaddr + f.size <= m.vaddr + m.size
            &&& f.paddr == m.paddr + (f.vaddr - m.vaddr)
        };
    let m = s.maps.mappings()[i2];
    assert(m.has_vaddr_spec(va + k));
    assert(a == m.paddr + (va + k - m.vaddr));
    assert(s.maps.maps_to(va + k, a));
}

/// Every tile lies inside the tiled range.
proof fn lemma_tile_bounds(frs: Seq<RIOMap>, va: int, sz: int, c: int)
    requires
        crate::mapsquery::tiles_spec(frs, va, sz),
        0 <= c < frs.len(),
    ensures
        va <= frs[c].vaddr,
        frs[c].vaddr + frs[c].size <= va + sz,
{
    if c > 0 {
        crate::mapsquery::lemma_tiles_ordered(frs, va, sz, 0, c);
    }
    if c < frs.len() - 1 {
        crate::mapsquery::lemma_tiles_ordered(frs, va, sz, c, frs.len() - 1);
    }
}

/// Clones a string, keeping its characters.
fn clone_string(s: &String) -> (r: String)
    ensures
        r@ == s@,
{
    s.as_str().to_owned()
}

/// Inserting a fitting, fresh-handled descriptor at its sorted
/// position keeps the engine invariant.
proof fn lemma_insert_desc_inv(orig: RIO, new: RIO, placed: RIODesc, pos: int)
    requires
        orig.inv(),
        placed.wf(),
        0 <= pos <= orig.descs@.len(),
        new.descs@ == orig.descs@.subrange(0, pos) + seq![placed] + orig.descs@.skip(pos),
        new.maps == orig.maps,
        orig.fits(placed.paddr as int, placed.size as int),
        forall|i: int|
            0 <= i < orig.descs@.len() ==> (#[trigger] orig.descs@[i]).hndl_spec()
                != placed.hndl_spec(),
        forall|j: int| 0 <= j < pos ==> (#[trigger] orig.descs@[j]).paddr < placed.paddr
            || orig.descs@[j].paddr + orig.descs@[j].size <= placed.paddr,
        pos < orig.descs@.len() ==> placed.paddr <= orig.descs@[pos].paddr,
    ensures
        new.inv(),
{
    assert forall|i: int| 0 <= i < new.descs@.len() implies (#[trigger] new.descs@[i]) == (if i
        < pos {
        orig.descs@[i]
    } else if i == pos {
        placed
    } else {
        orig.descs@[i - 1]
    }) by {}
    assert forall|i: int, j: int|
        0 <= i < j < new.descs@.len() implies (#[trigger] new.descs@[i]).paddr
        + new.descs@[i].size <= (#[trigger] new.descs@[j]).paddr by {
        if i < pos && j == pos {
            assert(orig.descs@[i].paddr + orig.descs@[i].size <= placed.paddr || placed.paddr
                + placed.size <= orig.descs@[i].paddr);
            assert(orig.descs@[i].paddr < placed.paddr || orig.descs@[i].paddr
                + orig.descs@[i].size <= placed.paddr);
        } else if i == pos && j > pos {
            assert(orig.descs@[j - 1].paddr + orig.descs@[j - 1].size <= placed.paddr
                || placed.paddr + placed.size <= orig.descs@[j - 1].paddr);
            assert(placed.paddr <= orig.descs@[pos].paddr);
            if j - 1 > pos {
                assert(orig.descs@[pos].paddr + orig.descs@[pos].size
                    <= orig.descs@[j - 1].paddr);
            }
        } else if i < pos && j > pos {
            assert(orig.descs@[i].paddr + orig.descs@[i].size <= orig.descs@[j - 1].paddr || i
                == j - 1);
            if i == j - 1 {
                assert(orig.descs@[i].paddr + orig.descs@[i].size <= placed.paddr || placed.paddr
                    + placed.size <= orig.descs@[i].paddr);
                assert(placed.paddr <= orig.descs@[pos].paddr);
            }
        }
    }
    assert forall|i: int, j: int|
        0 <= i < new.descs@.len() && 0 <= j < new.descs@.len() && i != j implies (
    #[trigger] new.descs@[i]).hndl_spec() != (#[trigger] new.descs@[j]).hndl_spec() by {}
    assert forall|i: int| 0 <= i < new.descs@.len() implies (#[trigger] new.descs@[i]).wf() by {}
}

} // verus!
