//! Interval search tree: an ordered map from closed `u64` intervals to
//! lists of values.
//!
//! Keys are kept in strictly increasing `(lo, hi)` lexicographic order;
//! several values may share one key. The tree answers overlap queries
//! (all values whose key intersects a query interval), point queries,
//! envelope queries (all values whose key lies entirely inside a query
//! interval), and bulk envelope deletion.

use vstd::prelude::*;

verus! {

/// A closed interval `[lo, hi]` of 64-bit addresses.
#[derive(Debug, Clone, Copy, PartialEq, Eq, Structural)]
pub struct Interval {
    pub lo: u64,
    pub hi: u64,
}

impl Interval {
    /// A well-formed interval is non-empty.
    pub open spec fn wf_spec(self) -> bool {
        self.lo <= self.hi
    }

    /// The two intervals share at least one point.
    pub open spec fn intersects_spec(self, o: Interval) -> bool {
        self.lo <= o.hi && o.lo <= self.hi
    }

    /// `self` lies entirely inside `o`.
    pub open spec fn inside_spec(self, o: Interval) -> bool {
        o.lo <= self.lo && self.hi <= o.hi
    }

    /// The point `p` lies inside the interval.
    pub open spec fn has_point_spec(self, p: u64) -> bool {
        self.lo <= p <= self.hi
    }

    pub fn new(lo: u64, hi: u64) -> (r: Interval)
        ensures
            r == (Interval { lo, hi }),
    {
        Interval { lo, hi }
    }

    /// Executable intersection test, equal to its specification.
    pub fn intersects(&self, o: &Interval) -> (r: bool)
        ensures
            r == self.intersects_spec(*o),
    {
        self.lo <= o.hi && o.lo <= self.hi
    }

    /// Executable envelope test, equal to its specification.
    pub fn inside(&self, o: &Interval) -> (r: bool)
        ensures
            r == self.inside_spec(*o),
    {
        o.lo <= self.lo && self.hi <= o.hi
    }
}

/// Strict lexicographic order on interval keys.
pub open spec fn key_lt(a: Interval, b: Interval) -> bool {
    a.lo < b.lo || (a.lo == b.lo && a.hi < b.hi)
}

struct IstEntry<V> {
    lo: u64,
    hi: u64,
    vals: Vec<V>,
}

/// The interval search tree itself.
pub struct IST<V> {
    entries: Vec<IstEntry<V>>,
}

/// All values from index `i` on, flattened in key order.
pub open spec fn sel_all<V>(m: Seq<(Interval, Seq<V>)>, i: int) -> Seq<V>
    decreases m.len() - i,
{
    if i < 0 || i >= m.len() {
        Seq::empty()
    } else {
        m[i].1 + sel_all(m, i + 1)
    }
}

/// Number of values stored in a model.
pub open spec fn ist_count<V>(m: Seq<(Interval, Seq<V>)>, i: int) -> nat
    decreases m.len() - i,
{
    if i < 0 || i >= m.len() {
        0
    } else {
        m[i].1.len() + ist_count(m, i + 1)
    }
}

/// Values (in key order) of entries from index `i` on whose key
/// intersects `q`.
pub open spec fn sel_overlap<V>(m: Seq<(Interval, Seq<V>)>, q: Interval, i: int) -> Seq<V>
    decreases m.len() - i,
{
    if i < 0 || i >= m.len() {
        Seq::empty()
    } else {
        (if m[i].0.intersects_spec(q) {
            m[i].1
        } else {
            Seq::empty()
        }) + sel_overlap(m, q, i + 1)
    }
}

/// Values (in key order) of entries from index `i` on whose key lies
/// entirely inside `q`.
pub open spec fn sel_inside<V>(m: Seq<(Interval, Seq<V>)>, q: Interval, i: int) -> Seq<V>
    decreases m.len() - i,
{
    if i < 0 || i >= m.len() {
        Seq::empty()
    } else {
        (if m[i].0.inside_spec(q) {
            m[i].1
        } else {
            Seq::empty()
        }) + sel_inside(m, q, i + 1)
    }
}

/// Some value `x` is stored somewhere in the model.
pub open spec fn flat_contains<V>(m: Seq<(Interval, Seq<V>)>, x: V) -> bool {
    exists|i: int, k: int|
        0 <= i < m.len() && 0 <= k < m[i].1.len() && (#[trigger] m[i].1[k]) == x
}

/// What one insertion does, described by the sorted position `pos` it
/// lands at: the value joins the entry at `pos` when that entry already
/// has the key, and a fresh entry stands at `pos` otherwise.
pub open spec fn ist_inserted_at<V>(
    m: Seq<(Interval, Seq<V>)>,
    m2: Seq<(Interval, Seq<V>)>,
    lo: u64,
    hi: u64,
    v: V,
    pos: int,
) -> bool {
    let key = Interval { lo, hi };
    &&& 0 <= pos <= m.len()
    &&& forall|j: int| 0 <= j < pos ==> key_lt((#[trigger] m[j]).0, key)
    &&& pos < m.len() ==> !key_lt(m[pos].0, key)
    &&& if pos < m.len() && m[pos].0 == key {
        m2 == m.update(pos, (key, m[pos].1.push(v)))
    } else {
        m2 == m.subrange(0, pos) + seq![(key, seq![v])] + m.skip(pos)
    }
}

/// The entries from index `i` on whose key does not lie inside `q`.
pub open spec fn keep_not_inside<V>(m: Seq<(Interval, Seq<V>)>, q: Interval, i: int) -> Seq<
    (Interval, Seq<V>),
>
    decreases m.len() - i,
{
    if i < 0 || i >= m.len() {
        Seq::empty()
    } else {
        (if m[i].0.inside_spec(q) {
            Seq::empty()
        } else {
            seq![m[i]]
        }) + keep_not_inside(m, q, i + 1)
    }
}

/// The model described by a raw entry sequence.
spec fn entries_model<V>(es: Seq<IstEntry<V>>) -> Seq<(Interval, Seq<V>)> {
    Seq::new(es.len(), |i: int| (Interval { lo: es[i].lo, hi: es[i].hi }, es[i].vals@))
}

impl<V> IST<V> {
    /// The mathematical content of the tree: its entries in key order,
    /// each an interval key with the values stored under it.
    pub closed spec fn model(&self) -> Seq<(Interval, Seq<V>)> {
        entries_model(self.entries@)
    }

    /// Well-formedness: keys strictly sorted, non-empty intervals, no
    /// entry without values.
    pub open spec fn wf(&self) -> bool {
        &&& forall|i: int|
            0 <= i < self.model().len() ==> (#[trigger] self.model()[i]).0.wf_spec()
                && self.model()[i].1.len() > 0
        &&& forall|i: int, j: int|
            0 <= i < j < self.model().len() ==> key_lt(
                (#[trigger] self.model()[i]).0,
                (#[trigger] self.model()[j]).0,
            )
    }

    /// An empty tree.
    pub fn new() -> (r: IST<V>)
        ensures
            r.model() == Seq::<(Interval, Seq<V>)>::empty(),
            r.wf(),
    {
        let r = IST { entries: Vec::new() };
        proof {
            assert(r.model() =~= Seq::<(Interval, Seq<V>)>::empty());
        }
        r
    }

    /// Adds `v` under key `[lo, hi]`: the value joins the entry with
    /// that exact key, or a fresh entry is created at its sorted
    /// position.
    pub fn insert(&mut self, lo: u64, hi: u64, v: V)
        requires
            lo <= hi,
            old(self).wf(),
        ensures
            final(self).wf(),
            exists|pos: int|
                ist_inserted_at(old(self).model(), final(self).model(), lo, hi, v, pos),
    {
        let ghost m = self.model();
        let ghost key = Interval { lo, hi };
        let mut pos: usize = 0;
        while pos < self.entries.len() && (self.entries[pos].lo < lo || (self.entries[pos].lo == lo
            && self.entries[pos].hi < hi))
            invariant
                0 <= pos <= self.entries.len(),
                m == self.model(),
                m.len() == self.entries@.len(),
                key == (Interval { lo, hi }),
                forall|j: int| 0 <= j < pos ==> key_lt((#[trigger] m[j]).0, key),
            decreases self.entries.len() - pos,
        {
            proof {
                assert(m[pos as int].0 == (Interval {
                    lo: self.entries@[pos as int].lo,
                    hi: self.entries@[pos as int].hi,
                }));
                assert(self.entries@[pos as int].lo < lo || (self.entries@[pos as int].lo == lo
                    && self.entries@[pos as int].hi < hi));
                assert(key_lt(m[pos as int].0, key));
            }
            pos = pos + 1;
        }
        proof {
            if pos < self.entries.len() {
                assert(m[pos as int].0 == (Interval {
                    lo: self.entries@[pos as int].lo,
                    hi: self.entries@[pos as int].hi,
                }));
                assert(!key_lt(m[pos as int].0, key));
            }
        }
        if pos < self.entries.len() && self.entries[pos].lo == lo && self.entries[pos].hi == hi {
            let mut e = self.entries.remove(pos);
            e.vals.push(v);
            self.entries.insert(pos, e);
            proof {
                assert(m[pos as int].0 == key);
                assert(self.model() =~= m.subrange(0, pos as int) + seq![
                    (key, m[pos as int].1.push(v)),
                ] + m.skip(pos as int + 1));
                assert(self.model() =~= m.update(pos as int, (key, m[pos as int].1.push(v))));
                assert(ist_inserted_at(m, self.model(), lo, hi, v, pos as int));
                assert forall|i: int, j: int|
                    0 <= i < j < self.model().len() implies key_lt(
                    (#[trigger] self.model()[i]).0,
                    (#[trigger] self.model()[j]).0,
                ) by {
                    assert(self.model()[i].0 == m[i].0);
                    assert(self.model()[j].0 == m[j].0);
                }
            }
        } else {
            let mut vals: Vec<V> = Vec::new();
            vals.push(v);
            self.entries.insert(pos, IstEntry { lo, hi, vals });
            proof {
                if pos < m.len() {
                    assert(m[pos as int].0 != key);
                    assert(!key_lt(m[pos as int].0, key));
                    assert(key_lt(key, m[pos as int].0));
                }
                assert(self.model() =~= m.subrange(0, pos as int) + seq![(key, seq![v])] + m.skip(
                    pos as int,
                ));
                assert(ist_inserted_at(m, self.model(), lo, hi, v, pos as int));
                assert forall|i: int, j: int|
                    0 <= i < j < self.model().len() implies key_lt(
                    (#[trigger] self.model()[i]).0,
                    (#[trigger] self.model()[j]).0,
                ) by {
                    let pi = pos as int;
                    assert(i < pi ==> self.model()[i] == m[i]);
                    assert(i > pi ==> self.model()[i] == m[i - 1]);
                    assert(j < pi ==> self.model()[j] == m[j]);
                    assert(j > pi ==> self.model()[j] == m[j - 1]);
                    if i < pi && j > pi {
                        assert(key_lt(m[i].0, key));
                        assert(key_lt(key, m[j - 1].0));
                    }
                }
                assert forall|i: int|
                    0 <= i < self.model().len() implies (#[trigger] self.model()[i]).0.wf_spec()
                    && self.model()[i].1.len() > 0 by {
                    let pi = pos as int;
                    assert(i < pi ==> self.model()[i] == m[i]);
                    assert(i > pi ==> self.model()[i] == m[i - 1]);
                }
            }
        }
    }

    /// Removes the entry with exactly the key `[lo, hi]` and returns its
    /// values; returns an empty list when no entry has that key.
    pub fn delete(&mut self, lo: u64, hi: u64) -> (r: Vec<V>)
        requires
            old(self).wf(),
        ensures
            final(self).wf(),
            ({
                let m = old(self).model();
                let key = Interval { lo, hi };
                if exists|i: int| 0 <= i < m.len() && (#[trigger] m[i]).0 == key {
                    let i = choose|i: int| 0 <= i < m.len() && (#[trigger] m[i]).0 == key;
                    final(self).model() == m.subrange(0, i) + m.skip(i + 1) && r@ == m[i].1
                } else {
                    final(self).model() == m && r@ == Seq::<V>::empty()
                }
            }),
    {
        let ghost m = self.model();
        let ghost key = Interval { lo, hi };
        let mut pos: usize = 0;
        while pos < self.entries.len() && !(self.entries[pos].lo == lo && self.entries[pos].hi
            == hi)
            invariant
                0 <= pos <= self.entries.len(),
                m == self.model(),
                m.len() == self.entries@.len(),
                key == (Interval { lo, hi }),
                forall|j: int| 0 <= j < pos ==> (#[trigger] m[j]).0 != key,
            decreases self.entries.len() - pos,
        {
            proof {
                assert(m[pos as int].0 == (Interval {
                    lo: self.entries@[pos as int].lo,
                    hi: self.entries@[pos as int].hi,
                }));
            }
            pos = pos + 1;
        }
        if pos < self.entries.len() {
            proof {
                assert(m[pos as int].0 == (Interval {
                    lo: self.entries@[pos as int].lo,
                    hi: self.entries@[pos as int].hi,
                }));
                assert(m[pos as int].0 == key);
            }
            let e = self.entries.remove(pos);
            proof {
                let i = choose|i: int| 0 <= i < m.len() && (#[trigger] m[i]).0 == key;
                assert(m[pos as int].0 == key);
                if i != pos as int {
                    assert(key_lt(m[if i < pos as int { i } else { pos as int }].0,
                        m[if i < pos as int { pos as int } else { i }].0));
                }
                assert(i == pos as int);
                assert(self.model() =~= m.subrange(0, pos as int) + m.skip(pos as int + 1));
                assert forall|a: int, b: int|
                    0 <= a < b < self.model().len() implies key_lt(
                    (#[trigger] self.model()[a]).0,
                    (#[trigger] self.model()[b]).0,
                ) by {
                    assert(self.model()[a] == if a < pos as int { m[a] } else { m[a + 1] });
                    assert(self.model()[b] == if b < pos as int { m[b] } else { m[b + 1] });
                }
                assert forall|a: int|
                    0 <= a < self.model().len() implies (#[trigger] self.model()[a]).0.wf_spec()
                    && self.model()[a].1.len() > 0 by {
                    assert(self.model()[a] == if a < pos as int { m[a] } else { m[a + 1] });
                }
            }
            e.vals
        } else {
            proof {
                assert(forall|i: int| 0 <= i < m.len() ==> (#[trigger] m[i]).0 != key);
            }
            Vec::new()
        }
    }

    /// Number of values stored.
    pub fn size(&self) -> (r: usize)
        requires
            ist_count(self.model(), 0) <= usize::MAX,
        ensures
            r == ist_count(self.model(), 0),
    {
        let ghost m = self.model();
        let mut total: usize = 0;
        let mut i: usize = 0;
        while i < self.entries.len()
            invariant
                0 <= i <= self.entries.len(),
                m == self.model(),
                m.len() == self.entries@.len(),
                total + ist_count(m, i as int) == ist_count(m, 0),
                ist_count(m, 0) <= usize::MAX,
            decreases self.entries.len() - i,
        {
            proof {
                assert(m[i as int].1 == self.entries@[i as int].vals@);
            }
            total = total + self.entries[i].vals.len();
            i = i + 1;
        }
        total
    }
}

impl<V: Copy> IST<V> {
    /// All values whose key intersects `[lo, hi]`, in key order.
    pub fn overlap(&self, lo: u64, hi: u64) -> (r: Vec<V>)
        requires
            lo <= hi,
        ensures
            r@ == sel_overlap(self.model(), Interval { lo, hi }, 0),
    {
        let ghost m = self.model();
        let ghost q = Interval { lo, hi };
        let mut r: Vec<V> = Vec::new();
        let mut i: usize = 0;
        while i < self.entries.len()
            invariant
                0 <= i <= self.entries.len(),
                m == self.model(),
                m.len() == self.entries@.len(),
                q == (Interval { lo, hi }),
                r@ + sel_overlap(m, q, i as int) == sel_overlap(m, q, 0),
            decreases self.entries.len() - i,
        {
            proof {
                assert(m[i as int] == (Interval {
                    lo: self.entries@[i as int].lo,
                    hi: self.entries@[i as int].hi,
                }, self.entries@[i as int].vals@));
            }
            if self.entries[i].lo <= hi && lo <= self.entries[i].hi {
                let ghost r0 = r@;
                let mut j: usize = 0;
                while j < self.entries[i].vals.len()
                    invariant
                        0 <= i < self.entries.len(),
                        0 <= j <= self.entries@[i as int].vals@.len(),
                        r@ == r0 + self.entries@[i as int].vals@.subrange(0, j as int),
                    decreases self.entries[i as int].vals.len() - j,
                {
                    r.push(self.entries[i].vals[j]);
                    proof {
                        assert(r@ =~= r0 + self.entries@[i as int].vals@.subrange(
                            0,
                            j as int + 1,
                        ));
                    }
                    j = j + 1;
                }
                proof {
                    assert(self.entries@[i as int].vals@.subrange(
                        0,
                        self.entries@[i as int].vals@.len() as int,
                    ) =~= self.entries@[i as int].vals@);
                    assert(m[i as int].0.intersects_spec(q));
                    assert(r@ =~= r0 + m[i as int].1);
                    assert((r0 + m[i as int].1) + sel_overlap(m, q, i as int + 1) =~= r0 + (
                    m[i as int].1 + sel_overlap(m, q, i as int + 1)));
                }
            } else {
                proof {
                    assert(!m[i as int].0.intersects_spec(q));
                    assert(sel_overlap(m, q, i as int) =~= Seq::<V>::empty() + sel_overlap(
                        m,
                        q,
                        i as int + 1,
                    ));
                    assert(Seq::<V>::empty() + sel_overlap(m, q, i as int + 1) =~= sel_overlap(
                        m,
                        q,
                        i as int + 1,
                    ));
                }
            }
            i = i + 1;
        }
        proof {
            assert(r@ + sel_overlap(m, q, m.len() as int) =~= r@);
        }
        r
    }

    /// All values whose key contains the point `p`, in key order.
    pub fn at(&self, p: u64) -> (r: Vec<V>)
        ensures
            r@ == sel_overlap(self.model(), Interval { lo: p, hi: p }, 0),
    {
        self.overlap(p, p)
    }

    /// All values whose key lies entirely inside `[lo, hi]`, in key
    /// order.
    pub fn envelop(&self, lo: u64, hi: u64) -> (r: Vec<V>)
        requires
            lo <= hi,
        ensures
            r@ == sel_inside(self.model(), Interval { lo, hi }, 0),
    {
        let ghost m = self.model();
        let ghost q = Interval { lo, hi };
        let mut r: Vec<V> = Vec::new();
        let mut i: usize = 0;
        while i < self.entries.len()
            invariant
                0 <= i <= self.entries.len(),
                m == self.model(),
                m.len() == self.entries@.len(),
                q == (Interval { lo, hi }),
                r@ + sel_inside(m, q, i as int) == sel_inside(m, q, 0),
            decreases self.entries.len() - i,
        {
            proof {
                assert(m[i as int] == (Interval {
                    lo: self.entries@[i as int].lo,
                    hi: self.entries@[i as int].hi,
                }, self.entries@[i as int].vals@));
            }
            if lo <= self.entries[i].lo && self.entries[i].hi <= hi {
                let ghost r0 = r@;
                let mut j: usize = 0;
                while j < self.entries[i].vals.len()
                    invariant
                        0 <= i < self.entries.len(),
                        0 <= j <= self.entries@[i as int].vals@.len(),
                        r@ == r0 + self.entries@[i as int].vals@.subrange(0, j as int),
                    decreases self.entries[i as int].vals.len() - j,
                {
                    r.push(self.entries[i].vals[j]);
                    proof {
                        assert(r@ =~= r0 + self.entries@[i as int].vals@.subrange(
                            0,
                            j as int + 1,
                        ));
                    }
                    j = j + 1;
                }
                proof {
                    assert(self.entries@[i as int].vals@.subrange(
                        0,
                        self.entries@[i as int].vals@.len() as int,
                    ) =~= self.entries@[i as int].vals@);
                    assert(m[i as int].0.inside_spec(q));
                    assert(r@ =~= r0 + m[i as int].1);
                    assert((r0 + m[i as int].1) + sel_inside(m, q, i as int + 1) =~= r0 + (
                    m[i as int].1 + sel_inside(m, q, i as int + 1)));
                }
            } else {
                proof {
                    assert(!m[i as int].0.inside_spec(q));
                    assert(sel_inside(m, q, i as int) =~= Seq::<V>::empty() + sel_inside(
                        m,
                        q,
                        i as int + 1,
                    ));
                    assert(Seq::<V>::empty() + sel_inside(m, q, i as int + 1) =~= sel_inside(
                        m,
                        q,
                        i as int + 1,
                    ));
                }
            }
            i = i + 1;
        }
        proof {
            assert(r@ + sel_inside(m, q, m.len() as int) =~= r@);
        }
        r
    }

    /// All stored values, flattened in key order.
    pub fn values_list(&self) -> (r: Vec<V>)
        ensures
            r@ == sel_all(self.model(), 0),
    {
        let ghost m = self.model();
        let mut r: Vec<V> = Vec::new();
        let mut i: usize = 0;
        while i < self.entries.len()
            invariant
                0 <= i <= self.entries.len(),
                m == self.model(),
                m.len() == self.entries@.len(),
                r@ + sel_all(m, i as int) == sel_all(m, 0),
            decreases self.entries.len() - i,
        {
            proof {
                assert(m[i as int] == (Interval {
                    lo: self.entries@[i as int].lo,
                    hi: self.entries@[i as int].hi,
                }, self.entries@[i as int].vals@));
            }
            let ghost r0 = r@;
            let mut j: usize = 0;
            while j < self.entries[i].vals.len()
                invariant
                    0 <= i < self.entries.len(),
                    0 <= j <= self.entries@[i as int].vals@.len(),
                    r@ == r0 + self.entries@[i as int].vals@.subrange(0, j as int),
                decreases self.entries[i as int].vals.len() - j,
            {
                r.push(self.entries[i].vals[j]);
                proof {
                    assert(r@ =~= r0 + self.entries@[i as int].vals@.subrange(0, j as int + 1));
                }
                j = j + 1;
            }
            proof {
                assert(self.entries@[i as int].vals@.subrange(
                    0,
                    self.entries@[i as int].vals@.len() as int,
                ) =~= self.entries@[i as int].vals@);
                assert(r@ =~= r0 + m[i as int].1);
                assert((r0 + m[i as int].1) + sel_all(m, i as int + 1) =~= r0 + (m[i as int].1
                    + sel_all(m, i as int + 1)));
            }
            i = i + 1;
        }
        proof {
            assert(r@ + sel_all(m, m.len() as int) =~= r@);
        }
        r
    }

    /// Removes every value whose key lies entirely inside `[lo, hi]` and
    /// returns the removed values in key order.
    pub fn delete_envelop(&mut self, lo: u64, hi: u64) -> (r: Vec<V>)
        requires
            lo <= hi,
            old(self).wf(),
        ensures
            final(self).wf(),
            r@ == sel_inside(old(self).model(), Interval { lo, hi }, 0),
            final(self).model() == keep_not_inside(old(self).model(), Interval { lo, hi }, 0),
    {
        let ghost m = self.model();
        let ghost q = Interval { lo, hi };
        let r = self.envelop(lo, hi);
        let mut kept: Vec<IstEntry<V>> = Vec::new();
        let mut i: usize = 0;
        while i < self.entries.len()
            invariant
                0 <= i <= self.entries.len(),
                m == self.model(),
                m.len() == self.entries@.len(),
                q == (Interval { lo, hi }),
                entries_model(kept@) + keep_not_inside(m, q, i as int) == keep_not_inside(m, q, 0),
            decreases self.entries.len() - i,
        {
            proof {
                assert(m[i as int] == (Interval {
                    lo: self.entries@[i as int].lo,
                    hi: self.entries@[i as int].hi,
                }, self.entries@[i as int].vals@));
            }
            if lo <= self.entries[i].lo && self.entries[i].hi <= hi {
                proof {
                    assert(m[i as int].0.inside_spec(q));
                    assert(entries_model(kept@) + keep_not_inside(m, q, i as int)
                        =~= entries_model(kept@) + keep_not_inside(m, q, i as int + 1));
                }
            } else {
                let ghost kept0 = kept@;
                let e = &self.entries[i];
                let mut vals: Vec<V> = Vec::new();
                let mut j: usize = 0;
                while j < e.vals.len()
                    invariant
                        vals@ == e.vals@.subrange(0, j as int),
                        0 <= j <= e.vals@.len(),
                    decreases e.vals.len() - j,
                {
                    vals.push(e.vals[j]);
                    proof {
                        assert(vals@ =~= e.vals@.subrange(0, j as int + 1));
                    }
                    j = j + 1;
                }
                proof {
                    assert(vals@ =~= e.vals@);
                }
                let lo2 = e.lo;
                let hi2 = e.hi;
                kept.push(IstEntry { lo: lo2, hi: hi2, vals });
                proof {
                    assert(!m[i as int].0.inside_spec(q));
                    assert(entries_model(kept@) =~= entries_model(kept0) + seq![m[i as int]]);
                    assert((entries_model(kept0) + seq![m[i as int]]) + keep_not_inside(
                        m,
                        q,
                        i as int + 1,
                    ) =~= entries_model(kept0) + (seq![m[i as int]] + keep_not_inside(
                        m,
                        q,
                        i as int + 1,
                    )));
                }
            }
            i = i + 1;
        }
        proof {
            assert(entries_model(kept@) + keep_not_inside(m, q, m.len() as int)
                =~= entries_model(kept@));
        }
        self.entries = kept;
        proof {
            assert forall|a: int, b: int|
                0 <= a < b < self.model().len() implies key_lt(
                (#[trigger] self.model()[a]).0,
                (#[trigger] self.model()[b]).0,
            ) by {
                lemma_keep_not_inside_order(m, q, 0, a, b);
            }
            assert forall|a: int|
                0 <= a < self.model().len() implies (#[trigger] self.model()[a]).0.wf_spec()
                && self.model()[a].1.len() > 0 by {
                lemma_keep_not_inside_elem(m, q, 0, a);
            }
        }
        r
    }
}

/// An overlap selection is non-empty exactly when some entry from `i`
/// on intersects the query and holds at least one value.
pub proof fn lemma_sel_overlap_len<V>(m: Seq<(Interval, Seq<V>)>, q: Interval, i: int)
    requires
        0 <= i,
    ensures
        sel_overlap(m, q, i).len() > 0 <==> exists|j: int|
            i <= j < m.len() && (#[trigger] m[j]).0.intersects_spec(q) && m[j].1.len() > 0,
    decreases m.len() - i,
{
    if i >= m.len() {
    } else {
        lemma_sel_overlap_len(m, q, i + 1);
    }
}

/// Every value selected by an overlap query comes from an entry whose
/// key intersects the query.
pub proof fn lemma_sel_overlap_elem<V>(m: Seq<(Interval, Seq<V>)>, q: Interval, i: int, a: int)
    requires
        0 <= i,
        0 <= a < sel_overlap(m, q, i).len(),
    ensures
        exists|j: int, k: int|
            i <= j < m.len() && 0 <= k < m[j].1.len() && (#[trigger] m[j].1[k]) == sel_overlap(
                m,
                q,
                i,
            )[a] && m[j].0.intersects_spec(q),
    decreases m.len() - i,
{
    if i >= m.len() {
    } else if m[i].0.intersects_spec(q) {
        if a < m[i].1.len() {
            assert(sel_overlap(m, q, i)[a] == m[i].1[a]);
        } else {
            lemma_sel_overlap_elem(m, q, i + 1, a - m[i].1.len());
        }
    } else {
        assert(sel_overlap(m, q, i) =~= Seq::<V>::empty() + sel_overlap(m, q, i + 1));
        assert(sel_overlap(m, q, i) =~= sel_overlap(m, q, i + 1));
        lemma_sel_overlap_elem(m, q, i + 1, a);
    }
}

/// Every value of an entry whose key intersects the query appears in
/// the overlap selection.
pub proof fn lemma_sel_overlap_complete<V>(
    m: Seq<(Interval, Seq<V>)>,
    q: Interval,
    i: int,
    j: int,
    k: int,
)
    requires
        0 <= i <= j < m.len(),
        0 <= k < m[j].1.len(),
        m[j].0.intersects_spec(q),
    ensures
        sel_overlap(m, q, i).contains(m[j].1[k]),
    decreases m.len() - i,
{
    if i == j {
        assert(sel_overlap(m, q, i)[k] == m[j].1[k]);
    } else {
        lemma_sel_overlap_complete(m, q, i + 1, j, k);
        let a = choose|a: int|
            0 <= a < sel_overlap(m, q, i + 1).len() && (#[trigger] sel_overlap(m, q, i + 1)[a])
                == m[j].1[k];
        if m[i].0.intersects_spec(q) {
            assert(sel_overlap(m, q, i)[m[i].1.len() + a] == m[j].1[k]);
        } else {
            assert(sel_overlap(m, q, i) =~= Seq::<V>::empty() + sel_overlap(m, q, i + 1));
            assert(sel_overlap(m, q, i) =~= sel_overlap(m, q, i + 1));
        }
    }
}

/// When every entry holds exactly one value, two selected values come
/// from two entries in key order.
pub proof fn lemma_sel_overlap_order<V>(
    m: Seq<(Interval, Seq<V>)>,
    q: Interval,
    i: int,
    a: int,
    b: int,
)
    requires
        0 <= i,
        0 <= a < b < sel_overlap(m, q, i).len(),
        forall|j: int| 0 <= j < m.len() ==> (#[trigger] m[j]).1.len() == 1,
    ensures
        exists|ja: int, jb: int|
            i <= ja < jb < m.len() && sel_overlap(m, q, i)[a] == (#[trigger] m[ja]).1[0]
                && sel_overlap(m, q, i)[b] == (#[trigger] m[jb]).1[0] && m[ja].0.intersects_spec(q)
                && m[jb].0.intersects_spec(q),
    decreases m.len() - i,
{
    if i >= m.len() {
    } else if m[i].0.intersects_spec(q) {
        if a == 0 {
            assert(sel_overlap(m, q, i)[0] == m[i].1[0]);
            lemma_sel_overlap_elem(m, q, i + 1, b - 1);
            let (j, k) = choose|j: int, k: int|
                i + 1 <= j < m.len() && 0 <= k < m[j].1.len() && (#[trigger] m[j].1[k])
                    == sel_overlap(m, q, i + 1)[b - 1] && m[j].0.intersects_spec(q);
            assert(k == 0);
            assert(sel_overlap(m, q, i)[b] == sel_overlap(m, q, i + 1)[b - 1]);
            assert(i < j < m.len() && sel_overlap(m, q, i)[a] == m[i].1[0] && sel_overlap(
                m,
                q,
                i,
            )[b] == m[j].1[0] && m[i].0.intersects_spec(q) && m[j].0.intersects_spec(q));
        } else {
            lemma_sel_overlap_order(m, q, i + 1, a - 1, b - 1);
            let (ja, jb) = choose|ja: int, jb: int|
                i + 1 <= ja < jb < m.len() && sel_overlap(m, q, i + 1)[a - 1] == (
                #[trigger] m[ja]).1[0] && sel_overlap(m, q, i + 1)[b - 1] == (#[trigger] m[jb]).1[0]
                    && m[ja].0.intersects_spec(q) && m[jb].0.intersects_spec(q);
            assert(sel_overlap(m, q, i)[a] == sel_overlap(m, q, i + 1)[a - 1]);
            assert(sel_overlap(m, q, i)[b] == sel_overlap(m, q, i + 1)[b - 1]);
        }
    } else {
        assert(sel_overlap(m, q, i) =~= Seq::<V>::empty() + sel_overlap(m, q, i + 1));
        assert(sel_overlap(m, q, i) =~= sel_overlap(m, q, i + 1));
        lemma_sel_overlap_order(m, q, i + 1, a, b);
    }
}

/// When no value is stored twice anywhere in the tree, an overlap
/// selection has no duplicates.
pub proof fn lemma_sel_overlap_nodup<V>(m: Seq<(Interval, Seq<V>)>, q: Interval, i: int)
    requires
        0 <= i,
        forall|j: int, k: int, j2: int, k2: int|
            0 <= j < m.len() && 0 <= k < m[j].1.len() && 0 <= j2 < m.len() && 0 <= k2
                < m[j2].1.len() && (j != j2 || k != k2) ==> (#[trigger] m[j].1[k])
                != (#[trigger] m[j2].1[k2]),
    ensures
        sel_overlap(m, q, i).no_duplicates(),
    decreases m.len() - i,
{
    if i >= m.len() {
    } else {
        lemma_sel_overlap_nodup(m, q, i + 1);
        if m[i].0.intersects_spec(q) {
            let s = sel_overlap(m, q, i);
            let n = m[i].1.len() as int;
            assert forall|a: int, b: int|
                0 <= a < s.len() && 0 <= b < s.len() && a != b implies s[a] != s[b] by {
                let (lo, hi) = if a < b {
                    (a, b)
                } else {
                    (b, a)
                };
                if hi < n {
                    assert(s[lo] == m[i].1[lo] && s[hi] == m[i].1[hi]);
                } else if lo >= n {
                    assert(s[lo] == sel_overlap(m, q, i + 1)[lo - n]);
                    assert(s[hi] == sel_overlap(m, q, i + 1)[hi - n]);
                } else {
                    assert(s[lo] == m[i].1[lo]);
                    assert(s[hi] == sel_overlap(m, q, i + 1)[hi - n]);
                    lemma_sel_overlap_elem(m, q, i + 1, hi - n);
                    let (j, k) = choose|j: int, k: int|
                        i + 1 <= j < m.len() && 0 <= k < m[j].1.len() && (#[trigger] m[j].1[k])
                            == sel_overlap(m, q, i + 1)[hi - n] && m[j].0.intersects_spec(q);
                    assert(m[i].1[lo] != m[j].1[k]);
                }
            }
        } else {
            assert(sel_overlap(m, q, i) =~= Seq::<V>::empty() + sel_overlap(m, q, i + 1));
            assert(sel_overlap(m, q, i) =~= sel_overlap(m, q, i + 1));
        }
    }
}

/// Every entry kept by `keep_not_inside` is one of the original entries.
proof fn lemma_keep_not_inside_elem<V>(m: Seq<(Interval, Seq<V>)>, q: Interval, i: int, a: int)
    requires
        0 <= a < keep_not_inside(m, q, i).len(),
    ensures
        exists|j: int|
            i <= j < m.len() && (#[trigger] m[j]) == keep_not_inside(m, q, i)[a],
    decreases m.len() - i,
{
    if i < 0 || i >= m.len() {
    } else if m[i].0.inside_spec(q) {
        assert(keep_not_inside(m, q, i) =~= Seq::<(Interval, Seq<V>)>::empty() + keep_not_inside(
            m,
            q,
            i + 1,
        ));
        assert(keep_not_inside(m, q, i) =~= keep_not_inside(m, q, i + 1));
        lemma_keep_not_inside_elem(m, q, i + 1, a);
    } else {
        if a == 0 {
            assert(keep_not_inside(m, q, i)[0] == m[i]);
        } else {
            lemma_keep_not_inside_elem(m, q, i + 1, a - 1);
        }
    }
}

/// `keep_not_inside` keeps the original key order.
proof fn lemma_keep_not_inside_order<V>(
    m: Seq<(Interval, Seq<V>)>,
    q: Interval,
    i: int,
    a: int,
    b: int,
)
    requires
        0 <= a < b < keep_not_inside(m, q, i).len(),
        forall|x: int, y: int|
            i <= x < y < m.len() ==> key_lt((#[trigger] m[x]).0, (#[trigger] m[y]).0),
    ensures
        key_lt(keep_not_inside(m, q, i)[a].0, keep_not_inside(m, q, i)[b].0),
    decreases m.len() - i,
{
    if i < 0 || i >= m.len() {
    } else if m[i].0.inside_spec(q) {
        assert(keep_not_inside(m, q, i) =~= Seq::<(Interval, Seq<V>)>::empty() + keep_not_inside(
            m,
            q,
            i + 1,
        ));
        assert(keep_not_inside(m, q, i) =~= keep_not_inside(m, q, i + 1));
        lemma_keep_not_inside_order(m, q, i + 1, a, b);
    } else {
        if a == 0 {
            assert(keep_not_inside(m, q, i)[0] == m[i]);
            lemma_keep_not_inside_elem(m, q, i + 1, b - 1);
            let j = choose|j: int|
                i + 1 <= j < m.len() && (#[trigger] m[j]) == keep_not_inside(m, q, i + 1)[b - 1];
            assert(key_lt(m[i].0, m[j].0));
        } else {
            lemma_keep_not_inside_order(m, q, i + 1, a - 1, b - 1);
        }
    }
}

} // verus!
