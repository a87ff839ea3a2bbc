//! The per-layer segment map: a finite mapping from the quantized start
//! point of each directed segment to its end point.
//!
//! The map keeps its entries in insertion order, with unique keys; inserting
//! an existing key overwrites its value in place.  The view is the sequence
//! of entries, which fixes the order in which the contour assembler walks
//! the map and so makes the whole pipeline deterministic.

use vstd::prelude::*;

use crate::geometry::Vector2;

verus! {

/// Position of the first entry keyed `k`, or `-1` when there is none.
pub open spec fn key_index(es: Seq<(Vector2, Vector2)>, k: Vector2) -> int
    decreases es.len(),
{
    if es.len() == 0 {
        -1
    } else if es[0].0 == k {
        0
    } else {
        let r = key_index(es.drop_first(), k);
        if r < 0 {
            -1
        } else {
            r + 1
        }
    }
}

/// Whether some entry is keyed `k`.
pub open spec fn has_key(es: Seq<(Vector2, Vector2)>, k: Vector2) -> bool {
    key_index(es, k) >= 0
}

/// The value of the first entry keyed `k`.
pub open spec fn value_at(es: Seq<(Vector2, Vector2)>, k: Vector2) -> Vector2
    recommends
        has_key(es, k),
{
    es[key_index(es, k)].1
}

/// Insertion that overwrites an existing key in place and appends a new one.
pub open spec fn spec_upsert(es: Seq<(Vector2, Vector2)>, k: Vector2, v: Vector2) -> Seq<
    (Vector2, Vector2),
> {
    let i = key_index(es, k);
    if i >= 0 {
        es.update(i, (k, v))
    } else {
        es.push((k, v))
    }
}

/// Removal of the entry keyed `k`, if any.
pub open spec fn spec_remove(es: Seq<(Vector2, Vector2)>, k: Vector2) -> Seq<(Vector2, Vector2)> {
    let i = key_index(es, k);
    if i >= 0 {
        es.remove(i)
    } else {
        es
    }
}

/// No two entries share a key.
pub open spec fn unique_keys(es: Seq<(Vector2, Vector2)>) -> bool {
    forall|i: int, j: int| 0 <= i < j < es.len() ==> (#[trigger] es[i]).0 != (#[trigger] es[j]).0
}

/// No entry maps a point to itself.
pub open spec fn no_self_loops(es: Seq<(Vector2, Vector2)>) -> bool {
    forall|i: int| 0 <= i < es.len() ==> (#[trigger] es[i]).0 != es[i].1
}

/// What `key_index` finds: the first matching position, if any.
pub proof fn lemma_key_index(es: Seq<(Vector2, Vector2)>, k: Vector2)
    ensures
        key_index(es, k) == -1 || 0 <= key_index(es, k) < es.len(),
        key_index(es, k) == -1 ==> forall|i: int| 0 <= i < es.len() ==> (#[trigger] es[i]).0 != k,
        key_index(es, k) >= 0 ==> es[key_index(es, k)].0 == k,
        key_index(es, k) >= 0 ==> forall|i: int|
            0 <= i < key_index(es, k) ==> (#[trigger] es[i]).0 != k,
    decreases es.len(),
{
    if es.len() > 0 && es[0].0 != k {
        lemma_key_index(es.drop_first(), k);
        assert forall|i: int| 0 <= i < es.len() && key_index(es, k) == -1 implies (
        #[trigger] es[i]).0 != k by {
            if i > 0 {
                assert(es.drop_first()[i - 1] == es[i]);
            }
        }
        assert forall|i: int| 0 <= i < key_index(es, k) implies (#[trigger] es[i]).0 != k by {
            if i > 0 {
                assert(es.drop_first()[i - 1] == es[i]);
            }
        }
    }
}

/// The first matching position determines `key_index`.
pub proof fn lemma_key_index_at(es: Seq<(Vector2, Vector2)>, k: Vector2, i: int)
    requires
        0 <= i < es.len(),
        es[i].0 == k,
        forall|j: int| 0 <= j < i ==> (#[trigger] es[j]).0 != k,
    ensures
        key_index(es, k) == i,
    decreases es.len(),
{
    if i > 0 {
        assert forall|j: int| 0 <= j < i - 1 implies (#[trigger] es.drop_first()[j]).0 != k by {
            assert(es.drop_first()[j] == es[j + 1]);
        }
        assert(es.drop_first()[i - 1] == es[i]);
        lemma_key_index_at(es.drop_first(), k, i - 1);
    }
}

/// A map from segment starts to segment ends, in insertion order.
pub struct SegmentMap {
    entries: Vec<(Vector2, Vector2)>,
}

impl View for SegmentMap {
    type V = Seq<(Vector2, Vector2)>;

    closed spec fn view(&self) -> Seq<(Vector2, Vector2)> {
        self.entries@
    }
}

impl SegmentMap {
    /// An empty map.
    pub fn new() -> (m: SegmentMap)
        ensures
            m@ == Seq::<(Vector2, Vector2)>::empty(),
    {
        let m = SegmentMap { entries: Vec::new() };
        proof {
            assert(m@ =~= Seq::<(Vector2, Vector2)>::empty());
        }
        m
    }

    /// How many segments the map holds.
    pub fn len(&self) -> (n: usize)
        ensures
            n == self@.len(),
    {
        self.entries.len()
    }

    /// Whether the map holds no segment.
    pub fn is_empty(&self) -> (r: bool)
        ensures
            r == (self@.len() == 0),
    {
        self.entries.len() == 0
    }

    /// Position of the entry keyed `k`, if any.
    fn find(&self, k: Vector2) -> (r: Option<usize>)
        ensures
            match r {
                Some(i) => key_index(self@, k) == i as int,
                None => key_index(self@, k) == -1,
            },
    {
        let mut i: usize = 0;
        while i < self.entries.len()
            invariant
                0 <= i <= self.entries.len(),
                forall|j: int| 0 <= j < i ==> (#[trigger] self.entries@[j]).0 != k,
            decreases self.entries.len() - i,
        {
            let e = self.entries[i];
            if e.0.x == k.x && e.0.y == k.y {
                proof {
                    lemma_key_index_at(self@, k, i as int);
                }
                return Some(i);
            }
            i = i + 1;
        }
        proof {
            lemma_key_index(self@, k);
        }
        None
    }

    /// Stores `start -> end`, overwriting the end of an existing `start`.
    pub fn insert(&mut self, start: Vector2, end: Vector2)
        ensures
            final(self)@ == spec_upsert(old(self)@, start, end),
    {
        let found = self.find(start);
        proof {
            lemma_key_index(self@, start);
        }
        match found {
            Some(i) => {
                self.entries.remove(i);
                self.entries.insert(i, (start, end));
                proof {
                    assert(self@ =~= spec_upsert(old(self)@, start, end));
                }
            },
            None => {
                self.entries.push((start, end));
            },
        }
    }

    /// Takes out the segment starting at `k` and returns its end.
    pub fn remove(&mut self, k: Vector2) -> (r: Option<Vector2>)
        ensures
            match r {
                Some(v) => has_key(old(self)@, k) && v == value_at(old(self)@, k) && final(self)@
                    == spec_remove(old(self)@, k),
                None => !has_key(old(self)@, k) && final(self)@ == old(self)@,
            },
    {
        let found = self.find(k);
        proof {
            lemma_key_index(self@, k);
        }
        match found {
            Some(i) => {
                let e = self.entries.remove(i);
                Some(e.1)
            },
            None => None,
        }
    }

    /// Takes out the earliest-inserted segment, if any.
    pub fn pop_first(&mut self) -> (r: Option<(Vector2, Vector2)>)
        ensures
            match r {
                Some(e) => old(self)@.len() > 0 && e == old(self)@[0] && final(self)@ == old(
                    self,
                )@.drop_first(),
                None => old(self)@.len() == 0 && final(self)@ == old(self)@,
            },
    {
        if self.entries.len() == 0 {
            return None;
        }
        let e = self.entries.remove(0);
        proof {
            assert(self@ =~= old(self)@.drop_first());
        }
        Some(e)
    }
}

/// Overwriting insertion keeps keys unique.
pub proof fn lemma_upsert_unique(es: Seq<(Vector2, Vector2)>, k: Vector2, v: Vector2)
    requires
        unique_keys(es),
    ensures
        unique_keys(spec_upsert(es, k, v)),
{
    lemma_key_index(es, k);
    let r = spec_upsert(es, k, v);
    let i = key_index(es, k);
    if i >= 0 {
        assert forall|a: int, b: int| 0 <= a < b < r.len() implies (#[trigger] r[a]).0 != (
        #[trigger] r[b]).0 by {
            assert(es[i].0 == k);
        }
    } else {
        assert forall|a: int, b: int| 0 <= a < b < r.len() implies (#[trigger] r[a]).0 != (
        #[trigger] r[b]).0 by {
            if b == es.len() {
                assert(r[a] == es[a]);
            }
        }
    }
}

/// Overwriting insertion of a proper segment keeps the map free of
/// self-loops.
pub proof fn lemma_upsert_no_self_loops(es: Seq<(Vector2, Vector2)>, k: Vector2, v: Vector2)
    requires
        no_self_loops(es),
        k != v,
    ensures
        no_self_loops(spec_upsert(es, k, v)),
{
    lemma_key_index(es, k);
}

} // verus!
