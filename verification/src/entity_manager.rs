use vstd::prelude::*;

use crate::component_storage::swap_removed;

verus! {

/// Hands out entity ids. Ids come from a counter that starts at 0; a
/// despawned id is kept and handed out again before the counter moves on,
/// the most recently despawned first.
pub struct EntityManager {
    alive: Vec<usize>,
    dead: Vec<usize>,
    next_id: usize,
}

/// What `spawn` does: `r` was not alive and joins the live ids; it is the
/// most recently despawned id if there is one, else the counter's value,
/// which then moves on.
pub open spec fn spawned(before: EntityManager, after: EntityManager, r: usize) -> bool {
    &&& !before.alive().contains(r)
    &&& after.alive() == before.alive().push(r)
    &&& before.dead().len() > 0 ==> {
        &&& r == before.dead().last()
        &&& after.dead() == before.dead().drop_last()
        &&& after.next_id() == before.next_id()
    }
    &&& before.dead().len() == 0 ==> {
        &&& r == before.next_id()
        &&& after.dead() == before.dead()
        &&& after.next_id() == before.next_id() + 1
    }
}

/// What `despawn(id)` does: `id` leaves the live ids (the last live id
/// takes its place) and joins the end of the ids waiting for reuse.
pub open spec fn despawned(before: EntityManager, after: EntityManager, id: usize) -> bool {
    &&& exists|i: int|
        0 <= i < before.alive().len() && before.alive()[i] == id && after.alive() == swap_removed(
            before.alive(),
            i,
        )
    &&& after.dead() == before.dead().push(id)
    &&& after.next_id() == before.next_id()
    &&& !after.alive().contains(id)
    &&& after.alive().to_set() == before.alive().to_set().remove(id)
}

impl EntityManager {
    /// The live ids, in the order the manager keeps them.
    pub closed spec fn alive(&self) -> Seq<usize> {
        self.alive@
    }

    /// The despawned ids waiting to be reused; the last is reused first.
    pub closed spec fn dead(&self) -> Seq<usize> {
        self.dead@
    }

    /// The next id the counter will produce.
    pub closed spec fn next_id(&self) -> nat {
        self.next_id as nat
    }

    /// Every id below the counter is either alive or dead, never both, and
    /// neither list repeats an id.
    pub closed spec fn well_formed(&self) -> bool {
        &&& self.alive@.no_duplicates()
        &&& self.dead@.no_duplicates()
        &&& forall|i: int, j: int|
            0 <= i < self.alive@.len() && 0 <= j < self.dead@.len() ==> #[trigger] self.alive@[i]
                != #[trigger] self.dead@[j]
        &&& forall|i: int| 0 <= i < self.alive@.len() ==> #[trigger] self.alive@[i] < self.next_id
        &&& forall|j: int| 0 <= j < self.dead@.len() ==> #[trigger] self.dead@[j] < self.next_id
        &&& self.alive@.len() + self.dead@.len() == self.next_id
    }

    /// Whether another id can be produced: one is waiting for reuse, or the
    /// counter has not reached the end of `usize`.
    pub open spec fn can_spawn(&self) -> bool {
        self.dead().len() > 0 || self.next_id() < usize::MAX
    }

    /// The live ids.
    pub fn as_slice(&self) -> (r: &[usize])
        ensures
            r@ == self.alive(),
    {
        self.alive.as_slice()
    }

    /// The despawned ids waiting to be reused; the last is reused first.
    pub fn recycled(&self) -> (r: &[usize])
        ensures
            r@ == self.dead(),
    {
        self.dead.as_slice()
    }

    /// Whether `id` is alive.
    pub fn contains(&self, id: usize) -> (r: bool)
        ensures
            r == self.alive().contains(id),
    {
        let mut i: usize = 0;
        while i < self.alive.len()
            invariant
                i <= self.alive@.len(),
                forall|j: int| 0 <= j < i ==> self.alive@[j] != id,
            decreases self.alive@.len() - i,
        {
            if self.alive[i] == id {
                return true;
            }
            i = i + 1;
        }
        false
    }

    /// Brings an id to life: the most recently despawned one if there is
    /// one, else the next value of the counter.
    pub fn spawn(&mut self) -> (r: usize)
        requires
            old(self).well_formed(),
            old(self).can_spawn(),
        ensures
            final(self).well_formed(),
            spawned(*old(self), *final(self), r),
    {
        let id = match self.dead.pop() {
            Some(id) => id,
            None => {
                let id = self.next_id;
                self.next_id = id + 1;
                id
            },
        };
        proof {
            if old(self).dead@.len() > 0 {
                let k = old(self).dead@.len() - 1;
                assert(old(self).dead@[k] == id);
                assert forall|i: int| 0 <= i < old(self).alive@.len() implies old(self).alive@[i] != id by {
                    assert(old(self).alive@[i] != old(self).dead@[k]);
                }
            } else {
                assert forall|i: int| 0 <= i < old(self).alive@.len() implies old(self).alive@[i] != id by {
                    assert(old(self).alive@[i] < old(self).next_id);
                }
            }
        }
        self.alive.push(id);
        proof {
            assert forall|i: int, j: int|
                0 <= i < self.alive@.len() && 0 <= j < self.dead@.len() implies #[trigger] self.alive@[i]
                != #[trigger] self.dead@[j] by {
                if old(self).dead@.len() > 0 {
                    assert(self.dead@[j] == old(self).dead@[j]);
                    if i < old(self).alive@.len() {
                        assert(self.alive@[i] == old(self).alive@[i]);
                    } else {
                        assert(old(self).dead@.no_duplicates());
                        assert(j != old(self).dead@.len() - 1);
                    }
                } else {
                    assert(self.dead@[j] == old(self).dead@[j]);
                    if i < old(self).alive@.len() {
                        assert(self.alive@[i] == old(self).alive@[i]);
                    } else {
                        assert(old(self).dead@[j] < old(self).next_id);
                    }
                }
            }
            assert(!old(self).alive@.contains(id));
        }
        id
    }

    /// Puts `id` to rest: it leaves the live ids (the last live id takes its
    /// place) and waits to be reused.
    pub fn despawn(&mut self, id: usize)
        requires
            old(self).well_formed(),
            old(self).alive().contains(id),
        ensures
            final(self).well_formed(),
            despawned(*old(self), *final(self), id),
    {
        let mut i: usize = 0;
        while self.alive[i] != id
            invariant
                i < self.alive.len(),
                self.alive@ == old(self).alive@,
                self.dead@ == old(self).dead@,
                self.next_id == old(self).next_id,
                old(self).alive@.contains(id),
                forall|j: int| 0 <= j < i ==> self.alive@[j] != id,
            decreases self.alive@.len() - i,
        {
            i = i + 1;
            assert(i < self.alive@.len()) by {
                let k = choose|k: int| 0 <= k < self.alive@.len() && self.alive@[k] == id;
                assert(k >= i);
            }
        }
        self.alive.swap_remove(i);
        self.dead.push(id);
        proof {
            let a = old(self).alive@;
            let n = a.len();
            let idx = i as int;
            assert(self.alive@ == swap_removed(a, idx));
            assert forall|p: int| 0 <= p < self.alive@.len() implies #[trigger] self.alive@[p] != id
                && a.contains(self.alive@[p]) by {
                if p == idx {
                    assert(self.alive@[p] == a[n - 1]);
                    assert(n - 1 != idx);
                } else {
                    assert(self.alive@[p] == a[p]);
                }
            }
            assert forall|p: int, q: int|
                0 <= p < self.alive@.len() && 0 <= q < self.alive@.len() && p != q implies self.alive@[p]
                != self.alive@[q] by {
                let pp = if p == idx { n - 1 } else { p };
                let qq = if q == idx { n - 1 } else { q };
                assert(self.alive@[p] == a[pp]);
                assert(self.alive@[q] == a[qq]);
                assert(pp != qq);
            }
            assert forall|p: int, q: int|
                0 <= p < self.alive@.len() && 0 <= q < self.dead@.len() implies #[trigger] self.alive@[p]
                != #[trigger] self.dead@[q] by {
                let pp = if p == idx { n - 1 } else { p };
                assert(self.alive@[p] == a[pp]);
                if q < old(self).dead@.len() {
                    assert(self.dead@[q] == old(self).dead@[q]);
                }
            }
            assert forall|q: int, r: int|
                0 <= q < self.dead@.len() && 0 <= r < self.dead@.len() && q != r implies self.dead@[q]
                != self.dead@[r] by {
                if q == old(self).dead@.len() {
                    assert(old(self).dead@[r] != a[idx]);
                } else if r == old(self).dead@.len() {
                    assert(old(self).dead@[q] != a[idx]);
                }
            }
            assert forall|p: int| 0 <= p < self.alive@.len() implies #[trigger] self.alive@[p] < self.next_id by {
                let pp = if p == idx { n - 1 } else { p };
                assert(self.alive@[p] == a[pp]);
            }
            assert(exists|i: int| 0 <= i < a.len() && a[i] == id && self.alive@ == swap_removed(a, i)) by {
                assert(a[idx] == id);
            }
            assert(self.alive@.to_set() =~= a.to_set().remove(id)) by {
                assert forall|x: usize| a.to_set().remove(id).contains(x) implies self.alive@.to_set().contains(x) by {
                    let p = choose|p: int| 0 <= p < n && a[p] == x;
                    if p == n - 1 {
                        assert(self.alive@[idx] == x);
                    } else {
                        assert(p != idx);
                        assert(self.alive@[p] == x);
                    }
                }
            }
        }
    }
}

/// Despawning then spawning puts the same id back: the id spawned is the one
/// just despawned, and the live ids (as a set), the ids waiting for reuse
/// and the counter are as they were.
pub proof fn law_despawn_then_spawn(m0: EntityManager, m1: EntityManager, m2: EntityManager, id: usize, r: usize)
    requires
        m0.well_formed(),
        m0.alive().contains(id),
        despawned(m0, m1, id),
        spawned(m1, m2, r),
    ensures
        r == id,
        m2.alive().to_set() == m0.alive().to_set(),
        m2.dead() == m0.dead(),
        m2.next_id() == m0.next_id(),
{
    assert(m1.dead().len() > 0);
    assert(m2.dead() =~= m0.dead());
    assert(m2.alive().to_set() =~= m0.alive().to_set()) by {
        assert forall|x: usize| m2.alive().to_set().contains(x) == m0.alive().to_set().contains(x) by {
            if x == id {
                assert(m2.alive()[m1.alive().len() as int] == id);
            } else if m2.alive().contains(x) {
                let p = choose|p: int| 0 <= p < m2.alive().len() && m2.alive()[p] == x;
                assert(m1.alive()[p] == x);
                assert(m1.alive().to_set().contains(x));
            } else if m0.alive().contains(x) {
                assert(m0.alive().to_set().contains(x));
                assert(m1.alive().to_set().contains(x));
                let p = choose|p: int| 0 <= p < m1.alive().len() && m1.alive()[p] == x;
                assert(m2.alive()[p] == x);
            }
        }
    }
}

/// Spawning then despawning the spawned id gives back the live ids (as a
/// set) that were there before, and the counter does not go back: the id
/// now waits for reuse.
pub proof fn law_spawn_then_despawn(m0: EntityManager, m1: EntityManager, m2: EntityManager, r: usize)
    requires
        m0.well_formed(),
        spawned(m0, m1, r),
        despawned(m1, m2, r),
    ensures
        m2.alive().to_set() == m0.alive().to_set(),
        !m2.alive().contains(r),
        m2.dead().last() == r,
{
    assert(m2.alive().to_set() =~= m0.alive().to_set()) by {
        assert forall|x: usize| m2.alive().to_set().contains(x) == m0.alive().to_set().contains(x) by {
            if x != r {
                if m1.alive().contains(x) {
                    let p = choose|p: int| 0 <= p < m1.alive().len() && m1.alive()[p] == x;
                    assert(p < m0.alive().len());
                    assert(m0.alive()[p] == x);
                }
                if m0.alive().contains(x) {
                    let p = choose|p: int| 0 <= p < m0.alive().len() && m0.alive()[p] == x;
                    assert(m1.alive()[p] == x);
                    assert(m1.alive().to_set().contains(x));
                }
            }
        }
    }
}

/// Ids are never shared and never lost: an id is never both alive and
/// waiting for reuse, neither list repeats one, and the ids in the two lists
/// are exactly those below the counter.
pub proof fn law_ids_partition(m: EntityManager, id: usize)
    requires
        m.well_formed(),
    ensures
        !(m.alive().contains(id) && m.dead().contains(id)),
        m.alive().no_duplicates(),
        m.dead().no_duplicates(),
        m.alive().len() + m.dead().len() == m.next_id(),
        m.alive().contains(id) || m.dead().contains(id) <==> id < m.next_id(),
{
    let a = m.alive().to_set();
    let d = m.dead().to_set();
    let u = a + d;
    m.alive().unique_seq_to_set();
    m.dead().unique_seq_to_set();
    assert(a.disjoint(d)) by {
        assert forall|x: usize| !(a.contains(x) && d.contains(x)) by {
            if a.contains(x) && d.contains(x) {
                let i = choose|i: int| 0 <= i < m.alive().len() && m.alive()[i] == x;
                let j = choose|j: int| 0 <= j < m.dead().len() && m.dead()[j] == x;
                assert(m.alive@[i] != m.dead@[j]);
            }
        }
    }
    vstd::set_lib::lemma_set_disjoint_lens(a, d);
    let f = |v: usize| v as int;
    let x = u.map(f);
    assert(vstd::relations::injective_on(f, u));
    vstd::set_lib::lemma_map_size(u, x, f);
    let range = vstd::set_lib::set_int_range(0, m.next_id() as int);
    vstd::set_lib::lemma_int_range(0, m.next_id() as int);
    assert(x.subset_of(range)) by {
        assert forall|v: int| x.contains(v) implies range.contains(v) by {
            let w = choose|w: usize| u.contains(w) && f(w) == v;
            if a.contains(w) {
                let i = choose|i: int| 0 <= i < m.alive().len() && m.alive()[i] == w;
                assert(m.alive@[i] < m.next_id);
            } else {
                let j = choose|j: int| 0 <= j < m.dead().len() && m.dead()[j] == w;
                assert(m.dead@[j] < m.next_id);
            }
        }
    }
    vstd::set_lib::lemma_subset_equality(x, range);
    if id < m.next_id() {
        assert(range.contains(id as int));
        assert(x.contains(id as int));
        let w = choose|w: usize| u.contains(w) && f(w) == id as int;
        assert(w == id);
        assert(a.contains(id) || d.contains(id));
    }
    if m.alive().contains(id) || m.dead().contains(id) {
        assert(u.contains(id));
        assert(x.contains(f(id)));
    }
    if m.alive().contains(id) && m.dead().contains(id) {
        let i = choose|i: int| 0 <= i < m.alive().len() && m.alive()[i] == id;
        let j = choose|j: int| 0 <= j < m.dead().len() && m.dead()[j] == id;
        assert(m.alive@[i] != m.dead@[j]);
    }
}

impl Default for EntityManager {
    fn default() -> (r: Self)
        ensures
            r.well_formed(),
            r.alive() == Seq::<usize>::empty(),
            r.dead() == Seq::<usize>::empty(),
            r.next_id() == 0,
    {
        EntityManager { alive: Vec::new(), dead: Vec::new(), next_id: 0 }
    }
}

} // verus!
