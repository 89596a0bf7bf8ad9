use vstd::prelude::*;

verus! {

/// Handle into a [`Slab`]: a slot position together with the generation that
/// was stamped when the slot was last (re)occupied.  A handle resolves only
/// while both still match, so a handle to a removed value can never resolve
/// to unrelated newer data placed in the same slot.
#[derive(Clone, Copy, Debug, PartialEq, Eq, Structural, PartialOrd, Ord, Hash)]
pub struct Index {
    pub index: usize,
    pub generation: u64,
}

/// One slot of the arena: either a value stamped with the generation current
/// at the time it was stored, or a vacant slot threaded on the free list.
pub enum Slot<T> {
    Occupied { data: T, generation: u64 },
    Vacant { next_free: usize },
}

/// A generational arena: a contiguous store of slots addressed by `Index`
/// handles.  Vacant slots are reused in last-freed-first order; each
/// successful removal advances the generation counter, which retires every
/// outstanding handle to the removed value.
pub struct Slab<T> {
    pub slots: Vec<Slot<T>>,
    /// Head of the free list; equal to `slots.len()` when no slot is free.
    pub next_free: usize,
    /// Current generation: stamped on inserted values, advanced on removal.
    pub generation: u64,
    /// Reported capacity of the backing store.
    pub cap: usize,
    /// Number of occupied slots.
    pub count: usize,
    /// The free list, spelled out: the vacant slot positions in pop order.
    pub free: Ghost<Seq<usize>>,
}

/// The generation counter after a successful removal: advanced by one,
/// held at the top of the range once it is reached.
pub open spec fn gen_bump(g: u64) -> u64 {
    if g < u64::MAX {
        (g + 1) as u64
    } else {
        g
    }
}

impl<T> Slab<T> {
    /// Number of slots, occupied or vacant.
    pub open spec fn spec_len(self) -> int {
        self.slots@.len() as int
    }

    /// The slot at `j` currently holds a value.
    pub open spec fn occupied(self, j: int) -> bool {
        0 <= j < self.spec_len() && self.slots@[j] is Occupied
    }

    /// `i` resolves: its slot holds a value stamped with `i`'s generation.
    pub open spec fn resolves(self, i: Index) -> bool {
        self.occupied(i.index as int) && self.slots@[i.index as int]->generation == i.generation
    }

    /// The value `i` resolves to (meaningful only when `resolves(i)`).
    pub open spec fn data_of(self, i: Index) -> T {
        self.slots@[i.index as int]->data
    }

    /// Number of occupied slots, as the length minus the free slots.
    pub open spec fn spec_count(self) -> int {
        self.spec_len() - self.free@.len()
    }

    /// Well-formedness: the free list enumerates exactly the vacant slots,
    /// without repetition, each threaded to the next; every stamped
    /// generation is at most the current one; the occupied count is kept in
    /// step.
    pub open spec fn wf(self) -> bool {
        &&& self.free@.no_duplicates()
        &&& forall|k: int|
            0 <= k < self.free@.len() ==> (#[trigger] self.free@[k]) < self.slots@.len()
                && self.slots@[self.free@[k] as int] is Vacant
        &&& forall|k: int|
            0 <= k < self.free@.len() ==> (#[trigger] self.slots@[self.free@[k] as int])->next_free
                == (if k + 1 < self.free@.len() {
                    self.free@[k + 1]
                } else {
                    self.slots@.len() as usize
                })
        &&& self.next_free == (if self.free@.len() > 0 {
            self.free@[0]
        } else {
            self.slots@.len() as usize
        })
        &&& forall|j: int|
            0 <= j < self.slots@.len() && self.slots@[j] is Vacant ==> self.free@.contains(
                j as usize,
            )
        &&& forall|j: int|
            0 <= j < self.slots@.len() && self.slots@[j] is Occupied ==> (
            #[trigger] self.slots@[j])->generation <= self.generation
        &&& self.slots@.len() <= self.cap
        &&& self.count == self.spec_count()
    }

    /// Creates an empty slab that reports the given capacity.
    pub fn new(capacity: usize) -> (r: Slab<T>)
        ensures
            r.wf(),
            r.spec_len() == 0,
            r.spec_count() == 0,
            r.generation == 0,
            r.cap == capacity,
            forall|i: Index| !r.resolves(i),
    {
        Slab {
            slots: Vec::with_capacity(capacity),
            next_free: 0,
            generation: 0,
            cap: capacity,
            count: 0,
            free: Ghost(Seq::empty()),
        }
    }

    /// Reported capacity of the backing store.
    pub fn capacity(&self) -> (r: usize)
        ensures
            r == self.cap,
    {
        self.cap
    }

    /// Number of values currently stored.
    pub fn len(&self) -> (r: usize)
        requires
            self.wf(),
        ensures
            r == self.spec_count(),
    {
        self.count
    }

    /// The generation counter as it stands.
    pub fn generation(&self) -> (r: u64)
        ensures
            r == self.generation,
    {
        self.generation
    }

    /// The free list never names more slots than exist; with one slot known
    /// occupied, it names strictly fewer.
    proof fn lemma_free_len_bounded(self, j: int)
        requires
            self.free@.no_duplicates(),
            forall|k: int|
                0 <= k < self.free@.len() ==> (#[trigger] self.free@[k]) < self.slots@.len()
                    && self.slots@[self.free@[k] as int] is Vacant,
        ensures
            self.free@.len() <= self.slots@.len(),
            self.occupied(j) ==> self.free@.len() < self.slots@.len(),
    {
        broadcast use vstd::seq_lib::group_seq_properties;

        let positions = Seq::new(self.slots@.len(), |p: int| p as usize);
        let occupied_j = self.occupied(j);
        let allowed = if occupied_j {
            positions.remove(j)
        } else {
            positions
        };
        assert forall|x: usize| self.free@.to_set().contains(x) implies allowed.to_set().contains(
            x,
        ) by {
            let k = choose|k: int| 0 <= k < self.free@.len() && self.free@[k] == x;
            assert(x < self.slots@.len());
            assert(self.slots@[x as int] is Vacant);
            if occupied_j {
                // x is vacant, j is occupied, so x != j; pick x's place in `allowed`.
                if (x as int) < j {
                    assert(allowed[x as int] == x);
                } else {
                    assert(allowed[x as int - 1] == x);
                }
                assert(allowed.contains(x));
            } else {
                assert(allowed[x as int] == x);
            }
        }
        self.free@.unique_seq_to_set();
        allowed.lemma_cardinality_of_set();
        broadcast use vstd::seq_lib::seq_to_set_is_finite;

        vstd::set_lib::lemma_len_subset(self.free@.to_set(), allowed.to_set());
    }

    /// Places `data` in the first free slot, or in a newly extended one, and
    /// returns a fresh handle stamped with the current generation.  No other
    /// slot changes, so every previously resolving handle still resolves to
    /// the same value, and every retired handle stays retired.
    pub fn insert(&mut self, data: T) -> (r: Index)
        requires
            old(self).wf(),
            old(self).spec_len() < usize::MAX,
        ensures
            final(self).wf(),
            final(self).generation == old(self).generation,
            final(self).cap >= old(self).cap,
            final(self).cap == (if final(self).spec_len() > old(self).cap {
                final(self).spec_len()
            } else {
                old(self).cap as int
            }),
            final(self).spec_count() == old(self).spec_count() + 1,
            r.generation == old(self).generation,
            r.index as int == (if old(self).next_free < old(self).slots@.len() {
                old(self).next_free as int
            } else {
                old(self).spec_len()
            }),
            final(self).spec_len() == (if old(self).next_free < old(self).slots@.len() {
                old(self).spec_len()
            } else {
                old(self).spec_len() + 1
            }),
            final(self).free@ == (if old(self).next_free < old(self).slots@.len() {
                old(self).free@.drop_first()
            } else {
                old(self).free@
            }),
            !old(self).resolves(r),
            !old(self).occupied(r.index as int),
            final(self).resolves(r),
            final(self).data_of(r) == data,
            forall|i: Index|
                i.index != r.index ==> (final(self).resolves(i) <==> old(self).resolves(i)),
            forall|i: Index|
                i.index != r.index && final(self).resolves(i) ==> final(self).data_of(i) == old(self).data_of(i),
            forall|i: Index| i.index == r.index && i != r ==> !final(self).resolves(i),
    {
        let len = self.slots.len();
        if self.next_free < len {
            let idx = self.next_free;
            let nf: usize = match &self.slots[idx] {
                Slot::Vacant { next_free } => *next_free,
                Slot::Occupied { .. } => unreached(),
            };
            self.slots[idx] = Slot::Occupied { data, generation: self.generation };
            self.next_free = nf;
            proof {
                self.free@ = self.free@.drop_first();
            }
            self.count = self.count + 1;
            proof {
                let oldf = old(self).free@;
                let newf = self.free@;
                assert(newf.len() == oldf.len() - 1);
                assert(forall|k: int| 0 <= k < newf.len() ==> newf[k] == oldf[k + 1]);
                assert(newf.no_duplicates()) by {
                    assert forall|k1: int, k2: int|
                        0 <= k1 < newf.len() && 0 <= k2 < newf.len() && k1 != k2 implies newf[k1]
                        != newf[k2] by {
                        assert(oldf[k1 + 1] != oldf[k2 + 1]);
                    }
                }
                assert forall|k: int| 0 <= k < newf.len() implies (#[trigger] newf[k])
                    < self.slots@.len() && self.slots@[newf[k] as int] is Vacant by {
                    assert(oldf[k + 1] != oldf[0]);
                    assert(old(self).slots@[oldf[k + 1] as int] is Vacant);
                }
                assert forall|k: int| 0 <= k < newf.len() implies (
                #[trigger] self.slots@[newf[k] as int])->next_free == (if k + 1 < newf.len() {
                    newf[k + 1]
                } else {
                    self.slots@.len() as usize
                }) by {
                    assert(oldf[k + 1] != oldf[0]);
                    assert(old(self).slots@[oldf[k + 1] as int]->next_free == (if k + 2
                        < oldf.len() {
                        oldf[k + 2]
                    } else {
                        old(self).slots@.len() as usize
                    }));
                }
                assert forall|j: int|
                    0 <= j < self.slots@.len() && self.slots@[j] is Vacant implies self.free@
                    .contains(j as usize) by {
                    assert(oldf.contains(j as usize));
                    let k = choose|k: int| 0 <= k < oldf.len() && oldf[k] == j as usize;
                    assert(k != 0);
                    assert(self.free@[k - 1] == j as usize);
                }
            }
            Index { index: idx, generation: self.generation }
        } else {
            self.slots.push(Slot::Occupied { data, generation: self.generation });
            let idx = len;
            self.next_free = self.slots.len();
            self.count = self.count + 1;
            if self.cap < self.slots.len() {
                self.cap = self.slots.len();
            }
            proof {
                assert(old(self).free@.len() == 0) by {
                    if old(self).free@.len() > 0 {
                        assert(old(self).free@[0] < old(self).slots@.len());
                    }
                }
                assert forall|j: int|
                    0 <= j < self.slots@.len() && self.slots@[j] is Vacant implies self.free@
                    .contains(j as usize) by {
                    assert(j < old(self).slots@.len());
                }
            }
            Index { index: idx, generation: self.generation }
        }
    }

    /// Looks the handle up: the value is returned only when the slot is
    /// occupied and the stamped generation matches; otherwise nothing, and
    /// never a wrong value.
    pub fn get(&self, index: Index) -> (r: Option<&T>)
        ensures
            match r {
                Some(v) => self.resolves(index) && *v == self.data_of(index),
                None => !self.resolves(index),
            },
    {
        if index.index >= self.slots.len() {
            return None;
        }
        match &self.slots[index.index] {
            Slot::Occupied { data, generation } => {
                if *generation == index.generation {
                    Some(data)
                } else {
                    None
                }
            },
            Slot::Vacant { .. } => None,
        }
    }

    /// Like [`Self::get`], but the value may be changed through the returned
    /// reference.  Only the data of the addressed slot can change; occupancy,
    /// generations and the free list stay as they were.
    pub fn get_mut(&mut self, index: Index) -> (r: Option<&mut T>)
        ensures
            match r {
                Some(v) => {
                    &&& old(self).resolves(index)
                    &&& *v == old(self).data_of(index)
                    &&& final(self).slots@ == old(self).slots@.update(
                        index.index as int,
                        Slot::Occupied { data: *final(v), generation: index.generation },
                    )
                    &&& final(self).next_free == old(self).next_free
                    &&& final(self).generation == old(self).generation
                    &&& final(self).cap == old(self).cap
                    &&& final(self).count == old(self).count
                    &&& final(self).free@ == old(self).free@
                },
                None => {
                    &&& !old(self).resolves(index)
                    &&& *final(self) == *old(self)
                },
            },
    {
        if index.index >= self.slots.len() {
            return None;
        }
        let gen_matches = match &self.slots[index.index] {
            Slot::Occupied { generation, .. } => *generation == index.generation,
            Slot::Vacant { .. } => false,
        };
        if !gen_matches {
            return None;
        }
        match &mut self.slots[index.index] {
            Slot::Occupied { data, .. } => Some(data),
            Slot::Vacant { .. } => unreached(),
        }
    }

    /// Freeing an occupied slot onto the front of the free list keeps the
    /// slab well formed.
    proof fn lemma_remove_wf(pre: Slab<T>, post: Slab<T>, idx: usize)
        requires
            pre.wf(),
            pre.occupied(idx as int),
            post.slots@ == pre.slots@.update(idx as int, Slot::Vacant { next_free: pre.next_free }),
            post.free@ == seq![idx].add(pre.free@),
            post.next_free == idx,
            post.generation == gen_bump(pre.generation),
            post.cap == pre.cap,
            post.count == pre.count - 1,
        ensures
            post.wf(),
    {
        let oldf = pre.free@;
        let newf = post.free@;
        assert(newf.len() == oldf.len() + 1);
        assert(newf[0] == idx);
        assert(forall|k: int| 0 <= k < oldf.len() ==> newf[k + 1] == oldf[k]);
        assert(forall|k: int| 0 <= k < oldf.len() ==> oldf[k] != idx) by {
            assert(pre.slots@[idx as int] is Occupied);
        }
        assert(newf.no_duplicates()) by {
            assert forall|k1: int, k2: int|
                0 <= k1 < newf.len() && 0 <= k2 < newf.len() && k1 != k2 implies newf[k1]
                != newf[k2] by {
                if k1 != 0 && k2 != 0 {
                    assert(oldf[k1 - 1] != oldf[k2 - 1]);
                }
            }
        }
        assert forall|k: int| 0 <= k < newf.len() implies (#[trigger] newf[k])
            < post.slots@.len() && post.slots@[newf[k] as int] is Vacant by {
            if k != 0 {
                assert(pre.slots@[oldf[k - 1] as int] is Vacant);
                assert(oldf[k - 1] != idx);
            }
        }
        assert forall|k: int| 0 <= k < newf.len() implies (
        #[trigger] post.slots@[newf[k] as int])->next_free == (if k + 1 < newf.len() {
            newf[k + 1]
        } else {
            post.slots@.len() as usize
        }) by {
            if k == 0 {
                assert(post.slots@[idx as int]->next_free == pre.next_free);
            } else {
                assert(oldf[k - 1] != idx);
                assert(pre.slots@[oldf[k - 1] as int]->next_free == (if k < oldf.len() {
                    oldf[k]
                } else {
                    pre.slots@.len() as usize
                }));
            }
        }
        assert forall|j: int|
            0 <= j < post.slots@.len() && post.slots@[j] is Vacant implies post.free@.contains(
            j as usize,
        ) by {
            if j == idx as int {
                assert(post.free@[0] == idx);
            } else {
                assert(oldf.contains(j as usize));
                let k = choose|k: int| 0 <= k < oldf.len() && oldf[k] == j as usize;
                assert(post.free@[k + 1] == j as usize);
            }
        }
    }

    /// Frees the slot if the handle currently resolves and returns its value;
    /// otherwise nothing happens.  A successful removal advances the
    /// generation counter, so the removed handle — and any other handle to
    /// that slot — can never resolve again, while unrelated handles are
    /// untouched.
    #[verifier::rlimit(50)]
    pub fn try_remove(&mut self, index: Index) -> (r: Option<T>)
        requires
            old(self).wf(),
        ensures
            final(self).wf(),
            final(self).cap == old(self).cap,
            final(self).spec_len() == old(self).spec_len(),
            match r {
                Some(v) => {
                    &&& old(self).resolves(index)
                    &&& v == old(self).data_of(index)
                    &&& !final(self).resolves(index)
                    &&& final(self).spec_count() == old(self).spec_count() - 1
                    &&& final(self).generation == gen_bump(old(self).generation)
                    &&& final(self).free@ == seq![index.index].add(old(self).free@)
                    &&& final(self).next_free == index.index
                    &&& forall|i: Index|
                        i.index != index.index ==> (final(self).resolves(i) <==> old(self).resolves(
                            i,
                        ))
                    &&& forall|i: Index|
                        i.index != index.index && final(self).resolves(i) ==> final(self).data_of(i)
                            == old(self).data_of(i)
                    &&& forall|i: Index| i.index == index.index ==> !final(self).resolves(i)
                },
                None => {
                    &&& !old(self).resolves(index)
                    &&& *final(self) == *old(self)
                },
            },
    {
        if index.index >= self.slots.len() {
            return None;
        }
        let is_match = match &self.slots[index.index] {
            Slot::Occupied { generation, .. } => *generation == index.generation,
            Slot::Vacant { .. } => false,
        };
        if !is_match {
            return None;
        }
        proof {
            self.lemma_free_len_bounded(index.index as int);
        }
        let mut slot = Slot::Vacant { next_free: self.next_free };
        let slot_ref = &mut self.slots[index.index];
        core::mem::swap(slot_ref, &mut slot);
        self.next_free = index.index;
        self.count = self.count - 1;
        if self.generation < u64::MAX {
            self.generation = self.generation + 1;
        }
        proof {
            self.free@ = seq![index.index].add(old(self).free@);
            Self::lemma_remove_wf(*old(self), *self, index.index);
        }
        match slot {
            Slot::Occupied { data, .. } => Some(data),
            Slot::Vacant { .. } => unreached(),
        }
    }

    /// Splits the positions of a store prefix into its occupied and vacant
    /// listings, both ascending and duplicate-free.
    proof fn lemma_split_positions(s: Seq<Slot<T>>, n: int) -> (r: (Seq<int>, Seq<int>))
        requires
            0 <= n <= s.len(),
        ensures
            r.0.no_duplicates(),
            r.1.no_duplicates(),
            r.0.len() + r.1.len() == n,
            forall|k: int| 0 <= k < r.0.len() ==> 0 <= #[trigger] r.0[k] < n && s[r.0[k]] is Occupied,
            forall|k: int| 0 <= k < r.1.len() ==> 0 <= #[trigger] r.1[k] < n && s[r.1[k]] is Vacant,
            forall|j: int| 0 <= j < n && s[j] is Occupied ==> r.0.contains(j),
            forall|j: int| 0 <= j < n && s[j] is Vacant ==> r.1.contains(j),
        decreases n,
    {
        if n == 0 {
            (Seq::empty(), Seq::empty())
        } else {
            let r0 = Self::lemma_split_positions(s, n - 1);
            let occ = r0.0;
            let vac = r0.1;
            assert(occ.len() + vac.len() == n - 1);
            if s[n - 1] is Occupied {
                let r = (occ.push(n - 1), vac);
                assert(forall|k: int| 0 <= k < occ.len() ==> r.0[k] == occ[k]);
                assert(r.0[occ.len() as int] == n - 1);
                assert forall|j: int| 0 <= j < n && s[j] is Occupied implies r.0.contains(j) by {
                    if j < n - 1 {
                        assert(occ.contains(j));
                        let k = choose|k: int| 0 <= k < occ.len() && occ[k] == j;
                        assert(r.0[k] == j);
                    } else {
                        assert(r.0[occ.len() as int] == j);
                    }
                }
                r
            } else {
                let r = (occ, vac.push(n - 1));
                assert(forall|k: int| 0 <= k < vac.len() ==> r.1[k] == vac[k]);
                assert(r.1[vac.len() as int] == n - 1);
                assert forall|j: int| 0 <= j < n && s[j] is Vacant implies r.1.contains(j) by {
                    if j < n - 1 {
                        assert(vac.contains(j));
                        let k = choose|k: int| 0 <= k < vac.len() && vac[k] == j;
                        assert(r.1[k] == j);
                    } else {
                        assert(r.1[vac.len() as int] == j);
                    }
                }
                r
            }
        }
    }

    /// Two duplicate-free listings of exactly the vacant slots have equal
    /// length.
    proof fn lemma_vacancy_listings_agree(a: Seq<int>, b: Seq<usize>, slots: Seq<Slot<T>>)
        requires
            a.no_duplicates(),
            b.no_duplicates(),
            forall|k: int|
                0 <= k < a.len() ==> 0 <= (#[trigger] a[k]) < slots.len() && slots[a[k]]
                    is Vacant,
            forall|k: int|
                0 <= k < b.len() ==> (#[trigger] b[k]) < slots.len() && slots[b[k] as int]
                    is Vacant,
            forall|j: int| 0 <= j < slots.len() && slots[j] is Vacant ==> a.contains(j),
            forall|j: int| 0 <= j < slots.len() && slots[j] is Vacant ==> b.contains(j as usize),
            slots.len() <= usize::MAX,
        ensures
            a.len() == b.len(),
    {
        broadcast use vstd::seq_lib::seq_to_set_is_finite;

        let bi = b.map_values(|x: usize| x as int);
        assert(bi.no_duplicates()) by {
            assert forall|k1: int, k2: int|
                0 <= k1 < bi.len() && 0 <= k2 < bi.len() && k1 != k2 implies bi[k1] != bi[k2] by {
                assert(b[k1] != b[k2]);
            }
        }
        a.unique_seq_to_set();
        bi.unique_seq_to_set();
        assert(a.to_set() =~= bi.to_set()) by {
            assert forall|x: int| a.to_set().contains(x) implies bi.to_set().contains(x) by {
                assert(a.contains(x));
                let k = choose|k: int| 0 <= k < a.len() && a[k] == x;
                assert(0 <= x < slots.len() && slots[x] is Vacant);
                assert(b.contains(x as usize));
                let k2 = choose|k2: int| 0 <= k2 < b.len() && b[k2] == x as usize;
                assert(bi[k2] == b[k2] as int);
                assert(bi[k2] == x);
                assert(bi.contains(x));
            }
            assert forall|x: int| bi.to_set().contains(x) implies a.to_set().contains(x) by {
                assert(bi.contains(x));
                let k = choose|k: int| 0 <= k < bi.len() && bi[k] == x;
                assert(bi[k] == b[k] as int);
                assert(slots[b[k] as int] is Vacant);
                assert(a.contains(x));
            }
        }
    }

    /// A well-formed slab's occupied count equals the length of any exact
    /// listing of its occupied positions.
    pub proof fn lemma_occupied_listing(self) -> (occ: Seq<int>)
        requires
            self.wf(),
        ensures
            occ.no_duplicates(),
            forall|k: int|
                0 <= k < occ.len() ==> 0 <= #[trigger] occ[k] < self.slots@.len()
                    && self.occupied(occ[k]),
            forall|j: int| self.occupied(j) ==> occ.contains(j),
            occ.len() == self.spec_count(),
    {
        let r0 = Self::lemma_split_positions(self.slots@, self.slots@.len() as int);
        Self::lemma_vacancy_listings_agree(r0.1, self.free@, self.slots@);
        r0.0
    }

    /// Tells whether the store ends in a vacant slot.
    fn last_slot_is_vacant(&self) -> (r: bool)
        ensures
            r == (self.slots@.len() > 0 && self.slots@[self.slots@.len() - 1] is Vacant),
    {
        let len = self.slots.len();
        if len == 0 {
            return false;
        }
        match &self.slots[len - 1] {
            Slot::Vacant { .. } => true,
            Slot::Occupied { .. } => false,
        }
    }

    /// Shrinks the backing store as far as possible without moving any
    /// occupied slot: trailing vacant slots are dropped and the free list is
    /// rebuilt over the remaining vacancies in ascending order, so the
    /// reported capacity falls to one past the last occupied slot (zero when
    /// the slab is empty).  Every handle resolves exactly as before.
    #[verifier::rlimit(100)]
    pub fn shrink_to_fit(&mut self)
        requires
            old(self).wf(),
        ensures
            final(self).wf(),
            final(self).generation == old(self).generation,
            final(self).spec_count() == old(self).spec_count(),
            final(self).spec_len() <= old(self).spec_len(),
            final(self).cap == final(self).spec_len(),
            final(self).spec_len() == 0 || final(self).occupied(final(self).spec_len() - 1),
            forall|j: int| old(self).occupied(j) ==> j < final(self).spec_len(),
            forall|i: Index| final(self).resolves(i) <==> old(self).resolves(i),
            forall|i: Index|
                #[trigger] final(self).resolves(i) ==> final(self).data_of(i) == old(self).data_of(
                    i,
                ),
    {
        let ghost pre = *old(self);
        // Drop trailing vacant slots.
        while self.last_slot_is_vacant()
            invariant
                pre.wf(),
                self.generation == pre.generation,
                self.next_free == pre.next_free,
                self.count == pre.count,
                self.free@ == pre.free@,
                self.cap == pre.cap,
                self.slots@.len() <= pre.slots@.len(),
                self.slots@ == pre.slots@.subrange(0, self.slots@.len() as int),
                forall|j: int| pre.occupied(j) ==> j < self.slots@.len(),
            decreases self.slots@.len(),
        {
            self.slots.pop();
            proof {
                assert(self.slots@ == pre.slots@.subrange(0, self.slots@.len() as int));
            }
        }
        proof {
            assert(self.slots@.len() == 0 || self.slots@[self.slots@.len() - 1] is Occupied);
        }
        // Rebuild the free list over the remaining vacancies, lowest slot
        // first.
        let new_len = self.slots.len();
        self.cap = new_len;
        self.next_free = new_len;
        proof {
            self.free@ = Seq::empty();
        }
        let mut i = new_len;
        while i > 0
            invariant
                pre.wf(),
                self.generation == pre.generation,
                self.count == pre.count,
                self.cap == self.slots@.len(),
                0 <= i <= self.slots@.len(),
                self.slots@.len() <= pre.slots@.len(),
                forall|j: int| pre.occupied(j) ==> j < self.slots@.len(),
                self.slots@.len() == 0 || self.slots@[self.slots@.len() - 1] is Occupied,
                // Slots keep their occupancy; only vacant threading changes.
                self.slots@.len() == (if new_len == 0 {
                    0int
                } else {
                    new_len as int
                }),
                forall|j: int|
                    0 <= j < self.slots@.len() ==> ((#[trigger] self.slots@[j]) is Occupied
                        <==> pre.slots@[j] is Occupied),
                forall|j: int|
                    0 <= j < self.slots@.len() && self.slots@[j] is Occupied ==> self.slots@[j]
                        == pre.slots@[j],
                // The rebuilt list holds exactly the vacancies at or beyond
                // `i`, ascending and threaded.
                self.free@.no_duplicates(),
                forall|k: int|
                    0 <= k < self.free@.len() ==> i <= (#[trigger] self.free@[k])
                        < self.slots@.len() && self.slots@[self.free@[k] as int] is Vacant,
                forall|k1: int, k2: int|
                    0 <= k1 < k2 < self.free@.len() ==> self.free@[k1] < self.free@[k2],
                forall|j: int|
                    i <= j < self.slots@.len() && self.slots@[j] is Vacant ==> self.free@.contains(
                        j as usize,
                    ),
                forall|k: int|
                    0 <= k < self.free@.len() ==> (#[trigger] self.slots@[self.free@[k] as int])->next_free
                        == (if k + 1 < self.free@.len() {
                        self.free@[k + 1]
                    } else {
                        self.slots@.len() as usize
                    }),
                self.next_free == (if self.free@.len() > 0 {
                    self.free@[0]
                } else {
                    self.slots@.len() as usize
                }),
            decreases i,
        {
            i = i - 1;
            let is_vacant = match &self.slots[i] {
                Slot::Vacant { .. } => true,
                Slot::Occupied { .. } => false,
            };
            if is_vacant {
                let ghost oldf = self.free@;
                let nf = self.next_free;
                self.slots[i] = Slot::Vacant { next_free: nf };
                self.next_free = i;
                proof {
                    self.free@ = seq![i].add(oldf);
                    assert(forall|k: int| 0 <= k < oldf.len() ==> self.free@[k + 1] == oldf[k]);
                    assert forall|j: int|
                        i <= j < self.slots@.len() && self.slots@[j] is Vacant implies self.free@
                        .contains(j as usize) by {
                        if j == i as int {
                            assert(self.free@[0] == i);
                        } else {
                            assert(oldf.contains(j as usize));
                            let k = choose|k: int| 0 <= k < oldf.len() && oldf[k] == j as usize;
                            assert(self.free@[k + 1] == j as usize);
                        }
                    }
                }
            }
        }
        proof {
            // The list enumerates every vacancy exactly once, so the count
            // bookkeeping still balances.
            Self::lemma_vacancy_count(pre, *self);
        }
    }

    /// With the same occupancy pattern on the kept prefix and only vacant
    /// slots trimmed, the new vacancy listing is shorter by exactly the
    /// number of trimmed slots, so the occupied count still balances.
    proof fn lemma_vacancy_count(pre: Slab<T>, post: Slab<T>)
        requires
            pre.wf(),
            post.count == pre.count,
            post.slots@.len() <= pre.slots@.len(),
            forall|j: int| pre.occupied(j) ==> j < post.slots@.len(),
            forall|j: int|
                0 <= j < post.slots@.len() ==> ((#[trigger] post.slots@[j]) is Occupied
                    <==> pre.slots@[j] is Occupied),
            post.free@.no_duplicates(),
            forall|k: int|
                0 <= k < post.free@.len() ==> (#[trigger] post.free@[k]) < post.slots@.len()
                    && post.slots@[post.free@[k] as int] is Vacant,
            forall|j: int|
                0 <= j < post.slots@.len() && post.slots@[j] is Vacant ==> post.free@.contains(
                    j as usize,
                ),
        ensures
            post.count == post.spec_len() - post.free@.len(),
    {
        broadcast use vstd::seq_lib::seq_to_set_is_finite;

        let pn = post.slots@.len() as int;
        let on = pre.slots@.len() as int;
        let tail_vac = Seq::new((on - pn) as nat, |t: int| (pn + t) as usize);
        assert(forall|t: int| 0 <= t < tail_vac.len() ==> tail_vac[t] == (pn + t) as usize);
        assert(tail_vac.no_duplicates()) by {
            assert forall|a: int, b: int|
                0 <= a < tail_vac.len() && 0 <= b < tail_vac.len() && a != b implies tail_vac[a]
                != tail_vac[b] by {}
        }
        pre.free@.unique_seq_to_set();
        post.free@.unique_seq_to_set();
        tail_vac.unique_seq_to_set();
        assert(pre.free@.to_set() =~= post.free@.to_set() + tail_vac.to_set()) by {
            assert forall|x: usize| #[trigger] pre.free@.to_set().contains(x) implies (
            post.free@.to_set() + tail_vac.to_set()).contains(x) by {
                let k = choose|k: int| 0 <= k < pre.free@.len() && pre.free@[k] == x;
                assert(pre.slots@[x as int] is Vacant);
                if (x as int) < pn {
                    assert(post.slots@[x as int] is Vacant);
                    assert(post.free@.contains(x));
                } else {
                    assert(tail_vac[x as int - pn] == x);
                    assert(tail_vac.contains(x));
                }
            }
            assert forall|x: usize| (post.free@.to_set() + tail_vac.to_set()).contains(
                x,
            ) implies #[trigger] pre.free@.to_set().contains(x) by {
                if post.free@.to_set().contains(x) {
                    let k = choose|k: int| 0 <= k < post.free@.len() && post.free@[k] == x;
                    assert(post.slots@[x as int] is Vacant);
                    assert(pre.slots@[x as int] is Vacant);
                    assert(pre.free@.contains(x));
                } else {
                    let t = choose|t: int| 0 <= t < tail_vac.len() && tail_vac[t] == x;
                    assert(x as int == pn + t);
                    assert(!pre.occupied(pn + t));
                    assert(pre.slots@[pn + t] is Vacant);
                    assert(pre.free@.contains(x));
                }
            }
        }
        assert(post.free@.to_set().disjoint(tail_vac.to_set())) by {
            assert forall|x: usize| post.free@.to_set().contains(x) implies !tail_vac.to_set()
                .contains(x) by {
                let k = choose|k: int| 0 <= k < post.free@.len() && post.free@[k] == x;
                assert((x as int) < pn);
                if tail_vac.contains(x) {
                    let t = choose|t: int| 0 <= t < tail_vac.len() && tail_vac[t] == x;
                }
            }
        }
        vstd::set_lib::lemma_set_disjoint_lens(post.free@.to_set(), tail_vac.to_set());
        assert(pre.free@.len() == post.free@.len() + (on - pn));
    }

}

/// A handle that once stopped resolving never resolves again: a later
/// insertion stamps the reused slot with the current generation counter,
/// which a retired handle's stamp can no longer match.
pub proof fn lemma_retired_handle_stays_retired<T>(pre: Slab<T>, post: Slab<T>, h: Index, r: Index)
    requires
        pre.wf(),
        !pre.resolves(h),
        h.generation < pre.generation,
        post.wf(),
        post.generation == pre.generation,
        r.generation == pre.generation,
        forall|i: Index| i.index != r.index ==> (post.resolves(i) <==> pre.resolves(i)),
        forall|i: Index| i.index == r.index && i != r ==> !post.resolves(i),
    ensures
        !post.resolves(h),
        h != r,
{
}

} // verus!
