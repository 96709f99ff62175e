//! A bounded least-recently-used set of open data-file handles, keyed by
//! file number. The order runs from least to most recently used.
use vstd::prelude::*;

verus! {

/// The order after `id` has been used: a hit moves it to the back; a miss
/// appends it, first dropping the least recently used entry when full.
pub open spec fn touched(order: Seq<u32>, capacity: nat, id: u32) -> Seq<u32> {
    if order.contains(id) {
        order.remove(order.index_of(id)).push(id)
    } else if capacity == 0 {
        order
    } else if order.len() < capacity {
        order.push(id)
    } else {
        order.drop_first().push(id)
    }
}

/// The order after the handle of `id`, if cached, has been closed.
pub open spec fn without(order: Seq<u32>, id: u32) -> Seq<u32> {
    if order.contains(id) {
        order.remove(order.index_of(id))
    } else {
        order
    }
}

pub struct FileCache {
    pub capacity: usize,
    pub order: Vec<u32>,
}

proof fn lemma_remove_keeps_distinct(s: Seq<u32>, k: int)
    requires
        s.no_duplicates(),
        0 <= k < s.len(),
    ensures
        s.remove(k).no_duplicates(),
        !s.remove(k).contains(s[k]),
        forall|x: u32| s.remove(k).contains(x) <==> (s.contains(x) && x != s[k]),
{
    let r = s.remove(k);
    assert forall|x: u32| r.contains(x) <==> (s.contains(x) && x != s[k]) by {
        if r.contains(x) {
            let j = choose|j: int| 0 <= j < r.len() && r[j] == x;
            if j < k {
                assert(s[j] == x);
            } else {
                assert(s[j + 1] == x);
            }
        }
        if s.contains(x) && x != s[k] {
            let j = choose|j: int| 0 <= j < s.len() && s[j] == x;
            if j < k {
                assert(r[j] == x);
            } else {
                assert(r[j - 1] == x);
            }
        }
    }
}

proof fn lemma_push_contains(s: Seq<u32>, v: u32, y: u32)
    ensures
        s.push(v).contains(y) <==> (s.contains(y) || y == v),
{
    {
        if s.push(v).contains(y) {
            let j = choose|j: int| 0 <= j < s.push(v).len() && s.push(v)[j] == y;
            if j < s.len() {
                assert(s[j] == y);
            }
        }
        if s.contains(y) {
            let j = choose|j: int| 0 <= j < s.len() && s[j] == y;
            assert(s.push(v)[j] == y);
        }
        assert(s.push(v)[s.len() as int] == v);
    }
}

/// What is cached after a touch of `id`: `id` itself, or what was cached before.
pub proof fn lemma_touched_contains(order: Seq<u32>, capacity: nat, id: u32, x: u32)
    ensures
        touched(order, capacity, id).contains(x) ==> x == id || order.contains(x),
{
    let t = touched(order, capacity, id);
    if t.contains(x) && x != id {
        let j = choose|j: int| 0 <= j < t.len() && t[j] == x;
        if order.contains(id) {
            let k = order.index_of(id);
            if j < k {
                assert(order[j] == x);
            } else {
                assert(order[j + 1] == x);
            }
        } else if capacity == 0 {
        } else if order.len() < capacity {
            assert(order[j] == x);
        } else {
            assert(order[j + 1] == x);
        }
    }
}

impl FileCache {
    pub open spec fn wf(&self) -> bool {
        &&& self.order@.len() <= self.capacity
        &&& self.order@.no_duplicates()
    }

    /// Number of handles held open.
    pub open spec fn open_count(&self) -> nat {
        self.order@.len()
    }

    pub fn new(capacity: usize) -> (r: FileCache)
        ensures
            r.wf(),
            r.capacity == capacity,
            r.order@ == Seq::<u32>::empty(),
    {
        FileCache { capacity, order: Vec::new() }
    }

    /// Position of `id` in the order, if it is cached.
    fn position(&self, id: u32) -> (r: Option<usize>)
        requires
            self.wf(),
        ensures
            r.is_none() == !self.order@.contains(id),
            r matches Some(k) ==> k == self.order@.index_of(id) && k < self.order@.len()
                && self.order@[k as int] == id,
    {
        let mut i: usize = 0;
        while i < self.order.len()
            invariant
                self.wf(),
                i <= self.order@.len(),
                forall|j: int| 0 <= j < i ==> self.order@[j] != id,
            decreases self.order@.len() - i,
        {
            if self.order[i] == id {
                proof {
                    assert(self.order@[i as int] == id);
                    assert(self.order@.contains(id));
                    let k = self.order@.index_of(id);
                    assert(self.order@[k] == id);
                    assert(k == i);
                }
                return Some(i);
            }
            i += 1;
        }
        None
    }

    /// Marks `id` as used; returns whether its handle was already cached.
    pub fn touch(&mut self, id: u32) -> (hit: bool)
        requires
            old(self).wf(),
        ensures
            final(self).wf(),
            final(self).capacity == old(self).capacity,
            hit == old(self).order@.contains(id),
            final(self).order@ == touched(old(self).order@, old(self).capacity as nat, id),
    {
        match self.position(id) {
            Some(k) => {
                proof {
                    lemma_remove_keeps_distinct(self.order@, k as int);
                }
                self.order.remove(k);
                let ghost rem = self.order@;
                self.order.push(id);
                proof {
                    let o = self.order@;
                    assert forall|a: int, b: int| 0 <= a < b < o.len() implies o[a] != o[b] by {
                        if b == o.len() - 1 {
                            assert(rem[a] == o[a]);
                            assert(rem.contains(o[a]));
                        }
                    }
                }
                true
            },
            None => {
                if self.capacity == 0 {
                    return false;
                }
                if self.order.len() == self.capacity {
                    proof {
                        lemma_remove_keeps_distinct(self.order@, 0);
                    }
                    self.order.remove(0);
                    assert(self.order@ =~= old(self).order@.drop_first());
                }
                proof {
                    assert forall|x: u32| self.order@.contains(x) implies x != id by {
                        if x == id {
                            let j = choose|j: int| 0 <= j < self.order@.len() && self.order@[j] == x;
                            if self.order@.len() == old(self).order@.len() {
                                assert(old(self).order@[j] == x);
                            } else {
                                assert(old(self).order@[j + 1] == x);
                            }
                        }
                    }
                }
                let ghost before = self.order@;
                self.order.push(id);
                proof {
                    let o = self.order@;
                    assert forall|a: int, b: int| 0 <= a < b < o.len() implies o[a] != o[b] by {
                        if b == o.len() - 1 {
                            assert(before.contains(o[a]));
                        }
                    }
                }
                false
            },
        }
    }

    /// Closes the handle of `id`, if it is cached.
    pub fn invalidate(&mut self, id: u32)
        requires
            old(self).wf(),
        ensures
            final(self).wf(),
            final(self).capacity == old(self).capacity,
            final(self).order@ == without(old(self).order@, id),
            forall|x: u32| final(self).order@.contains(x) <==> (old(self).order@.contains(x) && x != id),
    {
        if let Some(k) = self.position(id) {
            proof {
                lemma_remove_keeps_distinct(self.order@, k as int);
            }
            self.order.remove(k);
        }
    }

    /// Closes every cached handle whose file number is `bound` or more.
    pub fn retain_below(&mut self, bound: u32)
        requires
            old(self).wf(),
        ensures
            final(self).wf(),
            final(self).capacity == old(self).capacity,
            forall|x: u32| final(self).order@.contains(x) <==> (old(self).order@.contains(x) && x < bound),
    {
        let mut kept: Vec<u32> = Vec::new();
        let mut i: usize = 0;
        while i < self.order.len()
            invariant
                self.wf(),
                i <= self.order@.len(),
                kept@.len() <= i,
                kept@.no_duplicates(),
                forall|x: u32| kept@.contains(x) <==> (self.order@.subrange(0, i as int).contains(x) && x < bound),
            decreases self.order@.len() - i,
        {
            let x = self.order[i];
            let ghost pre = kept@;
            if x < bound {
                proof {
                    if pre.contains(x) {
                        let j = choose|j: int| 0 <= j < i && self.order@.subrange(0, i as int)[j] == x;
                        assert(self.order@[j] == self.order@[i as int]);
                    }
                }
                kept.push(x);
                proof {
                    let o = kept@;
                    assert forall|a: int, b: int| 0 <= a < b < o.len() implies o[a] != o[b] by {
                        if b == o.len() - 1 {
                            assert(pre.contains(o[a]));
                        }
                    }
                }
            }
            proof {
                let s1 = self.order@.subrange(0, i + 1);
                let s0 = self.order@.subrange(0, i as int);
                assert(s1 =~= s0.push(x));
                assert forall|y: u32| kept@.contains(y) <==> (s1.contains(y) && y < bound) by {
                    lemma_push_contains(s0, x, y);
                    lemma_push_contains(pre, x, y);
                    assert(s1.contains(y) <==> (s0.contains(y) || y == x));
                    assert(pre.contains(y) <==> (s0.contains(y) && y < bound));
                    if x < bound {
                        assert(kept@ == pre.push(x));
                        assert(kept@.contains(y) <==> (pre.contains(y) || y == x));
                    }
                }
            }
            i += 1;
        }
        assert(self.order@.subrange(0, self.order@.len() as int) =~= self.order@);
        self.order = kept;
    }
}

} // verus!
