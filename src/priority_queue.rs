use vstd::prelude::*;
use vstd::multiset::Multiset;

verus! {

broadcast use {vstd::seq_lib::group_seq_properties, vstd::multiset::group_multiset_properties};

/// Anything that can report a priority for a `PriorityQueue`.
pub trait Priority {
    spec fn spec_priority(&self) -> i32;

    fn priority(&self) -> (r: i32)
        ensures
            r == self.spec_priority(),
    ;
}

impl Priority for i32 {
    open spec fn spec_priority(&self) -> i32 {
        *self
    }

    fn priority(&self) -> (r: i32) {
        *self
    }
}

#[derive(PartialEq, Eq, Structural, Clone, Copy, Debug)]
pub enum PriorityType {
    Max,
    Min,
}

/// Whether a queue in `mode` may hand out priority `a` no later than `b`.
pub open spec fn prefers(mode: PriorityType, a: i32, b: i32) -> bool {
    match mode {
        PriorityType::Max => a >= b,
        PriorityType::Min => a <= b,
    }
}

pub open spec fn parent_of(i: int) -> int {
    (i - 1) / 2
}

pub open spec fn prios<T: Priority>(s: Seq<T>) -> Seq<i32> {
    s.map_values(|x: T| x.spec_priority())
}

/// Binary-heap order over a sequence of priorities.
pub open spec fn heap_ordered(p: Seq<i32>, mode: PriorityType) -> bool {
    forall|i: int| 0 < i < p.len() ==> #[trigger] prefers(mode, p[parent_of(i)], p[i])
}

/// Heap order everywhere except possibly between `k` and its parent; the parent of `k`
/// dominates the children of `k`.
pub open spec fn heap_below(p: Seq<i32>, mode: PriorityType, k: int) -> bool {
    &&& forall|i: int| 0 < i < p.len() && i != k ==> #[trigger] prefers(mode, p[parent_of(i)], p[i])
    &&& k > 0 ==> forall|i: int|
        0 < i < p.len() && parent_of(i) == k ==> #[trigger] prefers(mode, p[parent_of(k)], p[i])
}

pub struct PriorityQueue<T: Priority> {
    storage: Vec<T>,
    queue_type: PriorityType,
}

fn parent_index(index: usize) -> (r: Option<usize>)
    ensures
        index == 0 ==> r is None,
        index > 0 ==> r == Some(parent_of(index as int) as usize),
{
    if index == 0 {
        return None;
    }
    Some((index - 1) / 2)
}

fn child_indices(index: usize) -> (r: (usize, usize))
    requires
        index <= (usize::MAX - 2) / 2,
    ensures
        r.0 == 2 * index + 1,
        r.1 == 2 * index + 2,
{
    let left = 2 * index + 1;
    (left, left + 1)
}

/// Exchanges two elements of a vector.
/// Relies on `<[T]>::swap`, which exchanges the elements at the two indices.
#[verifier::external_body]
fn swap_items<T>(v: &mut Vec<T>, a: usize, b: usize)
    requires
        a < old(v)@.len(),
        b < old(v)@.len(),
    ensures
        final(v)@ == old(v)@.update(a as int, old(v)@[b as int]).update(b as int, old(v)@[a as int]),
{
    v.swap(a, b)
}

proof fn lemma_swap<T: Priority>(s: Seq<T>, a: int, b: int)
    requires
        0 <= a < s.len(),
        0 <= b < s.len(),
    ensures
        ({
            let t = s.update(a, s[b]).update(b, s[a]);
            &&& t.to_multiset() == s.to_multiset()
            &&& prios(t) == prios(s).update(a, prios(s)[b]).update(b, prios(s)[a])
        }),
{
    broadcast use vstd::seq_lib::to_multiset_update;

    let t = s.update(a, s[b]).update(b, s[a]);
    assert(prios(t) =~= prios(s).update(a, prios(s)[b]).update(b, prios(s)[a]));
    let m = s.update(a, s[b]);
    assert(m.to_multiset() == s.to_multiset().insert(s[b]).remove(s[a]));
    assert(t.to_multiset() == m.to_multiset().insert(s[a]).remove(m[b]));
    assert(t.to_multiset() =~= s.to_multiset());
}

impl<T: Priority> PriorityQueue<T> {
    /// The items in storage order.
    pub closed spec fn items(&self) -> Seq<T> {
        self.storage@
    }

    pub closed spec fn mode(&self) -> PriorityType {
        self.queue_type
    }

    pub open spec fn contents(&self) -> Multiset<T> {
        self.items().to_multiset()
    }

    /// The heap property holds over the stored items.
    pub open spec fn wf(&self) -> bool {
        heap_ordered(prios(self.items()), self.mode())
    }

    pub fn new(queue_type: PriorityType) -> (r: PriorityQueue<T>)
        ensures
            r.wf(),
            r.items() == Seq::<T>::empty(),
            r.mode() == queue_type,
    {
        PriorityQueue { storage: Vec::new(), queue_type }
    }

    pub fn from_vec(vec: Vec<T>, queue_type: PriorityType) -> (r: PriorityQueue<T>)
        ensures
            r.wf(),
            r.contents() == vec@.to_multiset(),
            r.items().len() == vec@.len(),
            r.mode() == queue_type,
    {
        let mut q = PriorityQueue { storage: vec, queue_type };
        if q.storage.len() == 0 {
            return q;
        }
        let last: usize = q.storage.len() - 1;
        // starting with the last non-leaf node
        if let Some(start) = parent_index(last) {
            let mut index: usize = start;
            loop
                invariant
                    index <= start,
                    start < q.storage@.len(),
                    q.storage@.to_multiset() == vec@.to_multiset(),
                    q.storage@.len() == vec@.len(),
                    q.queue_type == queue_type,
                    forall|i: int|
                        0 < i < q.storage@.len() && parent_of(i) > index ==> #[trigger] prefers(
                            queue_type,
                            prios(q.storage@)[parent_of(i)],
                            prios(q.storage@)[i],
                        ),
                ensures
                    heap_ordered(prios(q.storage@), queue_type),
                    q.storage@.to_multiset() == vec@.to_multiset(),
                    q.storage@.len() == vec@.len(),
                    q.queue_type == queue_type,
                decreases index,
            {
                let ghost before = q.storage@;
                proof {
                    let p = prios(before);
                    assert forall|i: int|
                        0 < i < p.len() && in_subtree(parent_of(i), index as int) && parent_of(i)
                            != index implies #[trigger] prefers(queue_type, p[parent_of(i)], p[i]) by {
                        lemma_subtree_ge(parent_of(i), index as int);
                    }
                }
                q.heapify(index, Ghost(index as int));
                proof {
                    let p = prios(before);
                    let r = prios(q.storage@);
                    assert forall|i: int|
                        0 < i < r.len() && parent_of(i) >= index implies #[trigger] prefers(
                        queue_type,
                        r[parent_of(i)],
                        r[i],
                    ) by {
                        if !in_subtree(parent_of(i), index as int) {
                            lemma_subtree_ge(i, index as int);
                            assert(!in_subtree(i, index as int));
                            assert(q.storage@[i] == before[i]);
                            assert(q.storage@[parent_of(i)] == before[parent_of(i)]);
                            assert(prefers(queue_type, p[parent_of(i)], p[i]));
                        }
                    }
                }
                if index == 0 {
                    assert(heap_ordered(prios(q.storage@), queue_type));
                    break;
                }
                index -= 1;
            }
        } else {
            assert(heap_ordered(prios(q.storage@), queue_type));
        }
        q
    }

    pub fn empty(&self) -> (r: bool)
        ensures
            r == (self.items().len() == 0),
    {
        self.storage.len() == 0
    }

    pub fn insert(&mut self, item: T)
        requires
            old(self).wf(),
        ensures
            final(self).wf(),
            final(self).mode() == old(self).mode(),
            final(self).contents() == old(self).contents().insert(item),
            final(self).items().len() == old(self).items().len() + 1,
    {
        broadcast use vstd::seq_lib::to_multiset_build;

        self.storage.push(item);
        assert(self.storage@ == old(self).storage@.push(item));
        assert(prios(self.storage@) =~= prios(old(self).storage@).push(item.spec_priority()));
        let ghost mode = self.queue_type;
        let mut current: usize = self.storage.len() - 1;
        loop
            invariant
                current < self.storage@.len(),
                self.storage@.len() == old(self).storage@.len() + 1,
                self.storage@.to_multiset() == old(self).storage@.to_multiset().insert(item),
                self.queue_type == mode,
                mode == old(self).queue_type,
                heap_below(prios(self.storage@), mode, current as int),
            ensures
                self.storage@.len() == old(self).storage@.len() + 1,
                self.storage@.to_multiset() == old(self).storage@.to_multiset().insert(item),
                self.queue_type == mode,
                heap_ordered(prios(self.storage@), mode),
            decreases current,
        {
            let ghost p = prios(self.storage@);
            match parent_index(current) {
                None => {
                    assert(heap_ordered(p, mode));
                    break;
                },
                Some(parent) => {
                    let cp = self.storage[current].priority();
                    let pp = self.storage[parent].priority();
                    let in_order = match self.queue_type {
                        PriorityType::Max => pp >= cp,
                        PriorityType::Min => pp <= cp,
                    };
                    if in_order {
                        assert(heap_ordered(p, mode)) by {
                            assert forall|i: int| 0 < i < p.len() implies #[trigger] prefers(
                                mode,
                                p[parent_of(i)],
                                p[i],
                            ) by {
                                if i == current as int {
                                }
                            }
                        }
                        break;
                    }
                    proof {
                        lemma_swap(self.storage@, current as int, parent as int);
                    }
                    swap_items(&mut self.storage, current, parent);
                    proof {
                        let q = prios(self.storage@);
                        assert(q == p.update(current as int, p[parent as int]).update(
                            parent as int,
                            p[current as int],
                        ));
                        assert forall|i: int| 0 < i < q.len() && i != parent as int implies #[trigger] prefers(
                            mode,
                            q[parent_of(i)],
                            q[i],
                        ) by {
                            if parent_of(i) == current as int {
                                assert(prefers(mode, p[parent as int], p[i]));
                            } else if i == current as int {
                            } else if parent_of(i) == parent as int {
                                assert(prefers(mode, p[parent as int], p[i]));
                            } else {
                                assert(prefers(mode, p[parent_of(i)], p[i]));
                            }
                        }
                        if parent > 0 {
                            let pp_idx = parent_of(parent as int);
                            assert(prefers(mode, p[pp_idx], p[parent as int]));
                            assert forall|i: int| 0 < i < q.len() && parent_of(i) == parent as int implies #[trigger] prefers(
                                mode,
                                q[parent_of(parent as int)],
                                q[i],
                            ) by {
                                if i != current as int {
                                    assert(prefers(mode, p[parent as int], p[i]));
                                }
                            }
                        }
                    }
                    current = parent;
                },
            }
        }
    }

    pub fn remove(&mut self) -> (r: Option<T>)
        requires
            old(self).wf(),
        ensures
            final(self).wf(),
            final(self).mode() == old(self).mode(),
            old(self).items().len() == 0 ==> r is None && final(self).items() == old(self).items(),
            old(self).items().len() > 0 ==> ({
                &&& r is Some
                &&& old(self).contents().count(r->0) > 0
                &&& final(self).contents() == old(self).contents().remove(r->0)
                &&& final(self).items().len() == old(self).items().len() - 1
                &&& forall|i: int|
                    0 <= i < old(self).items().len() ==> prefers(
                        old(self).mode(),
                        r->0.spec_priority(),
                        #[trigger] old(self).items()[i].spec_priority(),
                    )
            }),
    {
        let len = self.len();
        if len == 0 {
            return None;
        }
        proof {
            self.lemma_root_extreme();
        }
        let last_idx: usize = len - 1;
        proof {
            lemma_swap(self.storage@, 0, last_idx as int);
        }
        swap_items(&mut self.storage, 0, last_idx);
        let ghost swapped = self.storage@;
        let result = self.storage.pop().unwrap();
        proof {
            broadcast use vstd::seq_lib::to_multiset_remove;

            assert(swapped =~= self.storage@.push(result));
            assert(swapped.remove(last_idx as int) =~= self.storage@);
            let p = prios(swapped);
            let q = prios(self.storage@);
            assert(q =~= p.take(last_idx as int));
            let o = prios(old(self).storage@);
            assert forall|i: int|
                0 < i < q.len() && in_subtree(parent_of(i), 0) && parent_of(i) != 0 implies #[trigger] prefers(
                self.queue_type,
                q[parent_of(i)],
                q[i],
            ) by {
                assert(prefers(self.queue_type, o[parent_of(i)], o[i]));
            }
        }
        self.heapify(0, Ghost(0));
        proof {
            assert forall|i: int| 0 < i < self.storage@.len() implies #[trigger] prefers(
                self.queue_type,
                prios(self.storage@)[parent_of(i)],
                prios(self.storage@)[i],
            ) by {
                lemma_subtree_root(parent_of(i));
            }
        }
        Some(result)
    }

    pub fn len(&self) -> (r: usize)
        ensures
            r == self.items().len(),
    {
        self.storage.len()
    }

    proof fn lemma_root_extreme(&self)
        requires
            self.wf(),
            self.items().len() > 0,
        ensures
            forall|i: int|
                0 <= i < self.items().len() ==> prefers(
                    self.mode(),
                    self.items()[0].spec_priority(),
                    #[trigger] self.items()[i].spec_priority(),
                ),
    {
        let p = prios(self.items());
        assert forall|i: int| 0 <= i < p.len() implies prefers(self.mode(), p[0], p[i]) by {
            lemma_root_dominates(p, self.mode(), i);
        }
        assert forall|i: int| 0 <= i < self.items().len() implies prefers(
            self.mode(),
            self.items()[0].spec_priority(),
            #[trigger] self.items()[i].spec_priority(),
        ) by {
            assert(p[i] == self.items()[i].spec_priority());
            assert(p[0] == self.items()[0].spec_priority());
        }
    }

    /// The index of the two whose priority the queue hands out first.
    fn get_index_with_priority(&self, a: usize, b: usize) -> (r: usize)
        requires
            a < self.storage@.len(),
            b < self.storage@.len(),
        ensures
            r == a || r == b,
            prefers(self.queue_type, prios(self.storage@)[r as int], prios(self.storage@)[a as int]),
            prefers(self.queue_type, prios(self.storage@)[r as int], prios(self.storage@)[b as int]),
    {
        let a_greater: bool = self.storage[a].priority() > self.storage[b].priority();
        if a_greater {
            if self.queue_type == PriorityType::Max { a } else { b }
        } else {
            if self.queue_type == PriorityType::Max { b } else { a }
        }
    }

    /// Sifts the item at `index` down within the subtree of `top` (which holds `index`)
    /// until heap order holds on every edge of that subtree. Only positions in the
    /// subtree of `index` change; nothing changes when `index` is past the end or
    /// already dominates its children.
    fn heapify(&mut self, index: usize, Ghost(top): Ghost<int>)
        requires
            0 <= top,
            in_subtree(index as int, top),
            heap_within(prios(old(self).storage@), old(self).queue_type, top, index as int),
        ensures
            final(self).queue_type == old(self).queue_type,
            final(self).storage@.to_multiset() == old(self).storage@.to_multiset(),
            final(self).storage@.len() == old(self).storage@.len(),
            forall|i: int|
                0 < i < final(self).storage@.len() && in_subtree(parent_of(i), top)
                    ==> #[trigger] prefers(
                    final(self).queue_type,
                    prios(final(self).storage@)[parent_of(i)],
                    prios(final(self).storage@)[i],
                ),
            forall|j: int|
                0 <= j < old(self).storage@.len() && !in_subtree(j, index as int)
                    ==> #[trigger] final(self).storage@[j] == old(self).storage@[j],
            index >= old(self).storage@.len() ==> final(self).storage@ == old(self).storage@,
            (forall|c: int|
                0 < c < old(self).storage@.len() && parent_of(c) == index ==> prefers(
                    old(self).queue_type,
                    prios(old(self).storage@)[index as int],
                    #[trigger] prios(old(self).storage@)[c],
                )) ==> final(self).storage@ == old(self).storage@,
        decreases old(self).storage@.len() - index,
    {
        let ghost mode = self.queue_type;
        let ghost p = prios(self.storage@);
        let len = self.storage.len();
        if index >= len || index > (usize::MAX - 2) / 2 {
            assert forall|i: int|
                0 < i < p.len() && in_subtree(parent_of(i), top) implies #[trigger] prefers(
                mode,
                p[parent_of(i)],
                p[i],
            ) by {
                assert(parent_of(i) != index as int);
            }
            return;
        }
        let (left, right) = child_indices(index);
        let mut priority_idx = index;
        if left < len {
            priority_idx = self.get_index_with_priority(left, priority_idx);
        }
        if right < len {
            priority_idx = self.get_index_with_priority(right, priority_idx);
        }
        assert(forall|i: int|
            0 < i < p.len() && parent_of(i) == index as int ==> i == left as int || i
                == right as int);
        if self.storage[priority_idx].priority() == self.storage[index].priority() {
            assert forall|i: int|
                0 < i < p.len() && in_subtree(parent_of(i), top) implies #[trigger] prefers(
                mode,
                p[parent_of(i)],
                p[i],
            ) by {
                if parent_of(i) == index as int {
                    assert(i == left as int || i == right as int);
                }
            }
            return;
        }
        let m = priority_idx;
        proof {
            assert(m == left || m == right);
            assert(parent_of(m as int) == index as int);
            assert(in_subtree(m as int, top));
            lemma_swap(self.storage@, index as int, m as int);
        }
        swap_items(&mut self.storage, index, m);
        proof {
            let q = prios(self.storage@);
            assert(q == p.update(index as int, p[m as int]).update(m as int, p[index as int]));
            assert forall|i: int|
                0 < i < q.len() && in_subtree(parent_of(i), top) && parent_of(i) != m as int
                    implies #[trigger] prefers(mode, q[parent_of(i)], q[i]) by {
                if parent_of(i) == index as int {
                    assert(i == left as int || i == right as int);
                } else if i == index as int {
                    lemma_subtree_ge(index as int, top);
                    if index as int == top {
                        lemma_subtree_ge(parent_of(i), top);
                    }
                    assert(prefers(mode, p[parent_of(index as int)], p[m as int]));
                } else {
                    assert(prefers(mode, p[parent_of(i)], p[i]));
                }
            }
            assert forall|i: int| 0 < i < q.len() && parent_of(i) == m as int implies #[trigger] prefers(
                mode,
                q[parent_of(m as int)],
                q[i],
            ) by {
                assert(in_subtree(i, top));
                assert(prefers(mode, p[parent_of(i)], p[i]));
            }
        }
        let ghost mid = self.storage@;
        self.heapify(m, Ghost(top));
        proof {
            assert forall|j: int|
                0 <= j < old(self).storage@.len() && !in_subtree(j, index as int)
                    implies #[trigger] self.storage@[j] == old(self).storage@[j] by {
                if in_subtree(j, m as int) {
                    lemma_subtree_child(j, m as int, index as int);
                }
                assert(j != index as int);
                assert(j != m as int);
                assert(self.storage@[j] == mid[j]);
            }
        }
    }
}

/// `j` lies in the subtree rooted at `k` of a heap laid out in an array.
pub open spec fn in_subtree(j: int, k: int) -> bool
    decreases j,
{
    if j <= k {
        j == k
    } else if j <= 0 {
        false
    } else {
        in_subtree(parent_of(j), k)
    }
}

/// Heap order on every edge inside the subtree of `top`, except the edges below `k`;
/// unless `k` is `top`, the parent of `k` dominates the children of `k`.
pub open spec fn heap_within(p: Seq<i32>, mode: PriorityType, top: int, k: int) -> bool {
    &&& forall|i: int|
        0 < i < p.len() && in_subtree(parent_of(i), top) && parent_of(i) != k
            ==> #[trigger] prefers(mode, p[parent_of(i)], p[i])
    &&& k != top ==> forall|i: int|
        0 < i < p.len() && parent_of(i) == k ==> #[trigger] prefers(mode, p[parent_of(k)], p[i])
}

proof fn lemma_subtree_ge(j: int, k: int)
    ensures
        in_subtree(j, k) ==> j >= k,
        in_subtree(j, k) && j != k ==> in_subtree(parent_of(j), k),
    decreases j,
{
}

/// The subtree of a child lies in the subtree of its parent.
proof fn lemma_subtree_child(j: int, m: int, k: int)
    requires
        in_subtree(j, m),
        m > 0,
        parent_of(m) == k,
    ensures
        in_subtree(j, k),
    decreases j,
{
    assert(in_subtree(k, k));
    assert(in_subtree(m, k));
    if j != m {
        lemma_subtree_ge(j, m);
        lemma_subtree_child(parent_of(j), m, k);
    }
}

/// Every position lies in the subtree of the root.
proof fn lemma_subtree_root(j: int)
    requires
        j >= 0,
    ensures
        in_subtree(j, 0),
    decreases j,
{
    if j > 0 {
        lemma_subtree_root(parent_of(j));
    }
}

/// In a heap, the root's priority is preferred over every other.
proof fn lemma_root_dominates(p: Seq<i32>, mode: PriorityType, i: int)
    requires
        heap_ordered(p, mode),
        0 <= i < p.len(),
    ensures
        prefers(mode, p[0], p[i]),
    decreases i,
{
    if i > 0 {
        lemma_root_dominates(p, mode, parent_of(i));
        assert(prefers(mode, p[parent_of(i)], p[i]));
    }
}

} // verus!
