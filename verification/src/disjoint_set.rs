//! A fixed-capacity union-find over cell indices.
//!
//! The structure tracks, for every inserted index, which group it belongs
//! to. Parent links are kept fully compressed at all times: a contained
//! index either is a root, or points directly at its root. Each root
//! additionally stores the list of all members of its group, so member
//! queries never have to walk the whole structure.

use vstd::prelude::*;

verus! {

/// Sentinel parent value: the slot is a root or not yet inserted.
pub const NO_PARENT: usize = usize::MAX;

/// `s` is strictly increasing (hence also free of duplicates).
pub open spec fn sorted_strict(s: Seq<usize>) -> bool {
    forall|k1: int, k2: int| 0 <= k1 < k2 < s.len() ==> s[k1] < s[k2]
}

/// Union-find (disjoint set) over the indices `0 .. capacity`.
///
/// `parent[i]` is `NO_PARENT` when `i` is a root or not contained,
/// and the root index of `i`'s group otherwise. `members[i]` holds the
/// group's member list exactly when `i` is a root.
pub struct DisjointSet {
    pub parent: Vec<usize>,
    pub members: Vec<Option<Vec<usize>>>,
}

impl DisjointSet {
    /// Number of index slots (fixed at construction).
    pub open spec fn cap(&self) -> int {
        self.parent@.len() as int
    }

    /// `i` has been inserted (and not deleted since).
    pub open spec fn has(&self, i: usize) -> bool {
        i < self.cap() && (self.parent@[i as int] != NO_PARENT || self.members@[i as int] is Some)
    }

    /// `i` is the canonical representative of a group.
    pub open spec fn is_root_at(&self, i: usize) -> bool {
        i < self.cap() && self.members@[i as int] is Some
    }

    /// The canonical representative of `i`'s group (meaningful when `has(i)`).
    pub open spec fn root_of(&self, i: usize) -> usize {
        if self.parent@[i as int] == NO_PARENT {
            i
        } else {
            self.parent@[i as int]
        }
    }

    /// The member list stored at root `r`.
    pub open spec fn member_seq(&self, r: usize) -> Seq<usize> {
        self.members@[r as int]->Some_0@
    }

    /// All indices in the same group as `i` (empty unless `has(i)`).
    pub open spec fn group(&self, i: usize) -> Set<usize> {
        Set::new(|j: usize| self.has(j) && self.root_of(j) == self.root_of(i))
    }

    /// `i`'s group if it has one, else the singleton `{i}`.
    pub open spec fn group_or_single(&self, i: usize) -> Set<usize> {
        if self.has(i) {
            self.group(i)
        } else {
            set![i]
        }
    }

    /// Both contained, with one common root.
    pub open spec fn in_same(&self, a: usize, b: usize) -> bool {
        self.has(a) && self.has(b) && self.root_of(a) == self.root_of(b)
    }

    /// Per-slot shape: only roots carry a member list, and a non-root's
    /// parent is a root whose list records it.
    pub open spec fn cell_ok(&self, i: int) -> bool {
        &&& (self.members@[i] is Some ==> self.parent@[i] == NO_PARENT)
        &&& (self.parent@[i] != NO_PARENT ==> {
            &&& self.parent@[i] < self.cap()
            &&& self.members@[self.parent@[i] as int] is Some
            &&& self.member_seq(self.parent@[i]).contains(i as usize)
        })
    }

    /// Per-root shape: the member list is duplicate-free, records the
    /// root itself, and every entry resolves back to this root.
    pub open spec fn root_ok(&self, r: int) -> bool {
        self.members@[r] is Some ==> {
            let l = self.members@[r]->Some_0@;
            &&& l.no_duplicates()
            &&& l.contains(r as usize)
            &&& forall|k: int|
                0 <= k < l.len() ==> (#[trigger] l[k]) < self.cap() && (l[k] == r
                    || self.parent@[l[k] as int] == r)
        }
    }

    /// Structure invariant.
    pub open spec fn wf(&self) -> bool {
        &&& self.parent@.len() == self.members@.len()
        &&& self.cap() < usize::MAX
        &&& forall|i: int| 0 <= i < self.cap() ==> #[trigger] self.cell_ok(i)
        &&& forall|r: int| 0 <= r < self.cap() ==> #[trigger] self.root_ok(r)
    }

    /// A contained index resolves to a root that is contained, canonical,
    /// and records the index in its member list.
    pub proof fn lemma_root_props(&self, i: usize)
        requires
            self.wf(),
            self.has(i),
        ensures
            self.root_of(i) < self.cap(),
            self.is_root_at(self.root_of(i)),
            self.has(self.root_of(i)),
            self.parent@[self.root_of(i) as int] == NO_PARENT,
            self.root_of(self.root_of(i)) == self.root_of(i),
            self.member_seq(self.root_of(i)).contains(i),
    {
        assert(self.cell_ok(i as int));
        let p = self.parent@[i as int];
        if p == NO_PARENT {
            assert(self.root_ok(i as int));
        } else {
            assert(self.cell_ok(p as int));
        }
    }

    /// Every entry of a root's member list belongs to that root's group.
    pub proof fn lemma_elem_of_root(&self, r: usize, e: usize)
        requires
            self.wf(),
            self.is_root_at(r),
            self.member_seq(r).contains(e),
        ensures
            e < self.cap(),
            self.has(e),
            self.root_of(e) == r,
    {
        assert(self.root_ok(r as int));
        let l = self.member_seq(r);
        let k = choose|k: int| 0 <= k < l.len() && l[k] == e;
        assert(l[k] < self.cap() && (l[k] == r || self.parent@[l[k] as int] == r));
        if e == r {
            assert(self.cell_ok(r as int));
        }
    }

    /// The member list stored at `i`'s root holds exactly `i`'s group.
    pub proof fn lemma_group_is_list(&self, i: usize)
        requires
            self.wf(),
            self.has(i),
        ensures
            self.member_seq(self.root_of(i)).to_set() =~= self.group(i),
    {
        let r = self.root_of(i);
        self.lemma_root_props(i);
        assert forall|e: usize| self.member_seq(r).to_set().contains(e) implies self.group(
            i,
        ).contains(e) by {
            self.lemma_elem_of_root(r, e);
        }
        assert forall|e: usize| self.group(i).contains(e) implies self.member_seq(
            r,
        ).to_set().contains(e) by {
            self.lemma_root_props(e);
        }
    }

    /// Creates an empty structure able to hold `capacity` indices.
    pub fn new(capacity: usize) -> (s: Self)
        requires
            capacity < usize::MAX,
        ensures
            s.wf(),
            s.cap() == capacity,
            forall|i: usize| !s.has(i),
            forall|i: usize| !s.is_root_at(i),
    {
        let mut parent: Vec<usize> = Vec::new();
        let mut members: Vec<Option<Vec<usize>>> = Vec::new();
        let mut i: usize = 0;
        while i < capacity
            invariant
                i <= capacity,
                parent@.len() == i,
                members@.len() == i,
                forall|j: int| 0 <= j < i ==> parent@[j] == NO_PARENT,
                forall|j: int| 0 <= j < i ==> members@[j] is None,
            decreases capacity - i,
        {
            parent.push(NO_PARENT);
            members.push(None);
            i = i + 1;
        }
        DisjointSet { parent, members }
    }

    /// Largest number of indices the structure can hold.
    pub fn capacity(&self) -> (n: usize)
        ensures
            n == self.cap(),
    {
        self.parent.len()
    }

    /// Number of groups at `i` slots below `n` (helper for `len`).
    pub open spec fn roots_upto(&self, n: int) -> int
        decreases n,
    {
        if n <= 0 {
            0
        } else {
            self.roots_upto(n - 1) + if self.members@[n - 1] is Some {
                1int
            } else {
                0int
            }
        }
    }

    /// Number of groups currently stored.
    pub open spec fn n_groups(&self) -> int {
        self.roots_upto(self.cap())
    }

    /// Counts the groups currently stored.
    pub fn len(&self) -> (n: usize)
        requires
            self.wf(),
        ensures
            n == self.n_groups(),
    {
        let mut n: usize = 0;
        let cap = self.parent.len();
        let mut i: usize = 0;
        while i < cap
            invariant
                i <= cap,
                cap == self.cap(),
                self.parent@.len() == self.members@.len(),
                n == self.roots_upto(i as int),
                n <= i,
            decreases cap - i,
        {
            if self.members[i].is_some() {
                n = n + 1;
            }
            i = i + 1;
        }
        n
    }

    /// True when no group (hence no index) is stored.
    pub fn is_empty(&self) -> (r: bool)
        requires
            self.wf(),
        ensures
            r == (self.n_groups() == 0),
    {
        self.len() == 0
    }

    /// O(1) membership test.
    pub fn contains(&self, idx: usize) -> (r: bool)
        requires
            self.wf(),
            idx < self.cap(),
        ensures
            r == self.has(idx),
    {
        self.parent[idx] != NO_PARENT || self.members[idx].is_some()
    }

    /// The root of `idx`'s group, or `None` when `idx` has no group.
    /// Parent links are kept fully compressed, so the lookup is direct
    /// and leaves the structure unchanged.
    pub fn find_root(&mut self, idx: usize) -> (r: Option<usize>)
        requires
            old(self).wf(),
            idx < old(self).cap(),
        ensures
            *final(self) == *old(self),
            r == (if old(self).has(idx) {
                Some(old(self).root_of(idx))
            } else {
                None::<usize>
            }),
    {
        let p = self.parent[idx];
        if p == NO_PARENT {
            if self.members[idx].is_some() {
                Some(idx)
            } else {
                None
            }
        } else {
            Some(p)
        }
    }

    /// Inserts `idx` as its own singleton group. No-op when `idx` is
    /// already contained.
    pub fn insert(&mut self, idx: usize)
        requires
            old(self).wf(),
            idx < old(self).cap(),
        ensures
            final(self).wf(),
            final(self).cap() == old(self).cap(),
            old(self).has(idx) ==> *final(self) == *old(self),
            final(self).has(idx),
            !old(self).has(idx) ==> {
                &&& forall|j: usize| final(self).has(j) <==> (old(self).has(j) || j == idx)
                &&& final(self).is_root_at(idx)
                &&& final(self).root_of(idx) == idx
                &&& final(self).member_seq(idx) == seq![idx]
                &&& final(self).group(idx) =~= set![idx]
                &&& final(self).parent@ == old(self).parent@
                &&& forall|j: usize|
                    old(self).has(j) ==> final(self).root_of(j) == old(self).root_of(j)
                &&& forall|r: usize|
                    old(self).is_root_at(r) ==> final(self).is_root_at(r) && final(
                        self
                    ).member_seq(r) == old(self).member_seq(r)
                &&& forall|j: usize|
                    old(self).has(j) ==> final(self).group(j) =~= old(self).group(j)
            },
    {
        if !self.contains(idx) {
            let mut l: Vec<usize> = Vec::new();
            l.push(idx);
            self.members.set(idx, Some(l));
            proof {
                let post = *self;
                let pre = *old(self);
                assert(post.member_seq(idx) =~= seq![idx]);
                assert forall|i: int| 0 <= i < post.cap() implies #[trigger] post.cell_ok(i) by {
                    assert(pre.cell_ok(i));
                    if pre.parent@[i] != NO_PARENT {
                        assert(pre.parent@[i] != idx) by {
                            assert(pre.cell_ok(i));
                        }
                    }
                }
                assert forall|r: int| 0 <= r < post.cap() implies #[trigger] post.root_ok(r) by {
                    assert(pre.root_ok(r));
                    if r == idx {
                        assert(post.member_seq(idx)[0] == idx);
                    }
                }
                assert forall|j: usize| pre.has(j) implies post.root_of(j) == pre.root_of(j) by {}
                assert forall|j: usize| pre.has(j) implies post.group(j) =~= pre.group(j) by {
                    assert forall|e: usize| post.group(j).contains(e) implies pre.group(
                        j,
                    ).contains(e) by {
                        if e == idx {
                            assert(post.root_of(idx) == idx);
                            pre.lemma_root_props(j);
                        }
                    }
                }
                assert(post.group(idx) =~= set![idx]) by {
                    assert forall|e: usize| post.group(idx).contains(e) implies e == idx by {
                        if post.has(e) && e != idx {
                            assert(pre.has(e));
                            pre.lemma_root_props(e);
                            assert(pre.root_of(e) != idx);
                        }
                    }
                    assert(post.has(idx) && post.root_of(idx) == idx);
                }
            }
        }
    }

    /// True iff `a` and `b` both belong to a group and share one root.
    pub fn is_connected(&mut self, idx_a: usize, idx_b: usize) -> (r: bool)
        requires
            old(self).wf(),
            idx_a < old(self).cap(),
            idx_b < old(self).cap(),
        ensures
            *final(self) == *old(self),
            r == old(self).in_same(idx_a, idx_b),
    {
        let root_a = self.find_root(idx_a);
        let root_b = self.find_root(idx_b);
        match (root_a, root_b) {
            (Some(a), Some(b)) => a == b,
            _ => false,
        }
    }

    /// Size of `idx`'s group, 0 when `idx` has no group.
    pub fn group_size(&mut self, idx: usize) -> (n: usize)
        requires
            old(self).wf(),
            idx < old(self).cap(),
        ensures
            *final(self) == *old(self),
            old(self).has(idx) ==> n == old(self).member_seq(old(self).root_of(idx)).len()
                && n == old(self).group(idx).len(),
            !old(self).has(idx) ==> n == 0,
    {
        let root = self.find_root(idx);
        match root {
            Some(r) => {
                proof {
                    self.lemma_root_props(idx);
                    self.lemma_group_is_list(idx);
                    assert(self.root_ok(r as int));
                    self.member_seq(r).unique_seq_to_set();
                }
                match &self.members[r] {
                    Some(l) => l.len(),
                    None => unreached(),
                }
            },
            None => 0,
        }
    }

    /// All members of `idx`'s group, in ascending order; `None` when
    /// `idx` has no group.
    pub fn group_members(&mut self, idx: usize) -> (r: Option<Vec<usize>>)
        requires
            old(self).wf(),
            idx < old(self).cap(),
        ensures
            *final(self) == *old(self),
            match r {
                Some(v) => {
                    &&& old(self).has(idx)
                    &&& sorted_strict(v@)
                    &&& v@.no_duplicates()
                    &&& v@.to_set() == old(self).group(idx)
                    &&& v@.len() == old(self).member_seq(old(self).root_of(idx)).len()
                },
                None => !old(self).has(idx),
            },
    {
        let root = match self.find_root(idx) {
            Some(r) => r,
            None => {
                return None;
            },
        };
        proof {
            self.lemma_root_props(idx);
        }
        let cap = self.parent.len();
        let mut v: Vec<usize> = Vec::new();
        let mut j: usize = 0;
        while j < cap
            invariant
                j <= cap,
                cap == self.cap(),
                self.wf(),
                self.has(idx),
                root == self.root_of(idx),
                self.is_root_at(root),
                sorted_strict(v@),
                forall|e: int| 0 <= e < v@.len() ==> v@[e] < j,
                forall|e: usize|
                    v@.to_set().contains(e) <==> (e < j && self.has(e) && self.root_of(e) == root),
            decreases cap - j,
        {
            if j == root || self.parent[j] == root {
                proof {
                    assert(self.cell_ok(root as int));
                    if j != root {
                        assert(self.parent@[j as int] == root);
                        assert(root < self.cap());
                        assert(self.parent@[j as int] != NO_PARENT);
                    }
                    assert(self.has(j) && self.root_of(j) == root);
                    let prev = v@;
                    prev.lemma_push_to_set_commute(j);
                }
                v.push(j);
            } else {
                proof {
                    if self.has(j) && self.root_of(j) == root {
                        assert(self.parent@[j as int] == root || j == root);
                    }
                }
            }
            j = j + 1;
        }
        proof {
            assert(v@.to_set() =~= self.group(idx));
            self.lemma_group_is_list(idx);
            assert(v@.no_duplicates()) by {
                assert forall|k1: int, k2: int|
                    0 <= k1 < k2 < v@.len() implies v@[k1] != v@[k2] by {}
            }
            v@.unique_seq_to_set();
            assert(self.root_ok(root as int));
            self.member_seq(root).unique_seq_to_set();
        }
        Some(v)
    }

    /// All current group roots, in ascending order.
    pub fn group_roots(&mut self) -> (r: Vec<usize>)
        requires
            old(self).wf(),
        ensures
            *final(self) == *old(self),
            sorted_strict(r@),
            forall|x: usize| r@.to_set().contains(x) <==> old(self).is_root_at(x),
    {
        let cap = self.parent.len();
        let mut v: Vec<usize> = Vec::new();
        let mut j: usize = 0;
        while j < cap
            invariant
                j <= cap,
                cap == self.cap(),
                self.parent@.len() == self.members@.len(),
                sorted_strict(v@),
                forall|e: int| 0 <= e < v@.len() ==> v@[e] < j,
                forall|x: usize| v@.to_set().contains(x) <==> (x < j && self.is_root_at(x)),
            decreases cap - j,
        {
            if self.members[j].is_some() {
                proof {
                    let prev = v@;
                    prev.lemma_push_to_set_commute(j);
                }
                v.push(j);
            }
            j = j + 1;
        }
        v
    }

    /// Joins the groups of `idx_a` and `idx_b`, inserting either index
    /// first when it is missing. Afterwards both indices share one group
    /// holding the union of their previous groups (or of the fresh
    /// singletons); every other group is untouched.
    pub fn connect(&mut self, idx_a: usize, idx_b: usize)
        requires
            old(self).wf(),
            idx_a < old(self).cap(),
            idx_b < old(self).cap(),
        ensures
            final(self).wf(),
            final(self).cap() == old(self).cap(),
            forall|j: usize| final(self).has(j) <==> (old(self).has(j) || j == idx_a || j == idx_b),
            final(self).in_same(idx_a, idx_b),
            final(self).group(idx_a) =~= old(self).group_or_single(idx_a).union(
                old(self).group_or_single(idx_b),
            ),
            final(self).group(idx_b) == final(self).group(idx_a),
            forall|j: usize|
                old(self).has(j) && !old(self).in_same(j, idx_a) && !old(self).in_same(j, idx_b)
                    ==> final(self).has(j) && final(self).root_of(j) == old(self).root_of(j)
                    && final(self).group(j) =~= old(self).group(j) && final(self).is_root_at(
                    old(self).root_of(j),
                ) && final(self).member_seq(old(self).root_of(j)) == old(self).member_seq(
                    old(self).root_of(j),
                ),
    {
        self.insert(idx_a);
        self.insert(idx_b);
        let root_a = self.find_root(idx_a).unwrap();
        let root_b = self.find_root(idx_b).unwrap();
        proof {
            self.lemma_root_props(idx_a);
            self.lemma_root_props(idx_b);
        }
        if root_a != root_b {
            let ghost mid = *self;
            proof {
                mid.lemma_group_is_list(idx_a);
                mid.lemma_group_is_list(idx_b);
                assert(mid.root_ok(root_a as int));
                assert(mid.root_ok(root_b as int));
                assert forall|e: usize| mid.member_seq(root_a).contains(e) implies mid.has(e)
                    && mid.root_of(e) == root_a && e < mid.cap() by {
                    mid.lemma_elem_of_root(root_a, e);
                }
                assert forall|e: usize| mid.member_seq(root_b).contains(e) implies mid.has(e)
                    && mid.root_of(e) == root_b && e < mid.cap() by {
                    mid.lemma_elem_of_root(root_b, e);
                }
            }
            let mut slot_a: Option<Vec<usize>> = None;
            self.members.set_and_swap(root_a, &mut slot_a);
            let mut slot_b: Option<Vec<usize>> = None;
            self.members.set_and_swap(root_b, &mut slot_b);
            let mut la = match slot_a {
                Some(l) => l,
                None => unreached(),
            };
            let mut lb = match slot_b {
                Some(l) => l,
                None => unreached(),
            };
            let n = la.len();
            let mut k: usize = 0;
            while k < n
                invariant
                    k <= n,
                    n == la@.len(),
                    la@ == mid.member_seq(root_a),
                    root_a < mid.cap(),
                    root_b < mid.cap(),
                    NO_PARENT == usize::MAX,
                    mid.cap() < usize::MAX,
                    forall|e: usize|
                        #[trigger] la@.contains(e) ==> mid.has(e) && mid.root_of(e) == root_a && e
                            < mid.cap(),
                    self.parent@.len() == mid.parent@.len(),
                    self.members@ == mid.members@.update(root_a as int, None).update(
                        root_b as int,
                        None,
                    ),
                    self.cap() == mid.cap(),
                    forall|m: int| 0 <= m < k ==> self.parent@[la@[m] as int] == root_b,
                    forall|j: usize|
                        j < mid.cap() && !la@.subrange(0, k as int).contains(j)
                            ==> self.parent@[j as int] == mid.parent@[j as int],
                decreases n - k,
            {
                proof {
                    assert(la@.contains(la@[k as int]));
                    assert(la@[k as int] < mid.cap());
                }
                let ghost pre = self.parent@;
                let e = la[k];
                self.parent.set(e, root_b);
                proof {
                    assert(self.parent@ == pre.update(e as int, root_b));
                    assert forall|j: usize|
                        j < mid.cap() && !la@.subrange(0, k + 1 as int).contains(
                            j,
                        ) implies self.parent@[j as int] == mid.parent@[j as int] by {
                        assert(!la@.subrange(0, k as int).contains(j)) by {
                            if la@.subrange(0, k as int).contains(j) {
                                let m = choose|m: int|
                                    0 <= m < k && la@.subrange(0, k as int)[m] == j;
                                assert(la@.subrange(0, k + 1 as int)[m] == j);
                                assert(la@.subrange(0, k + 1 as int).contains(j));
                            }
                        }
                        assert(j != e) by {
                            if j == e {
                                assert(la@.subrange(0, k + 1 as int)[k as int] == e);
                                assert(la@.subrange(0, k + 1 as int).contains(j));
                            }
                        }
                        assert(pre[j as int] == mid.parent@[j as int]);
                        assert(self.parent@[j as int] == pre[j as int]);
                    }
                    assert forall|m: int| 0 <= m <= k implies self.parent@[la@[m] as int]
                        == root_b by {
                        assert(la@.contains(la@[m]));
                        assert(la@[m] < mid.cap());
                        if la@[m] == e {
                            assert(self.parent@[la@[m] as int] == root_b);
                        } else {
                            assert(m < k);
                            assert(pre[la@[m] as int] == root_b);
                            assert(self.parent@[la@[m] as int] == pre[la@[m] as int]);
                        }
                    }
                }
                k = k + 1;
            }
            proof {
                assert(la@.subrange(0, n as int) =~= la@);
            }
            lb.append(&mut la);
            self.members.set(root_b, Some(lb));
            proof {
                assert(self.members@ =~= mid.members@.update(root_a as int, None).update(
                    root_b as int,
                    Some(self.members@[root_b as int]->Some_0),
                ));
                self.lemma_connect_commit(mid, root_a, root_b);
                let post = *self;
                assert(post.root_of(idx_a) == root_b && post.root_of(idx_b) == root_b);
                assert(post.group(idx_a) =~= mid.group(idx_a).union(mid.group(idx_b)));
                assert(post.group(idx_b) =~= post.group(idx_a));
                assert(mid.group(idx_a) =~= old(self).group_or_single(idx_a));
                assert(mid.group(idx_b) =~= old(self).group_or_single(idx_b));
                assert(post.group(idx_a) =~= old(self).group_or_single(idx_a).union(
                    old(self).group_or_single(idx_b),
                ));
                assert forall|j: usize|
                    old(self).has(j) && !old(self).in_same(j, idx_a) && !old(self).in_same(
                        j,
                        idx_b,
                    ) implies post.has(j) && post.root_of(j) == old(self).root_of(j) && post.group(
                    j,
                ) =~= old(self).group(j) && post.is_root_at(old(self).root_of(j)) && post.member_seq(old(self).root_of(j)) == old(self).member_seq(old(self).root_of(j)) by {
                    old(self).lemma_root_props(j);
                    assert(mid.has(j));
                    assert(mid.root_of(j) == old(self).root_of(j));
                    assert(mid.root_of(j) != root_a && mid.root_of(j) != root_b) by {
                        mid.lemma_root_props(j);
                        mid.lemma_root_props(idx_a);
                        mid.lemma_root_props(idx_b);
                        if mid.root_of(j) == root_a {
                            assert(mid.in_same(j, idx_a));
                            if old(self).has(idx_a) {
                                assert(old(self).root_of(idx_a) == mid.root_of(idx_a));
                            } else {
                                assert(mid.root_of(idx_a) == idx_a);
                                assert(old(self).root_of(j) != idx_a);
                            }
                        }
                        if mid.root_of(j) == root_b {
                            assert(mid.in_same(j, idx_b));
                            if old(self).has(idx_b) {
                                assert(old(self).root_of(idx_b) == mid.root_of(idx_b));
                            } else {
                                assert(mid.root_of(idx_b) == idx_b);
                                assert(old(self).root_of(j) != idx_b);
                            }
                        }
                    }
                    assert(post.group(j) =~= mid.group(j));
                    assert(mid.group(j) =~= old(self).group(j));
                    assert(mid.is_root_at(mid.root_of(j)));
                    assert(post.member_seq(mid.root_of(j)) == mid.member_seq(mid.root_of(j)));
                    assert(mid.member_seq(old(self).root_of(j)) == old(self).member_seq(
                        old(self).root_of(j),
                    ));
                }
            }
        } else {
            proof {
                let mid = *self;
                assert(mid.in_same(idx_a, idx_b));
                assert(mid.group(idx_a) =~= mid.group(idx_b));
                assert(mid.group(idx_a) =~= old(self).group_or_single(idx_a));
                assert(mid.group(idx_b) =~= old(self).group_or_single(idx_b));
                assert(mid.group(idx_a) =~= old(self).group_or_single(idx_a).union(
                    old(self).group_or_single(idx_b),
                ));
                assert forall|j: usize|
                    old(self).has(j) && !old(self).in_same(j, idx_a) && !old(self).in_same(
                        j,
                        idx_b,
                    ) implies mid.has(j) && mid.root_of(j) == old(self).root_of(j) && mid.group(
                    j,
                ) =~= old(self).group(j) && mid.is_root_at(old(self).root_of(j))
                    && mid.member_seq(old(self).root_of(j)) == old(self).member_seq(
                    old(self).root_of(j),
                ) by {
                    old(self).lemma_root_props(j);
                    assert(mid.group(j) =~= old(self).group(j));
                    assert(mid.member_seq(old(self).root_of(j)) == old(self).member_seq(
                        old(self).root_of(j),
                    ));
                }
            }
        }
    }

    /// The state change of `connect`'s commit step, phrased over the
    /// snapshot `mid` taken just before the two member lists were
    /// detached (helper for `connect`).
    proof fn lemma_connect_commit(&self, mid: DisjointSet, root_a: usize, root_b: usize)
        requires
            mid.wf(),
            mid.is_root_at(root_a),
            mid.is_root_at(root_b),
            root_a != root_b,
            self.cap() == mid.cap(),
            self.parent@.len() == mid.parent@.len(),
            self.members@.len() == mid.members@.len(),
            self.members@ == mid.members@.update(root_a as int, None).update(
                root_b as int,
                Some(self.members@[root_b as int]->Some_0),
            ),
            self.members@[root_b as int] is Some,
            self.member_seq(root_b) == mid.member_seq(root_b) + mid.member_seq(root_a),
            forall|e: usize|
                mid.member_seq(root_a).contains(e) ==> self.parent@[e as int] == root_b,
            forall|j: usize|
                j < mid.cap() && !mid.member_seq(root_a).contains(j) ==> self.parent@[j as int]
                    == mid.parent@[j as int],
        ensures
            self.wf(),
            forall|j: usize| self.has(j) <==> mid.has(j),
            forall|j: usize|
                mid.has(j) ==> self.root_of(j) == (if mid.root_of(j) == root_a {
                    root_b
                } else {
                    mid.root_of(j)
                }),
            forall|j: usize|
                mid.has(j) && mid.root_of(j) != root_a && mid.root_of(j) != root_b ==> self.group(
                    j,
                ) =~= mid.group(j) && self.is_root_at(mid.root_of(j)) && self.member_seq(
                    mid.root_of(j),
                ) == mid.member_seq(mid.root_of(j)),
            forall|j: usize|
                mid.has(j) && (mid.root_of(j) == root_a || mid.root_of(j) == root_b)
                    ==> self.group(j) =~= mid.group(root_a).union(mid.group(root_b)),
    {
        let la = mid.member_seq(root_a);
        let lb = mid.member_seq(root_b);
        assert(mid.root_ok(root_a as int));
        assert(mid.root_ok(root_b as int));
        assert(mid.cell_ok(root_a as int));
        assert(mid.cell_ok(root_b as int));
        assert forall|e: usize| la.contains(e) implies mid.has(e) && mid.root_of(e) == root_a && e
            < mid.cap() by {
            mid.lemma_elem_of_root(root_a, e);
        }
        assert forall|e: usize| lb.contains(e) implies mid.has(e) && mid.root_of(e) == root_b && e
            < mid.cap() by {
            mid.lemma_elem_of_root(root_b, e);
        }
        assert(!la.contains(root_b));
        assert(!lb.contains(root_a));
        // Membership of every contained index in its root's list.
        assert forall|j: usize| mid.has(j) implies mid.member_seq(mid.root_of(j)).contains(
            j,
        ) && mid.is_root_at(mid.root_of(j)) by {
            mid.lemma_root_props(j);
        }
        // The merged list.
        let lm = self.member_seq(root_b);
        assert forall|x: usize| lm.contains(x) implies la.contains(x) || lb.contains(x) by {
            let k = choose|k: int| 0 <= k < lm.len() && lm[k] == x;
            if k < lb.len() {
                assert(lb[k] == x);
            } else {
                assert(la[k - lb.len()] == x);
            }
        }
        assert(lm.no_duplicates()) by {
            assert forall|k1: int, k2: int|
                0 <= k1 < k2 < lm.len() implies lm[k1] != lm[k2] by {
                if k1 < lb.len() && k2 >= lb.len() {
                    assert(lm[k1] == lb[k1]);
                    assert(lm[k2] == la[k2 - lb.len()]);
                    assert(lb.contains(lm[k1]));
                    assert(la.contains(lm[k2]));
                }
            }
        }
        // Well-formedness cell by cell.
        assert forall|i: int| 0 <= i < self.cap() implies #[trigger] self.cell_ok(i) by {
            assert(mid.cell_ok(i));
            if la.contains(i as usize) {
                assert(self.parent@[i] == root_b);
                assert(lm.contains(i as usize)) by {
                    let k = choose|k: int| 0 <= k < la.len() && la[k] == i as usize;
                    assert(lm[lb.len() + k] == i as usize);
                }
            } else {
                assert(self.parent@[i] == mid.parent@[i]);
                if mid.parent@[i] != NO_PARENT {
                    let p = mid.parent@[i];
                    assert(mid.member_seq(p).contains(i as usize));
                    assert(p != root_a) by {
                        if p == root_a {
                            assert(la.contains(i as usize));
                        }
                    }
                    if p == root_b {
                        assert(lm.contains(i as usize)) by {
                            let k = choose|k: int| 0 <= k < lb.len() && lb[k] == i as usize;
                            assert(lm[k] == i as usize);
                        }
                    }
                }
                if self.members@[i] is Some && i != root_b as int {
                    assert(mid.members@[i] is Some);
                }
            }
        }
        assert forall|r: int| 0 <= r < self.cap() implies #[trigger] self.root_ok(r) by {
            if self.members@[r] is Some {
                if r == root_b as int {
                    assert(lm.contains(root_b)) by {
                        let k = choose|k: int| 0 <= k < lb.len() && lb[k] == root_b;
                        assert(lm[k] == root_b);
                    }
                    assert forall|k: int|
                        0 <= k < lm.len() implies (#[trigger] lm[k]) < self.cap() && (lm[k]
                            == root_b || self.parent@[lm[k] as int] == root_b) by {
                        if k < lb.len() {
                            assert(lm[k] == lb[k] && lb.contains(lb[k]));
                            if lm[k] != root_b {
                                assert(!la.contains(lm[k]));
                                assert(mid.root_ok(root_b as int));
                            }
                        } else {
                            assert(lm[k] == la[k - lb.len()] && la.contains(la[k - lb.len()]));
                        }
                    }
                } else {
                    assert(mid.root_ok(r));
                    assert(mid.members@[r] is Some);
                    let l = mid.members@[r]->Some_0@;
                    assert(self.member_seq(r as usize) == l);
                    assert forall|k: int|
                        0 <= k < l.len() implies (#[trigger] l[k]) < self.cap() && (l[k] == r
                            || self.parent@[l[k] as int] == r) by {
                        assert(l.contains(l[k]));
                        mid.lemma_elem_of_root(r as usize, l[k]);
                        assert(!la.contains(l[k]));
                    }
                }
            }
        }
        // Containment and roots.
        assert forall|j: usize| self.has(j) <==> mid.has(j) by {
            if la.contains(j) {
                assert(mid.has(j));
                assert(self.parent@[j as int] == root_b);
                assert(root_b < mid.cap());
                assert(self.has(j));
            }
        }
        assert forall|j: usize| mid.has(j) implies self.root_of(j) == (if mid.root_of(j) == root_a {
            root_b
        } else {
            mid.root_of(j)
        }) by {
            mid.lemma_root_props(j);
            if mid.root_of(j) == root_a {
                assert(la.contains(j));
            } else {
                assert(!la.contains(j)) by {
                    if la.contains(j) {
                        assert(mid.root_of(j) == root_a);
                    }
                }
            }
        }
        assert forall|j: usize|
            mid.has(j) && mid.root_of(j) != root_a && mid.root_of(j) != root_b implies self.group(
            j,
        ) =~= mid.group(j) && self.is_root_at(mid.root_of(j)) && self.member_seq(
            mid.root_of(j),
        ) == mid.member_seq(mid.root_of(j)) by {
            mid.lemma_root_props(j);
            assert(self.members@[mid.root_of(j) as int] == mid.members@[mid.root_of(j) as int]);
        }
        assert forall|j: usize|
            mid.has(j) && (mid.root_of(j) == root_a || mid.root_of(j) == root_b) implies self.group(
            j,
        ) =~= mid.group(root_a).union(mid.group(root_b)) by {
            mid.lemma_root_props(root_a);
            mid.lemma_root_props(root_b);
            assert(mid.root_of(root_a) == root_a);
            assert(mid.root_of(root_b) == root_b);
        }
    }

    /// Removes every member of `idx`'s group and returns them in
    /// ascending order. Requires that `idx` belongs to a group: asking to
    /// delete a group that does not exist is a programming error, not a
    /// recoverable condition.
    pub fn delete_group(&mut self, idx: usize) -> (r: Vec<usize>)
        requires
            old(self).wf(),
            idx < old(self).cap(),
            old(self).has(idx),
        ensures
            final(self).wf(),
            final(self).cap() == old(self).cap(),
            sorted_strict(r@),
            r@.no_duplicates(),
            r@.to_set() =~= old(self).group(idx),
            forall|j: usize|
                final(self).has(j) <==> (old(self).has(j) && !old(self).group(idx).contains(j)),
            forall|j: usize|
                old(self).has(j) && !old(self).group(idx).contains(j) ==> final(self).root_of(j)
                    == old(self).root_of(j) && final(self).group(j) =~= old(self).group(j) && final(self).member_seq(old(self).root_of(j)) == old(self).member_seq(old(self).root_of(j)),
            forall|r2: usize|
                final(self).is_root_at(r2) <==> (old(self).is_root_at(r2) && r2 != old(self).root_of(idx)),
    {
        let sorted = match self.group_members(idx) {
            Some(v) => v,
            None => unreached(),
        };
        let root = self.find_root(idx).unwrap();
        proof {
            self.lemma_root_props(idx);
            self.lemma_group_is_list(idx);
            assert(self.root_ok(root as int));
            assert forall|e: usize| self.member_seq(root).contains(e) implies self.has(e)
                && self.root_of(e) == root && e < self.cap() by {
                self.lemma_elem_of_root(root, e);
            }
            assert forall|j: usize| self.has(j) implies self.member_seq(self.root_of(j)).contains(
                j,
            ) && self.is_root_at(self.root_of(j)) by {
                self.lemma_root_props(j);
            }
        }
        let ghost mid = *self;
        let mut slot: Option<Vec<usize>> = None;
        self.members.set_and_swap(root, &mut slot);
        let l = match slot {
            Some(l) => l,
            None => unreached(),
        };
        let n = l.len();
        let mut k: usize = 0;
        while k < n
            invariant
                k <= n,
                n == l@.len(),
                l@ == mid.member_seq(root),
                root < mid.cap(),
                NO_PARENT == usize::MAX,
                mid.cap() < usize::MAX,
                forall|e: usize|
                    #[trigger] l@.contains(e) ==> mid.has(e) && mid.root_of(e) == root && e
                        < mid.cap(),
                self.parent@.len() == mid.parent@.len(),
                self.members@ == mid.members@.update(root as int, None),
                self.cap() == mid.cap(),
                forall|m: int| 0 <= m < k ==> self.parent@[l@[m] as int] == NO_PARENT,
                forall|j: usize|
                    j < mid.cap() && !l@.subrange(0, k as int).contains(j) ==> self.parent@[j as int]
                        == mid.parent@[j as int],
            decreases n - k,
        {
            proof {
                assert(l@.contains(l@[k as int]));
                assert(l@[k as int] < mid.cap());
            }
            let ghost pre = self.parent@;
            let e = l[k];
            self.parent.set(e, NO_PARENT);
            proof {
                assert(self.parent@ == pre.update(e as int, NO_PARENT));
                assert forall|j: usize|
                    j < mid.cap() && !l@.subrange(0, k + 1 as int).contains(
                        j,
                    ) implies self.parent@[j as int] == mid.parent@[j as int] by {
                    assert(!l@.subrange(0, k as int).contains(j)) by {
                        if l@.subrange(0, k as int).contains(j) {
                            let m = choose|m: int| 0 <= m < k && l@.subrange(0, k as int)[m] == j;
                            assert(l@.subrange(0, k + 1 as int)[m] == j);
                            assert(l@.subrange(0, k + 1 as int).contains(j));
                        }
                    }
                    assert(j != e) by {
                        if j == e {
                            assert(l@.subrange(0, k + 1 as int)[k as int] == e);
                            assert(l@.subrange(0, k + 1 as int).contains(j));
                        }
                    }
                    assert(pre[j as int] == mid.parent@[j as int]);
                    assert(self.parent@[j as int] == pre[j as int]);
                }
                assert forall|m: int| 0 <= m <= k implies self.parent@[l@[m] as int]
                    == NO_PARENT by {
                    assert(l@.contains(l@[m]));
                    assert(l@[m] < mid.cap());
                    if l@[m] == e {
                        assert(self.parent@[l@[m] as int] == NO_PARENT);
                    } else {
                        assert(m < k);
                        assert(pre[l@[m] as int] == NO_PARENT);
                        assert(self.parent@[l@[m] as int] == pre[l@[m] as int]);
                    }
                }
            }
            k = k + 1;
        }
        proof {
            assert(l@.subrange(0, n as int) =~= l@);
            let post = *self;
            // Every group member (and only those) lost containment.
            assert forall|j: usize| post.has(j) <==> (mid.has(j) && !mid.group(idx).contains(
                j,
            )) by {
                if l@.contains(j) {
                    assert(post.parent@[j as int] == NO_PARENT);
                    assert(post.members@[j as int] is None || j != root);
                    if j == root {
                        assert(post.members@[j as int] is None);
                    } else {
                        assert(mid.cell_ok(j as int));
                        assert(post.members@[j as int] == mid.members@[j as int]);
                        assert(mid.members@[j as int] is None) by {
                            if mid.members@[j as int] is Some {
                                assert(mid.root_of(j) == j);
                            }
                        }
                    }
                    assert(!post.has(j));
                    assert(mid.group(idx).contains(j));
                } else {
                    if j < mid.cap() {
                        assert(post.parent@[j as int] == mid.parent@[j as int]);
                        if mid.has(j) && mid.group(idx).contains(j) {
                            assert(mid.member_seq(root).contains(j));
                        }
                        if j == root {
                            assert(l@.contains(root));
                        }
                    }
                }
            }
            assert forall|i: int| 0 <= i < post.cap() implies #[trigger] post.cell_ok(i) by {
                assert(mid.cell_ok(i));
                if l@.contains(i as usize) {
                    assert(post.parent@[i] == NO_PARENT);
                    if post.members@[i] is Some {
                        assert(i != root);
                        assert(mid.members@[i] is Some);
                        assert(mid.root_of(i as usize) == i as usize);
                    }
                } else {
                    assert(post.parent@[i] == mid.parent@[i]);
                    if post.parent@[i] != NO_PARENT {
                        let p = mid.parent@[i];
                        assert(mid.member_seq(p).contains(i as usize));
                        assert(p != root) by {
                            if p == root {
                                assert(l@.contains(i as usize));
                            }
                        }
                    }
                }
            }
            assert forall|r2: int| 0 <= r2 < post.cap() implies #[trigger] post.root_ok(r2) by {
                if post.members@[r2] is Some {
                    assert(r2 != root);
                    assert(mid.root_ok(r2));
                    let lr = mid.members@[r2]->Some_0@;
                    assert(post.member_seq(r2 as usize) == lr);
                    assert forall|kk: int|
                        0 <= kk < lr.len() implies (#[trigger] lr[kk]) < post.cap() && (lr[kk] == r2
                            || post.parent@[lr[kk] as int] == r2) by {
                        assert(lr.contains(lr[kk]));
                        mid.lemma_elem_of_root(r2 as usize, lr[kk]);
                        assert(!l@.contains(lr[kk])) by {
                            if l@.contains(lr[kk]) {
                                assert(mid.root_of(lr[kk]) == root);
                            }
                        }
                    }
                }
            }
            assert forall|j: usize|
                mid.has(j) && !mid.group(idx).contains(j) implies post.root_of(j) == mid.root_of(j)
                && post.group(j) =~= mid.group(j) && post.member_seq(mid.root_of(j))
                == mid.member_seq(mid.root_of(j)) by {
                mid.lemma_root_props(j);
                assert(!l@.contains(j)) by {
                    if l@.contains(j) {
                        assert(mid.group(idx).contains(j));
                    }
                }
                assert(mid.root_of(j) != root) by {
                    if mid.root_of(j) == root {
                        assert(mid.member_seq(root).contains(j));
                        assert(mid.group(idx).contains(j));
                    }
                }
                assert forall|e: usize| post.group(j).contains(e) <==> mid.group(j).contains(
                    e,
                ) by {
                    if mid.has(e) {
                        if l@.contains(e) {
                            assert(mid.root_of(e) == root);
                        } else {
                            assert(post.parent@[e as int] == mid.parent@[e as int]);
                        }
                    }
                }
            }
        }
        sorted
    }

    /// Re-runs compression over every slot. Links are already kept
    /// compressed on every update, so this never changes the structure.
    pub fn run_path_compression(&mut self)
        requires
            old(self).wf(),
        ensures
            *final(self) == *old(self),
    {
        let cap = self.parent.len();
        let mut i: usize = 0;
        while i < cap
            invariant
                *self == *old(self),
                cap == self.cap(),
                old(self).wf(),
            decreases cap - i,
        {
            let _ = self.find_root(i);
            i = i + 1;
        }
    }
}

} // verus!
