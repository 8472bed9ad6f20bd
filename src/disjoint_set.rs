use std::collections::HashMap;
use vstd::prelude::*;
use vstd::std_specs::hash::group_hash_axioms;

verus! {

broadcast use group_hash_axioms;

/// The representative of `x` in a model `m`: an element that `m` does not
/// hold stands alone and represents itself.
pub open spec fn rep_in(m: Map<u64, u64>, x: u64) -> u64 {
    if m.contains_key(x) {
        m[x]
    } else {
        x
    }
}

/// A partition of `u64` elements into disjoint sets.
///
/// Each registered element has a parent (a root is its own parent) and a
/// height, an upper bound on the height of the tree below it. `count` is the
/// number of sets, plus the number of repeated elements given at construction.
pub struct DisjointSet {
    parents: HashMap<u64, u64>,
    heights: HashMap<u64, usize>,
    count: usize,
    /// The root that each registered element leads to.
    reps: Ghost<Map<u64, u64>>,
    /// How far `count` exceeds the number of roots (repeats at construction).
    surplus: Ghost<nat>,
}

impl View for DisjointSet {
    type V = Map<u64, u64>;

    /// Each registered element, mapped to the representative of its set.
    closed spec fn view(&self) -> Map<u64, u64> {
        self.reps@
    }
}

impl DisjointSet {
    /// The representative of `x`'s set; an unregistered element is its own.
    pub open spec fn rep(&self, x: u64) -> u64 {
        rep_in(self@, x)
    }

    /// Whether `x` and `y` lie in one set.
    pub open spec fn joins(&self, x: u64, y: u64) -> bool {
        self.rep(x) == self.rep(y)
    }

    /// The height recorded for `x` (0 for an unregistered element).
    pub closed spec fn height(&self, x: u64) -> nat {
        if self.heights@.contains_key(x) {
            self.heights@[x] as nat
        } else {
            0
        }
    }

    /// The parent of `x` in its tree (an unregistered element is its own).
    pub closed spec fn parent(&self, x: u64) -> u64 {
        if self.parents@.contains_key(x) {
            self.parents@[x]
        } else {
            x
        }
    }

    /// Whether `y` is `n` parent links up from `x`.
    pub open spec fn reaches(&self, x: u64, y: u64, n: nat) -> bool
        decreases n,
    {
        if n == 0 {
            x == y
        } else {
            self.reaches(self.parent(x), y, (n - 1) as nat)
        }
    }

    proof fn lemma_reaches_next(&self, x: u64, c: u64, k: nat)
        requires
            self.reaches(x, c, k),
        ensures
            self.reaches(x, self.parent(c), k + 1),
        decreases k,
    {
        if k > 0 {
            self.lemma_reaches_next(self.parent(x), c, (k - 1) as nat);
        } else {
            assert(self.reaches(self.parent(x), self.parent(c), 0));
        }
    }

    proof fn lemma_reaches_split(&self, x: u64, c: u64, k: nat, y: u64, n: nat)
        requires
            self.reaches(x, c, k),
            self.reaches(x, y, n),
            k <= n,
        ensures
            self.reaches(c, y, (n - k) as nat),
        decreases k,
    {
        if k > 0 {
            self.lemma_reaches_split(self.parent(x), c, (k - 1) as nat, y, (n - 1) as nat);
        }
    }

    proof fn lemma_root_reaches_itself(&self, r: u64, y: u64, n: nat)
        requires
            self.parent(r) == r,
            self.reaches(r, y, n),
        ensures
            y == r,
        decreases n,
    {
        if n > 0 {
            self.lemma_root_reaches_itself(r, y, (n - 1) as nat);
        }
    }

    /// The number that `get_count` reports.
    pub closed spec fn spec_count(&self) -> nat {
        self.count as nat
    }

    /// The registered elements whose set `r` represents.
    closed spec fn members(&self, r: u64) -> Set<u64> {
        self.reps@.dom().filter(|x: u64| self.reps@[x] == r)
    }

    /// The registered elements that represent their own set.
    closed spec fn roots(&self) -> Set<u64> {
        self.reps@.dom().filter(|x: u64| self.reps@[x] == x)
    }

    /// The links at a registered element `x`: its parent and representative
    /// are registered, they lead to one root, and heights grow along them.
    closed spec fn link_ok(&self, x: u64) -> bool {
        let p = self.parents@;
        let h = self.heights@;
        let m = self.reps@;
        &&& p.contains_key(p[x])
        &&& m[p[x]] == m[x]
        &&& p.contains_key(m[x])
        &&& m[m[x]] == m[x]
        &&& (p[x] == x <==> m[x] == x)
        &&& (p[x] != x ==> h[x] < h[p[x]])
        &&& (m[x] != x ==> h[x] < h[m[x]])
    }

    closed spec fn links_ok(&self) -> bool {
        forall|x: u64| self.parents@.contains_key(x) ==> #[trigger] self.link_ok(x)
    }

    closed spec fn sizes_ok(&self) -> bool {
        forall|r: u64|
            #![trigger self.members(r)]
            self.reps@.contains_key(r) && self.reps@[r] == r ==> self.members(r).len()
                > self.heights@[r]
    }

    /// The structure's invariant.
    pub closed spec fn wf(&self) -> bool {
        &&& self.parents@.dom() == self.reps@.dom()
        &&& self.heights@.dom() == self.reps@.dom()
        &&& self.reps@.dom().finite()
        &&& self.links_ok()
        &&& self.sizes_ok()
        &&& self.count == self.roots().len() + self.surplus@
    }

    /// Every representative is registered and represents its own set.
    pub proof fn lemma_reps_are_roots(&self)
        requires
            self.wf(),
        ensures
            forall|x: u64| #[trigger] self@.contains_key(x) ==> self@.contains_key(self@[x]),
            forall|x: u64| #[trigger] self.rep(self.rep(x)) == self.rep(x),
    {
        assert forall|x: u64| #[trigger] self.rep(self.rep(x)) == self.rep(x) by {
            if self@.contains_key(x) {
                assert(self.link_ok(x));
            }
        }
        assert forall|x: u64| #[trigger] self@.contains_key(x) implies self@.contains_key(
            self@[x],
        ) by {
            assert(self.link_ok(x));
        }
    }

    /// A registered element is its own parent exactly when it represents its
    /// own set; an unregistered element is its own parent, of height 0.
    pub proof fn lemma_parent_and_height(&self)
        requires
            self.wf(),
        ensures
            forall|x: u64| #[trigger]
                self@.contains_key(x) ==> (self.parent(x) == x <==> self.rep(x) == x),
            forall|x: u64|
                !#[trigger] self@.contains_key(x) ==> self.height(x) == 0 && self.parent(x) == x,
    {
        assert forall|x: u64| #[trigger]
            self@.contains_key(x) implies (self.parent(x) == x <==> self.rep(x) == x) by {
            assert(self.link_ok(x));
        }
    }

    /// Builds a structure in which every element of `v` is a set of its own,
    /// of height 0. The count is the length of `v`, repeats included.
    pub fn new(v: &Vec<u64>) -> (s: DisjointSet)
        ensures
            s.wf(),
            s@ == Map::new(|x: u64| v@.contains(x), |x: u64| x),
            forall|x: u64| #[trigger] s.height(x) == 0,
            forall|x: u64| v@.contains(x) ==> #[trigger] s.parent(x) == x,
            s.spec_count() == v@.len(),
    {
        let mut parents: HashMap<u64, u64> = HashMap::new();
        let mut heights: HashMap<u64, usize> = HashMap::new();
        let ghost mut reps: Map<u64, u64> = Map::empty();
        let mut i: usize = 0;
        while i < v.len()
            invariant
                i <= v.len(),
                parents@.dom() == reps.dom(),
                heights@.dom() == reps.dom(),
                reps == Map::new(|x: u64| v@.subrange(0, i as int).contains(x), |x: u64| x),
                forall|x: u64| #[trigger] heights@.contains_key(x) ==> heights@[x] == 0,
                forall|x: u64| #[trigger] parents@.contains_key(x) ==> parents@[x] == x,
                reps.dom().len() <= i,
            decreases v.len() - i,
        {
            let x = v[i];
            parents.insert(x, x);
            heights.insert(x, 0);
            proof {
                broadcast use vstd::seq_lib::lemma_seq_contains_after_push;

                reps = reps.insert(x, x);
                assert(v@.subrange(0, i + 1) == v@.subrange(0, i as int).push(x));
                assert(reps =~= Map::new(|y: u64| v@.subrange(0, i + 1).contains(y), |y: u64| y));
            }
            i = i + 1;
        }
        proof {
            assert(v@.subrange(0, i as int) == v@);
        }
        let s = DisjointSet {
            parents,
            heights,
            count: v.len(),
            reps: Ghost(reps),
            surplus: Ghost((v.len() - reps.dom().len()) as nat),
        };
        proof {
            assert(s.roots() =~= reps.dom());
            assert forall|y: u64| s.parents@.contains_key(y) implies #[trigger] s.link_ok(y) by {}
            assert forall|r: u64| #[trigger]
                s.members(r) == (if reps.contains_key(r) {
                    set![r]
                } else {
                    Set::empty()
                }) by {}
        }
        s
    }

    /// What a lookup of `e` leaves behind: `e` is registered (as a set of its
    /// own if it was new), no set or height changes, and the count grows by one
    /// exactly when `e` was new.
    pub open spec fn after_find(pre: DisjointSet, post: DisjointSet, e: u64) -> bool {
        &&& post.wf()
        &&& post@ == if pre@.contains_key(e) {
            pre@
        } else {
            pre@.insert(e, e)
        }
        &&& forall|x: u64| #[trigger] post.height(x) == pre.height(x)
        &&& post.spec_count() == pre.spec_count() + if pre@.contains_key(e) {
            0nat
        } else {
            1nat
        }
    }

    /// Registers `e` as a set of its own.
    fn register(&mut self, e: u64)
        requires
            old(self).wf(),
            !old(self)@.contains_key(e),
            old(self).spec_count() < usize::MAX,
        ensures
            Self::after_find(*old(self), *final(self), e),
            forall|y: u64| #[trigger] final(self).parent(y) == old(self).parent(y),
    {
        self.parents.insert(e, e);
        self.heights.insert(e, 0);
        self.count = self.count + 1;
        let ghost pre = *old(self);
        self.reps = Ghost(self.reps@.insert(e, e));
        proof {
            assert(self.roots() =~= pre.roots().insert(e));
            assert forall|y: u64| self.parents@.contains_key(y) implies #[trigger] self.link_ok(y) by {
                if y != e {
                    assert(pre.link_ok(y));
                }
            }
            assert forall|x: u64| pre.reps@.contains_key(x) implies #[trigger] pre.reps@[x] != e by {
                assert(pre.link_ok(x));
            }
            assert forall|r: u64| #[trigger] self.members(r) == (if r == e {
                set![e]
            } else {
                pre.members(r)
            }) by {
                assert(self.members(r) =~= (if r == e {
                    set![e]
                } else {
                    pre.members(r)
                }));
            }
            assert forall|x: u64| #[trigger] self.height(x) == pre.height(x) by {}
            assert forall|y: u64| #[trigger] self.parent(y) == pre.parent(y) by {}
        }
    }

    /// Returns the representative of `e`'s set, and points every element on
    /// the way from `e` to it directly at it. An element not seen before is
    /// registered as a set of its own and is its own representative.
    pub fn find(&mut self, e: &u64) -> (r: u64)
        requires
            old(self).wf(),
            old(self)@.contains_key(*e) || old(self).spec_count() < usize::MAX,
        ensures
            r == old(self).rep(*e),
            Self::after_find(*old(self), *final(self), *e),
            Self::keeps_sets(*old(self), *final(self)),
            final(self).parent(r) == r,
            forall|y: u64, n: nat| #[trigger]
                old(self).reaches(*e, y, n) ==> final(self).parent(y) == r,
            forall|y: u64|
                #![trigger final(self).parent(y)]
                final(self).parent(y) != old(self).parent(y) ==> exists|n: nat| #[trigger]
                    old(self).reaches(*e, y, n),
            !old(self)@.contains_key(*e) ==> forall|y: u64| #[trigger]
                final(self).parent(y) == old(self).parent(y),
    {
        let x = *e;
        if !self.parents.contains_key(&x) {
            let ghost pre = *self;
            self.register(x);
            proof {
                assert forall|y: u64, n: nat| #[trigger] pre.reaches(x, y, n) implies self.parent(y)
                    == x by {
                    pre.lemma_root_reaches_itself(x, y, n);
                }
                assert(self.parent(x) == x);
            }
            return x;
        }
        let ghost pre = *self;
        let mut root = x;
        loop
            invariant
                *self == pre,
                pre.wf(),
                pre.parents@.contains_key(x),
                pre.parents@.contains_key(root),
                pre.reps@[root] == pre.reps@[x],
            ensures
                pre.parents@.contains_key(root),
                pre.parents@[root] == root,
                pre.reps@[root] == pre.reps@[x],
            decreases usize::MAX - pre.heights@[root],
        {
            proof {
                assert(pre.link_ok(root));
            }
            let next = match self.parents.get(&root) {
                Some(p) => *p,
                None => root,
            };
            if next == root {
                break;
            }
            root = next;
        }
        proof {
            assert(pre.link_ok(root));
        }
        let mut cur = x;
        let ghost mut steps: nat = 0;
        while cur != root
            invariant
                self.parents@.contains_key(root),
                self.wf(),
                self@ == pre@,
                self.heights@ == pre.heights@,
                self.count == pre.count,
                self.surplus@ == pre.surplus@,
                self.parents@.contains_key(cur),
                self.reps@[cur] == root,
                self.reps@[root] == root,
                pre.parents@.contains_key(x),
                pre.wf(),
                pre.reaches(x, cur, steps),
                forall|y: u64, n: nat| #[trigger]
                    pre.reaches(x, y, n) && n < steps ==> self.parent(y) == root,
                forall|y: u64|
                    #![trigger self.parent(y)]
                    self.parent(y) != pre.parent(y) ==> {
                        &&& self.parent(y) == root
                        &&& pre.parents@.contains_key(y)
                        &&& pre.heights@[y] < pre.heights@[cur]
                        &&& exists|n: nat| #[trigger] pre.reaches(x, y, n)
                    },
            decreases usize::MAX - self.heights@[cur],
        {
            proof {
                assert(self.link_ok(cur));
                assert(self.link_ok(root));
            }
            let next = match self.parents.get(&cur) {
                Some(p) => *p,
                None => root,
            };
            let ghost before = *self;
            self.parents.insert(cur, root);
            proof {
                assert(before.parent(cur) == pre.parent(cur));
                assert(next == pre.parent(cur));
                pre.lemma_reaches_next(x, cur, steps);
                assert(pre.link_ok(cur));
                assert forall|y: u64, n: nat| #[trigger]
                    pre.reaches(x, y, n) && n < steps + 1 implies self.parent(y) == root by {
                    if n == steps {
                        pre.lemma_reaches_split(x, cur, steps, y, n);
                    }
                }
                assert forall|y: u64| #[trigger]
                    self.parent(y) != pre.parent(y) implies {
                    &&& self.parent(y) == root
                    &&& pre.parents@.contains_key(y)
                    &&& pre.heights@[y] < pre.heights@[next]
                    &&& exists|n: nat| #[trigger] pre.reaches(x, y, n)
                } by {
                    if y != cur {
                        assert(self.parent(y) == before.parent(y));
                    } else {
                        assert(pre.reaches(x, cur, steps));
                    }
                }
                assert(self.parents@.dom() =~= before.parents@.dom());
                assert(self.roots() =~= before.roots());
                assert forall|r: u64| #[trigger] self.members(r) == before.members(r) by {
                    assert(self.members(r) =~= before.members(r));
                }
                assert forall|y: u64| self.parents@.contains_key(y) implies #[trigger] self.link_ok(
                    y,
                ) by {
                    assert(before.link_ok(y));
                }
            }
            cur = next;
            proof {
                steps = steps + 1;
            }
        }
        proof {
            assert forall|y: u64| #[trigger] self.height(y) == pre.height(y) by {}
            assert(self.parent(root) == pre.parent(root));
            assert forall|y: u64, n: nat| #[trigger] pre.reaches(x, y, n) implies self.parent(y)
                == root by {
                if n >= steps {
                    pre.lemma_reaches_split(x, root, steps, y, n);
                    pre.lemma_root_reaches_itself(root, y, (n - steps) as nat);
                }
            }
            assert(self.link_ok(root));
        }
        root
    }

    /// The root that survives when the sets of `a` and `b` are joined: the
    /// representative of the higher tree, or `a`'s when the heights are equal.
    pub open spec fn merged_root(&self, a: u64, b: u64) -> u64 {
        if self.height(self.rep(a)) < self.height(self.rep(b)) {
            self.rep(b)
        } else {
            self.rep(a)
        }
    }

    /// The root that goes under the merged root when the sets of `a` and `b`
    /// are joined.
    pub open spec fn merged_child(&self, a: u64, b: u64) -> u64 {
        if self.height(self.rep(a)) < self.height(self.rep(b)) {
            self.rep(a)
        } else {
            self.rep(b)
        }
    }

    /// How many of `a` and `b` are not registered yet.
    pub open spec fn fresh(&self, a: u64, b: u64) -> nat {
        (if self@.contains_key(a) {
            0nat
        } else {
            1nat
        }) + (if self@.contains_key(b) || a == b {
            0nat
        } else {
            1nat
        })
    }

    /// What joining the sets of `a` and `b` leaves behind: both are registered;
    /// the result tells whether they were in two sets; if so, the other root
    /// now has the merged root as parent, both sets have the merged root as
    /// representative, that root's height grows by one
    /// exactly when the two heights were equal, and the count drops by one.
    pub open spec fn after_union(pre: DisjointSet, post: DisjointSet, a: u64, b: u64, r: bool) -> bool {
        &&& post.wf()
        &&& r == (pre.rep(a) != pre.rep(b))
        &&& post@.dom() == pre@.dom().insert(a).insert(b)
        &&& forall|x: u64| #[trigger]
            post.rep(x) == if r && (pre.rep(x) == pre.rep(a) || pre.rep(x) == pre.rep(b)) {
                pre.merged_root(a, b)
            } else {
                pre.rep(x)
            }
        &&& forall|x: u64| #[trigger]
            post.height(x) == if r && x == pre.rep(a) && pre.height(pre.rep(a)) == pre.height(
                pre.rep(b),
            ) {
                pre.height(x) + 1
            } else {
                pre.height(x)
            }
        &&& post.spec_count() + (if r {
            1nat
        } else {
            0nat
        }) == pre.spec_count() + pre.fresh(a, b)
        &&& r ==> post.parent(pre.merged_child(a, b)) == pre.merged_root(a, b)
        &&& r ==> post.parent(pre.merged_root(a, b)) == pre.merged_root(a, b)
    }

    /// Hangs the root `loser` under the root `winner`, which is at least as
    /// high; on equal heights the winner grows by one.
    fn attach(&mut self, loser: u64, winner: u64)
        requires
            old(self).wf(),
            old(self)@.contains_key(loser),
            old(self)@.contains_key(winner),
            old(self)@[loser] == loser,
            old(self)@[winner] == winner,
            loser != winner,
            old(self).height(loser) <= old(self).height(winner),
        ensures
            final(self).wf(),
            final(self)@.dom() == old(self)@.dom(),
            forall|x: u64| #[trigger]
                final(self).rep(x) == if old(self).rep(x) == loser {
                    winner
                } else {
                    old(self).rep(x)
                },
            forall|x: u64| #[trigger]
                final(self).height(x) == if x == winner && old(self).height(loser) == old(self).height(
                    winner,
                ) {
                    old(self).height(x) + 1
                } else {
                    old(self).height(x)
                },
            final(self).spec_count() + 1 == old(self).spec_count(),
            final(self).parent(loser) == winner,
            final(self).parent(winner) == winner,
            forall|y: u64| y != loser ==> #[trigger] final(self).parent(y) == old(self).parent(y),
    {
        let ghost pre = *self;
        let ghost m = self.reps@;
        let n = self.heights.len();
        let hl = match self.heights.get(&loser) {
            Some(h) => *h,
            None => 0,
        };
        let hw = match self.heights.get(&winner) {
            Some(h) => *h,
            None => 0,
        };
        proof {
            assert(pre.members(winner).contains(winner));
            assert(pre.members(loser).contains(loser));
            assert(pre.members(winner).subset_of(m.dom()));
            assert(pre.members(loser).subset_of(m.dom()));
            vstd::set_lib::lemma_len_subset(pre.members(winner), m.dom());
            vstd::set_lib::lemma_len_subset(pre.members(loser), m.dom());
            assert(pre.roots().contains(loser));
            assert(pre.roots().remove(loser).len() == pre.roots().len() - 1);
        }
        self.parents.insert(loser, winner);
        if hl == hw {
            self.heights.insert(winner, hw + 1);
        }
        self.count = self.count - 1;
        self.reps = Ghost(
            Map::new(
                |x: u64| m.contains_key(x),
                |x: u64|
                    if m[x] == loser {
                        winner
                    } else {
                        m[x]
                    },
            ),
        );
        proof {
            assert(self.reps@.dom() =~= m.dom());
            assert(self.parents@.dom() =~= m.dom());
            assert(self.heights@.dom() =~= m.dom());
            assert(self.roots() =~= pre.roots().remove(loser));
            let both = pre.members(winner) + pre.members(loser);
            assert(pre.members(winner).disjoint(pre.members(loser)));
            vstd::set_lib::lemma_set_disjoint_lens(pre.members(winner), pre.members(loser));
            assert(self.members(winner) =~= both);
            assert forall|r: u64|
                self.reps@.contains_key(r) && self.reps@[r] == r implies #[trigger] self.members(
                r,
            ).len() > self.heights@[r] by {
                if r != winner {
                    assert(self.members(r) =~= pre.members(r));
                }
            }
            assert forall|y: u64| self.parents@.contains_key(y) implies #[trigger] self.link_ok(y) by {
                assert(pre.link_ok(y));
                assert(pre.link_ok(pre.parents@[y]));
                assert(pre.link_ok(m[y]));
                assert(pre.link_ok(loser));
                assert(pre.link_ok(winner));
            }
            assert(pre.link_ok(winner));
            assert forall|y: u64| y != loser implies #[trigger] self.parent(y) == pre.parent(y) by {}
            assert forall|x: u64| #[trigger] self.height(x) == if x == winner && pre.height(loser)
                == pre.height(winner) {
                pre.height(x) + 1
            } else {
                pre.height(x)
            } by {}
        }
    }

    /// Joins the sets of `a` and `b` (registering either one first if it is
    /// new). Returns false, changing no set, when they are already in one set.
    /// Otherwise the root of lower height goes under the other; on equal
    /// heights `b`'s root goes under `a`'s, whose height grows by one.
    pub fn union(&mut self, a: &u64, b: &u64) -> (r: bool)
        requires
            old(self).wf(),
            old(self).spec_count() + old(self).fresh(*a, *b) <= usize::MAX,
        ensures
            Self::after_union(*old(self), *final(self), *a, *b, r),
    {
        let ghost pre = *self;
        let ra = self.find(a);
        let ghost s1 = *self;
        let rb = self.find(b);
        let ghost mid = *self;
        proof {
            assert forall|x: u64| #[trigger] mid.rep(x) == pre.rep(x) by {
                assert(s1.rep(x) == pre.rep(x));
            }
            assert(mid.link_ok(*a));
            assert(mid.link_ok(*b));
            assert(mid@.dom() =~= pre@.dom().insert(*a).insert(*b));
            assert forall|x: u64| #[trigger] mid.height(x) == pre.height(x) by {
                assert(s1.height(x) == pre.height(x));
            }
            assert(mid.spec_count() == pre.spec_count() + pre.fresh(*a, *b));
            assert(ra == pre.rep(*a) && rb == pre.rep(*b));
            assert(mid@[ra] == ra && mid@[rb] == rb);
        }
        if ra == rb {
            return false;
        }
        let ha = match self.heights.get(&ra) {
            Some(h) => *h,
            None => 0,
        };
        let hb = match self.heights.get(&rb) {
            Some(h) => *h,
            None => 0,
        };
        proof {
            assert(mid.height(ra) == pre.height(ra));
            assert(mid.height(rb) == pre.height(rb));
            assert(ha as nat == pre.height(ra) && hb as nat == pre.height(rb));
        }
        if ha < hb {
            self.attach(ra, rb);
        } else {
            self.attach(rb, ra);
        }
        proof {
            assert(self@.dom() =~= pre@.dom().insert(*a).insert(*b));
            assert(pre.merged_root(*a, *b) == if ha < hb {
                rb
            } else {
                ra
            });
            assert forall|x: u64| #[trigger]
                self.rep(x) == if pre.rep(x) == pre.rep(*a) || pre.rep(x) == pre.rep(*b) {
                    pre.merged_root(*a, *b)
                } else {
                    pre.rep(x)
                } by {
                assert(mid.rep(x) == pre.rep(x));
            }
            assert forall|x: u64| #[trigger]
                self.height(x) == if x == pre.rep(*a) && pre.height(pre.rep(*a)) == pre.height(
                    pre.rep(*b),
                ) {
                    pre.height(x) + 1
                } else {
                    pre.height(x)
                } by {
                assert(mid.height(x) == pre.height(x));
                assert(mid.height(ra) == pre.height(ra));
                assert(mid.height(rb) == pre.height(rb));
            }
        }
        true
    }

    /// `post` holds the same sets, with the same representatives and heights,
    /// as `pre`, and keeps every element that `pre` registered.
    pub open spec fn keeps_sets(pre: DisjointSet, post: DisjointSet) -> bool {
        &&& post.wf()
        &&& pre@.dom().subset_of(post@.dom())
        &&& forall|x: u64| #[trigger] post.rep(x) == pre.rep(x)
        &&& forall|x: u64| #[trigger] post.height(x) == pre.height(x)
    }

    /// Whether `a` and `b` lie in one set; both are looked up as by `find`.
    pub fn connected(&mut self, a: &u64, b: &u64) -> (r: bool)
        requires
            old(self).wf(),
            old(self).spec_count() + old(self).fresh(*a, *b) <= usize::MAX,
        ensures
            r == old(self).joins(*a, *b),
            Self::keeps_sets(*old(self), *final(self)),
            final(self)@.dom() == old(self)@.dom().insert(*a).insert(*b),
            final(self).spec_count() == old(self).spec_count() + old(self).fresh(*a, *b),
    {
        let ghost pre = *self;
        let ra = self.find(a);
        let ghost s1 = *self;
        let rb = self.find(b);
        proof {
            assert forall|x: u64| #[trigger] self.rep(x) == pre.rep(x) by {
                assert(s1.rep(x) == pre.rep(x));
            }
            assert forall|x: u64| #[trigger] self.height(x) == pre.height(x) by {
                assert(s1.height(x) == pre.height(x));
            }
            assert(self@.dom() =~= pre@.dom().insert(*a).insert(*b));
        }
        ra == rb
    }

    /// The number of sets (with repeats given at construction counted).
    pub fn get_count(&self) -> (c: usize)
        ensures
            c == self.spec_count(),
    {
        self.count
    }
}

} // verus!
