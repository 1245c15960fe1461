use vstd::prelude::*;

verus! {

/// Why a shape cannot be added to a group.
#[derive(Clone, Copy, Debug, PartialEq, Eq, Structural)]
pub enum HierarchyError {
    /// The would-be parent is not a group.
    InvalidAddChild,
    /// The shape already belongs to a group.
    AlreadyHasParent,
    /// The shape is the group itself or one of its ancestors.
    WouldCreateCycle,
}

/// `s` lists a root and then, one after another, a child of the one before.
pub open spec fn is_chain(parents: Seq<Option<usize>>, s: Seq<usize>) -> bool {
    &&& s.len() >= 1
    &&& forall|i: int| 0 <= i < s.len() ==> (#[trigger] s[i]) < parents.len()
    &&& parents[s[0] as int] is None
    &&& forall|i: int| 0 <= i < s.len() - 1 ==> parents[#[trigger] s[i + 1] as int] == Some(s[i])
}

/// The shapes from the root of `n`'s tree down to `n` itself.
pub open spec fn chain_of(parents: Seq<Option<usize>>, n: usize) -> Seq<usize> {
    choose|s: Seq<usize>| is_chain(parents, s) && s.last() == n
}

/// A hierarchy as values: for each shape, its parent, whether it is a group,
/// and its children in the order they were added.
pub struct HierarchyView {
    pub parents: Seq<Option<usize>>,
    pub is_group: Seq<bool>,
    pub children: Seq<Seq<usize>>,
}

/// The tree structure of a scene: shapes are numbered in order of creation;
/// a group holds its children in the order they were added, and each shape
/// has at most one parent, which is a group. The links never form a cycle.
pub struct Hierarchy {
    parents: Vec<Option<usize>>,
    groups: Vec<bool>,
    children: Vec<Vec<usize>>,
    rank: Ghost<Seq<nat>>,
}

/// The contents of a sequence of index lists.
pub open spec fn usize_seqs(v: Seq<Vec<usize>>) -> Seq<Seq<usize>> {
    v.map_values(|x: Vec<usize>| x@)
}

impl View for Hierarchy {
    type V = HierarchyView;

    closed spec fn view(&self) -> HierarchyView {
        HierarchyView { parents: self.parents@, is_group: self.groups@, children: usize_seqs(self.children@) }
    }
}

/// Walks up from `n` while each parent has a lower rank.
spec fn chain_by_rank(parents: Seq<Option<usize>>, rank: Seq<nat>, n: usize) -> Seq<usize>
    decreases rank[n as int],
{
    match parents[n as int] {
        Some(p) => if p < parents.len() && rank[p as int] < rank[n as int] {
            chain_by_rank(parents, rank, p).push(n)
        } else {
            seq![n]
        },
        None => seq![n],
    }
}

/// Every parent link points at an existing group of lower rank.
spec fn ranked(parents: Seq<Option<usize>>, is_group: Seq<bool>, rank: Seq<nat>) -> bool {
    &&& parents.len() == is_group.len() == rank.len()
    &&& forall|n: int| #![trigger parents[n]] 0 <= n < parents.len() && parents[n] is Some ==> {
        let p = parents[n]->Some_0;
        &&& p < parents.len()
        &&& is_group[p as int]
        &&& rank[p as int] < rank[n]
    }
}

proof fn lemma_chain_exists(parents: Seq<Option<usize>>, is_group: Seq<bool>, rank: Seq<nat>, n: usize)
    requires
        ranked(parents, is_group, rank),
        n < parents.len(),
    ensures
        is_chain(parents, chain_by_rank(parents, rank, n)),
        chain_by_rank(parents, rank, n).last() == n,
    decreases rank[n as int],
{
    match parents[n as int] {
        Some(p) => {
            lemma_chain_exists(parents, is_group, rank, p);
            let c = chain_by_rank(parents, rank, p);
            let s = c.push(n);
            assert(s =~= chain_by_rank(parents, rank, n));
            assert forall|i: int| 0 <= i < s.len() - 1 implies parents[#[trigger] s[i + 1] as int] == Some(
                s[i],
            ) by {
                if i < c.len() - 1 {
                    assert(s[i + 1] == c[i + 1] && s[i] == c[i]);
                }
            }
            assert forall|i: int| 0 <= i < s.len() implies (#[trigger] s[i]) < parents.len() by {
                if i < c.len() {
                    assert(s[i] == c[i]);
                }
            }
        },
        None => {},
    }
}

proof fn lemma_chain_unique(parents: Seq<Option<usize>>, s: Seq<usize>, t: Seq<usize>)
    requires
        is_chain(parents, s),
        is_chain(parents, t),
        s.last() == t.last(),
    ensures
        s == t,
    decreases s.len(),
{
    if s.len() == 1 {
        if t.len() > 1 {
            let k = t.len() - 2;
            assert(parents[t[k + 1] as int] == Some(t[k]));
        }
        assert(s =~= t);
    } else {
        let ks = s.len() - 2;
        assert(parents[s[ks + 1] as int] == Some(s[ks]));
        if t.len() == 1 {
            assert(false);
        }
        let kt = t.len() - 2;
        assert(parents[t[kt + 1] as int] == Some(t[kt]));
        let s2 = s.drop_last();
        let t2 = t.drop_last();
        assert forall|i: int| 0 <= i < s2.len() - 1 implies parents[#[trigger] s2[i + 1] as int] == Some(s2[i]) by {
            assert(s2[i + 1] == s[i + 1]);
        }
        assert forall|i: int| 0 <= i < t2.len() - 1 implies parents[#[trigger] t2[i + 1] as int] == Some(t2[i]) by {
            assert(t2[i + 1] == t[i + 1]);
        }
        assert forall|i: int| 0 <= i < s2.len() implies (#[trigger] s2[i]) < parents.len() by {
            assert(s2[i] == s[i]);
        }
        assert forall|i: int| 0 <= i < t2.len() implies (#[trigger] t2[i]) < parents.len() by {
            assert(t2[i] == t[i]);
        }
        lemma_chain_unique(parents, s2, t2);
        assert(s =~= s2.push(s.last()));
        assert(t =~= t2.push(t.last()));
    }
}

/// Under ranked links, `chain_of` is the chain ending at `n`, and it extends
/// the chain of `n`'s parent.
proof fn lemma_chain_of(parents: Seq<Option<usize>>, is_group: Seq<bool>, rank: Seq<nat>, n: usize)
    requires
        ranked(parents, is_group, rank),
        n < parents.len(),
    ensures
        is_chain(parents, chain_of(parents, n)),
        chain_of(parents, n).last() == n,
        parents[n as int] is None ==> chain_of(parents, n) == seq![n],
        parents[n as int] matches Some(p) ==> chain_of(parents, n) == chain_of(parents, p).push(n),
{
    lemma_chain_exists(parents, is_group, rank, n);
    let c = chain_of(parents, n);
    assert(is_chain(parents, c) && c.last() == n);
    match parents[n as int] {
        None => {
            let s = seq![n];
            lemma_chain_unique(parents, c, s);
        },
        Some(p) => {
            lemma_chain_exists(parents, is_group, rank, p);
            let cp = chain_of(parents, p);
            assert(is_chain(parents, cp) && cp.last() == p);
            let s = cp.push(n);
            assert forall|i: int| 0 <= i < s.len() - 1 implies parents[#[trigger] s[i + 1] as int] == Some(
                s[i],
            ) by {
                if i < cp.len() - 1 {
                    assert(s[i + 1] == cp[i + 1] && s[i] == cp[i]);
                }
            }
            assert forall|i: int| 0 <= i < s.len() implies (#[trigger] s[i]) < parents.len() by {
                if i < cp.len() {
                    assert(s[i] == cp[i]);
                }
            }
            lemma_chain_unique(parents, c, s);
        },
    }
}

fn copy_indices(v: &Vec<usize>) -> (r: Vec<usize>)
    ensures
        r@ == v@,
{
    let mut r: Vec<usize> = Vec::new();
    let mut k: usize = 0;
    while k < v.len()
        invariant
            k <= v.len(),
            r@ == v@.subrange(0, k as int),
        decreases v.len() - k,
    {
        r.push(v[k]);
        k = k + 1;
        assert(r@ =~= v@.subrange(0, k as int));
    }
    assert(v@.subrange(0, k as int) =~= v@);
    r
}

impl Hierarchy {
    /// The links are ranked, and each group's child list holds exactly the
    /// shapes whose parent it is, once each.
    pub closed spec fn wf(&self) -> bool {
        let parents = self.parents@;
        let children = self.children@;
        &&& ranked(parents, self.groups@, self.rank@)
        &&& children.len() == parents.len()
        &&& forall|p: int, i: int|
            #![trigger children[p]@[i]]
            0 <= p < children.len() && 0 <= i < children[p]@.len() ==> {
                &&& children[p]@[i] < parents.len()
                &&& parents[children[p]@[i] as int] == Some(p as usize)
            }
        &&& forall|c: int|
            #![trigger parents[c]]
            0 <= c < parents.len() && parents[c] is Some ==> children[parents[c]->Some_0 as int]@.contains(
                c as usize,
            )
        &&& forall|p: int| 0 <= p < children.len() ==> (#[trigger] children[p])@.no_duplicates()
    }

    /// The number of shapes.
    pub closed spec fn spec_len(&self) -> nat {
        self.parents@.len()
    }

    /// An empty hierarchy.
    pub fn new() -> (r: Hierarchy)
        ensures
            r.wf(),
            r@.parents.len() == 0,
            r.spec_len() == 0,
    {
        Hierarchy { parents: Vec::new(), groups: Vec::new(), children: Vec::new(), rank: Ghost(Seq::empty()) }
    }

    /// The number of shapes.
    pub fn len(&self) -> (r: usize)
        ensures
            r == self.spec_len(),
    {
        self.parents.len()
    }

    /// Adds a shape with no parent and no children, a group when `is_group`
    /// holds; returns its number.
    pub fn add_shape(&mut self, is_group: bool) -> (r: usize)
        requires
            old(self).wf(),
            old(self).spec_len() < usize::MAX,
        ensures
            final(self).wf(),
            r == old(self).spec_len(),
            final(self).spec_len() == old(self).spec_len() + 1,
            final(self)@.parents == old(self)@.parents.push(None),
            final(self)@.is_group == old(self)@.is_group.push(is_group),
            final(self)@.children == old(self)@.children.push(Seq::empty()),
    {
        let r = self.parents.len();
        let ghost old_children = self.children@;
        self.parents.push(None);
        self.groups.push(is_group);
        self.children.push(Vec::new());
        self.rank = Ghost(self.rank@.push(0));
        proof {
            let children = self.children@;
            assert forall|p: int, i: int| 0 <= p < children.len() && 0 <= i < children[p]@.len() implies {
                &&& children[p]@[i] < self.parents@.len()
                &&& self.parents@[children[p]@[i] as int] == Some(p as usize)
            } by {
                assert(children[p] == old_children[p]);
                assert(old(self).children@[p]@[i] < old(self).parents@.len());
            }
            assert forall|c: int| 0 <= c < self.parents@.len() && self.parents@[c] is Some implies children[self.parents@[c]->Some_0 as int]@.contains(c as usize) by {
                assert(old(self).parents@[c] is Some);
            }
            assert(usize_seqs(children) =~= usize_seqs(old_children).push(Seq::empty()));
        }
        r
    }

    /// Whether shape `n` is a group.
    pub fn is_group(&self, n: usize) -> (r: bool)
        requires
            self.wf(),
            n < self.spec_len(),
        ensures
            r == self@.is_group[n as int],
    {
        proof {
            self.lemma_well_formed();
        }
        self.groups[n]
    }

    /// The group that shape `n` belongs to, if any.
    pub fn get_parent(&self, n: usize) -> (r: Option<usize>)
        requires
            n < self.spec_len(),
        ensures
            r == self@.parents[n as int],
    {
        self.parents[n]
    }

    /// The children of shape `n`, in the order they were added.
    pub fn get_children(&self, n: usize) -> (r: Vec<usize>)
        requires
            self.wf(),
            n < self.spec_len(),
        ensures
            r@ == self@.children[n as int],
    {
        copy_indices(&self.children[n])
    }

    /// The parts of a well-formed hierarchy's view have one entry per shape,
    /// the parent of a shape is a group, and a group's children are exactly
    /// the shapes whose parent it is, each listed once.
    pub proof fn lemma_well_formed(&self)
        requires
            self.wf(),
        ensures
            self@.parents.len() == self@.is_group.len() == self@.children.len() == self.spec_len(),
            forall|n: int|
                #![trigger self@.parents[n]]
                0 <= n < self.spec_len() && self@.parents[n] is Some ==> {
                    let p = self@.parents[n]->Some_0;
                    p < self.spec_len() && self@.is_group[p as int]
                },
            forall|p: usize, c: usize|
                p < self.spec_len() && c < self.spec_len() ==> (#[trigger] self@.children[p as int].contains(c)
                    <==> self@.parents[c as int] == Some(p)),
            forall|p: int| 0 <= p < self.spec_len() ==> (#[trigger] self@.children[p]).no_duplicates(),
    {
        let children = self.children@;
        assert forall|p: usize, c: usize|
            p < self.spec_len() && c < self.spec_len() implies (#[trigger] self@.children[p as int].contains(c)
                <==> self@.parents[c as int] == Some(p)) by {
            assert(self@.children[p as int] == children[p as int]@);
            if children[p as int]@.contains(c) {
                let i = choose|i: int| 0 <= i < children[p as int]@.len() && children[p as int]@[i] == c;
                assert(self.parents@[children[p as int]@[i] as int] == Some(p));
            }
            if self.parents@[c as int] == Some(p) {
                assert(self.parents@[c as int] is Some);
            }
        }
        assert forall|p: int| 0 <= p < self.spec_len() implies (#[trigger] self@.children[p]).no_duplicates() by {
            assert(self@.children[p] == children[p]@);
        }
    }

    /// The shapes from the root of `n`'s tree down to `n`: each after the
    /// first is a child of the one before it.
    pub fn ancestry(&self, n: usize) -> (r: Vec<usize>)
        requires
            self.wf(),
            n < self.spec_len(),
        ensures
            r@ == chain_of(self@.parents, n),
            is_chain(self@.parents, r@),
            r@.last() == n,
    {
        proof {
            self.lemma_well_formed();
            lemma_chain_of(self.parents@, self.groups@, self.rank@, n);
        }
        let ghost c = chain_of(self.parents@, n);
        let mut out: Vec<usize> = Vec::new();
        out.push(n);
        let mut cur: usize = n;
        let ghost mut j: int = c.len() - 1;
        assert(out@ =~= c.subrange(j, c.len() as int));
        while self.parents[cur].is_some()
            invariant
                self.wf(),
                is_chain(self.parents@, c),
                0 <= j < c.len(),
                cur == c[j],
                out@ == c.subrange(j, c.len() as int),
            decreases j,
        {
            let q = match self.parents[cur] {
                Some(q) => q,
                None => cur,
            };
            proof {
                if j == 0 {
                    assert(self.parents@[c[0] as int] is None);
                }
                assert(self.parents@[c[(j - 1) + 1] as int] == Some(c[j - 1]));
            }
            out.insert(0, q);
            cur = q;
            proof {
                j = j - 1;
            }
            assert(out@ =~= c.subrange(j, c.len() as int));
        }
        proof {
            if j > 0 {
                assert(self.parents@[c[(j - 1) + 1] as int] == Some(c[j - 1]));
            }
            assert(out@ =~= c);
        }
        out
    }

    /// Adds a new shape (a group when `is_group` holds) as the last child of
    /// `group`, and returns its number; fails, changing nothing, when `group`
    /// is not a group.
    pub fn add_new_child(&mut self, group: usize, is_group: bool) -> (r: Result<usize, HierarchyError>)
        requires
            old(self).wf(),
            group < old(self).spec_len(),
            old(self).spec_len() < usize::MAX,
        ensures
            final(self).wf(),
            !old(self)@.is_group[group as int] ==> r == Err::<usize, HierarchyError>(
                HierarchyError::InvalidAddChild,
            ) && final(self)@ == old(self)@ && final(self).spec_len() == old(self).spec_len(),
            old(self)@.is_group[group as int] ==> r == Ok::<usize, HierarchyError>(old(self).spec_len() as usize)
                && final(self).spec_len() == old(self).spec_len() + 1 && final(self)@ == (HierarchyView {
                parents: old(self)@.parents.push(Some(group)),
                is_group: old(self)@.is_group.push(is_group),
                children: old(self)@.children.update(
                    group as int,
                    old(self)@.children[group as int].push(old(self).spec_len() as usize),
                ).push(Seq::empty()),
            }),
    {
        proof {
            self.lemma_well_formed();
        }
        if !self.groups[group] {
            return Err(HierarchyError::InvalidAddChild);
        }
        let n = self.add_shape(is_group);
        proof {
            self.lemma_well_formed();
            assert(ranked(self.parents@, self.groups@, self.rank@));
            let ps = self.parents@;
            lemma_chain_of(ps, self.groups@, self.rank@, group);
            let c = chain_of(ps, group);
            if c.contains(n) {
                let w = choose|w: int| 0 <= w < c.len() && c[w] == n;
                if w < c.len() - 1 {
                    assert(ps[c[w + 1] as int] == Some(c[w]));
                    assert(c[w + 1] < ps.len());
                    assert(c[w + 1] != n);
                    assert(old(self).parents@[c[w + 1] as int] == Some(n));
                }
            }
        }
        let ghost mid = self@;
        let r = self.add_child(group, n);
        assert(r is Ok);
        proof {
            let oc = old(self)@.children;
            assert(mid.children == oc.push(Seq::empty()));
            assert(mid.children.update(group as int, mid.children[group as int].push(n)) =~= oc.update(
                group as int,
                oc[group as int].push(n),
            ).push(Seq::empty()));
            assert(mid.parents.update(n as int, Some(group)) =~= old(self)@.parents.push(Some(group)));
        }
        match r {
            Ok(()) => Ok(n),
            Err(e) => Err(e),
        }
    }

    /// Makes `child` a child of `group`, after the children it already has.
    /// Fails, changing nothing, when `group` is not a group, when `child`
    /// already has a parent, or when `child` is `group` or one of its
    /// ancestors.
    pub fn add_child(&mut self, group: usize, child: usize) -> (r: Result<(), HierarchyError>)
        requires
            old(self).wf(),
            group < old(self).spec_len(),
            child < old(self).spec_len(),
        ensures
            final(self).wf(),
            final(self).spec_len() == old(self).spec_len(),
            !old(self)@.is_group[group as int] ==> r == Err::<(), HierarchyError>(
                HierarchyError::InvalidAddChild,
            ),
            old(self)@.is_group[group as int] && old(self)@.parents[child as int] is Some ==> r == Err::<
                (),
                HierarchyError,
            >(HierarchyError::AlreadyHasParent),
            old(self)@.is_group[group as int] && old(self)@.parents[child as int] is None && chain_of(
                old(self)@.parents,
                group,
            ).contains(child) ==> r == Err::<(), HierarchyError>(HierarchyError::WouldCreateCycle),
            r is Ok <==> old(self)@.is_group[group as int] && old(self)@.parents[child as int] is None
                && !chain_of(old(self)@.parents, group).contains(child),
            r is Err ==> final(self)@ == old(self)@,
            r is Ok ==> final(self)@ == (HierarchyView {
                parents: old(self)@.parents.update(child as int, Some(group)),
                is_group: old(self)@.is_group,
                children: old(self)@.children.update(
                    group as int,
                    old(self)@.children[group as int].push(child),
                ),
            }),
    {
        proof {
            self.lemma_well_formed();
        }
        if !self.groups[group] {
            return Err(HierarchyError::InvalidAddChild);
        }
        if self.parents[child].is_some() {
            return Err(HierarchyError::AlreadyHasParent);
        }
        let ghost parents = self.parents@;
        let ghost c = chain_of(parents, group);
        proof {
            lemma_chain_of(parents, self.groups@, self.rank@, group);
        }
        let mut cur: usize = group;
        let mut cycle = false;
        let mut done = false;
        let ghost mut j: int = c.len() - 1;
        while !done
            invariant
                self.wf(),
                self.parents@ == parents,
                is_chain(parents, c),
                c.last() == group,
                0 <= j < c.len(),
                cur == c[j],
                cycle ==> c.contains(child),
                done && !cycle ==> !c.contains(child),
                !done ==> forall|k: int| j < k < c.len() ==> c[k] != child,
            decreases 2 * j + (if done { 0int } else { 1int }),
        {
            if cur == child {
                cycle = true;
                done = true;
            } else {
                match self.parents[cur] {
                    None => {
                        proof {
                            if j > 0 {
                                assert(parents[c[(j - 1) + 1] as int] == Some(c[j - 1]));
                            }
                        }
                        done = true;
                        assert forall|k: int| 0 <= k < c.len() implies c[k] != child by {}
                    },
                    Some(q) => {
                        proof {
                            if j == 0 {
                                assert(parents[c[0] as int] is None);
                            }
                            assert(parents[c[(j - 1) + 1] as int] == Some(c[j - 1]));
                        }
                        cur = q;
                        proof {
                            j = j - 1;
                        }
                    },
                }
            }
        }
        if cycle {
            return Err(HierarchyError::WouldCreateCycle);
        }
        let ghost old_rank = self.rank@;
        let ghost shift = old_rank[group as int] + 1;
        let ghost new_rank = Seq::new(
            old_rank.len(),
            |m: int| if chain_of(parents, m as usize).contains(child) { old_rank[m] + shift } else { old_rank[m] },
        );
        let ghost old_children = self.children@;
        self.parents.set(child, Some(group));
        self.children[group].push(child);
        self.rank = Ghost(new_rank);
        proof {
            let groups = self.groups@;
            let ps = self.parents@;
            let children = self.children@;
            lemma_chain_of(parents, groups, old_rank, child);
            assert(chain_of(parents, child).last() == child);
            assert(chain_of(parents, child).contains(child));
            assert forall|n: int| #![trigger ps[n]] 0 <= n < ps.len() && ps[n] is Some implies {
                let p = ps[n]->Some_0;
                &&& p < ps.len()
                &&& groups[p as int]
                &&& new_rank[p as int] < new_rank[n]
            } by {
                if n == child {
                } else {
                    let p = parents[n]->Some_0;
                    assert(parents[n] is Some);
                    lemma_chain_of(parents, groups, old_rank, n as usize);
                    let cn = chain_of(parents, n as usize);
                    let cp = chain_of(parents, p);
                    assert(cn == cp.push(n as usize));
                    if cp.contains(child) {
                        let w = choose|w: int| 0 <= w < cp.len() && cp[w] == child;
                        assert(cn[w] == child);
                    }
                    if cn.contains(child) {
                        let w = choose|w: int| 0 <= w < cn.len() && cn[w] == child;
                        if w < cp.len() {
                            assert(cp[w] == child);
                        }
                    }
                }
            }
            assert(ranked(ps, groups, new_rank));
            assert forall|p: int, i: int|
                0 <= p < children.len() && 0 <= i < children[p]@.len() implies {
                    &&& children[p]@[i] < ps.len()
                    &&& ps[children[p]@[i] as int] == Some(p as usize)
                } by {
                if p == group && i == children[p]@.len() - 1 {
                } else {
                    assert(children[p]@[i] == old_children[p]@[i]);
                    assert(old_children[p]@[i] != child);
                }
            }
            assert forall|m: int| #![trigger ps[m]] 0 <= m < ps.len() && ps[m] is Some implies children[ps[m]->Some_0 as int]@.contains(m as usize) by {
                if m == child {
                    assert(children[group as int]@.last() == child);
                } else {
                    let p = parents[m]->Some_0;
                    assert(old_children[p as int]@.contains(m as usize));
                    let w = choose|w: int| 0 <= w < old_children[p as int]@.len() && old_children[p as int]@[w] == m as usize;
                    assert(children[p as int]@[w] == m as usize);
                }
            }
            assert forall|p: int| 0 <= p < children.len() implies (#[trigger] children[p])@.no_duplicates() by {
                if p == group {
                    let o = old_children[p]@;
                    let d = children[p]@;
                    assert(d == o.push(child));
                    assert forall|a: int| 0 <= a < o.len() implies o[a] != child by {
                        assert(parents[o[a] as int] == Some(p as usize));
                    }
                    assert forall|a: int, b: int| 0 <= a < d.len() && 0 <= b < d.len() && a != b implies d[a] != d[b] by {
                        if a < o.len() && b < o.len() {
                            assert(d[a] == o[a] && d[b] == o[b]);
                        } else if a < o.len() {
                            assert(d[a] == o[a]);
                        } else if b < o.len() {
                            assert(d[b] == o[b]);
                        }
                    }
                } else {
                    assert(children[p] == old_children[p]);
                }
            }
            assert(usize_seqs(children) =~= usize_seqs(old_children).update(
                group as int,
                usize_seqs(old_children)[group as int].push(child),
            ));
        }
        Ok(())
    }
}

} // verus!
