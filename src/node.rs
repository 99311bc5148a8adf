use vstd::prelude::*;
use crate::region::Region;
use crate::slot_map::{SlotId, SlotMap};

verus! {

/// Entries a leaf holds before it splits.
pub const CAPACITY: usize = 4;

/// Depth below which nodes no longer split.
pub const MAX_DEPTH: usize = 8;

/// A node of a loose quadtree. A leaf has no children; a split node has the
/// four quadrants of its region as children and keeps, as its own entries,
/// those that fit inside none of them.
#[derive(Debug)]
pub struct QuadNode {
    pub region: Region,
    pub depth: usize,
    pub entries: Vec<SlotId>,
    pub children: Vec<QuadNode>,
}

/// Whether `ids` holds `h`.
pub fn listed(ids: &Vec<SlotId>, h: &SlotId) -> (r: bool)
    ensures
        r == ids@.contains(*h),
{
    let mut k: usize = 0;
    while k < ids.len()
        invariant
            k <= ids.len(),
            forall|m: int| 0 <= m < k ==> ids@[m] != *h,
        decreases ids.len() - k,
    {
        if ids[k] == *h {
            return true;
        }
        k = k + 1;
    }
    false
}

/// The most nodes a subtree can have when it may split `d` more levels:
/// `(4^(d+1) - 1) / 3`.
pub open spec fn max_nodes(d: nat) -> nat
    decreases d,
{
    if d == 0 {
        1
    } else {
        1 + 4 * max_nodes((d - 1) as nat)
    }
}

/// A listing of nested regions: it starts with the outermost region, every
/// region lies inside it, and every later region is a quadrant of an earlier
/// one.
#[verifier::opaque]
pub open spec fn well_nested(s: Seq<Region>) -> bool {
    &&& s.len() >= 1
    &&& forall|k: int| 0 <= k < s.len() ==> s[0].encloses(#[trigger] s[k])
    &&& forall|k: int|
        0 < k < s.len() ==> exists|p: int, i: int|
            0 <= p < k && 0 <= i < 4 && #[trigger] s[k] == s[p].quadrant(i)
}

/// Every region listed in `a` is listed in `b`.
pub open spec fn keeps(a: Seq<Region>, b: Seq<Region>) -> bool {
    forall|k: int| 0 <= k < a.len() ==> b.contains(#[trigger] a[k])
}

proof fn lemma_nest_append(a: Seq<Region>, b: Seq<Region>, i: int)
    requires
        well_nested(a),
        well_nested(b),
        0 <= i < 4,
        a[0].wf(),
        b[0] == a[0].quadrant(i),
    ensures
        well_nested(a + b),
        (a + b)[0] == a[0],
        (a + b).len() == a.len() + b.len(),
        keeps(a, a + b),
        (a + b).contains(b[0]),
{
    reveal(well_nested);
    crate::region::lemma_quadrants_cover(a[0], a[0].min);
    let s = a + b;
    assert(a[0].encloses(b[0]));
    assert forall|k: int| 0 <= k < s.len() implies s[0].encloses(#[trigger] s[k]) by {
        if k >= a.len() {
            assert(s[k] == b[k - a.len()]);
            assert(b[0].encloses(b[k - a.len()]));
        }
    }
    assert forall|k: int| 0 < k < s.len() implies exists|p: int, j: int|
        0 <= p < k && 0 <= j < 4 && #[trigger] s[k] == s[p].quadrant(j) by {
        if k < a.len() {
            let (p, j) = choose|p: int, j: int| 0 <= p < k && 0 <= j < 4 && a[k] == a[p].quadrant(j);
            assert(s[p] == a[p]);
            assert(s[k] == s[p].quadrant(j));
        } else if k == a.len() {
            assert(s[0] == a[0]);
            assert(s[k] == s[0].quadrant(i));
        } else {
            let l = k - a.len();
            let (p, j) = choose|p: int, j: int| 0 <= p < l && 0 <= j < 4 && b[l] == b[p].quadrant(j);
            assert(s[a.len() + p] == b[p]);
            assert(s[k] == s[a.len() + p].quadrant(j));
        }
    }
    assert forall|k: int| 0 <= k < a.len() implies s.contains(#[trigger] a[k]) by {
        assert(s[k] == a[k]);
    }
    assert(s[a.len() as int] == b[0]);
}

/// A query hit: `h` is stored with a region meeting `q` and is not excluded.
pub open spec fn hit(store: &SlotMap<Region>, q: Region, exclude: Seq<SlotId>, h: SlotId) -> bool {
    region_of(store, h).overlaps(q) && !exclude.contains(h)
}

/// The region stored under `h`.
pub open spec fn region_of(store: &SlotMap<Region>, h: SlotId) -> Region {
    store@[h.slot()]
}

impl QuadNode {
    pub open spec fn is_split(&self) -> bool {
        self.children.len() == 4
    }

    /// Every handle held in this node or below it.
    pub open spec fn handles(&self) -> Set<SlotId>
        decreases self, 5int,
    {
        self.entries@.to_set().union(self.kid_handles(4))
    }

    /// The handles held below the first `n` children.
    pub open spec fn kid_handles(&self, n: int) -> Set<SlotId>
        decreases self, n,
    {
        if n <= 0 || !self.is_split() || n > 4 {
            Set::empty()
        } else {
            self.kid_handles(n - 1).union(self.children[n - 1].handles())
        }
    }

    /// The regions of this node and of all nodes below it, parents first.
    pub open spec fn regions(&self) -> Seq<Region>
        decreases self, 5int,
    {
        seq![self.region] + self.kid_regions(4)
    }

    /// The regions below the first `n` children, in order.
    pub open spec fn kid_regions(&self, n: int) -> Seq<Region>
        decreases self, n,
    {
        if n <= 0 || !self.is_split() || n > 4 {
            Seq::empty()
        } else {
            self.kid_regions(n - 1) + self.children[n - 1].regions()
        }
    }

    /// The listing of a well-formed node is nested under its region, has one
    /// more than a multiple of four entries, fits the depth limit, and for a
    /// split node lists the four quadrants.
    /// The structural part of `wf`: regions, depths and quadrant children.
    pub open spec fn shaped(&self) -> bool
        decreases self,
    {
        &&& self.region.wf()
        &&& self.depth <= MAX_DEPTH
        &&& (self.children.len() == 0 || self.children.len() == 4)
        &&& self.is_split() ==> {
            &&& self.depth < MAX_DEPTH
            &&& forall|i: int|
                0 <= i < 4 ==> {
                    &&& (#[trigger] self.children@[i]).region == self.region.quadrant(i)
                    &&& self.children@[i].depth == self.depth + 1
                    &&& self.children@[i].shaped()
                }
        }
    }

    proof fn lemma_wf_shaped(&self, store: &SlotMap<Region>, bounded: bool)
        requires
            self.wf(store, bounded),
        ensures
            self.shaped(),
        decreases self,
    {
        if self.is_split() {
            assert forall|i: int| 0 <= i < 4 implies (#[trigger] self.children@[i]).shaped() by {
                self.children@[i].lemma_wf_shaped(store, true);
            }
        }
    }

    /// The listing of a well-formed node is nested under its region, has one
    /// more than a multiple of four entries, fits the depth limit, and for a
    /// split node lists the four quadrants.
    pub proof fn lemma_regions_shape(&self, store: &SlotMap<Region>, bounded: bool)
        requires
            self.wf(store, bounded),
        ensures
            well_nested(self.regions()),
            self.regions()[0] == self.region,
            forall|k: int| 0 <= k < self.regions().len() ==> self.region.encloses(#[trigger] self.regions()[k]),
            (self.regions().len() - 1) % 4 == 0,
            self.regions().len() <= max_nodes((MAX_DEPTH - self.depth) as nat),
            !self.is_split() ==> self.regions() == seq![self.region],
            self.is_split() ==> self.regions().len() >= 5 && forall|i: int|
                0 <= i < 4 ==> self.regions().contains(#[trigger] self.region.quadrant(i)),
    {
        self.lemma_wf_shaped(store, bounded);
        self.lemma_shaped_regions();
        reveal(well_nested);
    }

    proof fn lemma_shaped_regions(&self)
        requires
            self.shaped(),
        ensures
            well_nested(self.regions()),
            self.regions()[0] == self.region,
            (self.regions().len() - 1) % 4 == 0,
            self.regions().len() <= max_nodes((MAX_DEPTH - self.depth) as nat),
            !self.is_split() ==> self.regions() == seq![self.region],
            self.is_split() ==> self.regions().len() >= 5 && forall|i: int|
                0 <= i < 4 ==> self.regions().contains(#[trigger] self.region.quadrant(i)),
        decreases self,
    {
        if !self.is_split() {
            assert(self.regions() =~= seq![self.region]);
            reveal(well_nested);
        } else {
            let c0 = &self.children@[0];
            let c1 = &self.children@[1];
            let c2 = &self.children@[2];
            let c3 = &self.children@[3];
            assert(c0.shaped() && c1.shaped() && c2.shaped() && c3.shaped());
            c0.lemma_shaped_regions();
            c1.lemma_shaped_regions();
            c2.lemma_shaped_regions();
            c3.lemma_shaped_regions();
            self.lemma_split_listing(c0.regions(), c1.regions(), c2.regions(), c3.regions());
        }
    }

    proof fn lemma_listing_concat(&self)
        requires
            self.is_split(),
        ensures
            self.regions() =~= seq![self.region] + self.children@[0].regions()
                + self.children@[1].regions() + self.children@[2].regions()
                + self.children@[3].regions(),
    {
        assert(self.kid_regions(0) =~= Seq::empty());
        assert(self.kid_regions(1) == self.kid_regions(0) + self.children@[0].regions());
        assert(self.kid_regions(2) == self.kid_regions(1) + self.children@[1].regions());
        assert(self.kid_regions(3) == self.kid_regions(2) + self.children@[2].regions());
        assert(self.kid_regions(4) == self.kid_regions(3) + self.children@[3].regions());
    }

    #[verifier::rlimit(50)]
    proof fn lemma_split_listing(&self, r0: Seq<Region>, r1: Seq<Region>, r2: Seq<Region>, r3: Seq<Region>)
        requires
            self.is_split(),
            self.region.wf(),
            self.depth < MAX_DEPTH,
            r0 == self.children@[0].regions(),
            r1 == self.children@[1].regions(),
            r2 == self.children@[2].regions(),
            r3 == self.children@[3].regions(),
            well_nested(r0) && r0[0] == self.region.quadrant(0),
            well_nested(r1) && r1[0] == self.region.quadrant(1),
            well_nested(r2) && r2[0] == self.region.quadrant(2),
            well_nested(r3) && r3[0] == self.region.quadrant(3),
            (r0.len() - 1) % 4 == 0 && (r1.len() - 1) % 4 == 0,
            (r2.len() - 1) % 4 == 0 && (r3.len() - 1) % 4 == 0,
            r0.len() <= max_nodes((MAX_DEPTH - self.depth - 1) as nat),
            r1.len() <= max_nodes((MAX_DEPTH - self.depth - 1) as nat),
            r2.len() <= max_nodes((MAX_DEPTH - self.depth - 1) as nat),
            r3.len() <= max_nodes((MAX_DEPTH - self.depth - 1) as nat),
        ensures
            well_nested(self.regions()),
            self.regions()[0] == self.region,
            (self.regions().len() - 1) % 4 == 0,
            self.regions().len() <= max_nodes((MAX_DEPTH - self.depth) as nat),
            self.regions().len() >= 5,
            forall|i: int| 0 <= i < 4 ==> self.regions().contains(#[trigger] self.region.quadrant(i)),
    {
        let s0 = seq![self.region];
        assert(well_nested(s0)) by {
            reveal(well_nested);
        }
        let s1 = s0 + r0;
        let s2 = s1 + r1;
        let s3 = s2 + r2;
        let s4 = s3 + r3;
        self.lemma_listing_concat();
        lemma_nest_append(s0, r0, 0);
        lemma_nest_append(s1, r1, 1);
        lemma_nest_append(s2, r2, 2);
        lemma_nest_append(s3, r3, 3);
        let d = (MAX_DEPTH - self.depth) as nat;
        assert(max_nodes(d) == 1 + 4 * max_nodes((d - 1) as nat));
        assert(s4[s0.len() as int] == r0[0]);
        assert(s4[s1.len() as int] == r1[0]);
        assert(s4[s2.len() as int] == r2[0]);
        assert(s4[s3.len() as int] == r3[0]);
        assert forall|i: int| 0 <= i < 4 implies s4.contains(#[trigger] self.region.quadrant(i)) by {
            if i == 0 {
                assert(s4[s0.len() as int] == self.region.quadrant(0));
            } else if i == 1 {
                assert(s4[s1.len() as int] == self.region.quadrant(1));
            } else if i == 2 {
                assert(s4[s2.len() as int] == self.region.quadrant(2));
            } else {
                assert(s4[s3.len() as int] == self.region.quadrant(3));
            }
        }
    }

    /// The node's own entry `h` resolves in `store` and, in a `bounded` node,
    /// lies inside the node's region; in a split node it fits no child.
    pub open spec fn entry_ok(&self, store: &SlotMap<Region>, bounded: bool, h: SlotId) -> bool {
        &&& store.valid(h)
        &&& bounded ==> self.region.encloses(region_of(store, h))
        &&& self.is_split() ==> forall|i: int|
            0 <= i < 4 ==> !self.region.quadrant(i).encloses(region_of(store, h))
    }

    /// The shape of the tree below this node and where its entries sit.
    /// Children are always bounded; only the root may hold entries that reach
    /// beyond its region.
    pub open spec fn wf(&self, store: &SlotMap<Region>, bounded: bool) -> bool
        decreases self,
    {
        &&& self.region.wf()
        &&& self.depth <= MAX_DEPTH
        &&& forall|j: int|
            0 <= j < self.entries.len() ==> self.entry_ok(store, bounded, #[trigger] self.entries@[j])
        &&& self.entries@.no_duplicates()
        &&& self.entries@.to_set().disjoint(self.kid_handles(4))
        &&& (self.children.len() == 0 || self.children.len() == 4)
        &&& self.is_split() ==> {
            &&& self.depth < MAX_DEPTH
            &&& forall|i: int|
                0 <= i < 4 ==> {
                    &&& (#[trigger] self.children@[i]).region == self.region.quadrant(i)
                    &&& self.children@[i].depth == self.depth + 1
                    &&& self.children@[i].wf(store, true)
                    &&& self.kid_handles(i).disjoint(self.children@[i].handles())
                }
        }
        &&& !self.is_split() && self.depth < MAX_DEPTH ==> self.entries.len() <= CAPACITY
    }

    /// Every handle below a well-formed node resolves, and lies inside the
    /// node's region when the node is bounded.
    pub proof fn lemma_handles_valid(&self, store: &SlotMap<Region>, bounded: bool)
        requires
            self.wf(store, bounded),
        ensures
            forall|h: SlotId| #[trigger]
                self.handles().contains(h) ==> store.valid(h) && (bounded
                    ==> self.region.encloses(region_of(store, h))),
        decreases self,
    {
        assert forall|h: SlotId| #[trigger]
            self.handles().contains(h) implies store.valid(h) && (bounded
                ==> self.region.encloses(region_of(store, h))) by {
            if self.entries@.contains(h) {
                let j = choose|j: int| 0 <= j < self.entries.len() && self.entries@[j] == h;
                assert(self.entry_ok(store, bounded, self.entries@[j]));
            } else {
                self.lemma_kid_handles_valid(store, bounded, 4, h);
            }
        }
    }

    proof fn lemma_kid_handles_valid(&self, store: &SlotMap<Region>, bounded: bool, n: int, h: SlotId)
        requires
            self.wf(store, bounded),
            self.kid_handles(n).contains(h),
        ensures
            store.valid(h),
            bounded ==> self.region.encloses(region_of(store, h)),
        decreases self, n,
    {
        if n > 0 && self.is_split() && n <= 4 {
            if self.kid_handles(n - 1).contains(h) {
                self.lemma_kid_handles_valid(store, bounded, n - 1, h);
            } else {
                let c = &self.children@[n - 1];
                assert(c.handles().contains(h));
                assert(c.wf(store, true));
                c.lemma_handles_valid(store, true);
                assert(store.valid(h));
                crate::region::lemma_quadrants_cover(self.region, self.region.min);
                assert(self.region.encloses(c.region));
            }
        }
    }

    /// A well-formed node stays well formed as its store grows.
    pub proof fn lemma_wf_extends(
        &self,
        store: &SlotMap<Region>,
        bigger: &SlotMap<Region>,
        bounded: bool,
    )
        requires
            self.wf(store, bounded),
            bigger.extends(store),
        ensures
            self.wf(bigger, bounded),
        decreases self,
    {
        assert forall|j: int| 0 <= j < self.entries.len() implies self.entry_ok(
            bigger,
            bounded,
            #[trigger] self.entries@[j],
        ) by {
            let h = self.entries@[j];
            assert(self.entry_ok(store, bounded, h));
            assert(store@[h.slot()] == bigger@.subrange(0, store@.len() as int)[h.slot()]);
        }
        if self.is_split() {
            assert forall|i: int| 0 <= i < 4 implies (#[trigger] self.children@[i]).wf(
                bigger,
                true,
            ) by {
                self.children@[i].lemma_wf_extends(store, bigger, true);
            }
        }
    }

    /// An empty leaf is well formed whatever the store.
    pub proof fn lemma_empty_wf(&self, store: &SlotMap<Region>, bounded: bool)
        requires
            self.region.wf(),
            self.depth <= MAX_DEPTH,
            self.entries.len() == 0,
            self.children.len() == 0,
        ensures
            self.wf(store, bounded),
            self.handles() =~= Set::empty(),
    {
        assert(self.entries@.to_set() =~= Set::empty());
    }

    /// An empty leaf over `region` at `depth`.
    pub fn new(region: Region, depth: usize) -> (r: QuadNode)
        requires
            region.wf(),
            depth <= MAX_DEPTH,
        ensures
            r.region == region,
            r.depth == depth,
            r.entries.len() == 0,
            r.children.len() == 0,
            r.handles() == Set::<SlotId>::empty(),
            forall|store: &SlotMap<Region>, b: bool| r.wf(store, b),
    {
        let r = QuadNode { region, depth, entries: Vec::new(), children: Vec::new() };
        assert forall|store: &SlotMap<Region>, b: bool| r.wf(store, b) by {
            r.lemma_empty_wf(store, b);
        }
        assert(r.entries@.to_set() =~= Set::empty());
        assert(r.handles() =~= Set::empty());
        r
    }

    /// The handles below this node whose regions meet `q`, leaving out those
    /// in `exclude`; nothing when the node's own region misses `q`.
    pub fn query(
        &self,
        q: &Region,
        store: &SlotMap<Region>,
        exclude: &Vec<SlotId>,
        Ghost(bounded): Ghost<bool>,
    ) -> (r: Vec<SlotId>)
        requires
            self.wf(store, bounded),
        ensures
            r@.no_duplicates(),
            forall|h: SlotId|
                #[trigger] r@.contains(h) <==> (self.region.overlaps(*q) && self.handles().contains(h)
                    && hit(store, *q, exclude@, h)),
        decreases self,
    {
        let mut out: Vec<SlotId> = Vec::new();
        if !self.region.intersects(q) {
            return out;
        }
        let mut j: usize = 0;
        while j < self.entries.len()
            invariant
                self.wf(store, bounded),
                j <= self.entries.len(),
                out@.no_duplicates(),
                forall|h: SlotId|
                    #[trigger] out@.contains(h) <==> (self.entries@.subrange(0, j as int).contains(h)
                        && hit(store, *q, exclude@, h)),
            decreases self.entries.len() - j,
        {
            let h = self.entries[j];
            assert(self.entry_ok(store, bounded, self.entries@[j as int]));
            let rg = store.get(&h).unwrap();
            let ghost before = out@;
            assert(*rg == region_of(store, h));
            assert(!before.contains(h)) by {
                if before.contains(h) {
                    let k = choose|k: int| 0 <= k < j && self.entries@.subrange(0, j as int)[k] == h;
                    assert(self.entries@[k] == self.entries@[j as int]);
                }
            }
            if rg.intersects(q) && !listed(exclude, &h) {
                out.push(h);
            }
            assert(self.entries@.subrange(0, j + 1) =~= self.entries@.subrange(0, j as int).push(h));
            assert forall|g: SlotId| #[trigger] out@.contains(g) <==> (before.contains(g) || (g == h
                && hit(store, *q, exclude@, h))) by {
                if out@.len() > before.len() {
                    assert(out@ =~= before.push(h));
                    if out@.contains(g) && g != h {
                        let k = choose|k: int| 0 <= k < out@.len() && out@[k] == g;
                        assert(before[k] == g);
                    }
                    if before.contains(g) {
                        let k = choose|k: int| 0 <= k < before.len() && before[k] == g;
                        assert(out@[k] == g);
                    }
                    assert(out@[before.len() as int] == h);
                }
            }
            assert forall|g: SlotId| #[trigger]
                self.entries@.subrange(0, j + 1).contains(g) <==> (self.entries@.subrange(
                    0,
                    j as int,
                ).contains(g) || g == h) by {
                let s0 = self.entries@.subrange(0, j as int);
                if s0.push(h).contains(g) && g != h {
                    let k = choose|k: int| 0 <= k < s0.len() + 1 && s0.push(h)[k] == g;
                    assert(s0[k] == g);
                }
                if s0.contains(g) {
                    let k = choose|k: int| 0 <= k < s0.len() && s0[k] == g;
                    assert(s0.push(h)[k] == g);
                }
                assert(s0.push(h)[s0.len() as int] == h);
            }
            j = j + 1;
        }
        assert(self.entries@.subrange(0, j as int) =~= self.entries@);
        if self.children.len() == 4 {
            let mut i: usize = 0;
            while i < 4
                invariant
                    self.wf(store, bounded),
                    self.is_split(),
                    self.region.overlaps(*q),
                    i <= 4,
                    out@.no_duplicates(),
                    forall|h: SlotId|
                        #[trigger] out@.contains(h) <==> ((self.entries@.contains(h)
                            || self.kid_handles(i as int).contains(h)) && hit(store, *q, exclude@, h)),
                decreases 4 - i,
            {
                let c = &self.children[i];
                assert(c.wf(store, true));
                let mut sub = c.query(q, store, exclude, Ghost(true));
                proof {
                    c.lemma_handles_valid(store, true);
                    assert forall|h: SlotId| c.handles().contains(h) && hit(store, *q, exclude@, h)
                        implies c.region.overlaps(*q) by {
                        crate::region::lemma_enclosing_overlaps(c.region, region_of(store, h), *q);
                    }
                }
                let ghost before = out@;
                let ghost added = sub@;
                proof {
                    assert(self.kid_handles(i as int).disjoint(c.handles()));
                    self.lemma_kid_handles_grow(4);
                    assert(c.handles().subset_of(self.kid_handles(4)));
                    assert forall|a: int, b: int| 0 <= a < before.len() && 0 <= b < added.len() implies before[a]
                        != added[b] by {
                        assert(before.contains(before[a]));
                        assert(added.contains(added[b]));
                        if self.entries@.contains(before[a]) {
                            assert(self.entries@.to_set().contains(before[a]));
                        }
                    }
                    vstd::seq_lib::lemma_no_dup_in_concat(before, added);
                }
                out.append(&mut sub);
                assert(out@ =~= before + added);
                assert forall|h: SlotId| #[trigger] out@.contains(h) <==> (before.contains(h) || c.handles().contains(h) && hit(store, *q, exclude@, h)) by {
                    if out@.contains(h) {
                        let k = choose|k: int| 0 <= k < out@.len() && out@[k] == h;
                        if k >= before.len() {
                            assert(out@[k] == added[k - before.len()]);
                            assert(added.contains(h));
                        } else {
                            assert(before[k] == h);
                        }
                    }
                    if before.contains(h) {
                        let k = choose|k: int| 0 <= k < before.len() && before[k] == h;
                        assert(out@[k] == h);
                    }
                    if c.handles().contains(h) && hit(store, *q, exclude@, h) {
                        assert(added.contains(h));
                        let k = choose|k: int| 0 <= k < added.len() && added[k] == h;
                        assert(out@[before.len() + k] == h);
                    }
                }
                i = i + 1;
            }
        }
        out
    }

    /// Adds `h`: a leaf takes it while it has room or cannot split, a full leaf
    /// splits first, and a split node hands it to the child that encloses its
    /// region, keeping it when no child does.
    pub fn insert(&mut self, h: SlotId, store: &SlotMap<Region>, Ghost(bounded): Ghost<bool>)
        requires
            old(self).wf(store, bounded),
            store.valid(h),
            !old(self).handles().contains(h),
            bounded ==> old(self).region.encloses(region_of(store, h)),
        ensures
            final(self).wf(store, bounded),
            final(self).handles() == old(self).handles().insert(h),
            final(self).region == old(self).region,
            final(self).depth == old(self).depth,
            old(self).is_split() ==> final(self).is_split(),
            !old(self).is_split() && old(self).entries.len() >= CAPACITY && old(self).depth
                < MAX_DEPTH ==> final(self).is_split(),
            !old(self).is_split() && (old(self).entries.len() < CAPACITY || old(self).depth
                >= MAX_DEPTH) ==> !final(self).is_split(),
            !final(self).is_split() ==> final(self).entries@ == old(self).entries@.push(h),
            keeps(old(self).regions(), final(self).regions()),
        decreases MAX_DEPTH - old(self).depth, 2int,
    {
        if self.children.len() == 0 {
            if self.entries.len() < CAPACITY || self.depth >= MAX_DEPTH {
                let ghost before = self.entries@;
                self.entries.push(h);
                assert(self.entries@ =~= before.push(h));
                proof { before.lemma_push_to_set_commute(h); }
                assert(self.handles() =~= old(self).handles().insert(h));
                assert forall|j: int| 0 <= j < self.entries.len() implies self.entry_ok(
                    store,
                    bounded,
                    #[trigger] self.entries@[j],
                ) by {
                    if j < before.len() {
                        assert(old(self).entry_ok(store, bounded, before[j]));
                    }
                }
                return;
            }
            self.split(store, Ghost(bounded));
        }
        self.place(h, store, Ghost(bounded));
        proof {
            old(self).lemma_regions_shape(store, bounded);
            self.lemma_regions_shape(store, bounded);
            if !old(self).is_split() {
                assert(self.regions().contains(self.regions()[0]));
            }
        }
    }

    /// Index of the first child whose region encloses `rg`, or 4 if none does.
    fn fitting_child(&self, rg: &Region) -> (r: usize)
        requires
            self.is_split(),
        ensures
            r <= 4,
            r < 4 ==> self.children@[r as int].region.encloses(*rg),
            r == 4 ==> forall|i: int| 0 <= i < 4 ==> !self.children@[i].region.encloses(*rg),
    {
        let mut i: usize = 0;
        while i < 4
            invariant
                self.is_split(),
                i <= 4,
                forall|m: int| 0 <= m < i ==> !self.children@[m].region.encloses(*rg),
            decreases 4 - i,
        {
            if self.children[i].region.contains_region(rg) {
                return i;
            }
            i = i + 1;
        }
        4
    }

    /// Adds `h` to a split node: to the first child enclosing its region, or
    /// to the node's own entries.
    fn place(&mut self, h: SlotId, store: &SlotMap<Region>, Ghost(bounded): Ghost<bool>)
        requires
            old(self).wf(store, bounded),
            old(self).is_split(),
            store.valid(h),
            !old(self).handles().contains(h),
            bounded ==> old(self).region.encloses(region_of(store, h)),
        ensures
            final(self).wf(store, bounded),
            final(self).is_split(),
            final(self).handles() == old(self).handles().insert(h),
            final(self).region == old(self).region,
            final(self).depth == old(self).depth,
            keeps(old(self).regions(), final(self).regions()),
        decreases MAX_DEPTH - old(self).depth, 0int,
    {
        let rg = store.get(&h).unwrap();
        assert(*rg == region_of(store, h));
        let i = self.fitting_child(rg);
        if i < 4 {
            let mut c = self.children.remove(i);
            assert(c == old(self).children@[i as int]);
            assert(c.wf(store, true));
            c.insert(h, store, Ghost(true));
            self.children.insert(i, c);
            assert(self.children@ =~= old(self).children@.update(i as int, c));
            proof {
                old(self).lemma_kid_handles_grow(4);
                assert forall|n: int| 0 <= n <= 4 implies #[trigger] self.kid_handles(n) =~= (if n > i {
                    old(self).kid_handles(n).insert(h)
                } else {
                    old(self).kid_handles(n)
                }) by {
                    self.lemma_kid_handles_step(old(self), i as int, h, n);
                }
            }
            assert forall|m: int| 0 <= m < 4 implies {
                &&& (#[trigger] self.children@[m]).region == self.region.quadrant(m)
                &&& self.children@[m].depth == self.depth + 1
                &&& self.children@[m].wf(store, true)
                &&& self.kid_handles(m).disjoint(self.children@[m].handles())
            } by {
                assert(old(self).kid_handles(m).disjoint(old(self).children@[m].handles()));
                assert(old(self).children@[m].handles().subset_of(old(self).kid_handles(4)));
                assert(old(self).kid_handles(m).subset_of(old(self).kid_handles(4)));
                assert(!old(self).kid_handles(4).contains(h));
                if m != i {
                    assert(self.children@[m] == old(self).children@[m]);
                }
            }
            assert forall|j: int| 0 <= j < self.entries.len() implies self.entry_ok(
                store,
                bounded,
                #[trigger] self.entries@[j],
            ) by {
                assert(old(self).entry_ok(store, bounded, self.entries@[j]));
            }
            assert(self.kid_handles(4) =~= old(self).kid_handles(4).insert(h)) by {
                assert forall|n: int| 0 <= n <= 4 implies #[trigger] self.kid_handles(n) =~= (if n > i {
                    old(self).kid_handles(n).insert(h)
                } else {
                    old(self).kid_handles(n)
                }) by {
                    self.lemma_kid_handles_step(old(self), i as int, h, n);
                }
            }
            assert(self.handles() =~= old(self).handles().insert(h));
            proof {
                self.lemma_kid_regions_kept(old(self), i as int, 4);
                assert forall|k: int| 0 <= k < old(self).regions().len() implies self.regions().contains(
                    #[trigger] old(self).regions()[k],
                ) by {
                    if k == 0 {
                        assert(self.regions()[0] == old(self).regions()[0]);
                    } else {
                        assert(old(self).regions()[k] == old(self).kid_regions(4)[k - 1]);
                        let m = choose|m: int| 0 <= m < self.kid_regions(4).len() && self.kid_regions(4)[m] == old(self).kid_regions(4)[k - 1];
                        assert(self.regions()[m + 1] == self.kid_regions(4)[m]);
                    }
                }
            }
            assert(!old(self).entries@.to_set().contains(h));
            assert(self.entries@.to_set().disjoint(self.kid_handles(4)));
        } else {
            let ghost before = self.entries@;
            self.entries.push(h);
            assert(self.entries@ =~= before.push(h));
            proof { before.lemma_push_to_set_commute(h); }
            assert(self.kid_handles(4) =~= old(self).kid_handles(4)) by {
                assert forall|n: int| 0 <= n <= 4 implies #[trigger] self.kid_handles(n) =~= old(self).kid_handles(n) by {
                    self.lemma_kid_handles_same(old(self), n);
                }
            }
            assert(self.handles() =~= old(self).handles().insert(h));
            assert(!old(self).kid_handles(4).contains(h));
            assert(!before.contains(h));
            assert(self.entries@.no_duplicates()) by {
                assert forall|a: int, b: int| 0 <= a < b < self.entries@.len() implies self.entries@[a]
                    != self.entries@[b] by {
                    if b == before.len() {
                        assert(before[a] == self.entries@[a]);
                    }
                }
            }
            assert forall|j: int| 0 <= j < self.entries.len() implies self.entry_ok(
                store,
                bounded,
                #[trigger] self.entries@[j],
            ) by {
                if j < before.len() {
                    assert(old(self).entry_ok(store, bounded, before[j]));
                } else {
                    assert(forall|m: int| 0 <= m < 4 ==> self.children@[m].region == self.region.quadrant(m));
                }
            }
            assert(self.entries@.to_set().disjoint(self.kid_handles(4)));
            assert(self.kid_regions(4) =~= old(self).kid_regions(4)) by {
                self.lemma_kid_regions_same(old(self), 4);
            }
            assert(self.regions() =~= old(self).regions());
            assert forall|m: int| 0 <= m < 4 implies self.kid_handles(m).disjoint(
                (#[trigger] self.children@[m]).handles(),
            ) by {
                self.lemma_kid_handles_same(old(self), m);
                assert(old(self).children@[m] == self.children@[m]);
            }
        }
    }

    /// The first `n` children's handles contain those of each earlier child.
    proof fn lemma_kid_handles_grow(&self, n: int)
        requires
            self.is_split(),
            0 <= n <= 4,
        ensures
            forall|m: int|
                0 <= m < n ==> #[trigger] self.kid_handles(m).subset_of(self.kid_handles(n))
                    && self.children@[m].handles().subset_of(self.kid_handles(n)),
        decreases n,
    {
        if n > 0 {
            self.lemma_kid_handles_grow(n - 1);
            assert forall|m: int| 0 <= m < n implies #[trigger] self.kid_handles(m).subset_of(
                self.kid_handles(n),
            ) && self.children@[m].handles().subset_of(self.kid_handles(n)) by {
                assert(self.kid_handles(n) == self.kid_handles(n - 1).union(
                    self.children@[n - 1].handles(),
                ));
                if m < n - 1 {
                    assert(self.kid_handles(m).subset_of(self.kid_handles(n - 1)));
                    assert(self.children@[m].handles().subset_of(self.kid_handles(n - 1)));
                }
            }
        }
    }

    proof fn lemma_kid_regions_same(&self, other: &QuadNode, n: int)
        requires
            self.children@ == other.children@,
        ensures
            self.kid_regions(n) == other.kid_regions(n),
        decreases n,
    {
        if n > 0 {
            self.lemma_kid_regions_same(other, n - 1);
        }
    }

    /// Replacing child `i` by one whose listing keeps the old one keeps the
    /// listing below the first `n` children.
    proof fn lemma_kid_regions_kept(&self, prev: &QuadNode, i: int, n: int)
        requires
            self.is_split(),
            prev.is_split(),
            0 <= i < 4,
            0 <= n <= 4,
            self.children@ == prev.children@.update(i, self.children@[i]),
            keeps(prev.children@[i].regions(), self.children@[i].regions()),
        ensures
            keeps(prev.kid_regions(n), self.kid_regions(n)),
        decreases n,
    {
        if n > 0 {
            self.lemma_kid_regions_kept(prev, i, n - 1);
            let a = prev.kid_regions(n - 1);
            let b = self.kid_regions(n - 1);
            let pc = prev.children@[n - 1].regions();
            let sc = self.children@[n - 1].regions();
            assert(prev.kid_regions(n) == a + pc);
            assert(self.kid_regions(n) == b + sc);
            if n - 1 != i {
                assert(self.children@[n - 1] == prev.children@[n - 1]);
            }
            assert forall|k: int| 0 <= k < (a + pc).len() implies (b + sc).contains(#[trigger] (a + pc)[k]) by {
                if k < a.len() {
                    assert((a + pc)[k] == a[k]);
                    let m = choose|m: int| 0 <= m < b.len() && b[m] == a[k];
                    assert((b + sc)[m] == b[m]);
                } else {
                    assert((a + pc)[k] == pc[k - a.len()]);
                    assert(sc.contains(pc[k - a.len()]));
                    let m = choose|m: int| 0 <= m < sc.len() && sc[m] == pc[k - a.len()];
                    assert((b + sc)[b.len() + m] == sc[m]);
                }
            }
        }
    }

    proof fn lemma_kid_handles_same(&self, other: &QuadNode, n: int)
        requires
            self.children@ == other.children@,
        ensures
            self.kid_handles(n) == other.kid_handles(n),
        decreases n,
    {
        if n > 0 {
            self.lemma_kid_handles_same(other, n - 1);
        }
    }

    proof fn lemma_kid_handles_step(&self, prev: &QuadNode, i: int, h: SlotId, n: int)
        requires
            self.is_split(),
            prev.is_split(),
            0 <= i < 4,
            self.children@ == prev.children@.update(i, self.children@[i]),
            self.children@[i].handles() == prev.children@[i].handles().insert(h),
        ensures
            self.kid_handles(n) =~= (if n > i && n <= 4 {
                prev.kid_handles(n).insert(h)
            } else if n <= 4 {
                prev.kid_handles(n)
            } else {
                Set::empty()
            }),
        decreases n,
    {
        if n > 0 && n <= 4 {
            self.lemma_kid_handles_step(prev, i, h, n - 1);
            if n - 1 != i {
                assert(self.children@[n - 1] == prev.children@[n - 1]);
            }
        }
    }

    /// Turns a full leaf into a split node: four empty quadrant children, then
    /// every entry placed again.
    fn split(&mut self, store: &SlotMap<Region>, Ghost(bounded): Ghost<bool>)
        requires
            old(self).wf(store, bounded),
            !old(self).is_split(),
            old(self).depth < MAX_DEPTH,
        ensures
            final(self).wf(store, bounded),
            final(self).is_split(),
            final(self).handles() == old(self).handles(),
            final(self).region == old(self).region,
            final(self).depth == old(self).depth,
        decreases MAX_DEPTH - old(self).depth, 1int,
    {
        let quads = self.region.split_into_quadrants();
        let d = self.depth + 1;
        let mut kids: Vec<QuadNode> = Vec::new();
        let mut i: usize = 0;
        while i < 4
            invariant
                i <= 4,
                kids.len() == i,
                d == self.depth + 1,
                d <= MAX_DEPTH,
                self.region.wf(),
                forall|m: int| 0 <= m < 4 ==> quads@[m] == self.region.quadrant(m) && quads@[m].wf(),
                forall|m: int| 0 <= m < i ==> {
                    &&& (#[trigger] kids@[m]).region == self.region.quadrant(m)
                    &&& kids@[m].depth == d
                    &&& kids@[m].entries.len() == 0
                    &&& kids@[m].children.len() == 0
                },
            decreases 4 - i,
        {
            kids.push(QuadNode::new(quads[i], d));
            i = i + 1;
        }
        let mut moved: Vec<SlotId> = Vec::new();
        std::mem::swap(&mut moved, &mut self.entries);
        self.children = kids;
        proof {
            assert forall|m: int| 0 <= m < 4 implies (#[trigger] self.children@[m]).wf(store, true)
                && self.children@[m].handles() =~= Set::empty() by {
                self.children@[m].lemma_empty_wf(store, true);
            }
            assert(self.kid_handles(4) =~= Set::empty()) by {
                assert forall|n: int| 0 <= n <= 4 implies #[trigger] self.kid_handles(n) =~= Set::empty() by {
                    self.lemma_kid_handles_empty(n);
                }
            }
            assert(self.entries@.to_set() =~= Set::empty());
            assert(self.handles() =~= Set::empty());
        }
        let mut j: usize = 0;
        while j < moved.len()
            invariant
                self.wf(store, bounded),
                self.is_split(),
                self.region == old(self).region,
                self.depth == old(self).depth,
                j <= moved.len(),
                moved@ == old(self).entries@,
                moved@.no_duplicates(),
                self.handles() =~= moved@.subrange(0, j as int).to_set(),
                forall|k: int| 0 <= k < moved.len() ==> old(self).entry_ok(store, bounded, #[trigger] moved@[k]),
            decreases moved.len() - j,
        {
            let h = moved[j];
            assert(old(self).entry_ok(store, bounded, moved@[j as int]));
            assert(!moved@.subrange(0, j as int).contains(h)) by {
                if moved@.subrange(0, j as int).contains(h) {
                    let k = choose|k: int| 0 <= k < j && moved@.subrange(0, j as int)[k] == h;
                    assert(moved@[k] == moved@[j as int]);
                }
            }
            self.place(h, store, Ghost(bounded));
            assert(moved@.subrange(0, j + 1) =~= moved@.subrange(0, j as int).push(h));
            proof { moved@.subrange(0, j as int).lemma_push_to_set_commute(h); }
            j = j + 1;
        }
        proof {
            assert(moved@.subrange(0, j as int) =~= moved@);
            assert(old(self).kid_handles(4) =~= Set::empty());
            assert(old(self).handles() =~= old(self).entries@.to_set());
        }
    }

    proof fn lemma_kid_handles_empty(&self, n: int)
        requires
            self.is_split(),
            forall|m: int| 0 <= m < 4 ==> (#[trigger] self.children@[m]).handles() =~= Set::empty(),
        ensures
            self.kid_handles(n) =~= Set::empty(),
        decreases n,
    {
        if n > 0 && n <= 4 {
            self.lemma_kid_handles_empty(n - 1);
            assert(self.children@[n - 1].handles() =~= Set::empty());
        }
    }

    /// Drops every entry and child: the node is an empty leaf again over the
    /// same region and at the same depth.
    pub fn clear(&mut self)
        ensures
            final(self).region == old(self).region,
            final(self).depth == old(self).depth,
            final(self).entries.len() == 0,
            final(self).children.len() == 0,
            final(self).handles() == Set::<SlotId>::empty(),
    {
        self.entries.clear();
        self.children.clear();
        assert(self.entries@.to_set() =~= Set::empty());
        assert(self.handles() =~= Set::empty());
    }

    /// The regions of this node and of every node below it, parents first.
    pub fn get_regions(&self) -> (r: Vec<&Region>)
        ensures
            r@.len() == self.regions().len(),
            forall|k: int| 0 <= k < r@.len() ==> *r@[k] == self.regions()[k],
        decreases self,
    {
        let mut out: Vec<&Region> = Vec::new();
        out.push(&self.region);
        if self.children.len() == 4 {
            let mut i: usize = 0;
            while i < 4
                invariant
                    self.is_split(),
                    i <= 4,
                    out@.len() == 1 + self.kid_regions(i as int).len(),
                    forall|k: int|
                        0 <= k < out@.len() ==> *out@[k] == (seq![self.region] + self.kid_regions(
                            i as int,
                        ))[k],
                decreases 4 - i,
            {
                let mut sub = self.children[i].get_regions();
                let ghost before = out@;
                let ghost added = sub@;
                out.append(&mut sub);
                assert(out@ =~= before + added);
                assert(seq![self.region] + self.kid_regions(i + 1) =~= (seq![self.region]
                    + self.kid_regions(i as int)) + self.children@[i as int].regions());
                i = i + 1;
            }
        }
        out
    }

    /// The node's region.
    pub fn size(&self) -> (r: &Region)
        ensures
            *r == self.region,
    {
        &self.region
    }
}

/// In a split node an entry kept by the node itself fits no quadrant, and an
/// entry held below child `i` lies inside quadrant `i` and is held nowhere
/// else: not by the node itself, not below another child.
pub proof fn lemma_split_placement(n: &QuadNode, store: &SlotMap<Region>, bounded: bool, h: SlotId)
    requires
        n.wf(store, bounded),
        n.is_split(),
    ensures
        forall|i: int, m: int|
            0 <= i < 4 && 0 <= m < 4 && i != m && (#[trigger] n.children@[i]).handles().contains(h)
                ==> !(#[trigger] n.children@[m]).handles().contains(h) && !n.entries@.contains(h),
        n.entries@.contains(h) ==> forall|i: int|
            0 <= i < 4 ==> !#[trigger] n.region.quadrant(i).encloses(region_of(store, h)),
        forall|i: int|
            0 <= i < 4 && (#[trigger] n.children@[i]).handles().contains(h) ==> n.region.quadrant(
                i,
            ).encloses(region_of(store, h)),
{
    if n.entries@.contains(h) {
        let j = choose|j: int| 0 <= j < n.entries.len() && n.entries@[j] == h;
        assert(n.entry_ok(store, bounded, n.entries@[j]));
    }
    assert forall|i: int|
        0 <= i < 4 && (#[trigger] n.children@[i]).handles().contains(h) implies n.region.quadrant(
            i,
        ).encloses(region_of(store, h)) by {
        n.children@[i].lemma_handles_valid(store, true);
    }
    n.lemma_kid_handles_grow(4);
    assert forall|i: int, m: int|
        0 <= i < 4 && 0 <= m < 4 && i != m && (#[trigger] n.children@[i]).handles().contains(h)
            implies !(#[trigger] n.children@[m]).handles().contains(h) && !n.entries@.contains(h) by {
        assert(n.kid_handles(4).contains(h));
        assert(n.entries@.to_set().disjoint(n.kid_handles(4)));
        if i < m {
            n.lemma_kid_handles_grow(m);
            assert(n.kid_handles(m).disjoint(n.children@[m].handles()));
        } else {
            n.lemma_kid_handles_grow(i);
            assert(n.kid_handles(i).disjoint(n.children@[i].handles()));
        }
    }
}

} // verus!
