use vstd::prelude::*;
use crate::node::{QuadNode, region_of, hit, keeps, well_nested, max_nodes, CAPACITY, MAX_DEPTH};
use crate::region::{Region, lemma_enclosing_overlaps};
use crate::slot_map::{SlotId, SlotMap};

verus! {

/// A spatial index: regions and values stored side by side under one handle,
/// and a quadtree over the handles that answers region queries.
#[derive(Debug)]
pub struct QuadTree<T> {
    region_store: SlotMap<Region>,
    value_store: SlotMap<T>,
    root: Box<QuadNode>,
}

impl<T> QuadTree<T> {
    /// The two stores issue the same handles, the tree is well formed, and it
    /// holds exactly the handles that resolve.
    pub closed spec fn wf(&self) -> bool {
        &&& self.region_store@.len() == self.value_store@.len()
        &&& self.region_store.epoch() == self.value_store.epoch()
        &&& self.root.wf(&self.region_store, false)
        &&& self.root.region.wf()
        &&& self.root.depth == 0
        &&& !self.root.is_split() ==> self.root.entries.len() == self.region_store@.len()
        &&& forall|h: SlotId| #[trigger]
            self.root.handles().contains(h) <==> self.region_store.valid(h)
    }

    /// The world bounds: the root's region.
    pub closed spec fn world(&self) -> Region {
        self.root.region
    }

    /// The handles of the entries stored since the last clear.
    pub closed spec fn handles(&self) -> Set<SlotId> {
        self.root.handles()
    }

    /// Number of entries stored since the last clear.
    pub closed spec fn count(&self) -> nat {
        self.region_store@.len()
    }

    /// The region stored under `h`.
    pub closed spec fn region_at(&self, h: SlotId) -> Region {
        region_of(&self.region_store, h)
    }

    /// The value stored under `h`.
    pub closed spec fn value_at(&self, h: SlotId) -> T {
        self.value_store@[h.slot()]
    }

    /// The regions of all nodes, root first.
    pub closed spec fn partition(&self) -> Seq<Region> {
        self.root.regions()
    }

    /// `h` answers a query over `q` that leaves out `exclude`: it is stored, its
    /// region meets `q`, it is not excluded, and `q` meets the world.
    pub open spec fn answers(&self, q: Region, exclude: Seq<SlotId>, h: SlotId) -> bool {
        &&& self.world().overlaps(q)
        &&& self.handles().contains(h)
        &&& self.region_at(h).overlaps(q)
        &&& !exclude.contains(h)
    }

    /// `ids` lists every handle that answers the query, each once.
    pub open spec fn enumerates(&self, q: Region, exclude: Seq<SlotId>, ids: Seq<SlotId>) -> bool {
        &&& ids.no_duplicates()
        &&& forall|h: SlotId| #[trigger] ids.contains(h) <==> self.answers(q, exclude, h)
    }

    /// `v` is the value of some entry that answers the query.
    pub open spec fn yields(&self, q: Region, exclude: Seq<SlotId>, v: T) -> bool {
        exists|h: SlotId| self.answers(q, exclude, h) && #[trigger] self.value_at(h) == v
    }

    /// An empty index over `region`.
    pub fn new(region: Region) -> (r: QuadTree<T>)
        requires
            region.wf(),
        ensures
            r.wf(),
            r.world() == region,
            r.handles() == Set::<SlotId>::empty(),
            r.count() == 0,
            r.partition() == seq![region],
    {
        let root = QuadNode::new(region, 0);
        let r = QuadTree { region_store: SlotMap::new(), value_store: SlotMap::new(), root: Box::new(root) };
        assert(r.root.wf(&r.region_store, false));
        proof {
            r.root.lemma_regions_shape(&r.region_store, false);
        }
        r
    }

    /// Removes every entry; the handles issued so far no longer resolve.
    pub fn clear(&mut self)
        requires
            old(self).wf(),
        ensures
            final(self).wf(),
            final(self).world() == old(self).world(),
            final(self).handles() == Set::<SlotId>::empty(),
            final(self).count() == 0,
            final(self).partition() == seq![old(self).world()],
            forall|h: SlotId| #[trigger] final(self).lookup(h) is None,
    {
        self.region_store.clear();
        self.value_store.clear();
        self.root.clear();
        proof {
            self.root.lemma_empty_wf(&self.region_store, false);
            self.root.lemma_regions_shape(&self.region_store, false);
        }
    }

    /// What a direct lookup of `h` finds.
    pub closed spec fn lookup(&self, h: SlotId) -> Option<T> {
        self.value_store.lookup(h)
    }

    /// The value stored under `id`, or `None` for a handle issued before the
    /// last clear or by another index.
    pub fn get(&self, id: &SlotId) -> (r: Option<&T>)
        requires
            self.wf(),
        ensures
            r.is_some() == self.handles().contains(*id),
            r matches Some(v) ==> *v == self.value_at(*id),
            self.lookup(*id) == (if self.handles().contains(*id) {
                Some(self.value_at(*id))
            } else {
                None
            }),
    {
        self.value_store.get(id)
    }

    /// Stores `region` and `value` under one fresh handle and files the handle
    /// in the tree.
    pub fn insert(&mut self, region: Region, value: T) -> (r: SlotId)
        requires
            old(self).wf(),
            old(self).count() < usize::MAX,
        ensures
            final(self).wf(),
            final(self).world() == old(self).world(),
            final(self).count() == old(self).count() + 1,
            !old(self).handles().contains(r),
            final(self).handles() == old(self).handles().insert(r),
            final(self).region_at(r) == region,
            final(self).value_at(r) == value,
            keeps(old(self).partition(), final(self).partition()),
            old(self).partition().len() == 1 && old(self).count() < CAPACITY
                ==> final(self).partition() == old(self).partition(),
            old(self).partition().len() == 1 && old(self).count() >= CAPACITY
                ==> final(self).partition().len() >= 5 && forall|i: int|
                0 <= i < 4 ==> final(self).partition().contains(
                    #[trigger] old(self).world().quadrant(i),
                ),
            forall|h: SlotId|
                old(self).handles().contains(h) ==> final(self).region_at(h) == old(self).region_at(
                    h,
                ) && final(self).value_at(h) == old(self).value_at(h),
    {
        let ghost prev_regions = self.region_store;
        let ghost prev_values = self.value_store@;
        let rid = self.region_store.insert(region);
        let id = self.value_store.insert(value);
        proof {
            SlotId::lemma_determined(rid, id);
            self.root.lemma_wf_extends(&prev_regions, &self.region_store, false);
            assert forall|h: SlotId| old(self).handles().contains(h) implies self.region_at(h)
                == old(self).region_at(h) && self.value_at(h) == old(self).value_at(h) by {
                assert(prev_regions.valid(h));
                assert(prev_regions@ =~= self.region_store@.subrange(0, prev_regions@.len() as int));
                assert(prev_values =~= self.value_store@.subrange(0, prev_values.len() as int));
            }
        }
        self.root.insert(id, &self.region_store, Ghost(false));
        proof {
            old(self).root.lemma_regions_shape(&prev_regions, false);
            self.root.lemma_regions_shape(&self.region_store, false);
            assert forall|h: SlotId| #[trigger]
                self.root.handles().contains(h) <==> self.region_store.valid(h) by {
                if self.region_store.valid(h) && !prev_regions.valid(h) {
                    SlotId::lemma_determined(h, id);
                }
            }
        }
        id
    }

    /// The values whose regions meet `region`, leaving out the handles in
    /// `exclude`, one per entry and in no particular order. Nothing is found
    /// when `region` misses the world.
    pub fn query(&self, region: &Region, exclude: &Vec<SlotId>) -> (r: Vec<&T>)
        requires
            self.wf(),
        ensures
            exists|ids: Seq<SlotId>| #[trigger]
                self.enumerates(*region, exclude@, ids) && ids.len() == r@.len() && forall|k: int|
                    0 <= k < r@.len() ==> *r@[k] == self.value_at(ids[k]),
            forall|k: int| 0 <= k < r@.len() ==> self.yields(*region, exclude@, *#[trigger] r@[k]),
            forall|h: SlotId| #[trigger]
                self.answers(*region, exclude@, h) ==> exists|k: int|
                    0 <= k < r@.len() && *r@[k] == self.value_at(h),
    {
        let ids = self.root.query(region, &self.region_store, exclude, Ghost(false));
        let mut out: Vec<&T> = Vec::new();
        let mut j: usize = 0;
        while j < ids.len()
            invariant
                self.wf(),
                j <= ids.len(),
                out@.len() == j,
                forall|h: SlotId| #[trigger]
                    ids@.contains(h) <==> (self.root.region.overlaps(*region)
                        && self.root.handles().contains(h) && hit(&self.region_store, *region, exclude@, h)),
                forall|k: int| 0 <= k < j ==> *out@[k] == self.value_at(#[trigger] ids@[k]),
            decreases ids.len() - j,
        {
            let h = ids[j];
            assert(ids@.contains(h));
            let v = self.value_store.get(&h).unwrap();
            out.push(v);
            j = j + 1;
        }
        assert forall|k: int| 0 <= k < out@.len() implies self.yields(*region, exclude@, *#[trigger] out@[k]) by {
            assert(ids@.contains(ids@[k]));
            assert(self.answers(*region, exclude@, ids@[k]));
        }
        assert forall|h: SlotId| #[trigger] self.answers(*region, exclude@, h) implies exists|k: int|
            0 <= k < out@.len() && *out@[k] == self.value_at(h) by {
            assert(ids@.contains(h));
            let k = choose|k: int| 0 <= k < ids@.len() && ids@[k] == h;
            assert(*out@[k] == self.value_at(ids@[k]));
            assert(0 <= k < out@.len() && *out@[k] == self.value_at(h));
        }
        assert(self.enumerates(*region, exclude@, ids@));
        out
    }

    /// The world bounds.
    pub fn size(&self) -> (r: &Region)
        ensures
            *r == self.world(),
    {
        self.root.size()
    }

    /// The regions of every node of the tree, root first.
    pub fn get_regions(&self) -> (r: Vec<&Region>)
        requires
            self.wf(),
        ensures
            r@.len() == self.partition().len(),
            forall|k: int| 0 <= k < r@.len() ==> *r@[k] == self.partition()[k],
            *r@[0] == self.world(),
            forall|k: int| 0 <= k < r@.len() ==> self.world().encloses(*#[trigger] r@[k]),
    {
        proof {
            self.root.lemma_regions_shape(&self.region_store, false);
        }
        self.root.get_regions()
    }
}

/// The partition listing starts with the world; every listed region lies
/// inside it and is, after the first, a quadrant of an earlier listed region.
/// Nodes come in groups of four, and there are at most `max_nodes(MAX_DEPTH)`
/// of them, that is `(4^(MAX_DEPTH+1) - 1) / 3`.
pub proof fn lemma_partition_shape<T>(t: &QuadTree<T>)
    requires
        t.wf(),
    ensures
        well_nested(t.partition()),
        t.partition()[0] == t.world(),
        forall|k: int| 0 <= k < t.partition().len() ==> t.world().encloses(#[trigger] t.partition()[k]),
        (t.partition().len() - 1) % 4 == 0,
        t.partition().len() <= max_nodes(MAX_DEPTH as nat),
{
    t.root.lemma_regions_shape(&t.region_store, false);
}

/// No handle listed in `exclude` answers a query that excludes it.
pub proof fn lemma_excluded_never_answer<T>(t: &QuadTree<T>, q: Region, exclude: Seq<SlotId>, h: SlotId)
    requires
        exclude.contains(h),
    ensures
        !t.answers(q, exclude, h),
{
}

/// An entry answers a query only if its stored region meets the query region.
pub proof fn lemma_answer_meets_query<T>(t: &QuadTree<T>, q: Region, exclude: Seq<SlotId>, h: SlotId)
    requires
        t.answers(q, exclude, h),
    ensures
        t.region_at(h).overlaps(q),
{
}

/// An index that holds nothing, as `clear` leaves it, answers no query over
/// any region and yields no value.
pub proof fn lemma_cleared_answers_nothing<T>(t: &QuadTree<T>, q: Region, exclude: Seq<SlotId>, h: SlotId, v: T)
    requires
        t.handles() == Set::<SlotId>::empty(),
    ensures
        !t.answers(q, exclude, h),
        !t.yields(q, exclude, v),
{
}

/// A stored entry whose region meets the world is found again by a query that
/// covers the whole world and excludes nothing.
pub proof fn lemma_round_trip<T>(t: &QuadTree<T>, q: Region, h: SlotId)
    requires
        t.wf(),
        t.handles().contains(h),
        t.region_at(h).overlaps(t.world()),
        q.encloses(t.world()),
    ensures
        t.answers(q, Seq::empty(), h),
        t.yields(q, Seq::empty(), t.value_at(h)),
{
    assert(t.world().wf());
}

} // verus!
