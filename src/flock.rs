use vstd::prelude::*;
use crate::coord::Coord;
use crate::region::Region;
use crate::slot_map::SlotId;
use crate::tree::QuadTree;

verus! {

/// Distance from a world edge within which agents heading outwards turn back.
pub const BORDER_MARGIN: i32 = 20;

/// The sign of a velocity component.
#[derive(Clone, Copy, Debug, PartialEq, Eq, Structural)]
pub enum Heading {
    Negative,
    Still,
    Positive,
}

/// Whether an agent at `p` on an axis bounded by `lo` and `hi`, heading `s`,
/// is inside the margin at one end and moving further towards it.
pub open spec fn turns_back(p: int, lo: int, hi: int, margin: int, s: Heading) -> bool {
    (p < lo + margin && s == Heading::Negative) || (p > hi - margin && s == Heading::Positive)
}

/// The box of half-size `half` around `center`.
pub open spec fn spec_footprint(center: Coord, half: Coord) -> Region {
    Region::span(
        center.x - half.x,
        center.y - half.y,
        center.x + half.x,
        center.y + half.y,
    )
}

/// `v` fits in an `i32`.
pub open spec fn fits(v: int) -> bool {
    i32::MIN <= v <= i32::MAX
}

/// An agent's footprint: the box of half-size `half` around its position.
pub fn footprint(center: Coord, half: Coord) -> (r: Region)
    requires
        half.x >= 0,
        half.y >= 0,
        fits(center.x - half.x),
        fits(center.y - half.y),
        fits(center.x + half.x),
        fits(center.y + half.y),
    ensures
        r == spec_footprint(center, half),
        r.wf(),
{
    Region::new(
        Coord::new(center.x - half.x, center.y - half.y),
        Coord::new(center.x + half.x, center.y + half.y),
    )
}

/// Whether to negate one velocity component: the agent is within `margin` of
/// the low end and heading down, or of the high end and heading up.
pub fn turn_back(p: i32, lo: i32, hi: i32, margin: i32, s: Heading) -> (r: bool)
    ensures
        r == turns_back(p as int, lo as int, hi as int, margin as int, s),
{
    let near_low = (p as i64) < lo as i64 + margin as i64;
    let near_high = (p as i64) > hi as i64 - margin as i64;
    (near_low && s == Heading::Negative) || (near_high && s == Heading::Positive)
}

/// Which velocity components an agent at `pos`, heading `sx` and `sy` before
/// steering, must negate to stay inside `world`.
pub fn border_flips(pos: Coord, world: &Region, sx: Heading, sy: Heading) -> (r: (bool, bool))
    ensures
        r.0 == turns_back(
            pos.x as int,
            world.min.x as int,
            world.max.x as int,
            BORDER_MARGIN as int,
            sx,
        ),
        r.1 == turns_back(
            pos.y as int,
            world.min.y as int,
            world.max.y as int,
            BORDER_MARGIN as int,
            sy,
        ),
{
    (
        turn_back(pos.x, world.min.x, world.max.x, BORDER_MARGIN, sx),
        turn_back(pos.y, world.min.y, world.max.y, BORDER_MARGIN, sy),
    )
}

/// Clears `tree` and files every item in order; the handles come back in the
/// same order, one per item.
pub fn build_or_update_quadtree<T: Copy>(tree: &mut QuadTree<T>, items: &Vec<(Region, T)>) -> (ids:
    Vec<SlotId>)
    requires
        old(tree).wf(),
        items.len() < usize::MAX,
    ensures
        final(tree).wf(),
        final(tree).world() == old(tree).world(),
        ids.len() == items.len(),
        final(tree).handles() == ids@.to_set(),
        forall|i: int|
            0 <= i < ids.len() ==> final(tree).region_at(#[trigger] ids@[i]) == items@[i].0
                && final(tree).value_at(ids@[i]) == items@[i].1,
        forall|i: int, j: int| 0 <= i < j < ids.len() ==> ids@[i] != ids@[j],
{
    tree.clear();
    let mut ids: Vec<SlotId> = Vec::new();
    let mut i: usize = 0;
    assert(ids@.to_set() =~= Set::empty());
    while i < items.len()
        invariant
            tree.wf(),
            tree.world() == old(tree).world(),
            i <= items.len(),
            items.len() < usize::MAX,
            ids.len() == i,
            tree.count() == i,
            tree.handles() == ids@.to_set(),
            forall|k: int|
                0 <= k < i ==> tree.region_at(#[trigger] ids@[k]) == items@[k].0 && tree.value_at(
                    ids@[k],
                ) == items@[k].1,
            forall|k: int, m: int| 0 <= k < m < i ==> ids@[k] != ids@[m],
        decreases items.len() - i,
    {
        let (rg, v) = items[i];
        let ghost prev = ids@;
        let id = tree.insert(rg, v);
        ids.push(id);
        proof {
            prev.lemma_push_to_set_commute(id);
            assert(ids@ =~= prev.push(id));
            assert forall|k: int| 0 <= k < i implies ids@[k] != id by {
                assert(prev.to_set().contains(prev[k]));
            }
        }
        i = i + 1;
    }
    ids
}

/// The neighbours of an agent: the values whose regions meet its footprint
/// grown by `vision`, leaving out the agent's own entry when it has one.
pub fn neighbours<'a, T>(tree: &'a QuadTree<T>, footprint: &Region, vision: i32, own: Option<SlotId>) -> (r: Vec<&'a T>)
    requires
        tree.wf(),
        footprint.wf(),
        vision >= 0,
        fits(footprint.min.x - vision),
        fits(footprint.min.y - vision),
        fits(footprint.max.x + vision),
        fits(footprint.max.y + vision),
    ensures
        exists|ids: Seq<SlotId>| #[trigger]
            tree.enumerates(footprint.grown(vision as int), own_list(own), ids) && ids.len()
                == r@.len() && forall|k: int| 0 <= k < r@.len() ==> *r@[k] == tree.value_at(ids[k]),
        forall|k: int|
            0 <= k < r@.len() ==> tree.yields(
                footprint.grown(vision as int),
                own_list(own),
                *#[trigger] r@[k],
            ),
        forall|h: SlotId| #[trigger]
            tree.answers(footprint.grown(vision as int), own_list(own), h) ==> exists|k: int|
                0 <= k < r@.len() && *r@[k] == tree.value_at(h),
{
    let q = footprint.with_margin(vision);
    let mut exclude: Vec<SlotId> = Vec::new();
    if let Some(id) = own {
        exclude.push(id);
    }
    assert(exclude@ =~= own_list(own));
    tree.query(&q, &exclude)
}

/// The handles an agent leaves out of its own neighbour query.
pub open spec fn own_list(own: Option<SlotId>) -> Seq<SlotId> {
    match own {
        Some(id) => seq![id],
        None => Seq::empty(),
    }
}

} // verus!
