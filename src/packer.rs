use crate::geometry::{Rect, all_within, pairwise_disjoint};
use etagere::BucketedAtlasAllocator;
use vstd::prelude::*;

verus! {

#[verifier::external_type_specification]
#[verifier::external_body]
pub struct ExBucketedAtlasAllocator(BucketedAtlasAllocator);

/// The allocations of `p` that have not been deallocated, by allocation id.
pub uninterp spec fn packer_live(p: BucketedAtlasAllocator) -> Map<u32, Rect>;

/// The side of the square area that `p` packs into.
pub uninterp spec fn packer_side(p: BucketedAtlasAllocator) -> int;

/// Whether `p` has never handed out an allocation.
pub uninterp spec fn packer_fresh(p: BucketedAtlasAllocator) -> bool;

/// Largest side handed to the allocator: its shelf heights are rounded up in
/// `u16` and its areas summed in `i32`, and neither may overflow.
pub const PACKER_SIDE_LIMIT: usize = 46340;

/// Relies on `BucketedAtlasAllocator::new`: an allocator with no allocation over
/// a square of the given side (it asserts the side is below `u16::MAX`).
#[verifier::external_body]
pub(crate) fn packer_new(side: i32) -> (r: BucketedAtlasAllocator)
    requires
        0 <= side <= PACKER_SIDE_LIMIT,
    ensures
        packer_live(r).dom() == Set::<u32>::empty(),
        packer_side(r) == side,
        packer_fresh(r),
{
    BucketedAtlasAllocator::new(etagere::size2(side, side))
}

/// Relies on `BucketedAtlasAllocator::allocate`: on success a rectangle of exactly
/// the requested width and at least the requested height (the height of the shelf
/// it lands on), inside the area, overlapping no live allocation, under an id that
/// is not live; on failure nothing changes. An allocator that has never
/// allocated places any request that fits its side, on a first shelf.
#[verifier::external_body]
pub(crate) fn packer_allocate(p: &mut BucketedAtlasAllocator, width: i32, height: i32) -> (r:
    Option<(u32, Rect)>)
    requires
        0 < width <= PACKER_SIDE_LIMIT,
        0 < height <= PACKER_SIDE_LIMIT,
    ensures
        packer_side(*final(p)) == packer_side(*old(p)),
        packer_fresh(*old(p)) && width <= packer_side(*old(p)) && height <= packer_side(*old(p))
            ==> r.is_some(),
        match r {
            None => packer_live(*final(p)) == packer_live(*old(p)),
            Some((id, rect)) => {
                &&& !packer_live(*old(p)).contains_key(id)
                &&& packer_live(*final(p)) == packer_live(*old(p)).insert(id, rect)
                &&& rect.width() == width
                &&& rect.height() >= height
                &&& rect.within(packer_side(*old(p)))
                &&& forall|o: u32| #[trigger]
                    packer_live(*old(p)).contains_key(o) ==> !rect.overlaps(
                        packer_live(*old(p))[o],
                    )
            },
        },
{
    p.allocate(etagere::size2(width, height)).map(
        |a: etagere::Allocation|
            (
                a.id.serialize(),
                Rect {
                    min_x: a.rectangle.min.x,
                    min_y: a.rectangle.min.y,
                    max_x: a.rectangle.max.x,
                    max_y: a.rectangle.max.y,
                },
            ),
    )
}

/// Relies on `BucketedAtlasAllocator::deallocate`: the allocation is released
/// (it asserts that the id is live).
#[verifier::external_body]
pub(crate) fn packer_deallocate(p: &mut BucketedAtlasAllocator, id: u32)
    requires
        packer_live(*old(p)).contains_key(id),
    ensures
        packer_side(*final(p)) == packer_side(*old(p)),
        packer_live(*final(p)) == packer_live(*old(p)).remove(id),
{
    p.deallocate(etagere::AllocId::deserialize(id))
}

/// Relies on `BucketedAtlasAllocator::grow`: the area is enlarged and every live
/// allocation keeps its id and rectangle (it asserts the new side is not smaller
/// and stays below `u16::MAX`).
#[verifier::external_body]
pub(crate) fn packer_grow(p: &mut BucketedAtlasAllocator, side: i32)
    requires
        packer_side(*old(p)) <= side <= PACKER_SIDE_LIMIT,
    ensures
        packer_side(*final(p)) == side,
        packer_live(*final(p)) == packer_live(*old(p)),
        packer_fresh(*final(p)) == packer_fresh(*old(p)),
{
    p.grow(etagere::size2(side, side))
}

/// Allocating into a packer whose live rectangles are disjoint and inside its
/// area keeps them so.
pub proof fn lemma_allocate_keeps_disjoint(
    before: Map<u32, Rect>,
    side: int,
    id: u32,
    rect: Rect,
)
    requires
        pairwise_disjoint(before),
        all_within(before, side),
        !before.contains_key(id),
        rect.within(side),
        forall|o: u32| #[trigger] before.contains_key(o) ==> !rect.overlaps(before[o]),
    ensures
        pairwise_disjoint(before.insert(id, rect)),
        all_within(before.insert(id, rect), side),
{
    let after = before.insert(id, rect);
    assert forall|a: u32, b: u32|
        #![trigger after[a], after[b]]
        after.contains_key(a) && after.contains_key(b) && a != b implies !after[a].overlaps(
            after[b],
        ) by {
        if a == id {
            assert(before.contains_key(b));
        } else if b == id {
            assert(before.contains_key(a));
        } else {
            assert(!before[a].overlaps(before[b]));
        }
    }
}

} // verus!
