use vstd::prelude::*;
use ahash::AHashMap;
use crate::types::{OrderId, Price, Side};

verus! {

/// Where an order rests: its price, and packed into 32 bits its position in
/// the level's queue (bits 0..30) and its side (bit 31: 0 for a bid, 1 for an
/// ask).
#[derive(Clone, Copy, Debug)]
pub struct OrderMeta {
    price: Price,
    idx_side: u32,
}

impl OrderMeta {
    pub closed spec fn price_spec(self) -> Price {
        self.price
    }

    pub closed spec fn idx_spec(self) -> int {
        (self.idx_side & 0x7FFF_FFFFu32) as int
    }

    pub closed spec fn side_spec(self) -> Side {
        if self.idx_side >> 31u32 == 0u32 {
            Side::Bid
        } else {
            Side::Ask
        }
    }

    /// A position fits in the 31 bits it is packed into.
    pub proof fn lemma_idx_bound(self)
        ensures
            0 <= self.idx_spec() < 0x8000_0000,
    {
        let v = self.idx_side;
        assert(v & 0x7FFF_FFFFu32 <= 0x7FFF_FFFFu32) by (bit_vector);
    }

    pub(crate) fn new(price: Price, idx: usize, side: Side) -> (meta: Self)
        requires
            idx < 0x8000_0000,
        ensures
            meta.price_spec() == price,
            meta.idx_spec() == idx,
            meta.side_spec() == side,
    {
        let i = idx as u32;
        let side_bit = match side {
            Side::Bid => 0u32,
            Side::Ask => 1u32 << 31u32,
        };
        let idx_side = i | side_bit;
        proof {
            if side == Side::Bid {
                assert(side_bit == 0u32);
                assert((i | 0u32) & 0x7FFF_FFFFu32 == i && (i | 0u32) >> 31u32 == 0u32) by (bit_vector)
                    requires
                        i < 0x8000_0000u32,
                ;
            } else {
                assert(side_bit == 0x8000_0000u32) by (bit_vector)
                    requires
                        side_bit == 1u32 << 31u32,
                ;
                assert((i | 0x8000_0000u32) & 0x7FFF_FFFFu32 == i && (i | 0x8000_0000u32) >> 31u32
                    != 0u32) by (bit_vector)
                    requires
                        i < 0x8000_0000u32,
                ;
            }
        }
        Self { price, idx_side }
    }

    pub(crate) fn price(self) -> (price: Price)
        ensures
            price == self.price_spec(),
    {
        self.price
    }

    pub(crate) fn idx(self) -> (idx: usize)
        ensures
            idx == self.idx_spec(),
            idx < 0x8000_0000,
    {
        let v = self.idx_side;
        let r = v & 0x7FFF_FFFFu32;
        assert(r <= 0x7FFF_FFFFu32) by (bit_vector)
            requires
                r == v & 0x7FFF_FFFFu32,
        ;
        r as usize
    }

    pub(crate) fn side(self) -> (side: Side)
        ensures
            side == self.side_spec(),
    {
        if self.idx_side >> 31u32 == 0u32 {
            Side::Bid
        } else {
            Side::Ask
        }
    }

    pub(crate) fn set_idx(&mut self, idx: usize)
        requires
            idx < 0x8000_0000,
        ensures
            final(self).price_spec() == old(self).price_spec(),
            final(self).side_spec() == old(self).side_spec(),
            final(self).idx_spec() == idx,
    {
        let i = idx as u32;
        let v = self.idx_side;
        let r = (v & (1u32 << 31u32)) | i;
        assert(r & 0x7FFF_FFFFu32 == i && (r >> 31u32 == 0u32 <==> v >> 31u32 == 0u32)) by (bit_vector)
            requires
                i < 0x8000_0000u32,
                r == (v & (1u32 << 31u32)) | i,
        ;
        self.idx_side = r;
    }
}

#[verifier::external_type_specification]
#[verifier::external_body]
#[verifier::reject_recursive_types(K)]
#[verifier::reject_recursive_types(V)]
#[verifier::reject_recursive_types(S)]
pub struct ExAHashMap<K, V, S>(AHashMap<K, V, S>);

#[verifier::external_type_specification]
#[verifier::external_body]
pub struct ExRandomState(ahash::RandomState);

/// The index from order id to where the order rests.
pub type MetaIndex = AHashMap<OrderId, OrderMeta>;

/// The entries of the index from order id to where the order rests.
pub uninterp spec fn meta_entries(m: MetaIndex) -> Map<OrderId, OrderMeta>;

/// `ahash::AHashMap::new`: a map with no entries.
#[verifier::external_body]
pub(crate) fn meta_map_new() -> (fresh: MetaIndex)
    ensures
        meta_entries(fresh).dom() == Set::<OrderId>::empty(),
{
    AHashMap::new()
}

/// `ahash::AHashMap::insert`: the entry for `id` becomes `meta`; the entry it
/// replaces, if any, is returned.
#[verifier::external_body]
pub(crate) fn meta_map_insert(m: &mut MetaIndex, id: OrderId, meta: OrderMeta) -> (prev:
    Option<OrderMeta>)
    ensures
        meta_entries(*final(m)) == meta_entries(*old(m)).insert(id, meta),
        prev == (if meta_entries(*old(m)).dom().contains(id) {
            Some(meta_entries(*old(m))[id])
        } else {
            None::<OrderMeta>
        }),
{
    m.insert(id, meta)
}

/// `ahash::AHashMap::remove`: the entry for `id` leaves the map and is
/// returned, if there was one.
#[verifier::external_body]
pub(crate) fn meta_map_remove(m: &mut MetaIndex, id: OrderId) -> (prev: Option<OrderMeta>)
    ensures
        meta_entries(*final(m)) == meta_entries(*old(m)).remove(id),
        prev == (if meta_entries(*old(m)).dom().contains(id) {
            Some(meta_entries(*old(m))[id])
        } else {
            None::<OrderMeta>
        }),
{
    m.remove(&id)
}

/// `ahash::AHashMap::get`, the entry copied out: the entry for `id`, if any.
#[verifier::external_body]
pub(crate) fn meta_map_get(m: &MetaIndex, id: OrderId) -> (found: Option<OrderMeta>)
    ensures
        found == (if meta_entries(*m).dom().contains(id) {
            Some(meta_entries(*m)[id])
        } else {
            None::<OrderMeta>
        }),
{
    m.get(&id).copied()
}

} // verus!
