use vstd::prelude::*;

use crate::metadata::MetaObject;
use crate::metadata::lemma_mval_obj_view;
use crate::metadata::meta_has_key;
use crate::metadata::meta_object_view;
use crate::metadata::object_contains_key;

verus! {

/// The presence bitmap attached to each embedding: bit `i` is set iff the
/// metadata holds the collection's `i`-th declared field. The bits are
/// kept in a `bitvec::vec::BitVec`, opaque to the verifier; every access
/// goes through the functions below, whose contracts speak of `bits_of`.
#[verifier::external_body]
pub struct Bitmap {
    bits: bitvec::vec::BitVec<usize, bitvec::order::Lsb0>,
}

/// The sequence of bits that a bitmap holds, in index order.
pub uninterp spec fn bits_of(bv: Bitmap) -> Seq<bool>;

/// Relies on bitvec's `BitVec::repeat`: a bit-vector of `len` copies of `bit`.
#[verifier::external_body]
pub fn bitmap_repeat(bit: bool, len: usize) -> (r: Bitmap)
    ensures
        bits_of(r) == Seq::new(len as nat, |i: int| bit),
{
    Bitmap { bits: bitvec::vec::BitVec::repeat(bit, len) }
}

/// Relies on bitvec's `BitVec::new`: an empty bit-vector.
#[verifier::external_body]
pub fn bitmap_new() -> (r: Bitmap)
    ensures
        bits_of(r) == Seq::<bool>::empty(),
{
    Bitmap { bits: bitvec::vec::BitVec::new() }
}

/// Relies on bitvec's `BitSlice::set` (reached through `BitVec`'s deref):
/// writes the bit at `index`, which must be in range.
#[verifier::external_body]
pub fn bitmap_set(bv: &mut Bitmap, index: usize, value: bool)
    requires
        index < bits_of(*old(bv)).len(),
    ensures
        bits_of(*final(bv)) == bits_of(*old(bv)).update(index as int, value),
{
    bv.bits.set(index, value);
}

/// Relies on bitvec's `BitSlice::get`: reads the bit at `index`, which
/// must be in range.
#[verifier::external_body]
pub fn bitmap_get(bv: &Bitmap, index: usize) -> (r: bool)
    requires
        index < bits_of(*bv).len(),
    ensures
        r == bits_of(*bv)[index as int],
{
    *bv.bits.get(index).unwrap()
}

/// Relies on bitvec's `BitVec::len`: the number of bits held.
#[verifier::external_body]
pub fn bitmap_len(bv: &Bitmap) -> (r: usize)
    ensures
        r == bits_of(*bv).len(),
{
    bv.bits.len()
}

/// Relies on bitvec's `Clone` for `BitVec`: the copy holds the same bits.
#[verifier::external_body]
pub fn bitmap_clone(bv: &Bitmap) -> (r: Bitmap)
    ensures
        bits_of(r) == bits_of(*bv),
{
    Bitmap { bits: bv.bits.clone() }
}

/// The projection of a metadata object onto a field list: one bit per
/// declared field, set iff the field is a key of the object.
pub open spec fn spec_projection(
    meta: Option<Seq<(Seq<char>, crate::metadata::MetaVal)>>,
    fields: Seq<Seq<char>>,
) -> Seq<bool> {
    Seq::new(fields.len(), |i: int| meta_has_key(meta, fields[i]))
}

/// Whether `bits` is the projection of `meta` onto `fields`.
pub open spec fn is_projection(
    bits: Seq<bool>,
    meta: Option<Seq<(Seq<char>, crate::metadata::MetaVal)>>,
    fields: Seq<Seq<char>>,
) -> bool {
    bits == spec_projection(meta, fields)
}

/// Projects a metadata object onto the collection's declared field order:
/// bit `i` of the result is set iff the object holds key `fields[i]`.
/// Values are ignored; an absent object yields an all-clear bitmap.
pub fn generate_bitmap_from_metadata(metadata: &Option<MetaObject>, metadata_fields: &Vec<String>)
    -> (r: Bitmap)
    ensures
        is_projection(
            bits_of(r),
            meta_object_view(*metadata),
            metadata_fields.deep_view(),
        ),
{
    let n = metadata_fields.len();
    let mut bitmap = bitmap_repeat(false, n);
    if let Some(meta) = metadata {
        let mut i: usize = 0;
        while i < n
            invariant
                n == metadata_fields@.len(),
                0 <= i <= n,
                bits_of(bitmap).len() == n,
                forall|j: int|
                    0 <= j < i ==> bits_of(bitmap)[j] == meta_has_key(
                        meta_object_view(Some(*meta)),
                        metadata_fields.deep_view()[j],
                    ),
                forall|j: int| i <= j < n ==> bits_of(bitmap)[j] == false,
            decreases n - i,
        {
            if object_contains_key(meta, &metadata_fields[i]) {
                bitmap_set(&mut bitmap, i, true);
            }
            i = i + 1;
        }
        proof {
            assert(bits_of(bitmap) =~= spec_projection(
                meta_object_view(*metadata),
                metadata_fields.deep_view(),
            ));
        }
        bitmap
    } else {
        proof {
            assert(bits_of(bitmap) =~= spec_projection(
                meta_object_view(*metadata),
                metadata_fields.deep_view(),
            ));
        }
        bitmap
    }
}

/// Projects a filter object the same way a metadata object is projected.
pub fn generate_bitmap_from_filters(filters: Option<MetaObject>, metadata_fields: &Vec<String>)
    -> (r: Bitmap)
    ensures
        is_projection(
            bits_of(r),
            meta_object_view(filters),
            metadata_fields.deep_view(),
        ),
{
    generate_bitmap_from_metadata(&filters, metadata_fields)
}

/// The subset test over modelled bitmaps: every bit set in the filter is
/// set in the embedding, and the lengths agree.
pub open spec fn bitmap_subset(emb: Seq<bool>, filt: Seq<bool>) -> bool {
    &&& emb.len() == filt.len()
    &&& forall|i: int| 0 <= i < filt.len() ==> (filt[i] ==> emb[i])
}

/// Whether `filter_bitmap` is a subset of `embedding_bitmap`; bitmaps of
/// different lengths never match.
pub fn bitmap_matches(embedding_bitmap: &Bitmap, filter_bitmap: &Bitmap) -> (r: bool)
    ensures
        r == bitmap_subset(bits_of(*embedding_bitmap), bits_of(*filter_bitmap)),
{
    let n = bitmap_len(embedding_bitmap);
    if n != bitmap_len(filter_bitmap) {
        return false;
    }
    let mut i: usize = 0;
    while i < n
        invariant
            n == bits_of(*embedding_bitmap).len(),
            n == bits_of(*filter_bitmap).len(),
            0 <= i <= n,
            forall|j: int|
                0 <= j < i ==> (bits_of(*filter_bitmap)[j] ==> bits_of(*embedding_bitmap)[j]),
        decreases n - i,
    {
        if bitmap_get(filter_bitmap, i) && !bitmap_get(embedding_bitmap, i) {
            return false;
        }
        i = i + 1;
    }
    true
}

} // verus!
