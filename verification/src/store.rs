//! The hash map of cells and the small vectors it holds.
//!
//! Everything in this module is taken on trust: the bodies call `smallvec` and
//! the standard hash map driven by `zwohash`, and Verus believes the contracts
//! written here without reading those crates.
use smallvec::SmallVec;
use std::hash::BuildHasherDefault;
use vstd::prelude::*;
use zwohash::ZwoHasher;

verus! {

/// `zwohash::ZwoHasher`, the hasher behind the map of cells. It is carried in
/// the map's type only; nothing is claimed of the hashes it computes.
#[verifier::external_type_specification]
#[verifier::external_body]
pub struct ExZwoHasher(ZwoHasher);

/// `std::hash::BuildHasherDefault`, which makes a fresh default hasher for
/// every lookup.
#[verifier::external_type_specification]
#[verifier::external_body]
#[verifier::reject_recursive_types(H)]
pub struct ExBuildHasherDefault<H>(BuildHasherDefault<H>);

/// The map from a cell's key to the bucket of that cell.
pub type CellMap<const D: usize> = zwohash::HashMap<[i32; D], Bucket>;

/// The point indices of one cell, in a `smallvec::SmallVec` that keeps up to
/// four of them inline. Verus sees none of its inside; `bucket_items` names
/// what it holds.
#[verifier::external_body]
pub struct Bucket {
    items: SmallVec<[usize; 4]>,
}

/// The indices that a bucket holds, oldest first.
pub uninterp spec fn bucket_items(b: Bucket) -> Seq<usize>;

/// `SmallVec::new`: a bucket that holds nothing. The check that `new` makes
/// of the inline array's size and alignment holds for `[usize; 4]`.
#[verifier::external_body]
pub(crate) fn bucket_new() -> (b: Bucket)
    ensures
        bucket_items(b) == Seq::<usize>::empty(),
{
    Bucket { items: SmallVec::new() }
}

/// `SmallVec::push`: appends `idx` behind the items already there.
///
/// When it has to grow, `push` rounds the new length up to a power of two and
/// panics if that count of `usize` items takes more than `isize::MAX` bytes.
/// Below `usize::MAX / 32` items neither can happen, on 32 and on 64 bits.
#[verifier::external_body]
pub(crate) fn bucket_push(b: &mut Bucket, idx: usize)
    requires
        bucket_items(*old(b)).len() < usize::MAX / 32,
    ensures
        bucket_items(*final(b)) == bucket_items(*old(b)).push(idx),
{
    b.items.push(idx)
}

/// `SmallVec::remove`: takes out the item at position `at`, moves the later
/// items one place down, and returns what was taken. It panics when `at` is
/// not a position of the bucket.
#[verifier::external_body]
pub(crate) fn bucket_remove(b: &mut Bucket, at: usize) -> (taken: usize)
    requires
        at < bucket_items(*old(b)).len(),
    ensures
        taken == bucket_items(*old(b))[at as int],
        bucket_items(*final(b)) == bucket_items(*old(b)).remove(at as int),
{
    b.items.remove(at)
}

/// `SmallVec::as_slice`: the items as a slice, in their order.
#[verifier::external_body]
pub(crate) fn bucket_as_slice(b: &Bucket) -> (items: &[usize])
    ensures
        items@ == bucket_items(*b),
{
    b.items.as_slice()
}

/// `HashMap::get` on the map of cells: the bucket stored under `key`, if there
/// is one. Array keys are equal exactly when their components are, and equal
/// keys hash alike under `ZwoHasher`, so the map finds a key if and only if it
/// was inserted.
#[verifier::external_body]
pub(crate) fn cells_get<'a, const D: usize>(m: &'a CellMap<D>, key: &[i32; D]) -> (found: Option<
    &'a Bucket,
>)
    ensures
        match found {
            Some(b) => m@.contains_key(*key) && m@[*key] == *b,
            None => !m@.contains_key(*key),
        },
{
    m.get(key)
}

/// `HashMap::get_mut` on the map of cells: the bucket stored under `key`, to
/// be changed in place. Whatever the caller leaves in the bucket is what the
/// map holds under `key` afterwards; no other entry changes.
#[verifier::external_body]
pub(crate) fn cells_get_mut<'a, const D: usize>(m: &'a mut CellMap<D>, key: &[i32; D]) -> (found:
    Option<&'a mut Bucket>)
    ensures
        match found {
            Some(b) => old(m)@.contains_key(*key) && *b == old(m)@[*key] && final(m)@ == old(
                m,
            )@.insert(*key, *final(b)),
            None => !old(m)@.contains_key(*key) && final(m)@ == old(m)@,
        },
{
    m.get_mut(key)
}

/// `HashMap::insert` on the map of cells: afterwards `key` maps to `b`, and
/// every other key to what it mapped to before.
#[verifier::external_body]
pub(crate) fn cells_insert<const D: usize>(m: &mut CellMap<D>, key: [i32; D], b: Bucket)
    ensures
        final(m)@ == old(m)@.insert(key, b),
{
    m.insert(key, b);
}

/// `HashMap::keys` on the map of cells, copied into a vector: every key of
/// the map once, in the order in which the map happens to walk them.
#[verifier::external_body]
pub(crate) fn cells_keys<const D: usize>(m: &CellMap<D>) -> (keys: Vec<[i32; D]>)
    ensures
        keys@.no_duplicates(),
        forall|key: [i32; D]| keys@.contains(key) <==> m@.contains_key(key),
{
    m.keys().copied().collect()
}

} // verus!
