//! The collections that the cache keeps its rows, its free space and its index
//! in, and what it relies on of each of their operations.
//!
//! Nothing here is proved: each function makes one call into a collection that
//! is not part of this library, and its contract says what that call does.

use crate::glyph::PositionedGlyph;
use crate::row::Row;
use fnv::FnvBuildHasher;
use linked_hash_map::LinkedHashMap;
use std::collections::HashMap;
use std::hash::Hash;
use vstd::prelude::*;
use vstd::std_specs::hash::obeys_key_model;

verus! {

/// `fnv::FnvHasher`, of which nothing is known but that it exists.
#[verifier::external_type_specification]
#[verifier::external_body]
pub struct ExFnvHasher(fnv::FnvHasher);

/// `std::hash::BuildHasherDefault`, of which nothing is known but that it exists.
#[verifier::external_type_specification]
#[verifier::external_body]
#[verifier::reject_recursive_types(H)]
pub struct ExBuildHasherDefault<H>(std::hash::BuildHasherDefault<H>);

/// `linked_hash_map::LinkedHashMap`, of which [`row_order`] and [`row_contents`]
/// say what it holds.
#[verifier::external_type_specification]
#[verifier::external_body]
#[verifier::reject_recursive_types(K)]
#[verifier::reject_recursive_types(V)]
#[verifier::reject_recursive_types(S)]
pub struct ExLinkedHashMap<K, V, S>(linked_hash_map::LinkedHashMap<K, V, S>);

/// The keys of a linked hash map, from the front to the back of its list.
pub uninterp spec fn row_order(rows: LinkedHashMap<u32, Row, FnvBuildHasher>) -> Seq<u32>;

/// The values of a linked hash map, by key.
pub uninterp spec fn row_contents(rows: LinkedHashMap<u32, Row, FnvBuildHasher>) -> Map<u32, Row>;

/// A list of keys with one of them moved to the back.
pub open spec fn moved_to_back(order: Seq<u32>, key: u32) -> Seq<u32> {
    order.remove(order.index_of(key)).push(key)
}

/// `LinkedHashMap::default`: the map has no entries.
#[verifier::external_body]
pub(crate) fn new_rows() -> (rows: LinkedHashMap<u32, Row, FnvBuildHasher>)
    ensures
        row_order(rows) == Seq::<u32>::empty(),
        (row_contents(rows) == Map::<u32, Row>::empty()),
{
    LinkedHashMap::default()
}

/// `LinkedHashMap::clear`: the map has no entries afterwards.
#[verifier::external_body]
pub(crate) fn clear_rows(rows: &mut LinkedHashMap<u32, Row, FnvBuildHasher>)
    ensures
        row_order(*final(rows)) == Seq::<u32>::empty(),
        (row_contents(*final(rows)) == Map::<u32, Row>::empty()),
{
    rows.clear()
}

/// `LinkedHashMap::get_refresh`: an entry that is there moves to the back of the
/// list, and its value can be changed through the result; where there is none,
/// nothing changes.
#[verifier::external_body]
pub(crate) fn refresh_row<'a>(
    rows: &'a mut LinkedHashMap<u32, Row, FnvBuildHasher>,
    top: &u32,
) -> (found: Option<&'a mut Row>)
    ensures
        match found {
            Some(row) => {
                &&& row_contents(*old(rows)).contains_key(*top)
                &&& *row == row_contents(*old(rows))[*top]
                &&& row_order(*final(rows)) == moved_to_back(row_order(*old(rows)), *top)
                &&& row_contents(*final(rows)) == row_contents(*old(rows)).insert(
                    *top,
                    *final(row),
                )
            },
            None => {
                &&& !row_contents(*old(rows)).contains_key(*top)
                &&& row_order(*final(rows)) == row_order(*old(rows))
                &&& row_contents(*final(rows)) == row_contents(*old(rows))
            },
        },
{
    rows.get_refresh(top)
}

/// `LinkedHashMap::iter`, walked from the back: all entries, from the back to the
/// front of the list.
#[verifier::external_body]
pub(crate) fn rows_from_back(rows: &LinkedHashMap<u32, Row, FnvBuildHasher>) -> (entries: Vec<
    (u32, &Row),
>)
    ensures
        entries@.len() == row_order(*rows).len(),
        forall|i: int|
            0 <= i < entries@.len() ==> (#[trigger] entries@[i]).0 == row_order(
                *rows,
            )[entries@.len() - 1 - i] && *entries@[i].1 == row_contents(*rows)[entries@[i].0],
{
    rows.iter().rev().map(|entry| (*entry.0, entry.1)).collect()
}

/// `LinkedHashMap::front`: the entry at the front of the list, if the map has any.
#[verifier::external_body]
pub(crate) fn front_row(rows: &LinkedHashMap<u32, Row, FnvBuildHasher>) -> (front: Option<
    (&u32, &Row),
>)
    ensures
        match front {
            Some((top, row)) => {
                &&& row_order(*rows).len() > 0
                &&& *top == row_order(*rows)[0]
                &&& *row == row_contents(*rows)[*top]
            },
            None => row_order(*rows).len() == 0,
        },
{
    rows.front()
}

/// `LinkedHashMap::pop_front`: takes out the entry at the front of the list, if
/// the map has any.
#[verifier::external_body]
pub(crate) fn pop_front_row(rows: &mut LinkedHashMap<u32, Row, FnvBuildHasher>) -> (front: Option<
    (u32, Row),
>)
    ensures
        match front {
            Some((top, row)) => {
                &&& row_order(*old(rows)).len() > 0
                &&& top == row_order(*old(rows))[0]
                &&& row == row_contents(*old(rows))[top]
                &&& row_order(*final(rows)) == row_order(*old(rows)).drop_first()
                &&& row_contents(*final(rows)) == row_contents(*old(rows)).remove(top)
            },
            None => {
                &&& row_order(*old(rows)).len() == 0
                &&& row_order(*final(rows)) == row_order(*old(rows))
                &&& row_contents(*final(rows)) == row_contents(*old(rows))
            },
        },
{
    rows.pop_front()
}

/// `LinkedHashMap::insert`: the entry stands at the back of the list afterwards,
/// whether or not there was one of its key before.
#[verifier::external_body]
pub(crate) fn insert_row(
    rows: &mut LinkedHashMap<u32, Row, FnvBuildHasher>,
    top: u32,
    row: Row,
)
    ensures
        row_contents(*final(rows)) == row_contents(*old(rows)).insert(top, row),
        row_order(*final(rows)) == if row_contents(*old(rows)).contains_key(top) {
            moved_to_back(row_order(*old(rows)), top)
        } else {
            row_order(*old(rows)).push(top)
        },
{
    let _ = rows.insert(top, row);
}

/// Indexing a `LinkedHashMap`: the value of a key that is there.
#[verifier::external_body]
pub(crate) fn row_at<'a>(
    rows: &'a LinkedHashMap<u32, Row, FnvBuildHasher>,
    top: &u32,
) -> (row: &'a Row)
    requires
        row_contents(*rows).contains_key(*top),
    ensures
        *row == row_contents(*rows)[*top],
{
    &rows[top]
}

/// `HashMap::insert` with FNV hashes: the key has the new value.
#[verifier::external_body]
pub(crate) fn insert_entry<K: Eq + Hash, V>(
    map: &mut HashMap<K, V, FnvBuildHasher>,
    key: K,
    value: V,
)
    requires
        obeys_key_model::<K>(),
    ensures
        final(map)@ == old(map)@.insert(key, value),
{
    let _ = map.insert(key, value);
}

/// `HashMap::remove` with FNV hashes: the key has no value any more, and the value
/// that it had comes back.
#[verifier::external_body]
pub(crate) fn remove_entry<K: Eq + Hash, V>(
    map: &mut HashMap<K, V, FnvBuildHasher>,
    key: &K,
) -> (value: Option<V>)
    requires
        obeys_key_model::<K>(),
    ensures
        final(map)@ == old(map)@.remove(*key),
        match value {
            Some(v) => old(map)@.contains_key(*key) && v == old(map)@[*key],
            None => !old(map)@.contains_key(*key),
        },
{
    map.remove(key)
}

/// `HashMap::get` with FNV hashes: the value of a key, if it has one.
#[verifier::external_body]
pub(crate) fn get_entry<'a, K: Eq + Hash, V>(
    map: &'a HashMap<K, V, FnvBuildHasher>,
    key: &K,
) -> (value: Option<&'a V>)
    requires
        obeys_key_model::<K>(),
    ensures
        match value {
            Some(v) => map@.contains_key(*key) && *v == map@[*key],
            None => !map@.contains_key(*key),
        },
{
    map.get(key)
}

/// `HashMap::iter` with FNV hashes: all entries, in no particular order.
#[verifier::external_body]
pub(crate) fn all_entries(map: &HashMap<u32, u32, FnvBuildHasher>) -> (entries: Vec<(u32, u32)>)
    ensures
        forall|i: int|
            0 <= i < entries@.len() ==> map@.contains_key((#[trigger] entries@[i]).0)
                && map@[entries@[i].0] == entries@[i].1,
        forall|key: u32| #[trigger]
            map@.contains_key(key) ==> entries@.contains((key, map@[key])),
{
    map.iter().map(|entry| (*entry.0, *entry.1)).collect()
}

/// The height of the bounding box of a queued glyph, negated.
pub(crate) fn negated_height(queued: &(usize, PositionedGlyph)) -> (key: i32)
    requires
        queued.1.bounding_box is Some,
        queued.1.bounding_box->0.is_box(),
    ensures
        key == -height_of(*queued),
{
    match queued.1.pixel_bounding_box() {
        Some(bb) => -bb.height(),
        None => 0,
    }
}

/// The height of the bounding box of a queued glyph.
pub open spec fn height_of(queued: (usize, PositionedGlyph)) -> int {
    match queued.1.bounding_box {
        Some(bb) => bb.max.y - bb.min.y,
        None => 0,
    }
}

/// The glyphs stand in the order of their heights, the tallest first.
pub open spec fn tallest_first(queue: Seq<(usize, PositionedGlyph)>) -> bool {
    forall|i: int, j: int|
        0 <= i < j < queue.len() ==> height_of(#[trigger] queue[i]) >= height_of(
            #[trigger] queue[j],
        )
}

/// The glyphs of one height, in the order in which they stand.
pub open spec fn of_height(queue: Seq<(usize, PositionedGlyph)>, height: int) -> Seq<
    (usize, PositionedGlyph),
> {
    queue.filter(|queued: (usize, PositionedGlyph)| height_of(queued) == height)
}

/// `slice::sort_by_key`, by negated height: the same glyphs, tallest first. Glyphs of
/// one height stay in the order in which they stood.
#[verifier::external_body]
pub(crate) fn sort_tallest_first(queue: &mut Vec<(usize, PositionedGlyph)>)
    requires
        forall|i: int|
            0 <= i < old(queue)@.len() ==> (#[trigger] old(queue)@[i]).1.bounding_box is Some
                && old(queue)@[i].1.bounding_box->0.is_box(),
    ensures
        final(queue)@.to_multiset() == old(queue)@.to_multiset(),
        tallest_first(final(queue)@),
        forall|height: int| #[trigger]
            of_height(final(queue)@, height) == of_height(old(queue)@, height),
{
    queue.sort_by_key(|queued| negated_height(queued));
}

} // verus!
