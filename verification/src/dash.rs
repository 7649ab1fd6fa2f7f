//! The concurrent maps of the `dashmap` crate that the library keeps its
//! tables in. Each function makes one call on a map that its caller holds
//! alone, so no other thread comes between.
use dashmap::DashMap;
use vstd::prelude::*;

verus! {

/// `dashmap::DashMap`, an opaque map.
#[verifier::external_type_specification]
#[verifier::external_body]
#[verifier::reject_recursive_types(K)]
#[verifier::reject_recursive_types(V)]
#[verifier::reject_recursive_types(S)]
pub struct ExDashMap<K, V, S>(DashMap<K, V, S>);

/// The identity of a dirty page: tenant, store and page number.
pub type RowKey = (u64, u16, u64);

/// What is kept of a dirty page: its recovery LSN and its generation.
pub type Row = (u64, u64);

/// The rows that a map of dirty pages holds.
pub uninterp spec fn rows_of(m: DashMap<RowKey, Row>) -> Map<RowKey, Row>;

/// No rows at all.
pub open spec fn no_rows() -> Map<RowKey, Row> {
    Map::empty()
}

/// `DashMap::new`: a map without an entry.
#[verifier::external_body]
pub(crate) fn rows_new() -> (m: DashMap<RowKey, Row>)
    ensures
        rows_of(m) == no_rows(),
{
    DashMap::new()
}

/// `DashMap::get`: a copy of the value under the key, where there is one.
#[verifier::external_body]
pub(crate) fn rows_get(m: &DashMap<RowKey, Row>, key: RowKey) -> (r: Option<Row>)
    ensures
        r == if rows_of(*m).contains_key(key) {
            Some(rows_of(*m)[key])
        } else {
            None
        },
{
    m.get(&key).map(|row| *row.value())
}

/// `DashMap::insert`: puts the value under the key, in the place of the one
/// that was there.
#[verifier::external_body]
pub(crate) fn rows_insert(m: &mut DashMap<RowKey, Row>, key: RowKey, row: Row)
    ensures
        rows_of(*final(m)) == rows_of(*old(m)).insert(key, row),
{
    m.insert(key, row);
}

/// Whether the row carries the generation.
pub(crate) fn row_is_at(row: &Row, dirty_gen: u64) -> (r: bool)
    ensures
        r == (row.1 == dirty_gen),
{
    row.1 == dirty_gen
}

/// `DashMap::remove_if`: removes the entry under the key if there is one and
/// the test holds of its value, here that it carries the generation; says
/// whether it removed one.
#[verifier::external_body]
pub(crate) fn rows_remove_at(m: &mut DashMap<RowKey, Row>, key: RowKey, dirty_gen: u64) -> (r: bool)
    ensures
        r == (rows_of(*old(m)).contains_key(key) && rows_of(*old(m))[key].1 == dirty_gen),
        rows_of(*final(m)) == if r {
            rows_of(*old(m)).remove(key)
        } else {
            rows_of(*old(m))
        },
{
    m.remove_if(&key, |_, row| row_is_at(row, dirty_gen)).is_some()
}

/// `DashMap::clear`: removes every entry.
#[verifier::external_body]
pub(crate) fn rows_clear(m: &mut DashMap<RowKey, Row>)
    ensures
        rows_of(*final(m)) == no_rows(),
{
    m.clear();
}

/// `DashMap::iter`, collected: every entry once, in an order that is left
/// open.
#[verifier::external_body]
pub(crate) fn rows_list(m: &DashMap<RowKey, Row>) -> (out: Vec<(RowKey, Row)>)
    ensures
        forall|i: int|
            0 <= i < out@.len() ==> rows_of(*m).contains_pair(
                (#[trigger] out@[i]).0,
                out@[i].1,
            ),
        forall|i: int, j: int|
            0 <= i < j < out@.len() ==> (#[trigger] out@[i]).0 != (#[trigger] out@[j]).0,
        forall|key: RowKey| #[trigger]
            rows_of(*m).contains_key(key) ==> exists|i: int|
                0 <= i < out@.len() && (#[trigger] out@[i]).0 == key,
{
    m.iter().map(|entry| (*entry.key(), *entry.value())).collect()
}

/// `DashMap::len`: the number of entries.
#[verifier::external_body]
pub(crate) fn rows_len(m: &DashMap<RowKey, Row>) -> (n: usize)
    ensures
        n == rows_of(*m).len(),
        n == 0 <==> rows_of(*m) == no_rows(),
{
    m.len()
}

/// The pages that a map of pages holds.
pub uninterp spec fn pages_of(m: DashMap<u64, Vec<u8>>) -> Map<u64, Seq<u8>>;

/// No pages at all.
pub open spec fn no_pages() -> Map<u64, Seq<u8>> {
    Map::empty()
}

/// `DashMap::new`: a map without an entry.
#[verifier::external_body]
pub(crate) fn pages_new() -> (m: DashMap<u64, Vec<u8>>)
    ensures
        pages_of(m) == no_pages(),
{
    DashMap::new()
}

/// `DashMap::get`: a copy of the page under the number, where there is one.
#[verifier::external_body]
pub(crate) fn pages_get(m: &DashMap<u64, Vec<u8>>, page: u64) -> (r: Option<Vec<u8>>)
    ensures
        match r {
            Some(b) => pages_of(*m).contains_key(page) && pages_of(*m)[page] == b@,
            None => !pages_of(*m).contains_key(page),
        },
{
    m.get(&page).map(|entry| entry.value().clone())
}

/// `DashMap::insert`: puts the page under the number, in the place of the one
/// that was there.
#[verifier::external_body]
pub(crate) fn pages_insert(m: &mut DashMap<u64, Vec<u8>>, page: u64, bytes: Vec<u8>)
    ensures
        pages_of(*final(m)) == pages_of(*old(m)).insert(page, bytes@),
{
    m.insert(page, bytes);
}

/// `DashMap::remove`: takes the page under the number out, where there is
/// one.
#[verifier::external_body]
pub(crate) fn pages_remove(m: &mut DashMap<u64, Vec<u8>>, page: u64) -> (r: Option<Vec<u8>>)
    ensures
        match r {
            Some(b) => pages_of(*old(m)).contains_key(page) && pages_of(*old(m))[page] == b@,
            None => !pages_of(*old(m)).contains_key(page),
        },
        pages_of(*final(m)) == pages_of(*old(m)).remove(page),
{
    m.remove(&page).map(|entry| entry.1)
}

/// `DashMap::contains_key`: whether there is a page under the number.
#[verifier::external_body]
pub(crate) fn pages_contains(m: &DashMap<u64, Vec<u8>>, page: u64) -> (r: bool)
    ensures
        r == pages_of(*m).contains_key(page),
{
    m.contains_key(&page)
}

/// `DashMap::len`: the number of pages.
#[verifier::external_body]
pub(crate) fn pages_len(m: &DashMap<u64, Vec<u8>>) -> (n: usize)
    ensures
        n == pages_of(*m).len(),
        n == 0 <==> pages_of(*m) == no_pages(),
{
    m.len()
}

/// `DashMap::iter`, collected: every number that has a page once, in an order
/// that is left open.
#[verifier::external_body]
pub(crate) fn pages_keys(m: &DashMap<u64, Vec<u8>>) -> (out: Vec<u64>)
    ensures
        forall|i: int| 0 <= i < out@.len() ==> pages_of(*m).contains_key(#[trigger] out@[i]),
        forall|i: int, j: int| 0 <= i < j < out@.len() ==> #[trigger] out@[i] != #[trigger] out@[j],
        forall|page: u64| #[trigger] pages_of(*m).contains_key(page) ==> out@.contains(page),
{
    m.iter().map(|entry| *entry.key()).collect()
}

/// A tenant and a partition.
pub type PlaceKey = (u64, u32);

/// The numbers that a map of places holds.
pub uninterp spec fn places_of(m: DashMap<PlaceKey, usize>) -> Map<PlaceKey, usize>;

/// No places at all.
pub open spec fn no_places() -> Map<PlaceKey, usize> {
    Map::empty()
}

/// `DashMap::new`: a map without an entry.
#[verifier::external_body]
pub(crate) fn places_new() -> (m: DashMap<PlaceKey, usize>)
    ensures
        places_of(m) == no_places(),
{
    DashMap::new()
}

/// `DashMap::get`: a copy of the number of the place, where there is one.
#[verifier::external_body]
pub(crate) fn places_get(m: &DashMap<PlaceKey, usize>, key: PlaceKey) -> (r: Option<usize>)
    ensures
        r == if places_of(*m).contains_key(key) {
            Some(places_of(*m)[key])
        } else {
            None
        },
{
    m.get(&key).map(|entry| *entry.value())
}

/// `DashMap::insert`: puts the number under the place, in the place of the one
/// that was there.
#[verifier::external_body]
pub(crate) fn places_insert(m: &mut DashMap<PlaceKey, usize>, key: PlaceKey, number: usize)
    ensures
        places_of(*final(m)) == places_of(*old(m)).insert(key, number),
{
    m.insert(key, number);
}

} // verus!
