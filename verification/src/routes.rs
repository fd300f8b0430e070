use vstd::prelude::*;
use rustc_hash::{FxBuildHasher, FxHashMap};
use crate::bindings::Action;
use crate::keys::Key;

verus! {

#[verifier::external_type_specification]
#[verifier::external_body]
pub struct ExFxBuildHasher(FxBuildHasher);

/// One destination of a routed key: a controller index and what to do.
pub type Route = (usize, Action);

/// The routing table: for each key the user may press, the destinations it
/// is forwarded to, in order.
pub type RouteMap = FxHashMap<Key, Vec<Route>>;

/// What a routing table holds: each key mapped to its destinations.
///
/// The wrappers below state the map behaviour of `std::collections::HashMap`
/// for this table. They rely on `FxBuildHasher` building a fresh default
/// `FxHasher` each time (see rustc-hash), so that equal keys always hash
/// alike; nothing here depends on the order in which the map is walked.
pub uninterp spec fn route_table(m: RouteMap) -> Map<Key, Seq<Route>>;

/// `FxHashMap::default()`, through `Default` for `HashMap`: the new map
/// holds no key.
#[verifier::external_body]
fn map_new() -> (fresh: RouteMap)
    ensures
        route_table(fresh) == empty_table(),
{
    FxHashMap::default()
}

/// `HashMap::get` on a routing table: the destinations stored under `k`,
/// or `None` when `k` has no entry.
#[verifier::external_body]
fn map_get(m: &RouteMap, k: Key) -> (r: Option<&Vec<Route>>)
    ensures
        match r {
            Some(v) => route_table(*m).contains_key(k) && route_table(*m)[k] == v@,
            None => !route_table(*m).contains_key(k),
        },
{
    m.get(&k)
}

/// `HashMap::remove` on a routing table: takes the entry of `k` out and
/// returns it.
#[verifier::external_body]
fn map_remove(m: &mut RouteMap, k: Key) -> (r: Option<Vec<Route>>)
    ensures
        route_table(*final(m)) == route_table(*old(m)).remove(k),
        match r {
            Some(v) => route_table(*old(m)).contains_key(k) && route_table(*old(m))[k] == v@,
            None => !route_table(*old(m)).contains_key(k),
        },
{
    m.remove(&k)
}

/// `HashMap::insert` on a routing table: stores `v` under `k`, replacing
/// any entry there.
#[verifier::external_body]
fn map_insert(m: &mut RouteMap, k: Key, v: Vec<Route>)
    ensures
        route_table(*final(m)) == route_table(*old(m)).insert(k, v@),
{
    m.insert(k, v);
}

/// `HashMap::keys` on a routing table, collected: every key with an entry,
/// each once, in the map's own (unspecified) order.
#[verifier::external_body]
fn map_keys(m: &RouteMap) -> (ks: Vec<Key>)
    ensures
        ks@.to_set() == route_table(*m).dom(),
        ks@.no_duplicates(),
{
    m.keys().copied().collect()
}

/// The table with no entry.
pub open spec fn empty_table() -> Map<Key, Seq<Route>> {
    Map::empty()
}

/// The destinations of `k` in table `t`, empty when `k` has no entry.
pub open spec fn routes_of(t: Map<Key, Seq<Route>>, k: Key) -> Seq<Route> {
    if t.contains_key(k) {
        t[k]
    } else {
        Seq::empty()
    }
}

/// `t` with destination `r` appended to the entry of `k`, creating the
/// entry if needed.
pub open spec fn table_push(t: Map<Key, Seq<Route>>, k: Key, r: Route) -> Map<Key, Seq<Route>> {
    t.insert(k, routes_of(t, k).push(r))
}

/// `t` with each `(key, destination)` pair of `pairs` appended in order.
pub open spec fn table_extend(t: Map<Key, Seq<Route>>, pairs: Seq<(Key, Route)>) -> Map<
    Key,
    Seq<Route>,
>
    decreases pairs.len(),
{
    if pairs.len() == 0 {
        t
    } else {
        let last = pairs.last();
        table_push(table_extend(t, pairs.drop_last()), last.0, last.1)
    }
}

/// `v` with element `i` removed by moving the last element into its place
/// (what `Vec::swap_remove` does).
pub open spec fn swap_removed<T>(v: Seq<T>, i: int) -> Seq<T> {
    v.update(i, v.last()).drop_last()
}

/// The result of scanning `v` from index `i`, removing each element that
/// `drop` selects with `swap_remove` and re-examining the element moved into
/// its place.
pub open spec fn sweep<T>(v: Seq<T>, i: nat, drop: spec_fn(T) -> bool) -> Seq<T>
    decreases v.len() - i,
{
    if i >= v.len() {
        v
    } else if drop(v[i as int]) {
        sweep(swap_removed(v, i as int), i, drop)
    } else {
        sweep(v, i + 1, drop)
    }
}

/// The first position from `i` on in `v` that routes controller `ctl` to an
/// action sending `key`.
pub open spec fn first_route_from(v: Seq<Route>, i: nat, ctl: usize, key: Key) -> Option<int>
    decreases v.len() - i,
{
    if i >= v.len() {
        None
    } else if v[i as int].0 == ctl && v[i as int].1.key_of() == key {
        Some(i as int)
    } else {
        first_route_from(v, i + 1, ctl, key)
    }
}

/// A position found by `first_route_from` is in range and matches.
pub proof fn lemma_first_route_found(v: Seq<Route>, i: nat, ctl: usize, key: Key)
    ensures
        match first_route_from(v, i, ctl, key) {
            Some(j) => i <= j < v.len() && v[j].0 == ctl && v[j].1.key_of() == key,
            None => forall|j: int| i <= j < v.len() ==> !(v[j].0 == ctl && v[j].1.key_of() == key),
        },
    decreases v.len() - i,
{
    if i < v.len() {
        lemma_first_route_found(v, i + 1, ctl, key);
    }
}

/// A new, empty routing table.
pub fn routes_new() -> (m: RouteMap)
    ensures
        route_table(m) == empty_table(),
{
    map_new()
}

/// The destinations of `k`, if it has an entry.
pub fn routes_get(m: &RouteMap, k: Key) -> (r: Option<&Vec<Route>>)
    ensures
        match r {
            Some(v) => route_table(*m).contains_key(k) && route_table(*m)[k] == v@,
            None => !route_table(*m).contains_key(k),
        },
{
    map_get(m, k)
}

/// Every key that has an entry, each once.
pub fn routes_keys(m: &RouteMap) -> (ks: Vec<Key>)
    ensures
        ks@.to_set() == route_table(*m).dom(),
        ks@.no_duplicates(),
{
    map_keys(m)
}

/// Appends a destination to the entry of `k`, creating the entry if needed.
pub fn routes_push(m: &mut RouteMap, k: Key, r: Route)
    ensures
        route_table(*final(m)) == table_push(route_table(*old(m)), k, r),
{
    match map_remove(m, k) {
        Some(mut v) => {
            v.push(r);
            map_insert(m, k, v);
        },
        None => {
            let mut v: Vec<Route> = Vec::new();
            v.push(r);
            map_insert(m, k, v);
        },
    }
    proof {
        assert(route_table(*m) =~= table_push(route_table(*old(m)), k, r));
    }
}

/// Removes `k`'s entry and returns it (empty when there was none).
pub fn routes_take(m: &mut RouteMap, k: Key) -> (v: Vec<Route>)
    ensures
        route_table(*final(m)) == route_table(*old(m)).remove(k),
        v@ == routes_of(route_table(*old(m)), k),
{
    match map_remove(m, k) {
        Some(v) => v,
        None => Vec::new(),
    }
}

/// Stores `v` as the entry of `k`.
pub fn routes_put(m: &mut RouteMap, k: Key, v: Vec<Route>)
    ensures
        route_table(*final(m)) == route_table(*old(m)).insert(k, v@),
{
    map_insert(m, k, v);
}

/// Selects the destinations of controller `ctl`.
pub open spec fn of_controller(ctl: usize) -> spec_fn(Route) -> bool {
    |r: Route| r.0 == ctl
}

/// Selects the destinations whose action sends `key`.
pub open spec fn sending(key: Key) -> spec_fn(Route) -> bool {
    |r: Route| r.1.key_of() == key
}

/// Makes an action that sends `old_key` send `new_key` instead.
pub open spec fn relabel(old_key: Key, new_key: Key) -> spec_fn(Route) -> Route {
    |r: Route|
        if r.1.key_of() == old_key {
            (r.0, r.1.with_key(new_key))
        } else {
            r
        }
}

/// Removes, with `swap_remove`, every destination whose controller is `ctl`.
pub fn sweep_controller(v: &mut Vec<Route>, ctl: usize)
    ensures
        final(v)@ == sweep(old(v)@, 0, of_controller(ctl)),
{
    let ghost drop = of_controller(ctl);
    let mut i: usize = 0;
    while i < v.len()
        invariant
            i <= v.len(),
            drop == of_controller(ctl),
            sweep(v@, i as nat, drop) == sweep(old(v)@, 0, drop),
        decreases v.len() - i,
    {
        let ghost pre = v@;
        assert(drop(pre[i as int]) == (pre[i as int].0 == ctl));
        if v[i].0 == ctl {
            v.swap_remove(i);
            assert(v@ == swap_removed(pre, i as int));
        } else {
            i = i + 1;
        }
    }
}

/// Removes, with `swap_remove`, every destination whose action sends `key`.
pub fn sweep_key(v: &mut Vec<Route>, key: Key)
    ensures
        final(v)@ == sweep(old(v)@, 0, sending(key)),
{
    let ghost drop = sending(key);
    let mut i: usize = 0;
    while i < v.len()
        invariant
            i <= v.len(),
            drop == sending(key),
            sweep(v@, i as nat, drop) == sweep(old(v)@, 0, drop),
        decreases v.len() - i,
    {
        let ghost pre = v@;
        assert(drop(pre[i as int]) == (pre[i as int].1.key_of() == key));
        if *v[i].1.key() == key {
            v.swap_remove(i);
            assert(v@ == swap_removed(pre, i as int));
        } else {
            i = i + 1;
        }
    }
}

/// Makes every action in `v` that sends `old_key` send `new_key`.
pub fn relabel_routes(v: &mut Vec<Route>, old_key: Key, new_key: Key)
    ensures
        final(v)@ == old(v)@.map_values(relabel(old_key, new_key)),
{
    let ghost f = relabel(old_key, new_key);
    let mut i: usize = 0;
    while i < v.len()
        invariant
            i <= v.len(),
            v.len() == old(v).len(),
            f == relabel(old_key, new_key),
            forall|j: int| 0 <= j < i ==> v@[j] == f(old(v)@[j]),
            forall|j: int| i <= j < v.len() ==> v@[j] == old(v)@[j],
        decreases v.len() - i,
    {
        let r = v[i];
        if *r.1.key() == old_key {
            let mut a = r.1;
            a.set_key(new_key);
            v[i] = (r.0, a);
        }
        i = i + 1;
    }
    assert(v@ =~= old(v)@.map_values(f));
}

/// The index of the first destination in `v` that routes controller `ctl`
/// to an action sending `key`.
pub fn find_route(v: &Vec<Route>, ctl: usize, key: Key) -> (r: Option<usize>)
    ensures
        match r {
            Some(j) => first_route_from(v@, 0, ctl, key) == Some(j as int),
            None => first_route_from(v@, 0, ctl, key) is None,
        },
{
    let mut i: usize = 0;
    while i < v.len()
        invariant
            i <= v.len(),
            first_route_from(v@, 0, ctl, key) == first_route_from(v@, i as nat, ctl, key),
        decreases v.len() - i,
    {
        if v[i].0 == ctl && *v[i].1.key() == key {
            return Some(i);
        }
        i = i + 1;
    }
    None
}

} // verus!
