use vstd::prelude::*;
use crate::bindings::{route_slot, Action, Bindings, MainBindings, Slot, SLOT_COUNT};
use crate::bitset::{
    bit_set, first_set_from, iter_outputs, iter_start, next_step, set_bits_below, set_bits_from,
    toggled, AtomicBitSet, BitSetIter,
};
use crate::events::{
    press_action, press_mirrors, press_result, press_routes, release_action,
    release_mirrors, release_result, release_routes, KeySend, SendKind,
};
use crate::keys::{
    evdev_keysym, Key, KEY_DOWN, KEY_ESCAPE, KEY_F1, KEY_HOME, KEY_LEFT, KEY_RETURN, KEY_RIGHT, KEY_SHIFT_L,
    KEY_SPACE, KEY_SUPER_L, KEY_TAB, KEY_UP,
};
use crate::routes::{
    empty_table, first_route_from, lemma_first_route_found, of_controller, relabel, routes_of, sweep, swap_removed, table_extend, table_push,
    Route,
};
use crate::state::{
    config_pairs, initial_table, lemma_sweep, reroute_main_table, reroute_table, unroute_one,
    slot_pairs, unroute_controller_table, Controller, State,
};
use crate::toon::{
    decimal, digit_char, digit_value, digits_value, display_key, game_of_window, game_title,
    all_digits, is_digit, ToonGame,
};

verus! {

/// Toggling the same index twice gives back the set.
pub proof fn law_toggle_twice(s: Set<usize>, i: usize)
    ensures
        toggled(toggled(s, i), i) == s,
{
    assert(toggled(toggled(s, i), i) =~= s);
}

proof fn lemma_bits_below_shape(bits: usize, n: nat)
    requires
        n <= usize::BITS,
    ensures
        forall|k: int|
            0 <= k < set_bits_below(bits, n).len() ==> {
                let i = #[trigger] set_bits_below(bits, n)[k];
                i < n && bit_set(bits, i)
            },
        forall|a: int, b: int|
            0 <= a < b < set_bits_below(bits, n).len() ==> #[trigger] set_bits_below(bits, n)[a]
                < #[trigger] set_bits_below(bits, n)[b],
        forall|i: usize| i < n && bit_set(bits, i) ==> #[trigger] set_bits_below(bits, n).contains(i),
    decreases n,
{
    if n > 0 {
        lemma_bits_below_shape(bits, (n - 1) as nat);
        let prev = set_bits_below(bits, (n - 1) as nat);
        let cur = set_bits_below(bits, n);
        assert forall|k: int| 0 <= k < cur.len() implies ({
            let i = #[trigger] cur[k];
            i < n && bit_set(bits, i)
        }) by {
            if k < prev.len() {
                assert(cur[k] == prev[k]);
            }
        }
        assert forall|a: int, b: int| 0 <= a < b < cur.len() implies #[trigger] cur[a] < #[trigger] cur[b] by {
            if b < prev.len() {
                assert(cur[a] == prev[a] && cur[b] == prev[b]);
            } else {
                assert(cur[a] == prev[a]);
            }
        }
        assert forall|i: usize| i < n && bit_set(bits, i) implies #[trigger] cur.contains(i) by {
            if i < n - 1 {
                assert(prev.contains(i));
                let k = choose|k: int| 0 <= k < prev.len() && prev[k] == i;
                assert(cur[k] == i);
            } else {
                assert(cur[cur.len() - 1] == i);
            }
        }
    }
}

/// Iterating a set lists exactly its members, each once, in increasing
/// order.
pub proof fn law_iteration_lists_members(s: AtomicBitSet)
    ensures
        forall|k: int| 0 <= k < s.members().len() ==> s@.contains(#[trigger] s.members()[k]),
        forall|i: usize| s@.contains(i) ==> #[trigger] s.members().contains(i),
        forall|a: int, b: int|
            0 <= a < b < s.members().len() ==> #[trigger] s.members()[a] < #[trigger] s.members()[b],
{
    lemma_bits_below_shape(s.bits, usize::BITS as nat);
}

/// Whether an action holds its key down while the controller key is held
/// (simple moves and keepalive).
pub open spec fn is_held(a: Action) -> bool {
    a is Simple || a is Keepalive
}

/// The same deliveries, each turned into a key down.
pub open spec fn as_downs(s: Seq<KeySend>) -> Seq<KeySend> {
    s.map_values(|k: KeySend| KeySend { kind: SendKind::Down, ..k })
}

proof fn lemma_downs_push(s: Seq<KeySend>, k: KeySend)
    ensures
        as_downs(s.push(k)) == as_downs(s).push(KeySend { kind: SendKind::Down, ..k }),
{
    assert(as_downs(s.push(k)) =~= as_downs(s).push(KeySend { kind: SendKind::Down, ..k }));
}

proof fn lemma_held_mirrors(
    acc: Seq<KeySend>,
    rel: Seq<KeySend>,
    talk: Set<usize>,
    ms: Seq<usize>,
    primary: usize,
    a: Action,
    ctls: Seq<Controller>,
)
    requires
        is_held(a),
        acc == as_downs(rel),
    ensures
        press_mirrors((acc, talk), ms, primary, a, ctls, false) == (
            as_downs(release_mirrors(rel, ms, a)),
            talk,
        ),
    decreases ms.len(),
{
    if ms.len() > 0 {
        lemma_held_mirrors(acc, rel, talk, ms.drop_last(), primary, a, ctls);
        let inner = release_mirrors(rel, ms.drop_last(), a);
        let i = ms.last();
        match a {
            Action::Simple(k) => lemma_downs_push(inner, KeySend { controller: i, kind: SendKind::Up, key: k }),
            _ => lemma_downs_push(inner, KeySend { controller: i, kind: SendKind::Up, key: crate::keys::KEY_HOME }),
        }
    }
}

proof fn lemma_held_routes(
    rs: Seq<Route>,
    ctls: Seq<Controller>,
    mirroring: bool,
    talk: Set<usize>,
)
    requires
        forall|j: int| 0 <= j < rs.len() ==> is_held(#[trigger] rs[j].1),
    ensures
        press_routes((Seq::empty(), talk), rs, ctls, mirroring, false) == (
            as_downs(release_routes(Seq::empty(), rs, ctls, mirroring)),
            talk,
        ),
    decreases rs.len(),
{
    if rs.len() == 0 {
        assert(as_downs(Seq::<KeySend>::empty()) =~= Seq::<KeySend>::empty());
    } else {
        let pre = rs.drop_last();
        assert forall|j: int| 0 <= j < pre.len() implies is_held(#[trigger] pre[j].1) by {
            assert(pre[j] == rs[j]);
        }
        lemma_held_routes(pre, ctls, mirroring, talk);
        let r = rs.last();
        assert(is_held(rs[rs.len() - 1].1));
        let rel0 = release_routes(Seq::empty(), pre, ctls, mirroring);
        let rel1 = release_action(rel0, r.0, r.1);
        match r.1 {
            Action::Simple(k) => lemma_downs_push(rel0, KeySend { controller: r.0, kind: SendKind::Up, key: k }),
            _ => lemma_downs_push(rel0, KeySend { controller: r.0, kind: SendKind::Up, key: crate::keys::KEY_HOME }),
        }
        if mirroring {
            lemma_held_mirrors(
                as_downs(rel1),
                rel1,
                talk,
                ctls[r.0 as int].mirrored.members(),
                r.0,
                r.1,
                ctls,
            );
        }
    }
}

/// Releasing a key undoes its press: outside the talking state, for a key
/// other than the mirroring toggle whose routes all hold keys (moves and
/// keepalive), the press holds down exactly the keys, for exactly the
/// controllers and in the same order, that the release lets go, and it
/// changes neither the talking set nor the mirroring mode.
pub proof fn law_release_undoes_press(s: State, key: Key)
    requires
        s.talking@ == Set::<usize>::empty(),
        key != s.main_bindings.toggle_mirroring,
        forall|j: int|
            0 <= j < routes_of(s.table(), key).len() ==> is_held(
                #[trigger] routes_of(s.table(), key)[j].1,
            ),
    ensures
        press_result(s, key).0 == as_downs(release_result(s, key)),
        press_result(s, key).1 == s.talking@,
        press_result(s, key).2 == s.mirroring,
{
    lemma_held_routes(routes_of(s.table(), key), s.controllers@, s.mirroring, s.talking@);
}

/// Outside the talking state, pressing the mirroring toggle key flips the
/// mirroring mode; any other key leaves it.
pub proof fn law_toggle_key_flips_mirroring(s: State, key: Key)
    requires
        s.talking@ == Set::<usize>::empty(),
    ensures
        press_result(s, key).2 == (if key == s.main_bindings.toggle_mirroring {
            !s.mirroring
        } else {
            s.mirroring
        }),
{
}

/// In the talking state a key press only holds the key down for each
/// talking controller (in increasing order) before any route is applied,
/// and the mirroring mode stays as it is.
pub proof fn law_talking_press_starts_with_talkers(s: State, key: Key)
    requires
        s.talking@ != Set::<usize>::empty(),
    ensures
        press_result(s, key).2 == s.mirroring,
        press_result(s, key).0.len() >= s.talking.members().len(),
        forall|k: int|
            0 <= k < s.talking.members().len() ==> press_result(s, key).0[k] == (KeySend {
                controller: s.talking.members()[k],
                kind: SendKind::Down,
                key,
            }),
{
    let held = crate::events::sends_to(s.talking.members(), SendKind::Down, key);
    lemma_press_routes_extends(
        (held, s.talking@),
        routes_of(s.table(), key),
        s.controllers@,
        s.mirroring,
        true,
    );
}

proof fn lemma_press_action_extends(acc: (Seq<KeySend>, Set<usize>), target: usize, primary: usize, a: Action, m: bool, t: bool)
    ensures
        press_action(acc, target, primary, a, m, t).0.len() >= acc.0.len(),
        forall|k: int| 0 <= k < acc.0.len() ==> #[trigger] press_action(acc, target, primary, a, m, t).0[k] == acc.0[k],
{
}

proof fn lemma_press_mirrors_extends(acc: (Seq<KeySend>, Set<usize>), ms: Seq<usize>, primary: usize, a: Action, ctls: Seq<Controller>, t: bool)
    ensures
        press_mirrors(acc, ms, primary, a, ctls, t).0.len() >= acc.0.len(),
        forall|k: int| 0 <= k < acc.0.len() ==> #[trigger] press_mirrors(acc, ms, primary, a, ctls, t).0[k] == acc.0[k],
    decreases ms.len(),
{
    if ms.len() > 0 {
        lemma_press_mirrors_extends(acc, ms.drop_last(), primary, a, ctls, t);
        let inner = press_mirrors(acc, ms.drop_last(), primary, a, ctls, t);
        let i = ms.last();
        lemma_press_action_extends(inner, i, primary, a, ctls[i as int].mirror != crate::state::NO_MIRROR, t);
    }
}

proof fn lemma_press_routes_extends(acc: (Seq<KeySend>, Set<usize>), rs: Seq<Route>, ctls: Seq<Controller>, m: bool, t: bool)
    ensures
        press_routes(acc, rs, ctls, m, t).0.len() >= acc.0.len(),
        forall|k: int| 0 <= k < acc.0.len() ==> #[trigger] press_routes(acc, rs, ctls, m, t).0[k] == acc.0[k],
    decreases rs.len(),
{
    if rs.len() > 0 {
        lemma_press_routes_extends(acc, rs.drop_last(), ctls, m, t);
        let inner = press_routes(acc, rs.drop_last(), ctls, m, t);
        let r = rs.last();
        let c = r.0;
        lemma_press_action_extends(inner, c, c, r.1, ctls[c as int].mirror != crate::state::NO_MIRROR, t);
        let first = press_action(inner, c, c, r.1, ctls[c as int].mirror != crate::state::NO_MIRROR, t);
        lemma_press_mirrors_extends(first, ctls[c as int].mirrored.members(), c, r.1, ctls, t);
    }
}

/// Rebinding a main key to itself changes no route.
pub proof fn law_reroute_main_to_same_key(t: Map<Key, Seq<Route>>, k: Key)
    requires
        k != 0,
    ensures
        reroute_main_table(t, k, k) == t,
{
    let t2 = reroute_main_table(t, k, k);
    assert forall|key: Key| t.contains_key(key) implies t2[key] == t[key] by {
        assert forall|j: int| 0 <= j < t[key].len() implies t2[key][j] == t[key][j] by {
            let r = t[key][j];
            assert(relabel(k, k)(r) == r);
        }
        assert(t2[key] =~= t[key]);
    }
    assert(t2 =~= t);
}

/// After a controller is removed, no route names it, and every route
/// that remains was there before.
pub proof fn law_removed_controller_unrouted(t: Map<Key, Seq<Route>>, removed: usize)
    ensures
        forall|k: Key, j: int|
            unroute_controller_table(t, removed).contains_key(k) && 0 <= j < unroute_controller_table(
                t,
                removed,
            )[k].len() ==> {
                let r = #[trigger] unroute_controller_table(t, removed)[k][j];
                r.0 != removed && t[k].contains(r)
            },
{
    let t2 = unroute_controller_table(t, removed);
    assert forall|k: Key, j: int| t2.contains_key(k) && 0 <= j < t2[k].len() implies ({
        let r = #[trigger] t2[k][j];
        r.0 != removed && t[k].contains(r)
    }) by {
        lemma_sweep(t[k], 0, of_controller(removed));
    }
}

proof fn lemma_digit_round_trip(d: nat)
    requires
        d < 10,
    ensures
        is_digit(digit_char(d)),
        digit_value(digit_char(d)) == d,
{
}

proof fn lemma_decimal_digits(n: nat)
    ensures
        all_digits(decimal(n)),
        digits_value(decimal(n)) == n,
        decimal(n).len() >= 1,
    decreases n,
{
    if n < 10 {
        lemma_digit_round_trip(n);
        assert(decimal(n).drop_last() =~= Seq::<char>::empty());
        assert(decimal(n).last() == digit_char(n));
        assert(digits_value(decimal(n)) == digits_value(decimal(n).drop_last()) * 10 + digit_value(
            decimal(n).last(),
        ));
    } else {
        lemma_decimal_digits(n / 10);
        lemma_digit_round_trip(n % 10);
        let s = decimal(n);
        assert(s.drop_last() =~= decimal(n / 10));
        assert(s.last() == digit_char(n % 10));
        assert(digits_value(s) == digits_value(s.drop_last()) * 10 + digit_value(s.last()));
        assert(n == (n / 10) * 10 + n % 10);
        assert forall|i: int| 0 <= i < s.len() implies is_digit(#[trigger] s[i]) by {
            if i < s.len() - 1 {
                assert(s[i] == decimal(n / 10)[i]);
            }
        }
    }
}

/// A display name made for a gamescope socket orders by the display
/// number it names.
pub proof fn law_display_key_round_trip(n: u32)
    requires
        n < u32::MAX,
    ensures
        display_key(seq![':'] + decimal(n as nat + 1)) == n + 1,
{
    let d = seq![':'] + decimal(n as nat + 1);
    assert(d.drop_first() =~= decimal(n as nat + 1));
    lemma_decimal_digits(n as nat + 1);
    assert(decimal(n as nat + 1)[0] != '+');
}

/// A window whose name starts with a game's title is recognised as that
/// game's window.
pub proof fn law_title_recognised(g: ToonGame, rest: Seq<char>)
    ensures
        game_of_window(game_title(g) + rest) == Some(g),
{
    reveal_strlit("Corporate Clash");
    reveal_strlit("Toontown Rewritten");
    let name = game_title(g) + rest;
    assert(game_title(g).is_prefix_of(name)) by {
        assert(name.subrange(0, game_title(g).len() as int) =~= game_title(g));
    }
    if g == ToonGame::ToontownRewritten {
        assert(name[0] == 'T');
        assert(game_title(ToonGame::CorporateClash)[0] == 'C');
    }
}

proof fn lemma_swap_removed_count<T>(v: Seq<T>, i: int, x: T)
    requires
        0 <= i < v.len(),
    ensures
        swap_removed(v, i).to_multiset().count(x) == v.to_multiset().count(x) - (if x == v[i] {
            1int
        } else {
            0int
        }),
{
    broadcast use vstd::multiset::group_multiset_axioms;
    let u = v.update(i, v.last());
    vstd::seq_lib::to_multiset_update(v, i, v.last());
    assert(u.last() == v.last());
    assert(u.drop_last() =~= u.remove(u.len() - 1));
    vstd::seq_lib::to_multiset_remove(u, u.len() - 1);
    vstd::seq_lib::to_multiset_contains(v, v[i]);
    assert(v.contains(v[i]));
}

proof fn lemma_sweep_counts<T>(v: Seq<T>, i: nat, drop: spec_fn(T) -> bool, x: T)
    requires
        i <= v.len(),
        forall|j: int| 0 <= j < i ==> !drop(#[trigger] v[j]),
    ensures
        sweep(v, i, drop).to_multiset().count(x) == (if drop(x) {
            0
        } else {
            v.to_multiset().count(x)
        }),
    decreases v.len() - i,
{
    if i >= v.len() {
        if drop(x) {
            vstd::seq_lib::to_multiset_contains(v, x);
            if v.contains(x) {
                let j = choose|j: int| 0 <= j < v.len() && v[j] == x;
                assert(!drop(v[j]));
            }
        }
    } else if drop(v[i as int]) {
        let w = swap_removed(v, i as int);
        assert forall|j: int| 0 <= j < i implies !drop(#[trigger] w[j]) by {
            assert(w[j] == v[j]);
        }
        lemma_sweep_counts(w, i, drop, x);
        lemma_swap_removed_count(v, i as int, x);
    } else {
        lemma_sweep_counts(v, i + 1, drop, x);
    }
}

/// Sweeping removes exactly the selected elements: every other element
/// stays, as often as before; only the order may change.
pub proof fn law_sweep_keeps_the_rest<T>(v: Seq<T>, drop: spec_fn(T) -> bool)
    ensures
        forall|x: T|
            #[trigger] sweep(v, 0, drop).to_multiset().count(x) == (if drop(x) {
                0
            } else {
                v.to_multiset().count(x)
            }),
{
    assert forall|x: T|
        #[trigger] sweep(v, 0, drop).to_multiset().count(x) == (if drop(x) {
            0
        } else {
            v.to_multiset().count(x)
        }) by {
        lemma_sweep_counts(v, 0, drop, x);
    }
}

proof fn lemma_extend_contents(pairs: Seq<(Key, Route)>)
    ensures
        forall|k: Key, r: Route|
            #![trigger table_extend(empty_table(), pairs).contains_key(k), pairs.contains((k, r))]
            (table_extend(empty_table(), pairs).contains_key(k) && table_extend(
                empty_table(),
                pairs,
            )[k].contains(r)) <==> pairs.contains((k, r)),
        forall|k: Key|
            #[trigger] table_extend(empty_table(), pairs).contains_key(k) ==> exists|r: Route|
                pairs.contains((k, r)),
    decreases pairs.len(),
{
    if pairs.len() > 0 {
        let pre = pairs.drop_last();
        lemma_extend_contents(pre);
        let t = table_extend(empty_table(), pre);
        let p = pairs.last();
        let t2 = table_push(t, p.0, p.1);
        assert(pairs =~= pre.push(p));
        assert forall|k: Key, r: Route|
            (t2.contains_key(k) && t2[k].contains(r)) <==> pairs.contains((k, r)) by {
            if k == p.0 {
                let old = crate::routes::routes_of(t, k);
                assert(t2[k] == old.push(p.1));
                if t2[k].contains(r) {
                    let j = choose|j: int| 0 <= j < t2[k].len() && t2[k][j] == r;
                    if j < old.len() {
                        assert(old.contains(r));
                        assert(t.contains_key(k));
                        assert(pre.contains((k, r)));
                        let m = choose|m: int| 0 <= m < pre.len() && pre[m] == (k, r);
                        assert(pairs[m] == (k, r));
                    } else {
                        assert(pairs[pairs.len() - 1] == (k, r));
                    }
                }
                if pairs.contains((k, r)) {
                    let m = choose|m: int| 0 <= m < pairs.len() && pairs[m] == (k, r);
                    if m < pairs.len() - 1 {
                        assert(pre[m] == (k, r));
                        assert(pre.contains((k, r)));
                        assert(t.contains_key(k) && t[k].contains(r));
                        let j = choose|j: int| 0 <= j < t[k].len() && t[k][j] == r;
                        assert(t2[k][j] == r);
                    } else {
                        assert(t2[k][t2[k].len() - 1] == r);
                    }
                }
            } else {
                if pairs.contains((k, r)) {
                    let m = choose|m: int| 0 <= m < pairs.len() && pairs[m] == (k, r);
                    assert(m < pairs.len() - 1);
                    assert(pre[m] == (k, r));
                    assert(pre.contains((k, r)));
                }
                if t.contains_key(k) && t[k].contains(r) {
                    assert(pre.contains((k, r)));
                    let m = choose|m: int| 0 <= m < pre.len() && pre[m] == (k, r);
                    assert(pairs[m] == (k, r));
                }
            }
        }
        assert forall|k: Key| #[trigger] t2.contains_key(k) implies exists|r: Route| pairs.contains((k, r)) by {
            if k == p.0 {
                assert(pairs[pairs.len() - 1] == (k, p.1));
                assert(pairs.contains((k, p.1)));
            } else {
                let r = choose|r: Route| pre.contains((k, r));
                let m = choose|m: int| 0 <= m < pre.len() && pre[m] == (k, r);
                assert(pairs[m] == (k, r));
                assert(pairs.contains((k, r)));
            }
        }
    }
}

/// Whether slot number `i` (in loading order) of controller `c` is bound
/// to `k` and routed to `a`.
pub open spec fn slot_routes(main: MainBindings, ctls: Seq<Controller>, c: usize, i: int, k: Key, a: Action) -> bool {
    &&& 0 <= i < SLOT_COUNT
    &&& k != 0
    &&& ctls[c as int].bindings.slot_key(route_slot(i)) == k
    &&& a == main.action_for(route_slot(i))
}

proof fn lemma_slot_pairs_contents(main: MainBindings, c: usize, b: Bindings, m: nat)
    requires
        m <= SLOT_COUNT,
    ensures
        forall|k: Key, d: usize, a: Action|
            #[trigger] slot_pairs(main, c, b, m).contains((k, (d, a))) <==> (d == c && exists|i: int|
                0 <= i < m && k != 0 && b.slot_key(route_slot(i)) == k && a == main.action_for(
                    #[trigger] route_slot(i),
                )),
    decreases m,
{
    if m > 0 {
        lemma_slot_pairs_contents(main, c, b, (m - 1) as nat);
        let prev = slot_pairs(main, c, b, (m - 1) as nat);
        let cur = slot_pairs(main, c, b, m);
        let slot = route_slot(m - 1);
        assert forall|k: Key, d: usize, a: Action| #[trigger] cur.contains((k, (d, a))) <==> (d == c
            && exists|i: int|
            0 <= i < m && k != 0 && b.slot_key(route_slot(i)) == k && a == main.action_for(
                #[trigger] route_slot(i),
            )) by {
            if cur.contains((k, (d, a))) {
                let j = choose|j: int| 0 <= j < cur.len() && cur[j] == (k, (d, a));
                if j < prev.len() {
                    assert(prev[j] == cur[j]);
                    assert(prev.contains((k, (d, a))));
                } else {
                    assert(route_slot(m - 1) == slot);
                }
            }
            if d == c && exists|i: int|
                0 <= i < m && k != 0 && b.slot_key(route_slot(i)) == k && a == main.action_for(
                    #[trigger] route_slot(i),
                ) {
                let i = choose|i: int|
                    0 <= i < m && k != 0 && b.slot_key(route_slot(i)) == k && a == main.action_for(
                        #[trigger] route_slot(i),
                    );
                if i < m - 1 {
                    assert(prev.contains((k, (d, a))));
                    let j = choose|j: int| 0 <= j < prev.len() && prev[j] == (k, (d, a));
                    assert(cur[j] == (k, (d, a)));
                } else {
                    assert(cur[cur.len() - 1] == (k, (d, a)));
                }
            }
        }
    }
}

proof fn lemma_config_pairs_contents(main: MainBindings, ctls: Seq<Controller>, n: nat)
    requires
        n <= ctls.len(),
        ctls.len() <= usize::MAX,
    ensures
        forall|k: Key, c: usize, a: Action|
            #[trigger] config_pairs(main, ctls, n).contains((k, (c, a))) <==> (c < n && exists|i: int|
                #[trigger] slot_routes(main, ctls, c, i, k, a)),
    decreases n,
{
    if n > 0 {
        lemma_config_pairs_contents(main, ctls, (n - 1) as nat);
        let last = (n - 1) as usize;
        lemma_slot_pairs_contents(main, last, ctls[n - 1].bindings, SLOT_COUNT as nat);
        let a1 = config_pairs(main, ctls, (n - 1) as nat);
        let a2 = slot_pairs(main, last, ctls[n - 1].bindings, SLOT_COUNT as nat);
        let all = config_pairs(main, ctls, n);
        assert(all == a1 + a2);
        assert forall|k: Key, c: usize, a: Action| #[trigger] all.contains((k, (c, a))) <==> (c < n
            && exists|i: int| #[trigger] slot_routes(main, ctls, c, i, k, a)) by {
            if all.contains((k, (c, a))) {
                let j = choose|j: int| 0 <= j < all.len() && all[j] == (k, (c, a));
                if j < a1.len() {
                    assert(a1[j] == all[j]);
                    assert(a1.contains((k, (c, a))));
                } else {
                    assert(a2[j - a1.len()] == all[j]);
                    assert(a2.contains((k, (c, a))));
                    let i = choose|i: int|
                        0 <= i < SLOT_COUNT && k != 0 && ctls[n - 1].bindings.slot_key(route_slot(i))
                            == k && a == main.action_for(#[trigger] route_slot(i));
                    assert(slot_routes(main, ctls, c, i, k, a));
                }
            }
            if c < n && exists|i: int| #[trigger] slot_routes(main, ctls, c, i, k, a) {
                let i = choose|i: int| #[trigger] slot_routes(main, ctls, c, i, k, a);
                if c < n - 1 {
                    assert(a1.contains((k, (c, a))));
                    let j = choose|j: int| 0 <= j < a1.len() && a1[j] == (k, (c, a));
                    assert(all[j] == (k, (c, a)));
                } else {
                    assert(route_slot(i) == route_slot(i));
                    assert(a2.contains((k, (c, a))));
                    let j = choose|j: int| 0 <= j < a2.len() && a2[j] == (k, (c, a));
                    assert(all[a1.len() + j] == (k, (c, a)));
                }
            }
        }
    }
}

/// Whether table `t` routes key `k` to controller `c` with action `a`.
pub open spec fn routes_to(t: Map<Key, Seq<Route>>, k: Key, c: usize, a: Action) -> bool {
    t.contains_key(k) && t[k].contains((c, a))
}

/// Loading a configuration routes every bound key of every controller, and
/// nothing else: key `k` routes controller `c` to action `a` exactly when
/// some slot of `c` is bound to `k` (not 0) and its action is `a`.
pub proof fn law_loading_routes_every_bound_key(main: MainBindings, ctls: Seq<Controller>)
    requires
        ctls.len() <= usize::MAX,
    ensures
        forall|k: Key, c: usize, a: Action|
            #[trigger] routes_to(initial_table(main, ctls), k, c, a) <==> (c < ctls.len() && exists|i: int|
                slot_routes(main, ctls, c, i, k, a)),
{
    let pairs = config_pairs(main, ctls, ctls.len() as nat);
    lemma_extend_contents(pairs);
    lemma_config_pairs_contents(main, ctls, ctls.len() as nat);
    assert forall|k: Key, c: usize, a: Action|
        #[trigger] routes_to(initial_table(main, ctls), k, c, a) <==> (c < ctls.len() && exists|i: int|
            slot_routes(main, ctls, c, i, k, a)) by {
        assert(pairs.contains((k, (c, a))) <==> (c < ctls.len() && exists|i: int|
            #[trigger] slot_routes(main, ctls, c, i, k, a)));
        assert(initial_table(main, ctls) == table_extend(empty_table(), pairs));
        assert((table_extend(empty_table(), pairs).contains_key(k) && table_extend(
            empty_table(),
            pairs,
        )[k].contains((c, a))) <==> pairs.contains((k, (c, a))));
    }
}

/// The talking set after toggling each index of `xs` in order.
pub open spec fn toggle_all(t: Set<usize>, xs: Seq<usize>) -> Set<usize>
    decreases xs.len(),
{
    if xs.len() == 0 {
        t
    } else {
        toggled(toggle_all(t, xs.drop_last()), xs.last())
    }
}

/// The controllers whose talking state one routed action toggles.
pub open spec fn action_toggles(target: usize, primary: usize, a: Action, target_has_mirror: bool) -> Seq<usize> {
    if a is Talk && (target != primary || !target_has_mirror) {
        seq![target]
    } else {
        Seq::empty()
    }
}

pub open spec fn mirror_toggles(ms: Seq<usize>, primary: usize, a: Action, ctls: Seq<Controller>) -> Seq<usize>
    decreases ms.len(),
{
    if ms.len() == 0 {
        Seq::empty()
    } else {
        mirror_toggles(ms.drop_last(), primary, a, ctls) + action_toggles(
            ms.last(),
            primary,
            a,
            ctls[ms.last() as int].mirror != crate::state::NO_MIRROR,
        )
    }
}

pub open spec fn route_toggles(r: Route, ctls: Seq<Controller>, mirroring: bool) -> Seq<usize> {
    let c = r.0;
    let first = action_toggles(c, c, r.1, ctls[c as int].mirror != crate::state::NO_MIRROR);
    if mirroring {
        first + mirror_toggles(ctls[c as int].mirrored.members(), c, r.1, ctls)
    } else {
        first
    }
}

/// The controllers, in order, whose talking state the routes `rs` toggle.
pub open spec fn routes_toggles(rs: Seq<Route>, ctls: Seq<Controller>, mirroring: bool) -> Seq<usize>
    decreases rs.len(),
{
    if rs.len() == 0 {
        Seq::empty()
    } else {
        routes_toggles(rs.drop_last(), ctls, mirroring) + route_toggles(rs.last(), ctls, mirroring)
    }
}

proof fn lemma_toggle_all_append(t: Set<usize>, xs: Seq<usize>, ys: Seq<usize>)
    ensures
        toggle_all(t, xs + ys) == toggle_all(toggle_all(t, xs), ys),
    decreases ys.len(),
{
    if ys.len() == 0 {
        assert(xs + ys =~= xs);
    } else {
        lemma_toggle_all_append(t, xs, ys.drop_last());
        assert((xs + ys).drop_last() =~= xs + ys.drop_last());
        assert((xs + ys).last() == ys.last());
    }
}

proof fn lemma_toggles_commute(t: Set<usize>, a: usize, b: usize)
    ensures
        toggled(toggled(t, a), b) == toggled(toggled(t, b), a),
{
    assert(toggled(toggled(t, a), b) =~= toggled(toggled(t, b), a));
}

proof fn lemma_toggle_all_commute(t: Set<usize>, x: usize, xs: Seq<usize>)
    ensures
        toggle_all(toggled(t, x), xs) == toggled(toggle_all(t, xs), x),
    decreases xs.len(),
{
    if xs.len() > 0 {
        lemma_toggle_all_commute(t, x, xs.drop_last());
        lemma_toggles_commute(toggle_all(t, xs.drop_last()), x, xs.last());
    }
}

proof fn lemma_toggle_all_twice(t: Set<usize>, xs: Seq<usize>)
    ensures
        toggle_all(toggle_all(t, xs), xs) == t,
    decreases xs.len(),
{
    if xs.len() > 0 {
        let ys = xs.drop_last();
        let y = xs.last();
        lemma_toggle_all_twice(t, ys);
        lemma_toggle_all_commute(toggle_all(t, ys), y, ys);
        law_toggle_twice(toggle_all(toggle_all(t, ys), ys), y);
    }
}

proof fn lemma_action_talk(
    acc: (Seq<KeySend>, Set<usize>),
    target: usize,
    primary: usize,
    a: Action,
    m: bool,
    flag: bool,
)
    ensures
        press_action(acc, target, primary, a, m, flag).1 == toggle_all(acc.1, action_toggles(target, primary, a, m)),
{
    let xs = action_toggles(target, primary, a, m);
    if a is Talk && (target != primary || !m) {
        assert(xs.drop_last() =~= Seq::<usize>::empty());
        assert(xs.last() == target);
        assert(toggle_all(acc.1, xs.drop_last()) == acc.1);
        assert(toggle_all(acc.1, xs) == toggled(acc.1, target));
    } else {
        assert(xs.len() == 0);
    }
}

proof fn lemma_mirrors_talk(
    acc: (Seq<KeySend>, Set<usize>),
    ms: Seq<usize>,
    primary: usize,
    a: Action,
    ctls: Seq<Controller>,
    flag: bool,
)
    ensures
        press_mirrors(acc, ms, primary, a, ctls, flag).1 == toggle_all(acc.1, mirror_toggles(ms, primary, a, ctls)),
    decreases ms.len(),
{
    if ms.len() > 0 {
        lemma_mirrors_talk(acc, ms.drop_last(), primary, a, ctls, flag);
        let inner = press_mirrors(acc, ms.drop_last(), primary, a, ctls, flag);
        let i = ms.last();
        let has = ctls[i as int].mirror != crate::state::NO_MIRROR;
        lemma_action_talk(inner, i, primary, a, has, flag);
        lemma_toggle_all_append(acc.1, mirror_toggles(ms.drop_last(), primary, a, ctls), action_toggles(i, primary, a, has));
    }
}

proof fn lemma_routes_talk(
    acc: (Seq<KeySend>, Set<usize>),
    rs: Seq<Route>,
    ctls: Seq<Controller>,
    mirroring: bool,
    flag: bool,
)
    ensures
        press_routes(acc, rs, ctls, mirroring, flag).1 == toggle_all(acc.1, routes_toggles(rs, ctls, mirroring)),
    decreases rs.len(),
{
    if rs.len() > 0 {
        lemma_routes_talk(acc, rs.drop_last(), ctls, mirroring, flag);
        let inner = press_routes(acc, rs.drop_last(), ctls, mirroring, flag);
        let r = rs.last();
        let c = r.0;
        let has = ctls[c as int].mirror != crate::state::NO_MIRROR;
        lemma_action_talk(inner, c, c, r.1, has, flag);
        let first = press_action(inner, c, c, r.1, has, flag);
        let before = routes_toggles(rs.drop_last(), ctls, mirroring);
        let own = action_toggles(c, c, r.1, has);
        lemma_toggle_all_append(acc.1, before, own);
        if mirroring {
            let ms = ctls[c as int].mirrored.members();
            lemma_mirrors_talk(first, ms, c, r.1, ctls, flag);
            let mt = mirror_toggles(ms, c, r.1, ctls);
            lemma_toggle_all_append(acc.1, before + own, mt);
            assert(before + own + mt =~= before + (own + mt));
        } else {
            assert(route_toggles(r, ctls, mirroring) == own);
        }
    }
}

/// Pressing the same key twice gives back the talking set: for a key other
/// than the mirroring toggle, the second press (with everything else as
/// the first press left it) toggles the talking state of the very same
/// controllers again.
pub proof fn law_second_press_restores_talking(s: State, s2: State, key: Key)
    requires
        key != s.main_bindings.toggle_mirroring,
        s2.main_bindings == s.main_bindings,
        s2.controllers == s.controllers,
        s2.routes == s.routes,
        s2.mirroring == press_result(s, key).2,
        s2.talking@ == press_result(s, key).1,
    ensures
        press_result(s2, key).1 == s.talking@,
        press_result(s2, key).2 == s.mirroring,
{
    let rs = routes_of(s.table(), key);
    let t0 = s.talking@ != Set::<usize>::empty();
    let held = if t0 {
        crate::events::sends_to(s.talking.members(), SendKind::Down, key)
    } else {
        Seq::empty()
    };
    lemma_routes_talk((held, s.talking@), rs, s.controllers@, s.mirroring, t0);
    let t1 = s2.talking@ != Set::<usize>::empty();
    let held2 = if t1 {
        crate::events::sends_to(s2.talking.members(), SendKind::Down, key)
    } else {
        Seq::empty()
    };
    lemma_routes_talk((held2, s2.talking@), rs, s.controllers@, s.mirroring, t1);
    lemma_toggle_all_twice(s.talking@, routes_toggles(rs, s.controllers@, s.mirroring));
}

proof fn lemma_first_set_from(bits: usize, o: nat)
    ensures
        match first_set_from(bits, o) {
            Some(j) => j < usize::BITS && set_bits_from(bits, o) == seq![j] + set_bits_from(
                bits,
                j as nat + 1,
            ),
            None => set_bits_from(bits, o) == Seq::<usize>::empty(),
        },
    decreases usize::BITS - o,
{
    if o < usize::BITS && !bit_set(bits, o as usize) {
        lemma_first_set_from(bits, o + 1);
    }
}

proof fn lemma_below_then_from(bits: usize, o: nat)
    requires
        o <= usize::BITS,
    ensures
        set_bits_below(bits, o) + set_bits_from(bits, o) == set_bits_below(bits, usize::BITS as nat),
    decreases usize::BITS - o,
{
    if o < usize::BITS {
        lemma_below_then_from(bits, o + 1);
        let x: Seq<usize> = if bit_set(bits, o as usize) {
            seq![o as usize]
        } else {
            Seq::empty()
        };
        assert(set_bits_below(bits, o + 1) =~= set_bits_below(bits, o) + x);
        assert(set_bits_from(bits, o) =~= x + set_bits_from(bits, o + 1));
        assert(set_bits_below(bits, o) + (x + set_bits_from(bits, o + 1)) =~= (set_bits_below(bits, o)
            + x) + set_bits_from(bits, o + 1));
    } else {
        assert(set_bits_below(bits, o) + set_bits_from(bits, o) =~= set_bits_below(bits, o));
    }
}

proof fn lemma_outputs_from(it: BitSetIter, n: nat)
    ensures
        iter_outputs(it, n) == Seq::new(
            n,
            |i: int|
                if i < set_bits_from(it.bits, it.offset as nat).len() {
                    Some(set_bits_from(it.bits, it.offset as nat)[i])
                } else {
                    None
                },
        ),
    decreases n,
{
    if n > 0 {
        let (next_it, r) = next_step(it);
        lemma_outputs_from(next_it, (n - 1) as nat);
        lemma_first_set_from(it.bits, it.offset as nat);
        let rest = set_bits_from(it.bits, it.offset as nat);
        match first_set_from(it.bits, it.offset as nat) {
            Some(j) => {
                assert(set_bits_from(next_it.bits, next_it.offset as nat) == set_bits_from(it.bits, j as nat + 1));
            },
            None => {
                if it.offset < usize::BITS {
                    assert(set_bits_from(next_it.bits, next_it.offset as nat) =~= Seq::<usize>::empty());
                }
            },
        }
        assert(iter_outputs(it, n) =~= Seq::new(
            n,
            |i: int|
                if i < rest.len() {
                    Some(rest[i])
                } else {
                    None
                },
        ));
    } else {
        assert(iter_outputs(it, n) =~= Seq::<Option<usize>>::empty());
    }
}

/// A run of the iterator that `iter` returns yields each member of the set
/// once, in increasing order, and then `None` for ever. The iterator keeps
/// its own copy of the word, so later changes to the set do not affect it.
pub proof fn law_iterator_yields_members(s: AtomicBitSet, n: nat)
    ensures
        iter_outputs(iter_start(s.bits), n) == Seq::new(
            n,
            |i: int|
                if i < s.members().len() {
                    Some(s.members()[i])
                } else {
                    None
                },
        ),
{
    let it = iter_start(s.bits);
    lemma_outputs_from(it, n);
    if s.bits == 0 {
        assert(set_bits_from(0usize, usize::MAX as nat) =~= Seq::<usize>::empty());
        crate::bitset::lemma_members_of_zero(usize::BITS as nat);
    } else {
        lemma_below_then_from(s.bits, 0);
        assert(set_bits_below(s.bits, 0) + set_bits_from(s.bits, 0) =~= set_bits_from(s.bits, 0));
    }
    assert(iter_outputs(it, n) =~= Seq::new(
        n,
        |i: int|
            if i < s.members().len() {
                Some(s.members()[i])
            } else {
                None
            },
    ));
}

/// Moving a controller's route to another key and straight back gives
/// every list of the table back up to order; the only change left is that
/// the other key, if it had no entry, now has an empty one. This holds when
/// the route `(ix, a)` (with `a` sending `m`) is under `k1`, every route of
/// `ix` under `k1` that sends `m` is that route, and no route of `ix` under
/// `k2` sends `m`.
pub proof fn law_reroute_round_trip(
    t: Map<Key, Seq<Route>>,
    ix: usize,
    k1: Key,
    k2: Key,
    m: Key,
    a: Action,
)
    requires
        k1 != 0,
        k2 != 0,
        k1 != k2,
        a.key_of() == m,
        t.contains_key(k1),
        t[k1].contains((ix, a)),
        forall|i: int|
            0 <= i < t[k1].len() && (#[trigger] t[k1][i]).0 == ix && t[k1][i].1.key_of() == m ==> t[k1][i]
                == (ix, a),
        forall|i: int|
            0 <= i < routes_of(t, k2).len() ==> !((#[trigger] routes_of(t, k2)[i]).0 == ix && routes_of(
                t,
                k2,
            )[i].1.key_of() == m),
    ensures
        ({
            let back = reroute_table(reroute_table(t, ix, k1, k2, m, Some(a)), ix, k2, k1, m, Some(a));
            &&& back.dom() == t.dom().insert(k2)
            &&& forall|k: Key| #[trigger] t.contains_key(k) ==> back[k].to_multiset() == t[k].to_multiset()
            &&& !t.contains_key(k2) ==> back[k2] == Seq::<Route>::empty()
        }),
{
    broadcast use vstd::multiset::group_multiset_axioms;
    let v1 = t[k1];
    lemma_first_route_found(v1, 0, ix, m);
    let j = match first_route_from(v1, 0, ix, m) {
        Some(j) => j,
        None => {
            let i = choose|i: int| 0 <= i < v1.len() && v1[i] == (ix, a);
            assert(v1[i].0 == ix && v1[i].1.key_of() == m);
            0
        },
    };
    assert(first_route_from(v1, 0, ix, m) == Some(j));
    assert(v1[j] == (ix, a));
    let t1 = reroute_table(t, ix, k1, k2, m, Some(a));
    assert(unroute_one(t, k1, ix, m) == t.insert(k1, swap_removed(v1, j)));
    let v2 = routes_of(t, k2);
    assert(t1[k2] == v2.push((ix, a)));
    assert(t1.contains_key(k2));
    let w = t1[k2];
    lemma_first_route_found(w, 0, ix, m);
    let j2 = match first_route_from(w, 0, ix, m) {
        Some(j2) => j2,
        None => {
            assert(w[w.len() - 1] == (ix, a));
            0
        },
    };
    if j2 < v2.len() {
        assert(w[j2] == v2[j2]);
    }
    assert(j2 == v2.len());
    assert(swap_removed(w, j2) =~= v2);
    let back = reroute_table(t1, ix, k2, k1, m, Some(a));
    assert(unroute_one(t1, k2, ix, m) == t1.insert(k2, v2));
    assert(back[k1] == swap_removed(v1, j).push((ix, a)));
    assert forall|x: Route| back[k1].to_multiset().count(x) == v1.to_multiset().count(x) by {
        lemma_swap_removed_count(v1, j, x);
        vstd::seq_lib::to_multiset_build(swap_removed(v1, j), (ix, a));
    }
    assert(back[k1].to_multiset() =~= v1.to_multiset());
    assert(back.dom() =~= t.dom().insert(k2));
    assert forall|k: Key| #[trigger] t.contains_key(k) implies back[k].to_multiset() == t[k].to_multiset() by {
        if k != k1 && k != k2 {
            assert(back[k] == t[k]);
        } else if k == k2 {
            assert(back[k] == t[k]);
        }
    }
}

/// The number of slots among the first `n` (in loading order) of bindings
/// `b` that are bound to `k` and routed to `a`.
pub open spec fn slot_count(main: MainBindings, b: Bindings, k: Key, a: Action, n: nat) -> nat
    decreases n,
{
    if n == 0 {
        0
    } else {
        slot_count(main, b, k, a, (n - 1) as nat) + (if b.slot_key(route_slot(n - 1)) == k
            && main.action_for(route_slot(n - 1)) == a {
            1nat
        } else {
            0nat
        })
    }
}

/// The routing table agrees with the bindings: under every key other than
/// 0 lie, as a multiset, one route `(c, a)` for each slot of controller `c`
/// bound to that key, with `a` the slot's action.
pub open spec fn routes_agree(t: Map<Key, Seq<Route>>, main: MainBindings, ctls: Seq<Controller>) -> bool {
    forall|k: Key, r: Route|
        k != 0 ==> #[trigger] routes_of(t, k).to_multiset().count(r) == (if r.0 < ctls.len() {
            slot_count(main, ctls[r.0 as int].bindings, k, r.1, SLOT_COUNT as nat)
        } else {
            0
        })
}

/// Every other slot of `b` that is bound to the same key as `slot` and
/// whose action sends the same main key has the same action as `slot`, so
/// that the route a rebind removes (the controller's first route under that
/// key sending that main key) is equal to the slot's own.
pub open spec fn slot_route_unambiguous(main: MainBindings, b: Bindings, slot: Slot) -> bool {
    b.slot_key(slot) != 0 ==> forall|g: Slot|
        #[trigger] b.slot_key(g) == b.slot_key(slot) && main.target_key(g) == main.target_key(slot)
            ==> main.action_for(g) == main.action_for(slot)
}

/// The position of a slot in loading order.
pub open spec fn slot_index(slot: Slot) -> int {
    match slot {
        Slot::Forward => 0,
        Slot::Back => 1,
        Slot::Left => 2,
        Slot::Right => 3,
        Slot::Jump => 4,
        Slot::Dismount => 5,
        Slot::Throw => 6,
        Slot::LowThrow => 7,
        Slot::Talk => 8,
        Slot::Keepalive => 9,
        Slot::CameraToggle => 10,
        Slot::Tasks => 11,
        Slot::Debug => 12,
    }
}

proof fn lemma_slot_index(slot: Slot, i: int)
    requires
        0 <= i < SLOT_COUNT,
    ensures
        0 <= slot_index(slot) < SLOT_COUNT,
        route_slot(slot_index(slot)) == slot,
        route_slot(i) == slot <==> i == slot_index(slot),
{
}

proof fn lemma_with_slot_key(b: Bindings, slot: Slot, nk: Key, g: Slot)
    ensures
        b.with_slot_key(slot, nk).slot_key(g) == (if g == slot {
            nk
        } else {
            b.slot_key(g)
        }),
{
}

proof fn lemma_action_key(main: MainBindings, slot: Slot)
    ensures
        main.action_for(slot).key_of() == main.target_key(slot),
{
}

proof fn lemma_slot_count_update(main: MainBindings, b: Bindings, slot: Slot, nk: Key, k: Key, a: Action, n: nat)
    requires
        n <= SLOT_COUNT,
    ensures
        slot_count(main, b.with_slot_key(slot, nk), k, a, n) as int == slot_count(main, b, k, a, n) as int
            - (if slot_index(slot) < n && b.slot_key(slot) == k && main.action_for(slot) == a {
            1int
        } else {
            0int
        }) + (if slot_index(slot) < n && nk == k && main.action_for(slot) == a {
            1int
        } else {
            0int
        }),
    decreases n,
{
    if n > 0 {
        lemma_slot_count_update(main, b, slot, nk, k, a, (n - 1) as nat);
        lemma_slot_index(slot, n - 1);
        lemma_with_slot_key(b, slot, nk, route_slot(n - 1));
    }
}

proof fn lemma_slot_count_positive(main: MainBindings, b: Bindings, k: Key, a: Action, n: nat)
    requires
        slot_count(main, b, k, a, n) > 0,
    ensures
        exists|i: int|
            0 <= i < n && b.slot_key(#[trigger] route_slot(i)) == k && main.action_for(route_slot(i)) == a,
    decreases n,
{
    if n > 0 {
        if !(b.slot_key(route_slot(n - 1)) == k && main.action_for(route_slot(n - 1)) == a) {
            lemma_slot_count_positive(main, b, k, a, (n - 1) as nat);
            let i = choose|i: int|
                0 <= i < n - 1 && b.slot_key(#[trigger] route_slot(i)) == k && main.action_for(route_slot(i))
                    == a;
            assert(b.slot_key(route_slot(i)) == k);
        } else {
            assert(b.slot_key(route_slot(n - 1)) == k);
        }
    }
}

/// Under agreement, the first route of `ix` under the slot's key that sends
/// the slot's main key is the slot's own route.
proof fn lemma_unroute_slot(
    t: Map<Key, Seq<Route>>,
    main: MainBindings,
    ctls: Seq<Controller>,
    ix: usize,
    slot: Slot,
) -> (j: int)
    requires
        routes_agree(t, main, ctls),
        ix < ctls.len(),
        slot_route_unambiguous(main, ctls[ix as int].bindings, slot),
        ctls[ix as int].bindings.slot_key(slot) != 0,
    ensures
        ({
            let k = ctls[ix as int].bindings.slot_key(slot);
            &&& t.contains_key(k)
            &&& 0 <= j < t[k].len()
            &&& t[k][j] == (ix, main.action_for(slot))
            &&& unroute_one(t, k, ix, main.target_key(slot)) == t.insert(k, swap_removed(t[k], j))
        }),
{
    broadcast use vstd::multiset::group_multiset_axioms;
    let b = ctls[ix as int].bindings;
    let k = b.slot_key(slot);
    let act = main.action_for(slot);
    let target = main.target_key(slot);
    lemma_slot_count_update(main, b, slot, k, k, act, SLOT_COUNT as nat);
    lemma_slot_index(slot, 0);
    assert(routes_of(t, k).to_multiset().count((ix, act)) == slot_count(main, b, k, act, SLOT_COUNT as nat));
    assert(slot_count(main, b, k, act, SLOT_COUNT as nat) > 0) by {
        lemma_slot_count_at_least(main, b, slot, SLOT_COUNT as nat);
    }
    vstd::seq_lib::to_multiset_contains(routes_of(t, k), (ix, act));
    assert(t.contains_key(k));
    let v = t[k];
    lemma_first_route_found(v, 0, ix, target);
    lemma_action_key(main, slot);
    let j = match first_route_from(v, 0, ix, target) {
        Some(j) => j,
        None => {
            let i = choose|i: int| 0 <= i < v.len() && v[i] == (ix, act);
            assert(v[i].0 == ix && v[i].1.key_of() == target);
            0
        },
    };
    let r = v[j];
    vstd::seq_lib::to_multiset_contains(v, r);
    assert(v.contains(r));
    assert(slot_count(main, b, k, r.1, SLOT_COUNT as nat) > 0);
    lemma_slot_count_positive(main, b, k, r.1, SLOT_COUNT as nat);
    let i = choose|i: int|
        0 <= i < SLOT_COUNT && b.slot_key(#[trigger] route_slot(i)) == k && main.action_for(route_slot(i))
            == r.1;
    lemma_action_key(main, route_slot(i));
    assert(r.1 == act);
    j
}

proof fn lemma_slot_count_at_least(main: MainBindings, b: Bindings, slot: Slot, n: nat)
    requires
        slot_index(slot) < n <= SLOT_COUNT,
    ensures
        slot_count(main, b, b.slot_key(slot), main.action_for(slot), n) >= 1,
    decreases n,
{
    lemma_slot_index(slot, 0);
    if slot_index(slot) < n - 1 {
        lemma_slot_count_at_least(main, b, slot, (n - 1) as nat);
    }
}

proof fn lemma_extend_counts(pairs: Seq<(Key, Route)>)
    ensures
        forall|k: Key, r: Route|
            #[trigger] routes_of(table_extend(empty_table(), pairs), k).to_multiset().count(r)
                == pairs.to_multiset().count((k, r)),
    decreases pairs.len(),
{
    broadcast use vstd::multiset::group_multiset_axioms, vstd::seq_lib::group_to_multiset_ensures;

    if pairs.len() == 0 {
        assert forall|k: Key, r: Route|
            #[trigger] routes_of(table_extend(empty_table(), pairs), k).to_multiset().count(r)
                == pairs.to_multiset().count((k, r)) by {
            assert(!routes_of(table_extend(empty_table(), pairs), k).contains(r));
            assert(!pairs.contains((k, r)));
        }
    } else {
        let pre = pairs.drop_last();
        let last = pairs.last();
        lemma_extend_counts(pre);
        assert(pairs == pre.push(last));
        let t0 = table_extend(empty_table(), pre);
        assert forall|k: Key, r: Route|
            #[trigger] routes_of(table_extend(empty_table(), pairs), k).to_multiset().count(r)
                == pairs.to_multiset().count((k, r)) by {
            assert(table_extend(empty_table(), pairs) == table_push(t0, last.0, last.1));
            if k == last.0 {
                assert(routes_of(table_push(t0, last.0, last.1), k) == routes_of(t0, k).push(last.1));
            } else {
                assert(routes_of(table_push(t0, last.0, last.1), k) == routes_of(t0, k));
            }
        }
    }
}

proof fn lemma_slot_pairs_counts(main: MainBindings, c: usize, b: Bindings, m: nat)
    requires
        m <= SLOT_COUNT,
    ensures
        forall|k: Key, r: Route|
            #[trigger] slot_pairs(main, c, b, m).to_multiset().count((k, r)) == (if k != 0 && r.0 == c {
                slot_count(main, b, k, r.1, m)
            } else {
                0
            }),
    decreases m,
{
    broadcast use vstd::multiset::group_multiset_axioms, vstd::seq_lib::group_to_multiset_ensures;

    if m == 0 {
        assert forall|k: Key, r: Route|
            #[trigger] slot_pairs(main, c, b, m).to_multiset().count((k, r)) == (if k != 0 && r.0 == c {
                slot_count(main, b, k, r.1, m)
            } else {
                0
            }) by {
            assert(!slot_pairs(main, c, b, m).contains((k, r)));
        }
    } else {
        lemma_slot_pairs_counts(main, c, b, (m - 1) as nat);
        let prev = slot_pairs(main, c, b, (m - 1) as nat);
        let slot = route_slot(m - 1);
        let kk = b.slot_key(slot);
        let p = (kk, (c, main.action_for(slot)));
        assert forall|k: Key, r: Route|
            #[trigger] slot_pairs(main, c, b, m).to_multiset().count((k, r)) == (if k != 0 && r.0 == c {
                slot_count(main, b, k, r.1, m)
            } else {
                0
            }) by {
            if kk != 0 {
                assert(slot_pairs(main, c, b, m) == prev.push(p));
            } else {
                assert(slot_pairs(main, c, b, m) == prev);
            }
        }
    }
}

proof fn lemma_config_pairs_counts(main: MainBindings, ctls: Seq<Controller>, n: nat)
    requires
        n <= ctls.len(),
        ctls.len() <= usize::MAX,
    ensures
        forall|k: Key, r: Route|
            #[trigger] config_pairs(main, ctls, n).to_multiset().count((k, r)) == (if k != 0 && r.0 < n {
                slot_count(main, ctls[r.0 as int].bindings, k, r.1, SLOT_COUNT as nat)
            } else {
                0
            }),
    decreases n,
{
    broadcast use vstd::multiset::group_multiset_axioms, vstd::seq_lib::group_to_multiset_ensures;

    if n == 0 {
        assert forall|k: Key, r: Route|
            #[trigger] config_pairs(main, ctls, n).to_multiset().count((k, r)) == (if k != 0 && r.0 < n {
                slot_count(main, ctls[r.0 as int].bindings, k, r.1, SLOT_COUNT as nat)
            } else {
                0
            }) by {
            assert(!config_pairs(main, ctls, n).contains((k, r)));
        }
    } else {
        let last = (n - 1) as usize;
        lemma_config_pairs_counts(main, ctls, (n - 1) as nat);
        lemma_slot_pairs_counts(main, last, ctls[n - 1].bindings, SLOT_COUNT as nat);
        let a1 = config_pairs(main, ctls, (n - 1) as nat);
        let a2 = slot_pairs(main, last, ctls[n - 1].bindings, SLOT_COUNT as nat);
        vstd::seq_lib::lemma_multiset_commutative(a1, a2);
        assert(config_pairs(main, ctls, n) == a1 + a2);
    }
}

/// The table that loading a configuration builds agrees with its bindings:
/// under every key other than 0 lies one route for each slot bound to it.
pub proof fn law_loaded_routes_agree(main: MainBindings, ctls: Seq<Controller>)
    requires
        ctls.len() <= usize::MAX,
    ensures
        routes_agree(initial_table(main, ctls), main, ctls),
{
    let pairs = config_pairs(main, ctls, ctls.len() as nat);
    lemma_extend_counts(pairs);
    lemma_config_pairs_counts(main, ctls, ctls.len() as nat);
    assert forall|k: Key, r: Route| k != 0 implies #[trigger] routes_of(initial_table(main, ctls), k).to_multiset().count(
        r,
    ) == (if r.0 < ctls.len() {
        slot_count(main, ctls[r.0 as int].bindings, k, r.1, SLOT_COUNT as nat)
    } else {
        0
    }) by {
        assert(initial_table(main, ctls) == table_extend(empty_table(), pairs));
        assert(pairs.to_multiset().count((k, r)) == (if k != 0 && r.0 < ctls.len() {
            slot_count(main, ctls[r.0 as int].bindings, k, r.1, SLOT_COUNT as nat)
        } else {
            0
        }));
    }
}

/// `t` holds, under every key other than 0, the routes that loading the
/// configuration `(main, ctls)` afresh would put there, in some order.
pub open spec fn agrees_with_loading(t: Map<Key, Seq<Route>>, main: MainBindings, ctls: Seq<Controller>) -> bool {
    forall|k: Key|
        k != 0 ==> #[trigger] routes_of(t, k).to_multiset() == routes_of(initial_table(main, ctls), k).to_multiset()
}

proof fn lemma_agreement_forms(t: Map<Key, Seq<Route>>, main: MainBindings, ctls: Seq<Controller>)
    requires
        ctls.len() <= usize::MAX,
    ensures
        agrees_with_loading(t, main, ctls) <==> routes_agree(t, main, ctls),
{
    law_loaded_routes_agree(main, ctls);
    let init = initial_table(main, ctls);
    if agrees_with_loading(t, main, ctls) {
        assert forall|k: Key, r: Route| k != 0 implies #[trigger] routes_of(t, k).to_multiset().count(r) == (
        if r.0 < ctls.len() {
            slot_count(main, ctls[r.0 as int].bindings, k, r.1, SLOT_COUNT as nat)
        } else {
            0
        }) by {
            assert(routes_of(t, k).to_multiset() == routes_of(init, k).to_multiset());
            assert(routes_of(init, k).to_multiset().count(r) == (if r.0 < ctls.len() {
                slot_count(main, ctls[r.0 as int].bindings, k, r.1, SLOT_COUNT as nat)
            } else {
                0
            }));
        }
    }
    if routes_agree(t, main, ctls) {
        assert forall|k: Key| k != 0 implies #[trigger] routes_of(t, k).to_multiset() == routes_of(
            init,
            k,
        ).to_multiset() by {
            assert forall|r: Route| routes_of(t, k).to_multiset().count(r) == routes_of(init, k).to_multiset().count(
                r,
            ) by {
                assert(routes_of(t, k).to_multiset().count(r) == (if r.0 < ctls.len() {
                    slot_count(main, ctls[r.0 as int].bindings, k, r.1, SLOT_COUNT as nat)
                } else {
                    0
                }));
                assert(routes_of(init, k).to_multiset().count(r) == (if r.0 < ctls.len() {
                    slot_count(main, ctls[r.0 as int].bindings, k, r.1, SLOT_COUNT as nat)
                } else {
                    0
                }));
            }
            assert(routes_of(t, k).to_multiset() =~= routes_of(init, k).to_multiset());
        }
    }
}

/// Rebinding a slot keeps the routing table in agreement with the
/// bindings: if the table held, under every key other than 0, the routes
/// that loading the configuration would give it, then after
/// `bind_controller_key` (whose table and controllers are the ones below)
/// it holds those of the new configuration. It needs that the slot's route
/// is the one the rebind removes: no other slot of the controller on the
/// same key, sending the same main key, has another action.
pub proof fn law_rebind_keeps_routes_in_agreement(
    t: Map<Key, Seq<Route>>,
    main: MainBindings,
    ctls: Seq<Controller>,
    ix: usize,
    slot: Slot,
    new_key: Key,
)
    requires
        agrees_with_loading(t, main, ctls),
        ctls.len() <= usize::MAX,
        ix < ctls.len(),
        slot_route_unambiguous(main, ctls[ix as int].bindings, slot),
    ensures
        ({
            let before = ctls[ix as int];
            let old_key = before.bindings.slot_key(slot);
            let after = ctls.update(
                ix as int,
                Controller { bindings: before.bindings.with_slot_key(slot, new_key), ..before },
            );
            let t2 = if old_key != new_key {
                reroute_table(t, ix, old_key, new_key, main.target_key(slot), Some(main.action_for(slot)))
            } else {
                t
            };
            agrees_with_loading(t2, main, after)
        }),
{
    let before = ctls[ix as int];
    let old_key = before.bindings.slot_key(slot);
    let after = ctls.update(
        ix as int,
        Controller { bindings: before.bindings.with_slot_key(slot, new_key), ..before },
    );
    let t2 = if old_key != new_key {
        reroute_table(t, ix, old_key, new_key, main.target_key(slot), Some(main.action_for(slot)))
    } else {
        t
    };
    lemma_agreement_forms(t, main, ctls);
    lemma_rekey_agreement(t, main, ctls, ix, slot, new_key, true);
    lemma_agreement_forms(t2, main, after);
}

/// Clearing a slot keeps the routing table in agreement with the bindings:
/// if the table held the routes that loading the configuration would give
/// it, then after `clear_controller_key` it holds those of the new
/// configuration (with the same condition as for a rebind).
pub proof fn law_clear_keeps_routes_in_agreement(
    t: Map<Key, Seq<Route>>,
    main: MainBindings,
    ctls: Seq<Controller>,
    ix: usize,
    slot: Slot,
)
    requires
        agrees_with_loading(t, main, ctls),
        ctls.len() <= usize::MAX,
        ix < ctls.len(),
        slot_route_unambiguous(main, ctls[ix as int].bindings, slot),
    ensures
        ({
            let before = ctls[ix as int];
            let after = ctls.update(
                ix as int,
                Controller { bindings: before.bindings.with_slot_key(slot, 0), ..before },
            );
            agrees_with_loading(
                reroute_table(t, ix, before.bindings.slot_key(slot), 0, main.target_key(slot), None),
                main,
                after,
            )
        }),
{
    let before = ctls[ix as int];
    let after = ctls.update(ix as int, Controller { bindings: before.bindings.with_slot_key(slot, 0), ..before });
    lemma_agreement_forms(t, main, ctls);
    lemma_rekey_agreement(t, main, ctls, ix, slot, 0, false);
    lemma_agreement_forms(
        reroute_table(t, ix, before.bindings.slot_key(slot), 0, main.target_key(slot), None),
        main,
        after,
    );
}

proof fn lemma_rekey_agreement(
    t: Map<Key, Seq<Route>>,
    main: MainBindings,
    ctls: Seq<Controller>,
    ix: usize,
    slot: Slot,
    new_key: Key,
    bind: bool,
)
    requires
        routes_agree(t, main, ctls),
        ix < ctls.len(),
        slot_route_unambiguous(main, ctls[ix as int].bindings, slot),
        !bind ==> new_key == 0,
    ensures
        ({
            let before = ctls[ix as int];
            let old_key = before.bindings.slot_key(slot);
            let after = ctls.update(
                ix as int,
                Controller { bindings: before.bindings.with_slot_key(slot, new_key), ..before },
            );
            let t2 = if bind {
                if old_key != new_key {
                    reroute_table(t, ix, old_key, new_key, main.target_key(slot), Some(main.action_for(slot)))
                } else {
                    t
                }
            } else {
                reroute_table(t, ix, old_key, 0, main.target_key(slot), None)
            };
            routes_agree(t2, main, after)
        }),
{
    broadcast use vstd::multiset::group_multiset_axioms;
    let before = ctls[ix as int];
    let b = before.bindings;
    let old_key = b.slot_key(slot);
    let act = main.action_for(slot);
    let target = main.target_key(slot);
    let me = (ix, act);
    let after = ctls.update(ix as int, Controller { bindings: b.with_slot_key(slot, new_key), ..before });
    let changes = !bind || old_key != new_key;
    let t1 = if changes && old_key != 0 {
        unroute_one(t, old_key, ix, target)
    } else {
        t
    };
    let pushes = bind && old_key != new_key;
    let t2 = if pushes {
        crate::routes::table_push(t1, new_key, me)
    } else {
        t1
    };
    let jj = if changes && old_key != 0 {
        lemma_unroute_slot(t, main, ctls, ix, slot)
    } else {
        0
    };
    lemma_slot_index(slot, 0);
    assert forall|k: Key, r: Route| k != 0 implies #[trigger] routes_of(t2, k).to_multiset().count(r) == (
    if r.0 < after.len() {
        slot_count(main, after[r.0 as int].bindings, k, r.1, SLOT_COUNT as nat)
    } else {
        0
    }) by {
        let c0 = routes_of(t, k).to_multiset().count(r);
        assert(c0 == (if r.0 < ctls.len() {
            slot_count(main, ctls[r.0 as int].bindings, k, r.1, SLOT_COUNT as nat)
        } else {
            0
        }));
        // after removing the old route
        let c1 = routes_of(t1, k).to_multiset().count(r);
        if changes && old_key != 0 && k == old_key {
            lemma_swap_removed_count(t[k], jj, r);
            assert(routes_of(t1, k) == swap_removed(t[k], jj));
            assert(c1 as int == c0 as int - (if r == me { 1int } else { 0int }));
        } else {
            assert(routes_of(t1, k) == routes_of(t, k));
        }
        // after adding the new route
        let c2 = routes_of(t2, k).to_multiset().count(r);
        if pushes && k == new_key {
            vstd::seq_lib::to_multiset_build(routes_of(t1, k), me);
            assert(routes_of(t2, k) == routes_of(t1, k).push(me));
            assert(c2 as int == c1 as int + (if r == me { 1int } else { 0int }));
        } else {
            assert(routes_of(t2, k) == routes_of(t1, k));
        }
        // the expected counts
        if r.0 == ix {
            lemma_slot_count_update(main, b, slot, new_key, k, r.1, SLOT_COUNT as nat);
            assert(after[r.0 as int].bindings == b.with_slot_key(slot, new_key));
        } else if r.0 < ctls.len() {
            assert(after[r.0 as int] == ctls[r.0 as int]);
        }
    }
}


/// A delivery that a talk route of `rs` makes: the tap or release of the
/// talk key of one of those routes.
pub open spec fn talk_delivery(x: KeySend, rs: Seq<Route>) -> bool {
    &&& (x.kind == SendKind::Up || x.kind == SendKind::Tap)
    &&& exists|j: int| 0 <= j < rs.len() && (#[trigger] rs[j]).1 == Action::Talk(x.key)
}

proof fn lemma_talking_action_talks(
    acc: (Seq<KeySend>, Set<usize>),
    target: usize,
    primary: usize,
    a: Action,
    m: bool,
    rs: Seq<Route>,
    jw: int,
)
    requires
        0 <= jw < rs.len(),
        rs[jw].1 == a,
    ensures
        forall|i: int|
            acc.0.len() <= i < press_action(acc, target, primary, a, m, true).0.len() ==> talk_delivery(
                #[trigger] press_action(acc, target, primary, a, m, true).0[i],
                rs,
            ),
{
    let r = press_action(acc, target, primary, a, m, true);
    assert forall|i: int| acc.0.len() <= i < r.0.len() implies talk_delivery(#[trigger] r.0[i], rs) by {
        assert(rs[jw].1 == Action::Talk(r.0[i].key));
    }
}

proof fn lemma_talking_mirrors_talk(
    acc: (Seq<KeySend>, Set<usize>),
    ms: Seq<usize>,
    primary: usize,
    a: Action,
    ctls: Seq<Controller>,
    rs: Seq<Route>,
    jw: int,
)
    requires
        0 <= jw < rs.len(),
        rs[jw].1 == a,
    ensures
        forall|i: int|
            acc.0.len() <= i < press_mirrors(acc, ms, primary, a, ctls, true).0.len() ==> talk_delivery(
                #[trigger] press_mirrors(acc, ms, primary, a, ctls, true).0[i],
                rs,
            ),
    decreases ms.len(),
{
    if ms.len() > 0 {
        lemma_talking_mirrors_talk(acc, ms.drop_last(), primary, a, ctls, rs, jw);
        let inner = press_mirrors(acc, ms.drop_last(), primary, a, ctls, true);
        let i0 = ms.last();
        let m = ctls[i0 as int].mirror != crate::state::NO_MIRROR;
        lemma_press_mirrors_extends(acc, ms.drop_last(), primary, a, ctls, true);
        lemma_press_action_extends(inner, i0, primary, a, m, true);
        lemma_talking_action_talks(inner, i0, primary, a, m, rs, jw);
        let out = press_mirrors(acc, ms, primary, a, ctls, true);
        assert(out == press_action(inner, i0, primary, a, m, true));
        assert forall|i: int| acc.0.len() <= i < out.0.len() implies talk_delivery(#[trigger] out.0[i], rs) by {
            if i < inner.0.len() {
                assert(out.0[i] == inner.0[i]);
            }
        }
    }
}

proof fn lemma_talking_routes_talk(
    acc: (Seq<KeySend>, Set<usize>),
    sub: Seq<Route>,
    rs: Seq<Route>,
    ctls: Seq<Controller>,
    m: bool,
)
    requires
        sub.len() <= rs.len(),
        forall|j: int| 0 <= j < sub.len() ==> #[trigger] sub[j] == rs[j],
    ensures
        forall|i: int|
            acc.0.len() <= i < press_routes(acc, sub, ctls, m, true).0.len() ==> talk_delivery(
                #[trigger] press_routes(acc, sub, ctls, m, true).0[i],
                rs,
            ),
    decreases sub.len(),
{
    if sub.len() > 0 {
        let pre = sub.drop_last();
        lemma_talking_routes_talk(acc, pre, rs, ctls, m);
        let inner = press_routes(acc, pre, ctls, m, true);
        let r = sub.last();
        let c = r.0;
        let jw = sub.len() - 1;
        assert(sub[jw] == rs[jw]);
        let hm = ctls[c as int].mirror != crate::state::NO_MIRROR;
        lemma_press_routes_extends(acc, pre, ctls, m, true);
        lemma_press_action_extends(inner, c, c, r.1, hm, true);
        lemma_talking_action_talks(inner, c, c, r.1, hm, rs, jw);
        let first = press_action(inner, c, c, r.1, hm, true);
        lemma_press_mirrors_extends(first, ctls[c as int].mirrored.members(), c, r.1, ctls, true);
        lemma_talking_mirrors_talk(first, ctls[c as int].mirrored.members(), c, r.1, ctls, rs, jw);
        let out = press_routes(acc, sub, ctls, m, true);
        assert forall|i: int| acc.0.len() <= i < out.0.len() implies talk_delivery(#[trigger] out.0[i], rs) by {
            if i < inner.0.len() {
                assert(out.0[i] == first.0[i]);
                assert(first.0[i] == inner.0[i]);
            } else if i < first.0.len() {
                if m {
                    assert(out.0[i] == first.0[i]);
                }
            }
        }
    }
}

/// While some controller is talking, a key press holds the key down for
/// the talking controllers and otherwise sends only what talk routes send:
/// every further delivery taps or releases the talk key of a talk route of
/// the pressed key. Routes of every other kind (moves, throws, keepalive,
/// debug) send nothing, so typed text reaches the chat and nothing else.
pub proof fn law_talking_press_sends_only_talk(s: State, key: Key)
    requires
        s.talking@ != Set::<usize>::empty(),
    ensures
        ({
            let sends = press_result(s, key).0;
            let held = s.talking.members();
            let rs = routes_of(s.table(), key);
            &&& held.len() <= sends.len()
            &&& sends.take(held.len() as int) == crate::events::sends_to(held, SendKind::Down, key)
            &&& forall|i: int| held.len() <= i < sends.len() ==> talk_delivery(#[trigger] sends[i], rs)
        }),
{
    let held = crate::events::sends_to(s.talking.members(), SendKind::Down, key);
    let rs = routes_of(s.table(), key);
    let acc = (held, s.talking@);
    lemma_press_routes_extends(acc, rs, s.controllers@, s.mirroring, true);
    lemma_talking_routes_talk(acc, rs, rs, s.controllers@, s.mirroring);
    let sends = press_result(s, key).0;
    assert(sends.take(held.len() as int) =~= held);
}

/// A delivery that a held route of `rs` makes on release: the key up of
/// the key of a simple route, or of Home for a keepalive route.
pub open spec fn held_release(x: KeySend, rs: Seq<Route>) -> bool {
    &&& x.kind == SendKind::Up
    &&& exists|j: int|
        0 <= j < rs.len() && ((#[trigger] rs[j]).1 == Action::Simple(x.key) || (rs[j].1 is Keepalive
            && x.key == KEY_HOME))
}

proof fn lemma_release_action_held(sends: Seq<KeySend>, target: usize, a: Action, rs: Seq<Route>, jw: int)
    requires
        0 <= jw < rs.len(),
        rs[jw].1 == a,
        forall|i: int| 0 <= i < sends.len() ==> held_release(#[trigger] sends[i], rs),
    ensures
        forall|i: int|
            0 <= i < release_action(sends, target, a).len() ==> held_release(
                #[trigger] release_action(sends, target, a)[i],
                rs,
            ),
{
    let out = release_action(sends, target, a);
    assert forall|i: int| 0 <= i < out.len() implies held_release(#[trigger] out[i], rs) by {
        if i < sends.len() {
            assert(out[i] == sends[i]);
        } else {
            assert(rs[jw].1 == a);
        }
    }
}

proof fn lemma_release_mirrors_held(sends: Seq<KeySend>, ms: Seq<usize>, a: Action, rs: Seq<Route>, jw: int)
    requires
        0 <= jw < rs.len(),
        rs[jw].1 == a,
        forall|i: int| 0 <= i < sends.len() ==> held_release(#[trigger] sends[i], rs),
    ensures
        forall|i: int|
            0 <= i < release_mirrors(sends, ms, a).len() ==> held_release(
                #[trigger] release_mirrors(sends, ms, a)[i],
                rs,
            ),
    decreases ms.len(),
{
    if ms.len() > 0 {
        lemma_release_mirrors_held(sends, ms.drop_last(), a, rs, jw);
        lemma_release_action_held(release_mirrors(sends, ms.drop_last(), a), ms.last(), a, rs, jw);
    }
}

proof fn lemma_release_routes_held(sends: Seq<KeySend>, sub: Seq<Route>, rs: Seq<Route>, ctls: Seq<Controller>, m: bool)
    requires
        sub.len() <= rs.len(),
        forall|j: int| 0 <= j < sub.len() ==> #[trigger] sub[j] == rs[j],
        forall|i: int| 0 <= i < sends.len() ==> held_release(#[trigger] sends[i], rs),
    ensures
        forall|i: int|
            0 <= i < release_routes(sends, sub, ctls, m).len() ==> held_release(
                #[trigger] release_routes(sends, sub, ctls, m)[i],
                rs,
            ),
    decreases sub.len(),
{
    if sub.len() > 0 {
        let pre = sub.drop_last();
        lemma_release_routes_held(sends, pre, rs, ctls, m);
        let inner = release_routes(sends, pre, ctls, m);
        let r = sub.last();
        let jw = sub.len() - 1;
        assert(sub[jw] == rs[jw]);
        lemma_release_action_held(inner, r.0, r.1, rs, jw);
        let first = release_action(inner, r.0, r.1);
        lemma_release_mirrors_held(first, ctls[r.0 as int].mirrored.members(), r.1, rs, jw);
    }
}

/// Outside the talking state a key release only lets keys go: every
/// delivery is a key up, either of the key of a simple route of the
/// released key or of Home for a keepalive route. Talk, throw and debug
/// routes, which send nothing to hold, send nothing on release.
pub proof fn law_release_only_lets_go(s: State, key: Key)
    requires
        s.talking@ == Set::<usize>::empty(),
    ensures
        forall|i: int|
            0 <= i < release_result(s, key).len() ==> held_release(
                #[trigger] release_result(s, key)[i],
                routes_of(s.table(), key),
            ),
{
    let rs = routes_of(s.table(), key);
    lemma_release_routes_held(Seq::empty(), rs, rs, s.controllers@, s.mirroring);
}

/// Each controller slot is routed to the main key of the same name: the
/// moves, jump, dismount, throw, camera and tasks slots hold their main
/// key, the low throw taps the throw key, the talk slot toggles talking
/// with the talk key, the keepalive holds Home and the debug slot taps F1
/// with Shift.
pub proof fn law_slot_actions(main: MainBindings)
    ensures
        main.action_for(Slot::Forward) == Action::Simple(main.forward),
        main.action_for(Slot::Back) == Action::Simple(main.back),
        main.action_for(Slot::Left) == Action::Simple(main.left),
        main.action_for(Slot::Right) == Action::Simple(main.right),
        main.action_for(Slot::Jump) == Action::Simple(main.jump),
        main.action_for(Slot::Dismount) == Action::Simple(main.dismount),
        main.action_for(Slot::Throw) == Action::Simple(main.throw),
        main.action_for(Slot::LowThrow) == Action::LowThrow(main.throw),
        main.action_for(Slot::Talk) == Action::Talk(main.talk),
        main.action_for(Slot::Keepalive) == Action::Keepalive(KEY_HOME),
        main.action_for(Slot::CameraToggle) == Action::Simple(main.camera_toggle),
        main.action_for(Slot::Debug) == Action::Debug(KEY_F1),
        main.action_for(Slot::Tasks) == Action::Simple(main.tasks),
{
}

/// The letter keys of a US keyboard row, in order.
pub open spec fn keyboard_row(n: int) -> Seq<char> {
    if n == 0 {
        seq!['1', '2', '3', '4', '5', '6', '7', '8', '9', '0']
    } else if n == 1 {
        seq!['q', 'w', 'e', 'r', 't', 'y', 'u', 'i', 'o', 'p']
    } else if n == 2 {
        seq!['a', 's', 'd', 'f', 'g', 'h', 'j', 'k', 'l']
    } else {
        seq!['z', 'x', 'c', 'v', 'b', 'n', 'm']
    }
}

/// The Linux input code of the first key of each row (`KEY_1`, `KEY_Q`,
/// `KEY_A`, `KEY_Z`): the codes of a row are consecutive.
pub open spec fn row_start(n: int) -> int {
    if n == 0 {
        2
    } else if n == 1 {
        16
    } else if n == 2 {
        30
    } else {
        44
    }
}

/// Raw mode forwards each digit, letter and punctuation key as the keysym
/// of the character printed on it (for these keys, its ASCII code), the
/// function keys F1 to F12 as the keysyms F1 to F12, and the named keys
/// (Escape, Tab, Return, the Shift and Super keys, space, Home and the
/// arrows) as the keysyms of the same names.
pub proof fn law_raw_keys_follow_the_keyboard()
    ensures
        forall|n: int, i: int|
            0 <= n < 4 && 0 <= i < keyboard_row(n).len() ==> evdev_keysym((row_start(n) + i) as u16) == Some(
                #[trigger] keyboard_row(n)[i] as u32,
            ),
        forall|i: int| 0 <= i < 10 ==> #[trigger] evdev_keysym((59 + i) as u16) == Some((KEY_F1 + i) as u32),
        evdev_keysym(87) == Some((KEY_F1 + 10) as u32),
        evdev_keysym(88) == Some((KEY_F1 + 11) as u32),
        evdev_keysym(12) == Some('-' as u32),
        evdev_keysym(13) == Some('=' as u32),
        evdev_keysym(26) == Some('[' as u32),
        evdev_keysym(27) == Some(']' as u32),
        evdev_keysym(39) == Some(';' as u32),
        evdev_keysym(40) == Some('\'' as u32),
        evdev_keysym(41) == Some('`' as u32),
        evdev_keysym(43) == Some('\\' as u32),
        evdev_keysym(51) == Some(',' as u32),
        evdev_keysym(52) == Some('.' as u32),
        evdev_keysym(53) == Some('/' as u32),
        evdev_keysym(57) == Some(KEY_SPACE),
        evdev_keysym(1) == Some(KEY_ESCAPE),
        evdev_keysym(15) == Some(KEY_TAB),
        evdev_keysym(28) == Some(KEY_RETURN),
        evdev_keysym(42) == Some(KEY_SHIFT_L),
        evdev_keysym(54) == Some(KEY_SHIFT_L),
        evdev_keysym(125) == Some(KEY_SUPER_L),
        evdev_keysym(126) == Some(KEY_SUPER_L),
        evdev_keysym(102) == Some(KEY_HOME),
        evdev_keysym(103) == Some(KEY_UP),
        evdev_keysym(105) == Some(KEY_LEFT),
        evdev_keysym(106) == Some(KEY_RIGHT),
        evdev_keysym(108) == Some(KEY_DOWN),
{
    assert forall|n: int, i: int|
        0 <= n < 4 && 0 <= i < keyboard_row(n).len() implies evdev_keysym((row_start(n) + i) as u16) == Some(
            #[trigger] keyboard_row(n)[i] as u32,
        ) by {
        if n == 0 {
            assert(0 <= i < 10);
        } else if n == 1 {
            assert(0 <= i < 10);
        } else if n == 2 {
            assert(0 <= i < 9);
        } else {
            assert(0 <= i < 7);
        }
    }
}

} // verus!
