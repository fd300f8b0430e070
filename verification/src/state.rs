use vstd::prelude::*;
use crate::bindings::{
    default_bindings, default_main_bindings, route_slot, route_slot_at, Action, Bindings,
    MainBindings, MainSlot, Slot, SLOT_COUNT,
};
use crate::bitset::AtomicBitSet;
use crate::keys::{Key, KEY_DOWN, KEY_LEFT, KEY_RIGHT, KEY_UP};
use crate::routes::{
    empty_table, first_route_from, route_table, routes_get, routes_keys, routes_new, routes_push,
    routes_put, routes_take, sweep, sweep_controller, sweep_key, swap_removed, table_extend, table_push,
    relabel, relabel_routes, find_route, of_controller, sending, Route, RouteMap,
};

verus! {

/// The `mirror` value of a controller that mirrors no other controller.
pub const NO_MIRROR: usize = usize::MAX;

/// One controller: a game window (0 for none), the controller it mirrors
/// (`NO_MIRROR` for none), the controllers that mirror it, and its keys.
#[derive(Clone, Copy, Debug, PartialEq, Eq, Structural)]
pub struct Controller {
    pub window: u64,
    pub mirror: usize,
    pub mirrored: AtomicBitSet,
    pub bindings: Bindings,
}

/// A controller as it is read from a saved configuration.
#[derive(Clone, Copy, Debug, PartialEq, Eq, Structural)]
pub struct ControllerConfig {
    pub mirror: usize,
    pub bindings: Bindings,
}

/// The whole multiplexer state.
pub struct State {
    /// Whether the controller panel is collapsed.
    pub hidden: bool,
    /// Whether key presses are copied to mirroring controllers.
    pub mirroring: bool,
    pub main_bindings: MainBindings,
    pub controllers: Vec<Controller>,
    pub routes: RouteMap,
    /// The controllers that are in the talking state.
    pub talking: AtomicBitSet,
    /// The input device chosen for raw mode.
    pub raw_device: Option<String>,
}

/// A new controller with no window and no mirror, using `bindings`.
pub open spec fn fresh_controller(bindings: Bindings) -> Controller {
    Controller { window: 0, mirror: NO_MIRROR, mirrored: AtomicBitSet { bits: 0 }, bindings }
}

/// Every destination in `t` names a controller below `n`.
pub open spec fn routes_below(t: Map<Key, Seq<Route>>, n: nat) -> bool {
    forall|k: Key, j: int|
        t.contains_key(k) && 0 <= j < t[k].len() ==> (#[trigger] t[k][j]).0 < n
}

/// Every controller index in a `mirrored` set is below `ctls.len()`.
pub open spec fn mirrored_below(ctls: Seq<Controller>) -> bool {
    forall|c: int, i: usize|
        0 <= c < ctls.len() && #[trigger] ctls[c].mirrored.has(i) ==> i < ctls.len()
}

/// Each controller's `mirrored` set holds exactly the other controllers
/// whose mirror it is.
pub open spec fn mirrors_consistent(ctls: Seq<Controller>) -> bool {
    forall|c: int, i: usize|
        0 <= c < ctls.len() && i < ctls.len() && i != c ==> (#[trigger] ctls[c].mirrored.has(i)
            <==> ctls[i as int].mirror == c)
}

/// Every controller's mirror is an existing controller or `NO_MIRROR`.
pub open spec fn mirrors_in_range(ctls: Seq<Controller>) -> bool {
    forall|i: int| 0 <= i < ctls.len() ==> (#[trigger] ctls[i]).mirror == NO_MIRROR || ctls[i].mirror < ctls.len()
}

/// The `(key, destination)` pairs contributed by the first `n` slots (in
/// loading order) of controller `c` with bindings `b`: one pair per bound
/// slot.
pub open spec fn slot_pairs(main: MainBindings, c: usize, b: Bindings, n: nat) -> Seq<
    (Key, Route),
>
    decreases n,
{
    if n == 0 {
        Seq::empty()
    } else {
        let prev = slot_pairs(main, c, b, (n - 1) as nat);
        let slot = route_slot(n - 1);
        let k = b.slot_key(slot);
        if k != 0 {
            prev.push((k, (c, main.action_for(slot))))
        } else {
            prev
        }
    }
}

/// The `(key, destination)` pairs of the first `n` controllers of `ctls`,
/// controller by controller.
pub open spec fn config_pairs(main: MainBindings, ctls: Seq<Controller>, n: nat) -> Seq<
    (Key, Route),
>
    decreases n,
{
    if n == 0 {
        Seq::empty()
    } else {
        config_pairs(main, ctls, (n - 1) as nat) + slot_pairs(
            main,
            (n - 1) as usize,
            ctls[n - 1].bindings,
            SLOT_COUNT as nat,
        )
    }
}

/// The routing table that a set of controllers starts with.
pub open spec fn initial_table(main: MainBindings, ctls: Seq<Controller>) -> Map<Key, Seq<Route>> {
    table_extend(empty_table(), config_pairs(main, ctls, ctls.len()))
}

/// `t` with every action that sends `old_key` changed to send `new_key`.
pub open spec fn relabel_table(t: Map<Key, Seq<Route>>, old_key: Key, new_key: Key) -> Map<
    Key,
    Seq<Route>,
> {
    Map::new(
        |k: Key| t.contains_key(k),
        |k: Key| t[k].map_values(relabel(old_key, new_key)),
    )
}

/// `t` with every action that sends `old_key` swept out of each entry.
pub open spec fn unroute_key_table(t: Map<Key, Seq<Route>>, old_key: Key) -> Map<
    Key,
    Seq<Route>,
> {
    Map::new(
        |k: Key| t.contains_key(k),
        |k: Key| sweep(t[k], 0, sending(old_key)),
    )
}

/// `t` with every destination of controller `ctl` swept out of each entry.
pub open spec fn unroute_controller_table(t: Map<Key, Seq<Route>>, ctl: usize) -> Map<
    Key,
    Seq<Route>,
> {
    Map::new(|k: Key| t.contains_key(k), |k: Key| sweep(t[k], 0, of_controller(ctl)))
}

/// The table after a main key changes from `old_key` to `new_key`: actions
/// follow the new key, or are dropped when the key is cleared (0).
pub open spec fn reroute_main_table(t: Map<Key, Seq<Route>>, old_key: Key, new_key: Key) -> Map<
    Key,
    Seq<Route>,
> {
    if new_key != 0 {
        relabel_table(t, old_key, new_key)
    } else {
        unroute_key_table(t, old_key)
    }
}

/// `t` with the first destination under `old_key` that routes controller
/// `ctl` to an action sending `main_key` swap-removed, if there is one.
pub open spec fn unroute_one(t: Map<Key, Seq<Route>>, old_key: Key, ctl: usize, main_key: Key) -> Map<
    Key,
    Seq<Route>,
> {
    if t.contains_key(old_key) {
        match first_route_from(t[old_key], 0, ctl, main_key) {
            Some(j) => t.insert(old_key, swap_removed(t[old_key], j)),
            None => t,
        }
    } else {
        t
    }
}

/// The table after one controller binding changes from `old_key` to
/// `new_key` (0 meaning none): the old route goes (when there was an old
/// key), and `action` is routed from the new key when given.
pub open spec fn reroute_table(
    t: Map<Key, Seq<Route>>,
    ctl: usize,
    old_key: Key,
    new_key: Key,
    main_key: Key,
    action: Option<Action>,
) -> Map<Key, Seq<Route>> {
    let t1 = if old_key != 0 {
        unroute_one(t, old_key, ctl, main_key)
    } else {
        t
    };
    match action {
        Some(a) => table_push(t1, new_key, (ctl, a)),
        None => t1,
    }
}

proof fn lemma_extend_push(t: Map<Key, Seq<Route>>, pairs: Seq<(Key, Route)>, p: (Key, Route))
    ensures
        table_extend(t, pairs.push(p)) == table_push(table_extend(t, pairs), p.0, p.1),
{
    assert(pairs.push(p).drop_last() =~= pairs);
}

proof fn lemma_push_below(t: Map<Key, Seq<Route>>, k: Key, r: Route, n: nat)
    requires
        routes_below(t, n),
        r.0 < n,
    ensures
        routes_below(table_push(t, k, r), n),
{
    let t2 = table_push(t, k, r);
    assert forall|k2: Key, j: int| t2.contains_key(k2) && 0 <= j < t2[k2].len() implies (
    #[trigger] t2[k2][j]).0 < n by {
        if k2 == k {
            if j < t2[k2].len() - 1 {
                assert(t.contains_key(k));
                assert(t2[k2][j] == t[k][j]);
            }
        } else {
            assert(t2[k2] == t[k2]);
        }
    }
}

proof fn lemma_extend_below(t: Map<Key, Seq<Route>>, pairs: Seq<(Key, Route)>, n: nat)
    requires
        routes_below(t, n),
        forall|i: int| 0 <= i < pairs.len() ==> (#[trigger] pairs[i]).1.0 < n,
    ensures
        routes_below(table_extend(t, pairs), n),
    decreases pairs.len(),
{
    if pairs.len() > 0 {
        let pre = pairs.drop_last();
        assert forall|i: int| 0 <= i < pre.len() implies (#[trigger] pre[i]).1.0 < n by {
            assert(pre[i] == pairs[i]);
        }
        lemma_extend_below(t, pre, n);
        lemma_push_below(table_extend(t, pre), pairs.last().0, pairs.last().1, n);
    }
}

proof fn lemma_slot_pairs_controller(main: MainBindings, c: usize, b: Bindings, m: nat)
    ensures
        forall|i: int|
            0 <= i < slot_pairs(main, c, b, m).len() ==> (#[trigger] slot_pairs(main, c, b, m)[i]).1.0
                == c,
    decreases m,
{
    if m > 0 {
        lemma_slot_pairs_controller(main, c, b, (m - 1) as nat);
        let prev = slot_pairs(main, c, b, (m - 1) as nat);
        let cur = slot_pairs(main, c, b, m);
        assert forall|i: int| 0 <= i < cur.len() implies (#[trigger] cur[i]).1.0 == c by {
            if i < prev.len() {
                assert(cur[i] == prev[i]);
            }
        }
    }
}

proof fn lemma_config_pairs_below(main: MainBindings, ctls: Seq<Controller>, m: nat)
    ensures
        forall|i: int|
            0 <= i < config_pairs(main, ctls, m).len() ==> (#[trigger] config_pairs(
                main,
                ctls,
                m,
            )[i]).1.0 < m,
    decreases m,
{
    if m > 0 {
        lemma_config_pairs_below(main, ctls, (m - 1) as nat);
        lemma_slot_pairs_controller(main, (m - 1) as usize, ctls[m - 1].bindings, SLOT_COUNT as nat);
        let a = config_pairs(main, ctls, (m - 1) as nat);
        let b = slot_pairs(main, (m - 1) as usize, ctls[m - 1].bindings, SLOT_COUNT as nat);
        assert forall|i: int| 0 <= i < (a + b).len() implies (#[trigger] (a + b)[i]).1.0 < m by {
            if i < a.len() {
                assert((a + b)[i] == a[i]);
            } else {
                assert((a + b)[i] == b[i - a.len()]);
            }
        }
    }
}

/// What sweeping leaves: the first `i` elements untouched, no selected
/// element from `i` on, and only elements of the input.
pub proof fn lemma_sweep<T>(v: Seq<T>, i: nat, drop: spec_fn(T) -> bool)
    requires
        i <= v.len(),
    ensures
        ({
            let s = sweep(v, i, drop);
            &&& i <= s.len() <= v.len()
            &&& forall|j: int| 0 <= j < i ==> s[j] == v[j]
            &&& forall|j: int| i <= j < s.len() ==> !drop(#[trigger] s[j])
            &&& forall|j: int| 0 <= j < s.len() ==> v.contains(#[trigger] s[j])
        }),
    decreases v.len() - i,
{
    if i < v.len() {
        if drop(v[i as int]) {
            let w = swap_removed(v, i as int);
            lemma_sweep(w, i, drop);
            let s = sweep(w, i, drop);
            assert forall|j: int| 0 <= j < s.len() implies v.contains(#[trigger] s[j]) by {
                assert(w.contains(s[j]));
                let k = choose|k: int| 0 <= k < w.len() && w[k] == s[j];
                if k == i {
                    assert(v[v.len() - 1] == s[j]);
                } else {
                    assert(v[k] == s[j]);
                }
            }
        } else {
            lemma_sweep(v, i + 1, drop);
        }
    } else {
        let s = sweep(v, i, drop);
        assert forall|j: int| 0 <= j < s.len() implies v.contains(#[trigger] s[j]) by {
            assert(v[j] == s[j]);
        }
    }
}

impl Default for Controller {
    fn default() -> (c: Self)
        ensures
            c == fresh_controller(default_bindings()),
    {
        Controller {
            window: 0,
            mirror: NO_MIRROR,
            mirrored: AtomicBitSet::new(),
            bindings: Bindings::default(),
        }
    }
}

impl Controller {
    /// A new controller that copies the bindings of `template` and nothing
    /// else.
    pub fn from_template(template: &Self) -> (c: Self)
        ensures
            c == fresh_controller(template.bindings),
    {
        Controller {
            window: 0,
            mirror: NO_MIRROR,
            mirrored: AtomicBitSet::new(),
            bindings: template.bindings,
        }
    }

    /// Whether this controller mirrors another one.
    pub fn has_mirror(&self) -> (r: bool)
        ensures
            r == (self.mirror != NO_MIRROR),
    {
        self.mirror != NO_MIRROR
    }
}

impl State {
    /// The routing table's contents.
    pub open spec fn table(&self) -> Map<Key, Seq<Route>> {
        route_table(self.routes)
    }

    /// The invariant that the event handlers rely on: routes and `mirrored`
    /// sets only name existing controllers.
    pub open spec fn wf(&self) -> bool {
        &&& routes_below(self.table(), self.controllers.len() as nat)
        &&& mirrored_below(self.controllers@)
    }

    /// Enters every bound key of every controller into the routing table,
    /// controller by controller, in the loading order of the slots.
    fn load_routes(&mut self)
        ensures
            final(self).table() == table_extend(
                old(self).table(),
                config_pairs(old(self).main_bindings, old(self).controllers@, old(self).controllers.len() as nat),
            ),
            final(self).controllers == old(self).controllers,
            final(self).main_bindings == old(self).main_bindings,
            final(self).hidden == old(self).hidden,
            final(self).mirroring == old(self).mirroring,
            final(self).talking == old(self).talking,
            final(self).raw_device == old(self).raw_device,
    {
        let n = self.controllers.len();
        let ghost t0 = self.table();
        let ghost main = self.main_bindings;
        let ghost ctls = self.controllers@;
        let mut c: usize = 0;
        while c < n
            invariant
                n == self.controllers.len(),
                c <= n,
                ctls == self.controllers@,
                main == self.main_bindings,
                self.table() == table_extend(t0, config_pairs(main, ctls, c as nat)),
                self.controllers == old(self).controllers,
                self.main_bindings == old(self).main_bindings,
                self.hidden == old(self).hidden,
                self.mirroring == old(self).mirroring,
                self.talking == old(self).talking,
                self.raw_device == old(self).raw_device,
            decreases n - c,
        {
            let b = self.controllers[c].bindings;
            let ghost base = config_pairs(main, ctls, c as nat);
            let mut i: usize = 0;
            while i < SLOT_COUNT
                invariant
                    n == self.controllers.len(),
                    c < n,
                    i <= SLOT_COUNT,
                    b == ctls[c as int].bindings,
                    ctls == self.controllers@,
                    main == self.main_bindings,
                    base == config_pairs(main, ctls, c as nat),
                    self.table() == table_extend(t0, base + slot_pairs(main, c, b, i as nat)),
                    self.controllers == old(self).controllers,
                    self.main_bindings == old(self).main_bindings,
                    self.hidden == old(self).hidden,
                    self.mirroring == old(self).mirroring,
                    self.talking == old(self).talking,
                    self.raw_device == old(self).raw_device,
                decreases SLOT_COUNT - i,
            {
                let slot = route_slot_at(i);
                let k = b.get(slot);
                if k != 0 {
                    let a = self.main_bindings.action(slot);
                    proof {
                        let p = (k, (c, a));
                        let prev = slot_pairs(main, c, b, i as nat);
                        assert(slot_pairs(main, c, b, (i + 1) as nat) == prev.push(p));
                        assert(base + prev.push(p) =~= (base + prev).push(p));
                        lemma_extend_push(t0, base + prev, p);
                    }
                    routes_push(&mut self.routes, k, (c, a));
                } else {
                    assert(slot_pairs(main, c, b, (i + 1) as nat) == slot_pairs(main, c, b, i as nat));
                }
                i = i + 1;
            }
            assert(config_pairs(main, ctls, (c + 1) as nat) == base + slot_pairs(
                main,
                c,
                b,
                SLOT_COUNT as nat,
            ));
            c = c + 1;
        }
    }
}

/// The bindings of the two extra controllers of the default configuration:
/// the defaults, but moving with the arrow keys.
pub open spec fn arrow_bindings() -> Bindings {
    Bindings { forward: KEY_UP, back: KEY_DOWN, left: KEY_LEFT, right: KEY_RIGHT, ..default_bindings() }
}

/// The controllers that a configuration's mirror settings make mirror
/// controller `c`.
pub open spec fn mirrors_of(configs: Seq<ControllerConfig>, c: usize) -> Set<usize> {
    Set::new(|i: usize| i < configs.len() && configs[i as int].mirror == c && i != c)
}

impl State {
    /// The default configuration: four controllers, where the last two move
    /// with the arrow keys and mirror the first one.
    pub fn new() -> (s: Self)
        ensures
            s.hidden == false,
            s.mirroring == true,
            s.main_bindings == default_main_bindings(),
            s.controllers.len() == 4,
            s.controllers[0].window == 0,
            s.controllers[0].mirror == NO_MIRROR,
            s.controllers[0].mirrored@ == set![2usize, 3usize],
            s.controllers[0].bindings == default_bindings(),
            s.controllers[1] == fresh_controller(default_bindings()),
            s.controllers[2] == (Controller {
                window: 0,
                mirror: 0,
                mirrored: AtomicBitSet { bits: 0 },
                bindings: arrow_bindings(),
            }),
            s.controllers[3] == s.controllers[2],
            s.table() == initial_table(s.main_bindings, s.controllers@),
            s.talking@ == Set::<usize>::empty(),
            s.raw_device is None,
            s.wf(),
            mirrors_consistent(s.controllers@),
            mirrors_in_range(s.controllers@),
    {
        let mut arrows = Bindings::default();
        arrows.forward = KEY_UP;
        arrows.back = KEY_DOWN;
        arrows.left = KEY_LEFT;
        arrows.right = KEY_RIGHT;
        let follower = Controller {
            window: 0,
            mirror: 0,
            mirrored: AtomicBitSet::new(),
            bindings: arrows,
        };
        let mut leader = Controller::default();
        leader.mirrored.insert(2);
        leader.mirrored.insert(3);
        let mut controllers: Vec<Controller> = Vec::new();
        controllers.push(leader);
        controllers.push(Controller::default());
        controllers.push(follower);
        controllers.push(follower);
        let mut s = State {
            hidden: false,
            mirroring: true,
            main_bindings: MainBindings::default(),
            controllers,
            routes: routes_new(),
            talking: AtomicBitSet::new(),
            raw_device: None,
        };
        s.load_routes();
        proof {
            assert(s.controllers[0].mirrored@ =~= set![2usize, 3usize]);
            crate::bitset::lemma_zero_word_is_empty();
            assert forall|a: int, x: usize|
                0 <= a < 4 && x < 4 && x != a implies (#[trigger] s.controllers@[a].mirrored.has(x)
                <==> s.controllers@[x as int].mirror == a) by {
                assert(s.controllers@[a].mirrored@.contains(x) == s.controllers@[a].mirrored.has(x));
            }
            assert forall|c: int, x: usize|
                0 <= c < 4 && #[trigger] s.controllers@[c].mirrored.has(x) implies x < 4 by {
                assert(s.controllers[c].mirrored@.contains(x));
            }
            lemma_initial_table_below(s.main_bindings, s.controllers@);
        }
        s
    }

    /// The state described by a saved configuration: the controllers with
    /// their bindings and mirror settings, each mirror's `mirrored` set
    /// filled in, and the routes loaded.
    pub fn from_config(main_bindings: MainBindings, configs: Vec<ControllerConfig>) -> (s: Self)
        requires
            forall|i: int|
                0 <= i < configs.len() && (#[trigger] configs[i]).mirror < configs.len()
                    && configs[i].mirror != i ==> i < usize::BITS,
        ensures
            s.hidden == false,
            s.mirroring == true,
            s.main_bindings == main_bindings,
            s.controllers.len() == configs.len(),
            forall|c: int|
                0 <= c < configs.len() ==> {
                    &&& (#[trigger] s.controllers[c]).window == 0
                    &&& s.controllers[c].mirror == configs[c].mirror
                    &&& s.controllers[c].bindings == configs[c].bindings
                    &&& s.controllers[c].mirrored@ == mirrors_of(configs@, c as usize)
                },
            s.table() == initial_table(main_bindings, s.controllers@),
            s.talking@ == Set::<usize>::empty(),
            s.raw_device is None,
            s.wf(),
            mirrors_consistent(s.controllers@),
            (forall|i: int| 0 <= i < configs.len() ==> (#[trigger] configs[i]).mirror == NO_MIRROR
                || configs[i].mirror < configs.len()) ==> mirrors_in_range(s.controllers@),
    {
        let n = configs.len();
        let mut controllers: Vec<Controller> = Vec::new();
        let mut i: usize = 0;
        while i < n
            invariant
                n == configs.len(),
                i <= n,
                controllers.len() == i,
                forall|c: int|
                    0 <= c < i ==> {
                        &&& (#[trigger] controllers[c]).window == 0
                        &&& controllers[c].mirror == configs[c].mirror
                        &&& controllers[c].bindings == configs[c].bindings
                        &&& controllers[c].mirrored@ == Set::<usize>::empty()
                    },
            decreases n - i,
        {
            let cfg = configs[i];
            controllers.push(
                Controller {
                    window: 0,
                    mirror: cfg.mirror,
                    mirrored: AtomicBitSet::new(),
                    bindings: cfg.bindings,
                },
            );
            i = i + 1;
        }
        let mut i: usize = 0;
        while i < n
            invariant
                n == configs.len(),
                i <= n,
                controllers.len() == n,
                forall|idx: int|
                    0 <= idx < n && (#[trigger] configs[idx]).mirror < n && configs[idx].mirror
                        != idx ==> idx < usize::BITS,
                forall|c: int|
                    0 <= c < n ==> {
                        &&& (#[trigger] controllers[c]).window == 0
                        &&& controllers[c].mirror == configs[c].mirror
                        &&& controllers[c].bindings == configs[c].bindings
                        &&& controllers[c].mirrored@ == Set::new(
                            |x: usize| x < i && configs[x as int].mirror == c && x != c,
                        )
                    },
            decreases n - i,
        {
            let m = controllers[i].mirror;
            let ghost before = controllers@;
            if m != NO_MIRROR && m != i && m < n {
                let mut target = controllers[m];
                target.mirrored.insert(i);
                controllers[m] = target;
            }
            proof {
                assert forall|c: int| 0 <= c < n implies {
                    &&& (#[trigger] controllers[c]).window == 0
                    &&& controllers[c].mirror == configs[c].mirror
                    &&& controllers[c].bindings == configs[c].bindings
                    &&& controllers[c].mirrored@ == Set::new(
                        |x: usize| x < i + 1 && configs[x as int].mirror == c && x != c,
                    )
                } by {
                    assert(controllers[c].mirrored@ =~= Set::new(
                        |x: usize| x < i + 1 && configs[x as int].mirror == c && x != c,
                    ));
                }
            }
            i = i + 1;
        }
        let mut s = State {
            hidden: false,
            mirroring: true,
            main_bindings,
            controllers,
            routes: routes_new(),
            talking: AtomicBitSet::new(),
            raw_device: None,
        };
        s.load_routes();
        proof {
            assert forall|c: int| 0 <= c < n implies (#[trigger] s.controllers[c]).mirrored@
                == mirrors_of(configs@, c as usize) by {
                assert(s.controllers[c].mirrored@ =~= mirrors_of(configs@, c as usize));
            }
            assert forall|c: int, x: usize|
                0 <= c < n && #[trigger] s.controllers@[c].mirrored.has(x) implies x < n by {
                assert(s.controllers[c].mirrored@.contains(x));
            }
            assert forall|a: int, x: usize|
                0 <= a < n && x < n && x != a implies (#[trigger] s.controllers@[a].mirrored.has(x)
                <==> s.controllers@[x as int].mirror == a) by {
                assert(s.controllers@[a].mirrored@.contains(x) == s.controllers@[a].mirrored.has(x));
                assert(s.controllers@[a].mirrored@ == mirrors_of(configs@, a as usize));
                assert(s.controllers@[x as int].mirror == configs@[x as int].mirror);
            }
            lemma_initial_table_below(s.main_bindings, s.controllers@);
        }
        s
    }
}

proof fn lemma_initial_table_below(main: MainBindings, ctls: Seq<Controller>)
    ensures
        routes_below(initial_table(main, ctls), ctls.len() as nat),
{
    lemma_config_pairs_below(main, ctls, ctls.len() as nat);
    let pairs = config_pairs(main, ctls, ctls.len() as nat);
    assert forall|i: int| 0 <= i < pairs.len() implies (#[trigger] pairs[i]).1.0 < ctls.len() by {}
    assert(routes_below(empty_table(), ctls.len() as nat));
    lemma_extend_below(empty_table(), pairs, ctls.len() as nat);
}

/// The indices below `n` of the controllers in `ctls` whose mirror is
/// `target`, in increasing order.
pub open spec fn mirroring_indices(ctls: Seq<Controller>, target: usize, n: nat) -> Seq<usize>
    decreases n,
{
    if n == 0 {
        Seq::empty()
    } else {
        let prev = mirroring_indices(ctls, target, (n - 1) as nat);
        if ctls[n - 1].mirror == target {
            prev.push((n - 1) as usize)
        } else {
            prev
        }
    }
}

/// What becomes of controller `c` when controller `removed` goes away: a
/// mirror of `removed` is dropped and `removed` leaves the `mirrored` set.
pub open spec fn detached(before: Controller, after: Controller, removed: usize) -> bool {
    &&& after.window == before.window
    &&& after.bindings == before.bindings
    &&& after.mirror == (if before.mirror == removed {
        NO_MIRROR
    } else {
        before.mirror
    })
    &&& after.mirrored@ == before.mirrored@.remove(removed)
}

proof fn lemma_take_step(keys: Seq<Key>, j: int)
    requires
        0 <= j < keys.len(),
        keys.no_duplicates(),
    ensures
        forall|k: Key| #[trigger] keys.take(j + 1).contains(k) <==> (keys.take(j).contains(k) || k == keys[j]),
        !keys.take(j).contains(keys[j]),
{
    assert(keys.take(j + 1) =~= keys.take(j).push(keys[j]));
    assert forall|k: Key| #[trigger] keys.take(j + 1).contains(k) <==> (keys.take(j).contains(k)
        || k == keys[j]) by {
        if keys.take(j + 1).contains(k) {
            let i = choose|i: int| 0 <= i < j + 1 && #[trigger] keys.take(j + 1)[i] == k;
            if i < j {
                assert(keys.take(j)[i] == k);
            }
        }
        if keys.take(j).contains(k) {
            let i = choose|i: int| 0 <= i < j && #[trigger] keys.take(j)[i] == k;
            assert(keys.take(j + 1)[i] == k);
        }
        if k == keys[j] {
            assert(keys.take(j + 1)[j] == k);
        }
    }
    if keys.take(j).contains(keys[j]) {
        let i = choose|i: int| 0 <= i < j && #[trigger] keys.take(j)[i] == keys[j];
        assert(keys[i] == keys[j]);
    }
}

proof fn lemma_take_all_keys(keys: Seq<Key>, dom: Set<Key>)
    requires
        keys.to_set() == dom,
    ensures
        forall|k: Key| #[trigger] keys.take(keys.len() as int).contains(k) <==> dom.contains(k),
{
    assert(keys.take(keys.len() as int) =~= keys);
    assert forall|k: Key| keys.contains(k) <==> dom.contains(k) by {
        assert(keys.to_set().contains(k) <==> keys.contains(k));
    }
}

impl State {
    /// Whether `key` is already used by a main binding other than the
    /// mirroring toggle.
    pub fn is_bound_main(&self, key: &Key) -> (r: bool)
        ensures
            r == self.main_bindings.binds(*key),
    {
        let k = *key;
        let m = &self.main_bindings;
        m.forward == k || m.back == k || m.left == k || m.right == k || m.jump == k || m.dismount
            == k || m.throw == k || m.talk == k || m.camera_toggle == k || m.tasks == k
    }

    /// Follows a change of a main key: every routed action that sent
    /// `old_key` now sends `new_key`, or is removed when `new_key` is 0.
    pub fn reroute_main(&mut self, old_key: &Key, new_key: &Key)
        ensures
            final(self).table() == reroute_main_table(old(self).table(), *old_key, *new_key),
            old(self).wf() ==> final(self).wf(),
            final(self).controllers == old(self).controllers,
            final(self).main_bindings == old(self).main_bindings,
            final(self).hidden == old(self).hidden,
            final(self).mirroring == old(self).mirroring,
            final(self).talking == old(self).talking,
            final(self).raw_device == old(self).raw_device,
    {
        let old_key = *old_key;
        let new_key = *new_key;
        let ghost t0 = self.table();
        let ghost target = reroute_main_table(t0, old_key, new_key);
        let keys = routes_keys(&self.routes);
        let mut j: usize = 0;
        while j < keys.len()
            invariant
                j <= keys.len(),
                keys@.to_set() == t0.dom(),
                keys@.no_duplicates(),
                target == reroute_main_table(t0, old_key, new_key),
                self.table().dom() == t0.dom(),
                forall|k: Key|
                    #[trigger] t0.contains_key(k) ==> self.table()[k] == (if keys@.take(
                        j as int,
                    ).contains(k) {
                        target[k]
                    } else {
                        t0[k]
                    }),
                self.controllers == old(self).controllers,
                self.main_bindings == old(self).main_bindings,
                self.hidden == old(self).hidden,
                self.mirroring == old(self).mirroring,
                self.talking == old(self).talking,
                self.raw_device == old(self).raw_device,
            decreases keys.len() - j,
        {
            let k = keys[j];
            proof {
                lemma_take_step(keys@, j as int);
                assert(keys@.to_set().contains(k));
            }
            let mut v = routes_take(&mut self.routes, k);
            if new_key != 0 {
                relabel_routes(&mut v, old_key, new_key);
            } else {
                sweep_key(&mut v, old_key);
            }
            routes_put(&mut self.routes, k, v);
            proof {
                assert(self.table().dom() =~= t0.dom());
            }
            j = j + 1;
        }
        proof {
            lemma_take_all_keys(keys@, t0.dom());
            assert(self.table() =~= target);
            if old(self).wf() {
                lemma_reroute_main_below(t0, old_key, new_key, self.controllers.len() as nat);
            }
        }
    }

    /// Follows a change of controller `ctl_ix`'s binding from `old_key` to
    /// `new_key` for the action that sends `main_key`: the first matching
    /// route under `old_key` goes (when `old_key` is not 0), and `action`,
    /// when given, is routed from `new_key`.
    pub fn reroute(
        &mut self,
        ctl_ix: usize,
        old_key: &Key,
        new_key: &Key,
        main_key: &Key,
        action: Option<Action>,
    )
        ensures
            final(self).table() == reroute_table(
                old(self).table(),
                ctl_ix,
                *old_key,
                *new_key,
                *main_key,
                action,
            ),
            old(self).wf() && ctl_ix < old(self).controllers.len() ==> final(self).wf(),
            final(self).controllers == old(self).controllers,
            final(self).main_bindings == old(self).main_bindings,
            final(self).hidden == old(self).hidden,
            final(self).mirroring == old(self).mirroring,
            final(self).talking == old(self).talking,
            final(self).raw_device == old(self).raw_device,
    {
        let old_key = *old_key;
        let ghost t0 = self.table();
        if old_key != 0 {
            let found = match routes_get(&self.routes, old_key) {
                Some(v) => find_route(v, ctl_ix, *main_key),
                None => None,
            };
            if let Some(j) = found {
                proof {
                    crate::routes::lemma_first_route_found(t0[old_key], 0, ctl_ix, *main_key);
                }
                let mut v = routes_take(&mut self.routes, old_key);
                v.swap_remove(j);
                routes_put(&mut self.routes, old_key, v);
                assert(self.table() =~= unroute_one(t0, old_key, ctl_ix, *main_key));
            }
        }
        let ghost t1 = self.table();
        proof {
            if old(self).wf() && ctl_ix < self.controllers.len() && old_key != 0 {
                lemma_unroute_one_below(t0, old_key, ctl_ix, *main_key, self.controllers.len() as nat);
            }
        }
        if let Some(a) = action {
            routes_push(&mut self.routes, *new_key, (ctl_ix, a));
            proof {
                if old(self).wf() && ctl_ix < self.controllers.len() {
                    lemma_push_below(t1, *new_key, (ctl_ix, a), self.controllers.len() as nat);
                }
            }
        }
    }

    /// Removes the last controller (if any). Controllers that mirrored it
    /// stop mirroring, it leaves every `mirrored` set, and every route to
    /// it is swept away. Returns, in increasing order, the controllers whose
    /// mirror was reset.
    pub fn remove_controller(&mut self) -> (reset: Vec<usize>)
        requires
            old(self).controllers.len() <= usize::BITS,
        ensures
            ({
                let removed = if old(self).controllers.len() == 0 {
                    0
                } else {
                    (old(self).controllers.len() - 1) as usize
                };
                &&& final(self).controllers.len() == removed
                &&& forall|c: int|
                    0 <= c < removed ==> detached(
                        old(self).controllers[c],
                        #[trigger] final(self).controllers[c],
                        removed,
                    )
                &&& reset@ == mirroring_indices(old(self).controllers@, removed, removed as nat)
                &&& final(self).table() == unroute_controller_table(old(self).table(), removed)
            }),
            final(self).main_bindings == old(self).main_bindings,
            final(self).hidden == old(self).hidden,
            final(self).mirroring == old(self).mirroring,
            final(self).talking == old(self).talking,
            final(self).raw_device == old(self).raw_device,
            mirrors_consistent(old(self).controllers@) ==> mirrors_consistent(final(self).controllers@),
            mirrors_in_range(old(self).controllers@) ==> mirrors_in_range(final(self).controllers@),
            old(self).wf() ==> final(self).wf(),
    {
        let ghost ctls0 = self.controllers@;
        let _ = self.controllers.pop();
        let removed = self.controllers.len();
        let mut reset: Vec<usize> = Vec::new();
        let mut c: usize = 0;
        while c < removed
            invariant
                removed == self.controllers.len(),
                removed < usize::BITS,
                c <= removed,
                ctls0.len() == 0 || ctls0.len() == removed + 1,
                forall|i: int| 0 <= i < c ==> detached(ctls0[i], #[trigger] self.controllers[i], removed),
                forall|i: int| c <= i < removed ==> #[trigger] self.controllers[i] == ctls0[i],
                reset@ == mirroring_indices(ctls0, removed, c as nat),
                self.main_bindings == old(self).main_bindings,
                self.routes == old(self).routes,
                self.hidden == old(self).hidden,
                self.mirroring == old(self).mirroring,
                self.talking == old(self).talking,
                self.raw_device == old(self).raw_device,
            decreases removed - c,
        {
            let mut ctl = self.controllers[c];
            if ctl.mirror == removed {
                ctl.mirror = NO_MIRROR;
                reset.push(c);
            }
            ctl.mirrored.remove(removed);
            self.controllers[c] = ctl;
            c = c + 1;
        }
        let ghost t0 = self.table();
        let ghost target = unroute_controller_table(t0, removed);
        let keys = routes_keys(&self.routes);
        let mut j: usize = 0;
        while j < keys.len()
            invariant
                j <= keys.len(),
                keys@.to_set() == t0.dom(),
                keys@.no_duplicates(),
                target == unroute_controller_table(t0, removed),
                self.table().dom() == t0.dom(),
                forall|k: Key|
                    #[trigger] t0.contains_key(k) ==> self.table()[k] == (if keys@.take(
                        j as int,
                    ).contains(k) {
                        target[k]
                    } else {
                        t0[k]
                    }),
                self.controllers.len() == removed,
                forall|i: int| 0 <= i < removed ==> detached(ctls0[i], #[trigger] self.controllers[i], removed),
                self.main_bindings == old(self).main_bindings,
                self.hidden == old(self).hidden,
                self.mirroring == old(self).mirroring,
                self.talking == old(self).talking,
                self.raw_device == old(self).raw_device,
            decreases keys.len() - j,
        {
            let k = keys[j];
            proof {
                lemma_take_step(keys@, j as int);
                assert(keys@.to_set().contains(k));
            }
            let mut v = routes_take(&mut self.routes, k);
            sweep_controller(&mut v, removed);
            routes_put(&mut self.routes, k, v);
            proof {
                assert(self.table().dom() =~= t0.dom());
            }
            j = j + 1;
        }
        proof {
            lemma_take_all_keys(keys@, t0.dom());
            assert(self.table() =~= target);
            if mirrors_consistent(ctls0) {
                assert forall|a: int, x: usize|
                    0 <= a < removed && x < removed && x != a implies (#[trigger] self.controllers@[a].mirrored.has(x)
                    <==> self.controllers@[x as int].mirror == a) by {
                    assert(self.controllers@[a].mirrored@.contains(x) == ctls0[a].mirrored@.contains(x));
                    assert(ctls0[a].mirrored.has(x) <==> ctls0[x as int].mirror == a);
                }
            }
            if mirrors_in_range(ctls0) {
                assert forall|a: int| 0 <= a < removed implies (#[trigger] self.controllers@[a]).mirror == NO_MIRROR
                    || self.controllers@[a].mirror < removed by {
                    assert(ctls0[a].mirror == NO_MIRROR || ctls0[a].mirror < ctls0.len());
                }
            }
            if old(self).wf() {
                lemma_unroute_controller_below(t0, removed);
                assert forall|c: int, x: usize|
                    0 <= c < removed && #[trigger] self.controllers@[c].mirrored.has(x) implies x
                    < removed by {
                    assert(self.controllers[c].mirrored@.contains(x));
                    assert(ctls0[c].mirrored.has(x));
                }
            }
        }
        reset
    }
}

proof fn lemma_reroute_main_below(t: Map<Key, Seq<Route>>, old_key: Key, new_key: Key, n: nat)
    requires
        routes_below(t, n),
    ensures
        routes_below(reroute_main_table(t, old_key, new_key), n),
{
    let t2 = reroute_main_table(t, old_key, new_key);
    assert forall|k: Key, j: int| t2.contains_key(k) && 0 <= j < t2[k].len() implies (
    #[trigger] t2[k][j]).0 < n by {
        if new_key != 0 {
            assert(t2[k][j] == relabel(old_key, new_key)(t[k][j]));
            assert(t[k][j].0 < n);
        } else {
            lemma_sweep(t[k], 0, sending(old_key));
            let x = t2[k][j];
            assert(t[k].contains(x));
            let i = choose|i: int| 0 <= i < t[k].len() && t[k][i] == x;
            assert(t[k][i].0 < n);
        }
    }
}

proof fn lemma_unroute_one_below(t: Map<Key, Seq<Route>>, old_key: Key, ctl: usize, main_key: Key, n: nat)
    requires
        routes_below(t, n),
    ensures
        routes_below(unroute_one(t, old_key, ctl, main_key), n),
{
    let t2 = unroute_one(t, old_key, ctl, main_key);
    if t.contains_key(old_key) {
        crate::routes::lemma_first_route_found(t[old_key], 0, ctl, main_key);
        match first_route_from(t[old_key], 0, ctl, main_key) {
            Some(jj) => {
                let v = t[old_key];
                assert forall|k: Key, j: int| t2.contains_key(k) && 0 <= j < t2[k].len() implies (
                #[trigger] t2[k][j]).0 < n by {
                    if k == old_key {
                        if j == jj {
                            assert(t2[k][j] == v[v.len() - 1]);
                        } else {
                            assert(t2[k][j] == v[j]);
                        }
                    }
                }
            },
            None => {},
        }
    }
}

/// Sweeping controller `removed` out of a table whose routes name
/// controllers up to `removed` leaves only routes below `removed`.
proof fn lemma_unroute_controller_below(t: Map<Key, Seq<Route>>, removed: usize)
    requires
        routes_below(t, (removed + 1) as nat),
    ensures
        routes_below(unroute_controller_table(t, removed), removed as nat),
{
    let t2 = unroute_controller_table(t, removed);
    assert forall|k: Key, j: int| t2.contains_key(k) && 0 <= j < t2[k].len() implies (
    #[trigger] t2[k][j]).0 < removed by {
        lemma_sweep(t[k], 0, of_controller(removed));
        let x = t2[k][j];
        assert(t[k].contains(x));
        let i = choose|i: int| 0 <= i < t[k].len() && t[k][i] == x;
        assert(t[k][i].0 < removed + 1);
        assert(!of_controller(removed)(x));
    }
}

/// No route of `t` has an action that sends `key`.
pub open spec fn no_route_sends(t: Map<Key, Seq<Route>>, key: Key) -> bool {
    forall|k: Key, j: int|
        t.contains_key(k) && 0 <= j < t[k].len() ==> (#[trigger] t[k][j]).1.key_of() != key
}

/// After a main key changes from `old_key` to another key (or is cleared),
/// no route sends the old key any more.
pub proof fn lemma_main_reroute_drops_old_key(t: Map<Key, Seq<Route>>, old_key: Key, new_key: Key)
    requires
        old_key != new_key || new_key == 0,
    ensures
        no_route_sends(reroute_main_table(t, old_key, new_key), old_key),
{
    let t2 = reroute_main_table(t, old_key, new_key);
    assert forall|k: Key, j: int| t2.contains_key(k) && 0 <= j < t2[k].len() implies (#[trigger] t2[k][j]).1.key_of()
        != old_key by {
        if new_key == 0 {
            lemma_sweep(t[k], 0, sending(old_key));
        } else {
            let r = t[k][j];
            assert(t2[k][j] == relabel(old_key, new_key)(r));
            if r.1.key_of() == old_key {
                assert(r.1.with_key(new_key).key_of() == new_key);
            }
        }
    }
}

/// Whether changing a main slot also changes the routed actions (every slot
/// except the mirroring toggle, which is never routed).
pub open spec fn main_slot_routed(slot: MainSlot) -> bool {
    slot != MainSlot::ToggleMirroring
}

/// The windows of `ctls` below `n` that are set (not 0), in controller
/// order.
pub open spec fn windows_below(ctls: Seq<Controller>, n: nat) -> Seq<u64>
    decreases n,
{
    if n == 0 {
        Seq::empty()
    } else {
        let prev = windows_below(ctls, (n - 1) as nat);
        if ctls[n - 1].window != 0 {
            prev.push(ctls[n - 1].window)
        } else {
            prev
        }
    }
}

/// The controllers of `ctls` below `n` whose window is set (not 0), each
/// with its window, in controller order.
pub open spec fn targets_below(ctls: Seq<Controller>, n: nat) -> Seq<(usize, u64)>
    decreases n,
{
    if n == 0 {
        Seq::empty()
    } else {
        let prev = targets_below(ctls, (n - 1) as nat);
        if ctls[n - 1].window != 0 {
            prev.push(((n - 1) as usize, ctls[n - 1].window))
        } else {
            prev
        }
    }
}

impl State {
    /// Adds a controller at the end, copying the bindings of the last one
    /// (or using the default bindings when there is none).
    pub fn add_controller(&mut self)
        ensures
            final(self).controllers@ == old(self).controllers@.push(
                fresh_controller(
                    if old(self).controllers.len() == 0 {
                        default_bindings()
                    } else {
                        old(self).controllers@.last().bindings
                    },
                ),
            ),
            final(self).routes == old(self).routes,
            final(self).main_bindings == old(self).main_bindings,
            final(self).hidden == old(self).hidden,
            final(self).mirroring == old(self).mirroring,
            final(self).talking == old(self).talking,
            final(self).raw_device == old(self).raw_device,
            old(self).wf() && mirrors_consistent(old(self).controllers@) && mirrors_in_range(old(self).controllers@)
                ==> mirrors_consistent(final(self).controllers@),
            mirrors_in_range(old(self).controllers@) ==> mirrors_in_range(final(self).controllers@),
            old(self).wf() ==> final(self).wf(),
    {
        let n = self.controllers.len();
        let c = if n == 0 {
            Controller::default()
        } else {
            Controller::from_template(&self.controllers[n - 1])
        };
        self.controllers.push(c);
        proof {
            crate::bitset::lemma_zero_word_is_empty();
            let len_now = self.controllers.len();
            assert(len_now == n + 1);
            if old(self).wf() && mirrors_consistent(old(self).controllers@) && mirrors_in_range(old(self).controllers@) {
                assert forall|a: int, x: usize|
                    0 <= a < n + 1 && x < n + 1 && x != a implies (#[trigger] self.controllers@[a].mirrored.has(x)
                    <==> self.controllers@[x as int].mirror == a) by {
                    if a == n {
                        assert(!self.controllers@[a].mirrored@.contains(x));
                        assert(self.controllers@[x as int] == old(self).controllers@[x as int]);
                        assert(old(self).controllers@[x as int].mirror == NO_MIRROR || old(self).controllers@[x as int].mirror < n);
                    } else if x == n {
                        assert(self.controllers@[a] == old(self).controllers@[a]);
                        assert(!old(self).controllers@[a].mirrored.has(x));
                    } else {
                        assert(self.controllers@[a] == old(self).controllers@[a]);
                        assert(self.controllers@[x as int] == old(self).controllers@[x as int]);
                        assert(old(self).controllers@[a].mirrored.has(x) <==> old(self).controllers@[x as int].mirror == a);
                    }
                }
            }
            if old(self).wf() {
                assert forall|i: int, x: usize|
                    0 <= i < n + 1 && #[trigger] self.controllers@[i].mirrored.has(x) implies x < n
                    + 1 by {
                    if i < n {
                        assert(old(self).controllers@[i].mirrored.has(x));
                    } else {
                        assert(self.controllers@[i].mirrored@.contains(x));
                    }
                }
            }
        }
    }

    /// Makes controller `ctl_ix` mirror the controller chosen in its mirror
    /// menu: entry 0 is "none", entry `i` is controller `i - 1`. The
    /// controller leaves the `mirrored` set of its previous mirror and
    /// joins that of the new one.
    pub fn select_mirror(&mut self, ctl_ix: usize, menu_index: usize)
        requires
            ctl_ix < old(self).controllers.len(),
            ({
                let old_mirror = old(self).controllers[ctl_ix as int].mirror;
                let new_mirror = menu_index.wrapping_sub(1);
                &&& old_mirror == NO_MIRROR || old_mirror < old(self).controllers.len()
                &&& new_mirror == NO_MIRROR || new_mirror < old(self).controllers.len()
                &&& (old_mirror != NO_MIRROR || new_mirror != NO_MIRROR) ==> ctl_ix < usize::BITS
            }),
        ensures
            ({
                let old_mirror = old(self).controllers[ctl_ix as int].mirror;
                let new_mirror = menu_index.wrapping_sub(1);
                &&& final(self).controllers.len() == old(self).controllers.len()
                &&& forall|c: int|
                    0 <= c < old(self).controllers.len() ==> {
                        let before = old(self).controllers[c];
                        let after = #[trigger] final(self).controllers[c];
                        let left = if c == old_mirror {
                            before.mirrored@.remove(ctl_ix)
                        } else {
                            before.mirrored@
                        };
                        &&& after.window == before.window
                        &&& after.bindings == before.bindings
                        &&& after.mirror == (if c == ctl_ix {
                            new_mirror
                        } else {
                            before.mirror
                        })
                        &&& after.mirrored@ == (if c == new_mirror {
                            left.insert(ctl_ix)
                        } else {
                            left
                        })
                    }
            }),
            final(self).routes == old(self).routes,
            final(self).main_bindings == old(self).main_bindings,
            final(self).hidden == old(self).hidden,
            final(self).mirroring == old(self).mirroring,
            final(self).talking == old(self).talking,
            final(self).raw_device == old(self).raw_device,
            mirrors_consistent(old(self).controllers@) ==> mirrors_consistent(final(self).controllers@),
            mirrors_in_range(old(self).controllers@) ==> mirrors_in_range(final(self).controllers@),
            old(self).wf() ==> final(self).wf(),
    {
        let ghost ctls0 = self.controllers@;
        let new_mirror = menu_index.wrapping_sub(1);
        let mut ctl = self.controllers[ctl_ix];
        let old_mirror = ctl.mirror;
        ctl.mirror = new_mirror;
        self.controllers[ctl_ix] = ctl;
        let ghost ctls1 = self.controllers@;
        if old_mirror != NO_MIRROR {
            let mut m = self.controllers[old_mirror];
            m.mirrored.remove(ctl_ix);
            self.controllers[old_mirror] = m;
        }
        let ghost ctls2 = self.controllers@;
        if new_mirror != NO_MIRROR {
            let mut m = self.controllers[new_mirror];
            m.mirrored.insert(ctl_ix);
            self.controllers[new_mirror] = m;
        }
        proof {
            if mirrors_consistent(ctls0) {
                assert forall|a: int, x: usize|
                    0 <= a < ctls0.len() && x < ctls0.len() && x != a implies (#[trigger] self.controllers@[a].mirrored.has(x)
                    <==> self.controllers@[x as int].mirror == a) by {
                    assert(self.controllers@[a].mirrored@.contains(x) == self.controllers@[a].mirrored.has(x));
                    assert(ctls0[a].mirrored@.contains(x) == ctls0[a].mirrored.has(x));
                    assert(ctls0[a].mirrored.has(x) <==> ctls0[x as int].mirror == a);
                }
            }
            if old(self).wf() {
                assert forall|i: int, x: usize|
                    0 <= i < ctls0.len() && #[trigger] self.controllers@[i].mirrored.has(x) implies x
                    < ctls0.len() by {
                    assert(self.controllers[i].mirrored@.contains(x));
                    if x != ctl_ix {
                        assert(ctls0[i].mirrored@.contains(x));
                        assert(ctls0[i].mirrored.has(x));
                    }
                }
            }
        }
    }

    /// Stores `window` as controller `ctl_ix`'s window; returns the window
    /// it had.
    pub fn set_window(&mut self, ctl_ix: usize, window: u64) -> (prev: u64)
        requires
            ctl_ix < old(self).controllers.len(),
        ensures
            prev == old(self).controllers[ctl_ix as int].window,
            final(self).controllers@ == old(self).controllers@.update(
                ctl_ix as int,
                Controller { window, ..old(self).controllers[ctl_ix as int] },
            ),
            final(self).routes == old(self).routes,
            final(self).main_bindings == old(self).main_bindings,
            final(self).hidden == old(self).hidden,
            final(self).mirroring == old(self).mirroring,
            final(self).talking == old(self).talking,
            final(self).raw_device == old(self).raw_device,
            mirrors_consistent(old(self).controllers@) ==> mirrors_consistent(final(self).controllers@),
            mirrors_in_range(old(self).controllers@) ==> mirrors_in_range(final(self).controllers@),
            old(self).wf() ==> final(self).wf(),
    {
        let mut ctl = self.controllers[ctl_ix];
        let prev = ctl.window;
        ctl.window = window;
        self.controllers[ctl_ix] = ctl;
        proof {
            if old(self).wf() {
                assert forall|i: int, x: usize|
                    0 <= i < self.controllers.len() && #[trigger] self.controllers@[i].mirrored.has(x)
                    implies x < self.controllers.len() by {
                    assert(old(self).controllers@[i].mirrored.has(x));
                }
            }
        }
        prev
    }

    /// Hands the found windows to the controllers in order, one each, as far
    /// as there are controllers. Returns the windows they had before.
    pub fn assign_windows(&mut self, windows: &Vec<u64>) -> (prev: Vec<u64>)
        ensures
            ({
                let n = if windows.len() < old(self).controllers.len() {
                    windows.len()
                } else {
                    old(self).controllers.len()
                };
                &&& prev.len() == n
                &&& final(self).controllers.len() == old(self).controllers.len()
                &&& forall|i: int|
                    0 <= i < old(self).controllers.len() ==> (#[trigger] final(self).controllers[i])
                        == (if i < n {
                        Controller { window: windows[i], ..old(self).controllers[i] }
                    } else {
                        old(self).controllers[i]
                    })
                &&& forall|i: int| 0 <= i < n ==> #[trigger] prev[i] == old(self).controllers[i].window
            }),
            final(self).routes == old(self).routes,
            final(self).main_bindings == old(self).main_bindings,
            final(self).hidden == old(self).hidden,
            final(self).mirroring == old(self).mirroring,
            final(self).talking == old(self).talking,
            final(self).raw_device == old(self).raw_device,
            mirrors_consistent(old(self).controllers@) ==> mirrors_consistent(final(self).controllers@),
            mirrors_in_range(old(self).controllers@) ==> mirrors_in_range(final(self).controllers@),
            old(self).wf() ==> final(self).wf(),
    {
        let mut prev: Vec<u64> = Vec::new();
        let mut i: usize = 0;
        while i < windows.len() && i < self.controllers.len()
            invariant
                i <= windows.len(),
                i <= self.controllers.len(),
                self.controllers.len() == old(self).controllers.len(),
                prev.len() == i,
                forall|j: int|
                    0 <= j < old(self).controllers.len() ==> (#[trigger] self.controllers[j]) == (if j
                        < i {
                        Controller { window: windows[j], ..old(self).controllers[j] }
                    } else {
                        old(self).controllers[j]
                    }),
                forall|j: int| 0 <= j < i ==> #[trigger] prev[j] == old(self).controllers[j].window,
                self.routes == old(self).routes,
                self.main_bindings == old(self).main_bindings,
                self.hidden == old(self).hidden,
                self.mirroring == old(self).mirroring,
                self.talking == old(self).talking,
                self.raw_device == old(self).raw_device,
            decreases windows.len() - i,
        {
            let mut ctl = self.controllers[i];
            prev.push(ctl.window);
            ctl.window = windows[i];
            self.controllers[i] = ctl;
            i = i + 1;
        }
        proof {
            if old(self).wf() {
                assert forall|j: int, x: usize|
                    0 <= j < self.controllers.len() && #[trigger] self.controllers@[j].mirrored.has(x)
                    implies x < self.controllers.len() by {
                    assert(old(self).controllers@[j].mirrored.has(x));
                }
            }
        }
        prev
    }

    /// The windows that are set, in controller order.
    pub fn active_windows(&self) -> (ws: Vec<u64>)
        ensures
            ws@ == windows_below(self.controllers@, self.controllers.len() as nat),
    {
        let mut ws: Vec<u64> = Vec::new();
        let mut i: usize = 0;
        while i < self.controllers.len()
            invariant
                i <= self.controllers.len(),
                ws@ == windows_below(self.controllers@, i as nat),
            decreases self.controllers.len() - i,
        {
            let w = self.controllers[i].window;
            if w != 0 {
                ws.push(w);
            }
            i = i + 1;
        }
        ws
    }

    /// The controllers whose window is set, each with its window, in
    /// controller order.
    pub fn active_targets(&self) -> (ts: Vec<(usize, u64)>)
        ensures
            ts@ == targets_below(self.controllers@, self.controllers.len() as nat),
    {
        let mut ts: Vec<(usize, u64)> = Vec::new();
        let mut i: usize = 0;
        while i < self.controllers.len()
            invariant
                i <= self.controllers.len(),
                ts@ == targets_below(self.controllers@, i as nat),
            decreases self.controllers.len() - i,
        {
            let w = self.controllers[i].window;
            if w != 0 {
                ts.push((i, w));
            }
            i = i + 1;
        }
        ts
    }

    /// The user pressed `new_key` to rebind a main slot. Nothing changes
    /// (and `false` is returned) when the key is already the slot's key or
    /// is used by another main binding; otherwise the key is stored and the
    /// routed actions follow it.
    pub fn bind_main_key(&mut self, slot: MainSlot, new_key: Key) -> (accepted: bool)
        ensures
            accepted == (old(self).main_bindings.main_key(slot) != new_key
                && !old(self).main_bindings.binds(new_key)),
            accepted ==> final(self).main_bindings == old(self).main_bindings.with_main_key(slot, new_key),
            accepted ==> final(self).table() == (if main_slot_routed(slot) {
                reroute_main_table(old(self).table(), old(self).main_bindings.main_key(slot), new_key)
            } else {
                old(self).table()
            }),
            accepted && slot != MainSlot::ToggleMirroring ==> no_route_sends(
                final(self).table(),
                old(self).main_bindings.main_key(slot),
            ),
            slot == MainSlot::ToggleMirroring ==> final(self).table() == old(self).table(),
            !accepted ==> final(self).main_bindings == old(self).main_bindings,
            !accepted ==> final(self).table() == old(self).table(),
            final(self).controllers == old(self).controllers,
            final(self).hidden == old(self).hidden,
            final(self).mirroring == old(self).mirroring,
            final(self).talking == old(self).talking,
            final(self).raw_device == old(self).raw_device,
            old(self).wf() ==> final(self).wf(),
    {
        let old_key = self.main_bindings.get(slot);
        if old_key == new_key {
            return false;
        }
        if self.is_bound_main(&new_key) {
            return false;
        }
        self.main_bindings.set(slot, new_key);
        match slot {
            MainSlot::ToggleMirroring => {},
            _ => {
                self.reroute_main(&old_key, &new_key);
                proof {
                    lemma_main_reroute_drops_old_key(old(self).table(), old_key, new_key);
                }
            },
        }
        true
    }

    /// The user cleared a main slot: its key becomes 0 and, unless it is
    /// the mirroring toggle, every action that sent the old key is removed
    /// from the routes.
    pub fn clear_main_key(&mut self, slot: MainSlot)
        ensures
            final(self).main_bindings == old(self).main_bindings.with_main_key(slot, 0),
            final(self).table() == (if main_slot_routed(slot) {
                reroute_main_table(old(self).table(), old(self).main_bindings.main_key(slot), 0)
            } else {
                old(self).table()
            }),
            slot != MainSlot::ToggleMirroring ==> no_route_sends(
                final(self).table(),
                old(self).main_bindings.main_key(slot),
            ),
            slot == MainSlot::ToggleMirroring ==> final(self).table() == old(self).table(),
            final(self).controllers == old(self).controllers,
            final(self).hidden == old(self).hidden,
            final(self).mirroring == old(self).mirroring,
            final(self).talking == old(self).talking,
            final(self).raw_device == old(self).raw_device,
            old(self).wf() ==> final(self).wf(),
    {
        let old_key = self.main_bindings.get(slot);
        self.main_bindings.set(slot, 0);
        match slot {
            MainSlot::ToggleMirroring => {},
            _ => {
                self.reroute_main(&old_key, &0);
                proof {
                    lemma_main_reroute_drops_old_key(old(self).table(), old_key, 0);
                }
            },
        }
    }

    /// The user pressed `new_key` to rebind a slot of controller `ctl_ix`.
    /// The key is stored; unless it was already the slot's key (then
    /// `false` is returned), the old route goes and the slot's action is
    /// routed from the new key.
    pub fn bind_controller_key(&mut self, ctl_ix: usize, slot: Slot, new_key: Key) -> (accepted: bool)
        requires
            ctl_ix < old(self).controllers.len(),
        ensures
            ({
                let before = old(self).controllers[ctl_ix as int];
                let old_key = before.bindings.slot_key(slot);
                let main = old(self).main_bindings;
                &&& accepted == (old_key != new_key)
                &&& final(self).controllers@ == old(self).controllers@.update(
                    ctl_ix as int,
                    Controller { bindings: before.bindings.with_slot_key(slot, new_key), ..before },
                )
                &&& final(self).table() == (if accepted {
                    reroute_table(
                        old(self).table(),
                        ctl_ix,
                        old_key,
                        new_key,
                        main.target_key(slot),
                        Some(main.action_for(slot)),
                    )
                } else {
                    old(self).table()
                })
            }),
            final(self).main_bindings == old(self).main_bindings,
            final(self).hidden == old(self).hidden,
            final(self).mirroring == old(self).mirroring,
            final(self).talking == old(self).talking,
            final(self).raw_device == old(self).raw_device,
            mirrors_consistent(old(self).controllers@) ==> mirrors_consistent(final(self).controllers@),
            mirrors_in_range(old(self).controllers@) ==> mirrors_in_range(final(self).controllers@),
            old(self).wf() ==> final(self).wf(),
    {
        let mut ctl = self.controllers[ctl_ix];
        let old_key = ctl.bindings.swap(slot, new_key);
        self.controllers[ctl_ix] = ctl;
        proof {
            if old(self).wf() {
                assert forall|j: int, x: usize|
                    0 <= j < self.controllers.len() && #[trigger] self.controllers@[j].mirrored.has(x)
                    implies x < self.controllers.len() by {
                    assert(old(self).controllers@[j].mirrored.has(x));
                }
            }
        }
        if old_key == new_key {
            return false;
        }
        let main_key = self.main_bindings.target(slot);
        let action = self.main_bindings.action(slot);
        self.reroute(ctl_ix, &old_key, &new_key, &main_key, Some(action));
        true
    }

    /// The user cleared a slot of controller `ctl_ix`: its key becomes 0
    /// and its route goes.
    pub fn clear_controller_key(&mut self, ctl_ix: usize, slot: Slot)
        requires
            ctl_ix < old(self).controllers.len(),
        ensures
            ({
                let before = old(self).controllers[ctl_ix as int];
                let main = old(self).main_bindings;
                &&& final(self).controllers@ == old(self).controllers@.update(
                    ctl_ix as int,
                    Controller { bindings: before.bindings.with_slot_key(slot, 0), ..before },
                )
                &&& final(self).table() == reroute_table(
                    old(self).table(),
                    ctl_ix,
                    before.bindings.slot_key(slot),
                    0,
                    main.target_key(slot),
                    None,
                )
            }),
            final(self).main_bindings == old(self).main_bindings,
            final(self).hidden == old(self).hidden,
            final(self).mirroring == old(self).mirroring,
            final(self).talking == old(self).talking,
            final(self).raw_device == old(self).raw_device,
            mirrors_consistent(old(self).controllers@) ==> mirrors_consistent(final(self).controllers@),
            mirrors_in_range(old(self).controllers@) ==> mirrors_in_range(final(self).controllers@),
            old(self).wf() ==> final(self).wf(),
    {
        let mut ctl = self.controllers[ctl_ix];
        let old_key = ctl.bindings.swap(slot, 0);
        self.controllers[ctl_ix] = ctl;
        proof {
            if old(self).wf() {
                assert forall|j: int, x: usize|
                    0 <= j < self.controllers.len() && #[trigger] self.controllers@[j].mirrored.has(x)
                    implies x < self.controllers.len() by {
                    assert(old(self).controllers@[j].mirrored.has(x));
                }
            }
        }
        let main_key = self.main_bindings.target(slot);
        self.reroute(ctl_ix, &old_key, &0, &main_key, None);
    }
}

} // verus!
