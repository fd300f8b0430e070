use vstd::prelude::*;
use crate::bindings::Action;
use crate::keys::{evdev_keysym, evdev_code_to_gdk, Key, KEY_HOME};
use crate::routes::{route_table, routes_get, routes_of, Route};
use crate::state::{routes_below, Controller, State, NO_MIRROR};

verus! {

/// How a key is delivered to a window.
#[derive(Clone, Copy, Debug, PartialEq, Eq, Structural)]
pub enum SendKind {
    /// Key down only.
    Down,
    /// Key up only.
    Up,
    /// A full key press: down, then up.
    Tap,
    /// A full key press with Shift held.
    Shifted,
}

/// One key delivery to the window of a controller.
#[derive(Clone, Copy, Debug, PartialEq, Eq, Structural)]
pub struct KeySend {
    pub controller: usize,
    pub kind: SendKind,
    pub key: Key,
}

/// One key delivery to the window of a controller, for raw input mode. The
/// controller is named so that the send goes through its own display
/// handle when it has one.
#[derive(Clone, Copy, Debug, PartialEq, Eq, Structural)]
pub struct RawSend {
    pub controller: usize,
    pub window: u64,
    pub kind: SendKind,
    pub key: Key,
}

/// What the application does after a key press: deliver `sends` in order,
/// and show the new mirroring mode when the press toggled it.
pub struct PressOutcome {
    pub sends: Vec<KeySend>,
    pub mirroring_changed: Option<bool>,
}

pub open spec fn send(controller: usize, kind: SendKind, key: Key) -> KeySend {
    KeySend { controller, kind, key }
}

/// Key downs (or ups) of `key` for each controller in `ctls`.
pub open spec fn sends_to(ctls: Seq<usize>, kind: SendKind, key: Key) -> Seq<KeySend> {
    ctls.map_values(|i: usize| send(i, kind, key))
}

/// One routed action on key press, for controller `target` on behalf of
/// the route of controller `primary`, given the deliveries so far and the
/// talking set. Outside the talking state simple, keepalive, low-throw and
/// debug actions send their key (held, held, tapped, tapped with Shift);
/// a talk action toggles the target's talking state (releasing or tapping
/// the key) unless the target is the route's own controller and mirrors
/// another one.
pub open spec fn press_action(
    acc: (Seq<KeySend>, Set<usize>),
    target: usize,
    primary: usize,
    a: Action,
    target_has_mirror: bool,
    talking: bool,
) -> (Seq<KeySend>, Set<usize>) {
    let (sends, talk) = acc;
    match a {
        Action::Simple(k) => if !talking {
            (sends.push(send(target, SendKind::Down, k)), talk)
        } else {
            acc
        },
        Action::Keepalive(_) => if !talking {
            (sends.push(send(target, SendKind::Down, KEY_HOME)), talk)
        } else {
            acc
        },
        Action::LowThrow(k) => if !talking {
            (sends.push(send(target, SendKind::Tap, k)), talk)
        } else {
            acc
        },
        Action::Debug(k) => if !talking {
            (sends.push(send(target, SendKind::Shifted, k)), talk)
        } else {
            acc
        },
        Action::Talk(k) => if target != primary || !target_has_mirror {
            if talk.contains(target) {
                (sends.push(send(target, SendKind::Up, k)), talk.remove(target))
            } else {
                (sends.push(send(target, SendKind::Tap, k)), talk.insert(target))
            }
        } else {
            acc
        },
    }
}

/// The action of a route applied, in order, to the controllers `ms` that
/// mirror its controller.
pub open spec fn press_mirrors(
    acc: (Seq<KeySend>, Set<usize>),
    ms: Seq<usize>,
    primary: usize,
    a: Action,
    ctls: Seq<Controller>,
    talking: bool,
) -> (Seq<KeySend>, Set<usize>)
    decreases ms.len(),
{
    if ms.len() == 0 {
        acc
    } else {
        let i = ms.last();
        press_action(
            press_mirrors(acc, ms.drop_last(), primary, a, ctls, talking),
            i,
            primary,
            a,
            ctls[i as int].mirror != NO_MIRROR,
            talking,
        )
    }
}

/// One route on key press: its action for its own controller, then, when
/// mirroring is on, for each controller that mirrors it.
pub open spec fn press_route(
    acc: (Seq<KeySend>, Set<usize>),
    r: Route,
    ctls: Seq<Controller>,
    mirroring: bool,
    talking: bool,
) -> (Seq<KeySend>, Set<usize>) {
    let c = r.0;
    let first = press_action(acc, c, c, r.1, ctls[c as int].mirror != NO_MIRROR, talking);
    if mirroring {
        press_mirrors(first, ctls[c as int].mirrored.members(), c, r.1, ctls, talking)
    } else {
        first
    }
}

/// All routes of a key on key press, in order.
pub open spec fn press_routes(
    acc: (Seq<KeySend>, Set<usize>),
    rs: Seq<Route>,
    ctls: Seq<Controller>,
    mirroring: bool,
    talking: bool,
) -> (Seq<KeySend>, Set<usize>)
    decreases rs.len(),
{
    if rs.len() == 0 {
        acc
    } else {
        press_route(press_routes(acc, rs.drop_last(), ctls, mirroring, talking), rs.last(), ctls, mirroring, talking)
    }
}

/// One routed action on key release: held keys (simple actions and
/// keepalive) are released; the others send nothing.
pub open spec fn release_action(sends: Seq<KeySend>, target: usize, a: Action) -> Seq<KeySend> {
    match a {
        Action::Simple(k) => sends.push(send(target, SendKind::Up, k)),
        Action::Keepalive(_) => sends.push(send(target, SendKind::Up, KEY_HOME)),
        _ => sends,
    }
}

pub open spec fn release_mirrors(sends: Seq<KeySend>, ms: Seq<usize>, a: Action) -> Seq<KeySend>
    decreases ms.len(),
{
    if ms.len() == 0 {
        sends
    } else {
        release_action(release_mirrors(sends, ms.drop_last(), a), ms.last(), a)
    }
}

pub open spec fn release_route(sends: Seq<KeySend>, r: Route, ctls: Seq<Controller>, mirroring: bool) -> Seq<KeySend> {
    let first = release_action(sends, r.0, r.1);
    if mirroring {
        release_mirrors(first, ctls[r.0 as int].mirrored.members(), r.1)
    } else {
        first
    }
}

pub open spec fn release_routes(sends: Seq<KeySend>, rs: Seq<Route>, ctls: Seq<Controller>, mirroring: bool) -> Seq<KeySend>
    decreases rs.len(),
{
    if rs.len() == 0 {
        sends
    } else {
        release_route(release_routes(sends, rs.drop_last(), ctls, mirroring), rs.last(), ctls, mirroring)
    }
}

/// The outcome of a key press of `key` in state `s`: the deliveries, the
/// talking set and the mirroring mode afterwards. Controllers in the talking
/// state get the key held down; outside the talking state the mirroring
/// toggle key flips mirroring; then each route of the key is applied.
pub open spec fn press_result(s: State, key: Key) -> (Seq<KeySend>, Set<usize>, bool) {
    let talking = s.talking@ != Set::<usize>::empty();
    let held = if talking {
        sends_to(s.talking.members(), SendKind::Down, key)
    } else {
        Seq::empty()
    };
    let mirroring = if !talking && key == s.main_bindings.toggle_mirroring {
        !s.mirroring
    } else {
        s.mirroring
    };
    let r = press_routes(
        (held, s.talking@),
        routes_of(s.table(), key),
        s.controllers@,
        mirroring,
        talking,
    );
    (r.0, r.1, mirroring)
}

/// The deliveries of a key release of `key` in state `s`: controllers in
/// the talking state get the key released; otherwise each route of the key
/// releases what its press held.
pub open spec fn release_result(s: State, key: Key) -> Seq<KeySend> {
    if s.talking@ != Set::<usize>::empty() {
        sends_to(s.talking.members(), SendKind::Up, key)
    } else {
        release_routes(Seq::empty(), routes_of(s.table(), key), s.controllers@, s.mirroring)
    }
}

/// Whether every talk route of `rs` names a controller that fits in a
/// talking set.
pub open spec fn talk_routes_fit(rs: Seq<Route>) -> bool {
    forall|j: int| 0 <= j < rs.len() && (#[trigger] rs[j]).1 is Talk ==> rs[j].0 < usize::BITS
}

/// Whether a press of `key` meets the talking-set bound of `key_press`:
/// every talk route of the key names a controller below `usize::BITS`.
pub fn talk_routes_fit_for(s: &State, key: Key) -> (r: bool)
    ensures
        r == talk_routes_fit(routes_of(s.table(), key)),
{
    match routes_get(&s.routes, key) {
        Some(rs) => {
            let mut j: usize = 0;
            while j < rs.len()
                invariant
                    j <= rs.len(),
                    rs@ == routes_of(s.table(), key),
                    forall|i: int| 0 <= i < j && (#[trigger] rs@[i]).1 is Talk ==> rs@[i].0 < usize::BITS,
                decreases rs.len() - j,
            {
                let (c, a) = rs[j];
                match a {
                    Action::Talk(_) => {
                        if c >= usize::BITS as usize {
                            return false;
                        }
                    },
                    _ => {},
                }
                j = j + 1;
            }
            true
        },
        None => true,
    }
}

fn press_step(
    talking: &mut crate::bitset::AtomicBitSet,
    sends: &mut Vec<KeySend>,
    target: usize,
    primary: usize,
    a: Action,
    target_has_mirror: bool,
    talking_at_start: bool,
)
    requires
        a is Talk ==> target < usize::BITS,
    ensures
        (final(sends)@, final(talking)@) == press_action(
            (old(sends)@, old(talking)@),
            target,
            primary,
            a,
            target_has_mirror,
            talking_at_start,
        ),
{
    match a {
        Action::Simple(k) => {
            if !talking_at_start {
                sends.push(KeySend { controller: target, kind: SendKind::Down, key: k });
            }
        },
        Action::Keepalive(_) => {
            if !talking_at_start {
                sends.push(KeySend { controller: target, kind: SendKind::Down, key: KEY_HOME });
            }
        },
        Action::LowThrow(k) => {
            if !talking_at_start {
                sends.push(KeySend { controller: target, kind: SendKind::Tap, key: k });
            }
        },
        Action::Debug(k) => {
            if !talking_at_start {
                sends.push(KeySend { controller: target, kind: SendKind::Shifted, key: k });
            }
        },
        Action::Talk(k) => {
            if target != primary || !target_has_mirror {
                let was_talking = talking.toggle(target);
                if was_talking {
                    sends.push(KeySend { controller: target, kind: SendKind::Up, key: k });
                } else {
                    sends.push(KeySend { controller: target, kind: SendKind::Tap, key: k });
                }
            }
        },
    }
}

fn release_step(sends: &mut Vec<KeySend>, target: usize, a: Action)
    ensures
        final(sends)@ == release_action(old(sends)@, target, a),
{
    match a {
        Action::Simple(k) => sends.push(KeySend { controller: target, kind: SendKind::Up, key: k }),
        Action::Keepalive(_) => sends.push(
            KeySend { controller: target, kind: SendKind::Up, key: KEY_HOME },
        ),
        _ => {},
    }
}

/// The deliveries of `kind` of `key` to each controller of `ids`.
fn sends_for(ids: &Vec<usize>, kind: SendKind, key: Key) -> (sends: Vec<KeySend>)
    ensures
        sends@ == sends_to(ids@, kind, key),
{
    let mut sends: Vec<KeySend> = Vec::new();
    let mut i: usize = 0;
    while i < ids.len()
        invariant
            i <= ids.len(),
            sends@ == sends_to(ids@.take(i as int), kind, key),
        decreases ids.len() - i,
    {
        sends.push(KeySend { controller: ids[i], kind, key });
        proof {
            assert(ids@.take(i + 1) == ids@.take(i as int).push(ids@[i as int]));
            assert(sends_to(ids@.take(i + 1), kind, key) =~= sends_to(ids@.take(i as int), kind, key).push(send(ids@[i as int], kind, key)));
        }
        i = i + 1;
    }
    assert(ids@.take(ids.len() as int) =~= ids@);
    sends
}

impl State {
    /// Decides what a key press of `event_key` does. Controllers in the
    /// talking state get the key held down. Outside the talking state the
    /// mirroring toggle key flips mirroring. Then each route of the key is
    /// applied to its controller and, while mirroring, to the controllers
    /// that mirror it.
    pub fn key_press(&mut self, event_key: Key) -> (out: PressOutcome)
        requires
            old(self).wf(),
            talk_routes_fit(routes_of(old(self).table(), event_key)),
        ensures
            ({
                let (sends, talk, mirroring) = press_result(*old(self), event_key);
                &&& out.sends@ == sends
                &&& final(self).talking@ == talk
                &&& final(self).mirroring == mirroring
                &&& out.mirroring_changed == (if mirroring != old(self).mirroring {
                    Some(mirroring)
                } else {
                    None
                })
            }),
            final(self).controllers == old(self).controllers,
            final(self).routes == old(self).routes,
            final(self).main_bindings == old(self).main_bindings,
            final(self).hidden == old(self).hidden,
            final(self).raw_device == old(self).raw_device,
    {
        let talking = !self.talking.is_empty();
        let mut sends: Vec<KeySend> = if talking {
            let ids = self.talking.to_vec();
            sends_for(&ids, SendKind::Down, event_key)
        } else {
            Vec::new()
        };
        let toggles = !talking && event_key == self.main_bindings.toggle_mirroring();
        let mirroring = if toggles {
            let m = !self.mirroring;
            self.mirroring = m;
            m
        } else {
            self.mirroring
        };
        let ghost ctls = self.controllers@;
        let ghost start = (sends@, self.talking@);
        match routes_get(&self.routes, event_key) {
            Some(rs) => {
                proof {
                    assert(routes_of(old(self).table(), event_key) == rs@);
                }
                let mut j: usize = 0;
                while j < rs.len()
                    invariant
                        j <= rs.len(),
                        self.controllers == old(self).controllers,
                        self.routes == old(self).routes,
                        self.main_bindings == old(self).main_bindings,
                        self.hidden == old(self).hidden,
                        self.raw_device == old(self).raw_device,
                        self.mirroring == mirroring,
                        ctls == self.controllers@,
                        routes_below(route_table(self.routes), self.controllers.len() as nat),
                        crate::state::mirrored_below(self.controllers@),
                        rs@ == route_table(self.routes)[event_key],
                        route_table(self.routes).contains_key(event_key),
                        talk_routes_fit(rs@),
                        (sends@, self.talking@) == press_routes(start, rs@.take(j as int), ctls, mirroring, talking),
                    decreases rs.len() - j,
                {
                    let (c, a) = rs[j];
                    proof {
                        assert(rs@[j as int] == route_table(self.routes)[event_key][j as int]);
                    }
                    let ctl = self.controllers[c];
                    let ghost before = (sends@, self.talking@);
                    press_step(&mut self.talking, &mut sends, c, c, a, ctl.mirror != NO_MIRROR, talking);
                    if mirroring {
                        let ms = ctl.mirrored.to_vec();
                        let ghost first = (sends@, self.talking@);
                        let mut k: usize = 0;
                        while k < ms.len()
                            invariant
                                k <= ms.len(),
                                ms@ == ctls[c as int].mirrored.members(),
                                c < ctls.len(),
                                self.controllers == old(self).controllers,
                                self.routes == old(self).routes,
                                self.main_bindings == old(self).main_bindings,
                                self.hidden == old(self).hidden,
                                self.raw_device == old(self).raw_device,
                                self.mirroring == mirroring,
                                ctls == self.controllers@,
                                crate::state::mirrored_below(self.controllers@),
                                (sends@, self.talking@) == press_mirrors(first, ms@.take(k as int), c, a, ctls, talking),
                            decreases ms.len() - k,
                        {
                            let i = ms[k];
                            proof {
                                crate::bitset::lemma_members_are_members(ctls[c as int].mirrored, k as int);
                            }
                            let m_ctl = self.controllers[i];
                            press_step(&mut self.talking, &mut sends, i, c, a, m_ctl.mirror != NO_MIRROR, talking);
                            proof {
                                assert(ms@.take(k + 1).drop_last() =~= ms@.take(k as int));
                            }
                            k = k + 1;
                        }
                        assert(ms@.take(ms.len() as int) =~= ms@);
                    }
                    proof {
                        assert(rs@.take(j + 1).drop_last() =~= rs@.take(j as int));
                    }
                    j = j + 1;
                }
                assert(rs@.take(rs.len() as int) =~= rs@);
            },
            None => {},
        }
        PressOutcome { sends, mirroring_changed: if toggles { Some(mirroring) } else { None } }
    }
}

impl State {
    /// `key_press`, when every talk route of the key fits in the talking
    /// set; otherwise `None`, and nothing changes.
    pub fn try_key_press(&mut self, event_key: Key) -> (out: Option<PressOutcome>)
        requires
            old(self).wf(),
        ensures
            out is None <==> !talk_routes_fit(routes_of(old(self).table(), event_key)),
            out is None ==> *final(self) == *old(self),
            out matches Some(o) ==> ({
                let (sends, talk, mirroring) = press_result(*old(self), event_key);
                &&& o.sends@ == sends
                &&& final(self).talking@ == talk
                &&& final(self).mirroring == mirroring
                &&& o.mirroring_changed == (if mirroring != old(self).mirroring {
                    Some(mirroring)
                } else {
                    None
                })
                &&& final(self).controllers == old(self).controllers
                &&& final(self).routes == old(self).routes
                &&& final(self).main_bindings == old(self).main_bindings
                &&& final(self).hidden == old(self).hidden
                &&& final(self).raw_device == old(self).raw_device
            }),
    {
        if talk_routes_fit_for(self, event_key) {
            Some(self.key_press(event_key))
        } else {
            None
        }
    }

    /// Decides what a key release of `event_key` does. Controllers in the
    /// talking state get the key released. Otherwise each route of the key
    /// releases the keys that its press held down, for its controller and,
    /// while mirroring, for the controllers that mirror it.
    pub fn key_release(&self, event_key: Key) -> (sends: Vec<KeySend>)
        requires
            self.wf(),
        ensures
            sends@ == release_result(*self, event_key),
    {
        if !self.talking.is_empty() {
            let ids = self.talking.to_vec();
            return sends_for(&ids, SendKind::Up, event_key);
        }
        let mut sends: Vec<KeySend> = Vec::new();
        let mirroring = self.mirroring;
        match routes_get(&self.routes, event_key) {
            Some(rs) => {
                let mut j: usize = 0;
                while j < rs.len()
                    invariant
                        j <= rs.len(),
                        routes_below(route_table(self.routes), self.controllers.len() as nat),
                        rs@ == route_table(self.routes)[event_key],
                        route_table(self.routes).contains_key(event_key),
                        mirroring == self.mirroring,
                        sends@ == release_routes(Seq::empty(), rs@.take(j as int), self.controllers@, mirroring),
                    decreases rs.len() - j,
                {
                    let (c, a) = rs[j];
                    proof {
                        assert(rs@[j as int] == route_table(self.routes)[event_key][j as int]);
                    }
                    release_step(&mut sends, c, a);
                    if mirroring {
                        let ms = self.controllers[c].mirrored.to_vec();
                        let ghost first = sends@;
                        let mut k: usize = 0;
                        while k < ms.len()
                            invariant
                                k <= ms.len(),
                                sends@ == release_mirrors(first, ms@.take(k as int), a),
                            decreases ms.len() - k,
                        {
                            release_step(&mut sends, ms[k], a);
                            proof {
                                assert(ms@.take(k + 1).drop_last() =~= ms@.take(k as int));
                            }
                            k = k + 1;
                        }
                        assert(ms@.take(ms.len() as int) =~= ms@);
                    }
                    proof {
                        assert(rs@.take(j + 1).drop_last() =~= rs@.take(j as int));
                    }
                    j = j + 1;
                }
                assert(rs@.take(rs.len() as int) =~= rs@);
            },
            None => {},
        }
        sends
    }

    /// The periodic keepalive: a tap of Home for every controller, in
    /// order.
    pub fn keepalive_sends(&self) -> (sends: Vec<KeySend>)
        ensures
            sends@ == Seq::new(
                self.controllers.len() as nat,
                |i: int| send(i as usize, SendKind::Tap, KEY_HOME),
            ),
    {
        let mut sends: Vec<KeySend> = Vec::new();
        let mut i: usize = 0;
        while i < self.controllers.len()
            invariant
                i <= self.controllers.len(),
                sends@ == Seq::new(i as nat, |j: int| send(j as usize, SendKind::Tap, KEY_HOME)),
            decreases self.controllers.len() - i,
        {
            sends.push(KeySend { controller: i, kind: SendKind::Tap, key: KEY_HOME });
            proof {
                assert(sends@ =~= Seq::new((i + 1) as nat, |j: int| send(j as usize, SendKind::Tap, KEY_HOME)));
            }
            i = i + 1;
        }
        sends
    }
}

/// The deliveries for one raw input event: a key event (`is_key`) of a
/// forwarded key is pressed (`value` 1) or released (`value` 0) in the
/// window of every `(controller, window)` target, in order; anything else
/// delivers nothing.
pub open spec fn raw_sends(targets: Seq<(usize, u64)>, is_key: bool, code: u16, value: i32) -> Seq<RawSend> {
    if is_key && evdev_keysym(code) is Some && (value == 1 || value == 0) {
        let kind = if value == 1 {
            SendKind::Down
        } else {
            SendKind::Up
        };
        targets.map_values(
            |t: (usize, u64)| RawSend { controller: t.0, window: t.1, kind, key: evdev_keysym(code)->0 },
        )
    } else {
        Seq::empty()
    }
}

/// Decides what one raw input event delivers to the controllers' windows
/// (the targets that `State::active_targets` lists).
pub fn raw_event_sends(targets: &Vec<(usize, u64)>, is_key: bool, code: u16, value: i32) -> (sends: Vec<RawSend>)
    ensures
        sends@ == raw_sends(targets@, is_key, code, value),
{
    let mut sends: Vec<RawSend> = Vec::new();
    if !is_key {
        return sends;
    }
    let key = match evdev_code_to_gdk(code) {
        Some(k) => k,
        None => {
            return sends;
        },
    };
    let kind = if value == 1 {
        SendKind::Down
    } else if value == 0 {
        SendKind::Up
    } else {
        return sends;
    };
    let mut i: usize = 0;
    while i < targets.len()
        invariant
            i <= targets.len(),
            evdev_keysym(code) == Some(key),
            kind == (if value == 1 { SendKind::Down } else { SendKind::Up }),
            value == 1 || value == 0,
            is_key,
            sends@ == targets@.take(i as int).map_values(
                |t: (usize, u64)| RawSend { controller: t.0, window: t.1, kind, key },
            ),
        decreases targets.len() - i,
    {
        let (c, w) = targets[i];
        sends.push(RawSend { controller: c, window: w, kind, key });
        proof {
            assert(targets@.take(i + 1) == targets@.take(i as int).push(targets@[i as int]));
            assert(sends@ =~= targets@.take(i + 1).map_values(
                |t: (usize, u64)| RawSend { controller: t.0, window: t.1, kind, key },
            ));
        }
        i = i + 1;
    }
    assert(targets@.take(targets.len() as int) =~= targets@);
    sends
}

} // verus!
