use vstd::prelude::*;
use crate::keys::{Key, KEY_A, KEY_D, KEY_E, KEY_ESCAPE, KEY_F, KEY_F1, KEY_G, KEY_HOME, KEY_Q, KEY_R, KEY_RETURN, KEY_S, KEY_SHIFT_L, KEY_SPACE, KEY_SUPER_L, KEY_TAB, KEY_W};

verus! {

/// The keys that the game itself listens to. Controller keys are
/// turned into these before they are sent to a window.
#[derive(Clone, Copy, Debug, PartialEq, Eq, Structural)]
pub struct MainBindings {
    pub forward: Key,
    pub back: Key,
    pub left: Key,
    pub right: Key,
    pub jump: Key,
    pub dismount: Key,
    pub throw: Key,
    pub talk: Key,
    pub toggle_mirroring: Key,
    pub camera_toggle: Key,
    pub tasks: Key,
}

/// The keys that the user presses to drive one controller.
#[derive(Clone, Copy, Debug, PartialEq, Eq, Structural)]
pub struct Bindings {
    pub forward: Key,
    pub back: Key,
    pub left: Key,
    pub right: Key,
    pub jump: Key,
    pub dismount: Key,
    pub throw: Key,
    pub low_throw: Key,
    pub talk: Key,
    pub keepalive: Key,
    pub camera_toggle: Key,
    pub debug: Key,
    pub tasks: Key,
}

/// One binding of a controller.
#[derive(Clone, Copy, Debug, PartialEq, Eq, Structural)]
pub enum Slot {
    Forward,
    Back,
    Left,
    Right,
    Jump,
    Dismount,
    Throw,
    LowThrow,
    Talk,
    Keepalive,
    CameraToggle,
    Debug,
    Tasks,
}

/// One main binding.
#[derive(Clone, Copy, Debug, PartialEq, Eq, Structural)]
pub enum MainSlot {
    Forward,
    Back,
    Left,
    Right,
    Jump,
    Dismount,
    Throw,
    Talk,
    ToggleMirroring,
    CameraToggle,
    Tasks,
}

/// What a routed key press does to a controller's window.
#[derive(Clone, Copy, Debug, PartialEq, Eq, Structural)]
pub enum Action {
    /// Hold the key while the user holds the controller key.
    Simple(Key),
    /// Tap the key once.
    LowThrow(Key),
    /// Enter or leave the talking state, tapping or releasing the key.
    Talk(Key),
    /// Hold the keepalive key (Home) while the user holds the controller key.
    Keepalive(Key),
    /// Tap the key with Shift held.
    Debug(Key),
}

/// The main bindings of a new configuration: WASD to move, space to jump,
/// Escape to dismount, Super to throw, Return to talk, left Shift to toggle
/// mirroring, Tab for the camera and E for tasks.
pub open spec fn default_main_bindings() -> MainBindings {
    MainBindings {
        forward: KEY_W,
        back: KEY_S,
        left: KEY_A,
        right: KEY_D,
        jump: KEY_SPACE,
        dismount: KEY_ESCAPE,
        throw: KEY_SUPER_L,
        talk: KEY_RETURN,
        toggle_mirroring: KEY_SHIFT_L,
        camera_toggle: KEY_TAB,
        tasks: KEY_E,
    }
}

/// The bindings of a new controller.
pub open spec fn default_bindings() -> Bindings {
    Bindings {
        forward: KEY_W,
        back: KEY_S,
        left: KEY_A,
        right: KEY_D,
        jump: KEY_SPACE,
        dismount: KEY_ESCAPE,
        throw: KEY_F,
        low_throw: KEY_R,
        talk: KEY_RETURN,
        keepalive: KEY_Q,
        camera_toggle: KEY_TAB,
        debug: KEY_G,
        tasks: KEY_E,
    }
}

/// The number of controller bindings that are routed.
pub const SLOT_COUNT: usize = 13;

/// The order in which a controller's bindings are entered into the routing
/// table when a configuration is loaded.
pub open spec fn route_slot(i: int) -> Slot {
    if i == 0 {
        Slot::Forward
    } else if i == 1 {
        Slot::Back
    } else if i == 2 {
        Slot::Left
    } else if i == 3 {
        Slot::Right
    } else if i == 4 {
        Slot::Jump
    } else if i == 5 {
        Slot::Dismount
    } else if i == 6 {
        Slot::Throw
    } else if i == 7 {
        Slot::LowThrow
    } else if i == 8 {
        Slot::Talk
    } else if i == 9 {
        Slot::Keepalive
    } else if i == 10 {
        Slot::CameraToggle
    } else if i == 11 {
        Slot::Tasks
    } else {
        Slot::Debug
    }
}

/// The slot at position `i` of the loading order.
pub fn route_slot_at(i: usize) -> (s: Slot)
    requires
        i < SLOT_COUNT,
    ensures
        s == route_slot(i as int),
{
    match i {
        0 => Slot::Forward,
        1 => Slot::Back,
        2 => Slot::Left,
        3 => Slot::Right,
        4 => Slot::Jump,
        5 => Slot::Dismount,
        6 => Slot::Throw,
        7 => Slot::LowThrow,
        8 => Slot::Talk,
        9 => Slot::Keepalive,
        10 => Slot::CameraToggle,
        11 => Slot::Tasks,
        _ => Slot::Debug,
    }
}

impl Action {
    pub open spec fn key_of(self) -> Key {
        match self {
            Action::Simple(k) => k,
            Action::LowThrow(k) => k,
            Action::Talk(k) => k,
            Action::Keepalive(k) => k,
            Action::Debug(k) => k,
        }
    }

    /// The same kind of action, carrying `key`.
    pub open spec fn with_key(self, key: Key) -> Action {
        match self {
            Action::Simple(_) => Action::Simple(key),
            Action::LowThrow(_) => Action::LowThrow(key),
            Action::Talk(_) => Action::Talk(key),
            Action::Keepalive(_) => Action::Keepalive(key),
            Action::Debug(_) => Action::Debug(key),
        }
    }

    /// The key this action sends.
    pub fn key(&self) -> (k: &Key)
        ensures
            *k == self.key_of(),
    {
        match self {
            Action::Simple(key) => key,
            Action::LowThrow(key) => key,
            Action::Talk(key) => key,
            Action::Keepalive(key) => key,
            Action::Debug(key) => key,
        }
    }

    /// Replaces the key this action sends, keeping its kind.
    pub fn set_key(&mut self, key: Key)
        ensures
            *final(self) == old(self).with_key(key),
    {
        match self {
            Action::Simple(k) => *k = key,
            Action::LowThrow(k) => *k = key,
            Action::Talk(k) => *k = key,
            Action::Keepalive(k) => *k = key,
            Action::Debug(k) => *k = key,
        }
    }
}

impl MainBindings {
    /// The main key of a main slot.
    pub open spec fn main_key(self, slot: MainSlot) -> Key {
        match slot {
            MainSlot::Forward => self.forward,
            MainSlot::Back => self.back,
            MainSlot::Left => self.left,
            MainSlot::Right => self.right,
            MainSlot::Jump => self.jump,
            MainSlot::Dismount => self.dismount,
            MainSlot::Throw => self.throw,
            MainSlot::Talk => self.talk,
            MainSlot::ToggleMirroring => self.toggle_mirroring,
            MainSlot::CameraToggle => self.camera_toggle,
            MainSlot::Tasks => self.tasks,
        }
    }

    /// These bindings with the key of `slot` replaced by `key`.
    pub open spec fn with_main_key(self, slot: MainSlot, key: Key) -> MainBindings {
        match slot {
            MainSlot::Forward => MainBindings { forward: key, ..self },
            MainSlot::Back => MainBindings { back: key, ..self },
            MainSlot::Left => MainBindings { left: key, ..self },
            MainSlot::Right => MainBindings { right: key, ..self },
            MainSlot::Jump => MainBindings { jump: key, ..self },
            MainSlot::Dismount => MainBindings { dismount: key, ..self },
            MainSlot::Throw => MainBindings { throw: key, ..self },
            MainSlot::Talk => MainBindings { talk: key, ..self },
            MainSlot::ToggleMirroring => MainBindings { toggle_mirroring: key, ..self },
            MainSlot::CameraToggle => MainBindings { camera_toggle: key, ..self },
            MainSlot::Tasks => MainBindings { tasks: key, ..self },
        }
    }

    /// The main key that a controller binding is sent as: the main
    /// key of the same name, the throw key for a low throw, Home for
    /// keepalive and F1 for debug.
    pub open spec fn target_key(self, slot: Slot) -> Key {
        match slot {
            Slot::Forward => self.forward,
            Slot::Back => self.back,
            Slot::Left => self.left,
            Slot::Right => self.right,
            Slot::Jump => self.jump,
            Slot::Dismount => self.dismount,
            Slot::Throw => self.throw,
            Slot::LowThrow => self.throw,
            Slot::Talk => self.talk,
            Slot::Keepalive => KEY_HOME,
            Slot::CameraToggle => self.camera_toggle,
            Slot::Debug => KEY_F1,
            Slot::Tasks => self.tasks,
        }
    }

    /// The action that a controller binding is routed to.
    pub open spec fn action_for(self, slot: Slot) -> Action {
        let k = self.target_key(slot);
        match slot {
            Slot::LowThrow => Action::LowThrow(k),
            Slot::Talk => Action::Talk(k),
            Slot::Keepalive => Action::Keepalive(k),
            Slot::Debug => Action::Debug(k),
            _ => Action::Simple(k),
        }
    }

    /// Whether `key` is one of the main bindings that a game action uses
    /// (all of them except the mirroring toggle).
    pub open spec fn binds(self, key: Key) -> bool {
        ||| self.forward == key
        ||| self.back == key
        ||| self.left == key
        ||| self.right == key
        ||| self.jump == key
        ||| self.dismount == key
        ||| self.throw == key
        ||| self.talk == key
        ||| self.camera_toggle == key
        ||| self.tasks == key
    }

    pub fn forward(&self) -> (k: Key)
        ensures
            k == self.forward,
    {
        self.forward
    }

    pub fn back(&self) -> (k: Key)
        ensures
            k == self.back,
    {
        self.back
    }

    pub fn left(&self) -> (k: Key)
        ensures
            k == self.left,
    {
        self.left
    }

    pub fn right(&self) -> (k: Key)
        ensures
            k == self.right,
    {
        self.right
    }

    pub fn jump(&self) -> (k: Key)
        ensures
            k == self.jump,
    {
        self.jump
    }

    pub fn dismount(&self) -> (k: Key)
        ensures
            k == self.dismount,
    {
        self.dismount
    }

    pub fn throw(&self) -> (k: Key)
        ensures
            k == self.throw,
    {
        self.throw
    }

    pub fn talk(&self) -> (k: Key)
        ensures
            k == self.talk,
    {
        self.talk
    }

    pub fn toggle_mirroring(&self) -> (k: Key)
        ensures
            k == self.toggle_mirroring,
    {
        self.toggle_mirroring
    }

    /// A low throw uses the main throw key.
    pub fn low_throw(&self) -> (k: Key)
        ensures
            k == self.throw,
    {
        self.throw()
    }

    pub fn camera_toggle(&self) -> (k: Key)
        ensures
            k == self.camera_toggle,
    {
        self.camera_toggle
    }

    pub fn tasks(&self) -> (k: Key)
        ensures
            k == self.tasks,
    {
        self.tasks
    }

    /// The key of a main slot.
    pub fn get(&self, slot: MainSlot) -> (k: Key)
        ensures
            k == self.main_key(slot),
    {
        match slot {
            MainSlot::Forward => self.forward,
            MainSlot::Back => self.back,
            MainSlot::Left => self.left,
            MainSlot::Right => self.right,
            MainSlot::Jump => self.jump,
            MainSlot::Dismount => self.dismount,
            MainSlot::Throw => self.throw,
            MainSlot::Talk => self.talk,
            MainSlot::ToggleMirroring => self.toggle_mirroring,
            MainSlot::CameraToggle => self.camera_toggle,
            MainSlot::Tasks => self.tasks,
        }
    }

    /// Stores `key` in a main slot.
    pub fn set(&mut self, slot: MainSlot, key: Key)
        ensures
            *final(self) == old(self).with_main_key(slot, key),
    {
        match slot {
            MainSlot::Forward => self.forward = key,
            MainSlot::Back => self.back = key,
            MainSlot::Left => self.left = key,
            MainSlot::Right => self.right = key,
            MainSlot::Jump => self.jump = key,
            MainSlot::Dismount => self.dismount = key,
            MainSlot::Throw => self.throw = key,
            MainSlot::Talk => self.talk = key,
            MainSlot::ToggleMirroring => self.toggle_mirroring = key,
            MainSlot::CameraToggle => self.camera_toggle = key,
            MainSlot::Tasks => self.tasks = key,
        }
    }

    /// The main key that a controller binding is sent as.
    pub fn target(&self, slot: Slot) -> (k: Key)
        ensures
            k == self.target_key(slot),
    {
        match slot {
            Slot::Forward => self.forward(),
            Slot::Back => self.back(),
            Slot::Left => self.left(),
            Slot::Right => self.right(),
            Slot::Jump => self.jump(),
            Slot::Dismount => self.dismount(),
            Slot::Throw => self.throw(),
            Slot::LowThrow => self.low_throw(),
            Slot::Talk => self.talk(),
            Slot::Keepalive => KEY_HOME,
            Slot::CameraToggle => self.camera_toggle(),
            Slot::Debug => KEY_F1,
            Slot::Tasks => self.tasks(),
        }
    }

    /// The action that a controller binding is routed to.
    pub fn action(&self, slot: Slot) -> (a: Action)
        ensures
            a == self.action_for(slot),
    {
        let k = self.target(slot);
        match slot {
            Slot::LowThrow => Action::LowThrow(k),
            Slot::Talk => Action::Talk(k),
            Slot::Keepalive => Action::Keepalive(k),
            Slot::Debug => Action::Debug(k),
            _ => Action::Simple(k),
        }
    }
}

impl Default for MainBindings {
    fn default() -> (b: Self)
        ensures
            b == default_main_bindings(),
    {
        MainBindings {
            forward: KEY_W,
            back: KEY_S,
            left: KEY_A,
            right: KEY_D,
            jump: KEY_SPACE,
            dismount: KEY_ESCAPE,
            throw: KEY_SUPER_L,
            talk: KEY_RETURN,
            toggle_mirroring: KEY_SHIFT_L,
            camera_toggle: KEY_TAB,
            tasks: KEY_E,
        }
    }
}

impl Bindings {
    /// The key bound to a slot (0 when unbound).
    pub open spec fn slot_key(self, slot: Slot) -> Key {
        match slot {
            Slot::Forward => self.forward,
            Slot::Back => self.back,
            Slot::Left => self.left,
            Slot::Right => self.right,
            Slot::Jump => self.jump,
            Slot::Dismount => self.dismount,
            Slot::Throw => self.throw,
            Slot::LowThrow => self.low_throw,
            Slot::Talk => self.talk,
            Slot::Keepalive => self.keepalive,
            Slot::CameraToggle => self.camera_toggle,
            Slot::Debug => self.debug,
            Slot::Tasks => self.tasks,
        }
    }

    /// These bindings with the key of `slot` replaced by `key`.
    pub open spec fn with_slot_key(self, slot: Slot, key: Key) -> Bindings {
        match slot {
            Slot::Forward => Bindings { forward: key, ..self },
            Slot::Back => Bindings { back: key, ..self },
            Slot::Left => Bindings { left: key, ..self },
            Slot::Right => Bindings { right: key, ..self },
            Slot::Jump => Bindings { jump: key, ..self },
            Slot::Dismount => Bindings { dismount: key, ..self },
            Slot::Throw => Bindings { throw: key, ..self },
            Slot::LowThrow => Bindings { low_throw: key, ..self },
            Slot::Talk => Bindings { talk: key, ..self },
            Slot::Keepalive => Bindings { keepalive: key, ..self },
            Slot::CameraToggle => Bindings { camera_toggle: key, ..self },
            Slot::Debug => Bindings { debug: key, ..self },
            Slot::Tasks => Bindings { tasks: key, ..self },
        }
    }

    /// The key bound to a slot.
    pub fn get(&self, slot: Slot) -> (k: Key)
        ensures
            k == self.slot_key(slot),
    {
        match slot {
            Slot::Forward => self.forward,
            Slot::Back => self.back,
            Slot::Left => self.left,
            Slot::Right => self.right,
            Slot::Jump => self.jump,
            Slot::Dismount => self.dismount,
            Slot::Throw => self.throw,
            Slot::LowThrow => self.low_throw,
            Slot::Talk => self.talk,
            Slot::Keepalive => self.keepalive,
            Slot::CameraToggle => self.camera_toggle,
            Slot::Debug => self.debug,
            Slot::Tasks => self.tasks,
        }
    }

    /// Stores `key` in a slot and returns the key that was there.
    pub fn swap(&mut self, slot: Slot, key: Key) -> (prev: Key)
        ensures
            prev == old(self).slot_key(slot),
            *final(self) == old(self).with_slot_key(slot, key),
    {
        let prev = self.get(slot);
        match slot {
            Slot::Forward => self.forward = key,
            Slot::Back => self.back = key,
            Slot::Left => self.left = key,
            Slot::Right => self.right = key,
            Slot::Jump => self.jump = key,
            Slot::Dismount => self.dismount = key,
            Slot::Throw => self.throw = key,
            Slot::LowThrow => self.low_throw = key,
            Slot::Talk => self.talk = key,
            Slot::Keepalive => self.keepalive = key,
            Slot::CameraToggle => self.camera_toggle = key,
            Slot::Debug => self.debug = key,
            Slot::Tasks => self.tasks = key,
        }
        prev
    }
}

impl Default for Bindings {
    fn default() -> (b: Self)
        ensures
            b == default_bindings(),
    {
        Bindings {
            forward: KEY_W,
            back: KEY_S,
            left: KEY_A,
            right: KEY_D,
            jump: KEY_SPACE,
            dismount: KEY_ESCAPE,
            throw: KEY_F,
            low_throw: KEY_R,
            talk: KEY_RETURN,
            keepalive: KEY_Q,
            camera_toggle: KEY_TAB,
            debug: KEY_G,
            tasks: KEY_E,
        }
    }
}

} // verus!
