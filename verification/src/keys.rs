use vstd::prelude::*;

verus! {

/// A key, identified by its X keysym value (what GDK calls a keyval).
/// The value 0 stands for "no key bound".
pub type Key = u32;

/// The keysym `w`.
pub const KEY_W: Key = 119;

/// The keysym `s`.
pub const KEY_S: Key = 115;

/// The keysym `a`.
pub const KEY_A: Key = 97;

/// The keysym `d`.
pub const KEY_D: Key = 100;

/// The keysym `e`.
pub const KEY_E: Key = 101;

/// The keysym `f`.
pub const KEY_F: Key = 102;

/// The keysym `g`.
pub const KEY_G: Key = 103;

/// The keysym `q`.
pub const KEY_Q: Key = 113;

/// The keysym `r`.
pub const KEY_R: Key = 114;

/// The keysym `space`.
pub const KEY_SPACE: Key = 32;

/// The keysym `Escape`.
pub const KEY_ESCAPE: Key = 65307;

/// The keysym `Return`.
pub const KEY_RETURN: Key = 65293;

/// The keysym `Tab`.
pub const KEY_TAB: Key = 65289;

/// The keysym `Shift_L`.
pub const KEY_SHIFT_L: Key = 65505;

/// The keysym `Super_L`.
pub const KEY_SUPER_L: Key = 65515;

/// The keysym `Home`.
pub const KEY_HOME: Key = 65360;

/// The keysym `F1`.
pub const KEY_F1: Key = 65470;

/// The keysym `Left`.
pub const KEY_LEFT: Key = 65361;

/// The keysym `Up`.
pub const KEY_UP: Key = 65362;

/// The keysym `Right`.
pub const KEY_RIGHT: Key = 65363;

/// The keysym `Down`.
pub const KEY_DOWN: Key = 65364;

/// The keysym that a Linux input event code (an evdev `KEY_*` code) stands
/// for on a US layout, for the keys the raw input mode forwards.
pub open spec fn evdev_keysym(code: u16) -> Option<Key> {
    match code {
        1u16 => Some(65307u32),  // KEY_ESC -> Escape
        2u16 => Some(49u32),  // KEY_1 -> _1
        3u16 => Some(50u32),  // KEY_2 -> _2
        4u16 => Some(51u32),  // KEY_3 -> _3
        5u16 => Some(52u32),  // KEY_4 -> _4
        6u16 => Some(53u32),  // KEY_5 -> _5
        7u16 => Some(54u32),  // KEY_6 -> _6
        8u16 => Some(55u32),  // KEY_7 -> _7
        9u16 => Some(56u32),  // KEY_8 -> _8
        10u16 => Some(57u32),  // KEY_9 -> _9
        11u16 => Some(48u32),  // KEY_0 -> _0
        12u16 => Some(45u32),  // KEY_MINUS -> minus
        13u16 => Some(61u32),  // KEY_EQUAL -> equal
        14u16 => Some(65288u32),  // KEY_BACKSPACE -> BackSpace
        15u16 => Some(65289u32),  // KEY_TAB -> Tab
        16u16 => Some(113u32),  // KEY_Q -> q
        17u16 => Some(119u32),  // KEY_W -> w
        18u16 => Some(101u32),  // KEY_E -> e
        19u16 => Some(114u32),  // KEY_R -> r
        20u16 => Some(116u32),  // KEY_T -> t
        21u16 => Some(121u32),  // KEY_Y -> y
        22u16 => Some(117u32),  // KEY_U -> u
        23u16 => Some(105u32),  // KEY_I -> i
        24u16 => Some(111u32),  // KEY_O -> o
        25u16 => Some(112u32),  // KEY_P -> p
        26u16 => Some(91u32),  // KEY_LEFTBRACE -> bracketleft
        27u16 => Some(93u32),  // KEY_RIGHTBRACE -> bracketright
        28u16 => Some(65293u32),  // KEY_ENTER -> Return
        29u16 => Some(65507u32),  // KEY_LEFTCTRL -> Control_L
        30u16 => Some(97u32),  // KEY_A -> a
        31u16 => Some(115u32),  // KEY_S -> s
        32u16 => Some(100u32),  // KEY_D -> d
        33u16 => Some(102u32),  // KEY_F -> f
        34u16 => Some(103u32),  // KEY_G -> g
        35u16 => Some(104u32),  // KEY_H -> h
        36u16 => Some(106u32),  // KEY_J -> j
        37u16 => Some(107u32),  // KEY_K -> k
        38u16 => Some(108u32),  // KEY_L -> l
        39u16 => Some(59u32),  // KEY_SEMICOLON -> semicolon
        40u16 => Some(39u32),  // KEY_APOSTROPHE -> apostrophe
        41u16 => Some(96u32),  // KEY_GRAVE -> grave
        42u16 => Some(65505u32),  // KEY_LEFTSHIFT -> Shift_L
        43u16 => Some(92u32),  // KEY_BACKSLASH -> backslash
        44u16 => Some(122u32),  // KEY_Z -> z
        45u16 => Some(120u32),  // KEY_X -> x
        46u16 => Some(99u32),  // KEY_C -> c
        47u16 => Some(118u32),  // KEY_V -> v
        48u16 => Some(98u32),  // KEY_B -> b
        49u16 => Some(110u32),  // KEY_N -> n
        50u16 => Some(109u32),  // KEY_M -> m
        51u16 => Some(44u32),  // KEY_COMMA -> comma
        52u16 => Some(46u32),  // KEY_DOT -> period
        53u16 => Some(47u32),  // KEY_SLASH -> slash
        54u16 => Some(65505u32),  // KEY_RIGHTSHIFT -> Shift_L
        56u16 => Some(65513u32),  // KEY_LEFTALT -> Alt_L
        57u16 => Some(32u32),  // KEY_SPACE -> space
        58u16 => Some(65509u32),  // KEY_CAPSLOCK -> Caps_Lock
        59u16 => Some(65470u32),  // KEY_F1 -> F1
        60u16 => Some(65471u32),  // KEY_F2 -> F2
        61u16 => Some(65472u32),  // KEY_F3 -> F3
        62u16 => Some(65473u32),  // KEY_F4 -> F4
        63u16 => Some(65474u32),  // KEY_F5 -> F5
        64u16 => Some(65475u32),  // KEY_F6 -> F6
        65u16 => Some(65476u32),  // KEY_F7 -> F7
        66u16 => Some(65477u32),  // KEY_F8 -> F8
        67u16 => Some(65478u32),  // KEY_F9 -> F9
        68u16 => Some(65479u32),  // KEY_F10 -> F10
        69u16 => Some(65407u32),  // KEY_NUMLOCK -> Num_Lock
        70u16 => Some(65300u32),  // KEY_SCROLLLOCK -> Scroll_Lock
        87u16 => Some(65480u32),  // KEY_F11 -> F11
        88u16 => Some(65481u32),  // KEY_F12 -> F12
        102u16 => Some(65360u32),  // KEY_HOME -> Home
        103u16 => Some(65362u32),  // KEY_UP -> Up
        104u16 => Some(65365u32),  // KEY_PAGEUP -> Page_Up
        105u16 => Some(65361u32),  // KEY_LEFT -> Left
        106u16 => Some(65363u32),  // KEY_RIGHT -> Right
        107u16 => Some(65367u32),  // KEY_END -> End
        108u16 => Some(65364u32),  // KEY_DOWN -> Down
        109u16 => Some(65366u32),  // KEY_PAGEDOWN -> Page_Down
        110u16 => Some(65379u32),  // KEY_INSERT -> Insert
        111u16 => Some(65535u32),  // KEY_DELETE -> Delete
        97u16 => Some(65507u32),  // KEY_RIGHTCTRL -> Control_L
        100u16 => Some(65513u32),  // KEY_RIGHTALT -> Alt_L
        125u16 => Some(65515u32),  // KEY_LEFTMETA -> Super_L
        126u16 => Some(65515u32),  // KEY_RIGHTMETA -> Super_L
        119u16 => Some(65299u32),  // KEY_PAUSE -> Pause
        _ => None,
    }
}

/// Maps a raw evdev key code to the keysym that is sent to the game
/// windows, or `None` for a key that raw mode does not forward.
pub fn evdev_code_to_gdk(code: u16) -> (r: Option<Key>)
    ensures
        r == evdev_keysym(code),
{
    let k: Key = match code {
        1 => 65307,  // KEY_ESC -> Escape
        2 => 49,  // KEY_1 -> _1
        3 => 50,  // KEY_2 -> _2
        4 => 51,  // KEY_3 -> _3
        5 => 52,  // KEY_4 -> _4
        6 => 53,  // KEY_5 -> _5
        7 => 54,  // KEY_6 -> _6
        8 => 55,  // KEY_7 -> _7
        9 => 56,  // KEY_8 -> _8
        10 => 57,  // KEY_9 -> _9
        11 => 48,  // KEY_0 -> _0
        12 => 45,  // KEY_MINUS -> minus
        13 => 61,  // KEY_EQUAL -> equal
        14 => 65288,  // KEY_BACKSPACE -> BackSpace
        15 => 65289,  // KEY_TAB -> Tab
        16 => 113,  // KEY_Q -> q
        17 => 119,  // KEY_W -> w
        18 => 101,  // KEY_E -> e
        19 => 114,  // KEY_R -> r
        20 => 116,  // KEY_T -> t
        21 => 121,  // KEY_Y -> y
        22 => 117,  // KEY_U -> u
        23 => 105,  // KEY_I -> i
        24 => 111,  // KEY_O -> o
        25 => 112,  // KEY_P -> p
        26 => 91,  // KEY_LEFTBRACE -> bracketleft
        27 => 93,  // KEY_RIGHTBRACE -> bracketright
        28 => 65293,  // KEY_ENTER -> Return
        29 => 65507,  // KEY_LEFTCTRL -> Control_L
        30 => 97,  // KEY_A -> a
        31 => 115,  // KEY_S -> s
        32 => 100,  // KEY_D -> d
        33 => 102,  // KEY_F -> f
        34 => 103,  // KEY_G -> g
        35 => 104,  // KEY_H -> h
        36 => 106,  // KEY_J -> j
        37 => 107,  // KEY_K -> k
        38 => 108,  // KEY_L -> l
        39 => 59,  // KEY_SEMICOLON -> semicolon
        40 => 39,  // KEY_APOSTROPHE -> apostrophe
        41 => 96,  // KEY_GRAVE -> grave
        42 => 65505,  // KEY_LEFTSHIFT -> Shift_L
        43 => 92,  // KEY_BACKSLASH -> backslash
        44 => 122,  // KEY_Z -> z
        45 => 120,  // KEY_X -> x
        46 => 99,  // KEY_C -> c
        47 => 118,  // KEY_V -> v
        48 => 98,  // KEY_B -> b
        49 => 110,  // KEY_N -> n
        50 => 109,  // KEY_M -> m
        51 => 44,  // KEY_COMMA -> comma
        52 => 46,  // KEY_DOT -> period
        53 => 47,  // KEY_SLASH -> slash
        54 => 65505,  // KEY_RIGHTSHIFT -> Shift_L
        56 => 65513,  // KEY_LEFTALT -> Alt_L
        57 => 32,  // KEY_SPACE -> space
        58 => 65509,  // KEY_CAPSLOCK -> Caps_Lock
        59 => 65470,  // KEY_F1 -> F1
        60 => 65471,  // KEY_F2 -> F2
        61 => 65472,  // KEY_F3 -> F3
        62 => 65473,  // KEY_F4 -> F4
        63 => 65474,  // KEY_F5 -> F5
        64 => 65475,  // KEY_F6 -> F6
        65 => 65476,  // KEY_F7 -> F7
        66 => 65477,  // KEY_F8 -> F8
        67 => 65478,  // KEY_F9 -> F9
        68 => 65479,  // KEY_F10 -> F10
        69 => 65407,  // KEY_NUMLOCK -> Num_Lock
        70 => 65300,  // KEY_SCROLLLOCK -> Scroll_Lock
        87 => 65480,  // KEY_F11 -> F11
        88 => 65481,  // KEY_F12 -> F12
        102 => 65360,  // KEY_HOME -> Home
        103 => 65362,  // KEY_UP -> Up
        104 => 65365,  // KEY_PAGEUP -> Page_Up
        105 => 65361,  // KEY_LEFT -> Left
        106 => 65363,  // KEY_RIGHT -> Right
        107 => 65367,  // KEY_END -> End
        108 => 65364,  // KEY_DOWN -> Down
        109 => 65366,  // KEY_PAGEDOWN -> Page_Down
        110 => 65379,  // KEY_INSERT -> Insert
        111 => 65535,  // KEY_DELETE -> Delete
        97 => 65507,  // KEY_RIGHTCTRL -> Control_L
        100 => 65513,  // KEY_RIGHTALT -> Alt_L
        125 => 65515,  // KEY_LEFTMETA -> Super_L
        126 => 65515,  // KEY_RIGHTMETA -> Super_L
        119 => 65299,  // KEY_PAUSE -> Pause
        _ => {
            return None;
        },
    };
    Some(k)
}

} // verus!
