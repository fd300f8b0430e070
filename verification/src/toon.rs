use vstd::prelude::*;

verus! {

/// The games whose windows can be found automatically.
#[derive(Clone, Copy, Debug, PartialEq, Eq, Structural)]
pub enum ToonGame {
    CorporateClash,
    ToontownRewritten,
}

/// A game window found on an X display.
#[derive(Clone, Debug)]
pub struct ToonWindow {
    pub window: u64,
    pub display: String,
    pub game: ToonGame,
}

impl View for ToonWindow {
    type V = (u64, Seq<char>, ToonGame);

    open spec fn view(&self) -> (u64, Seq<char>, ToonGame) {
        (self.window, self.display@, self.game)
    }
}

/// The title of a game, which its windows' names start with.
pub open spec fn game_title(g: ToonGame) -> Seq<char> {
    match g {
        ToonGame::CorporateClash => "Corporate Clash"@,
        ToonGame::ToontownRewritten => "Toontown Rewritten"@,
    }
}

impl ToonGame {
    /// The game's display name.
    pub fn name(&self) -> (s: &'static str)
        ensures
            s@ == game_title(*self),
    {
        match self {
            ToonGame::CorporateClash => "Corporate Clash",
            ToonGame::ToontownRewritten => "Toontown Rewritten",
        }
    }
}

/// Whether `s` starts with `p`.
pub fn has_prefix(s: &str, p: &str) -> (r: bool)
    ensures
        r == p@.is_prefix_of(s@),
{
    let n = p.unicode_len();
    let m = s.unicode_len();
    if n > m {
        return false;
    }
    let mut i: usize = 0;
    while i < n
        invariant
            n == p@.len(),
            m == s@.len(),
            n <= m,
            i <= n,
            forall|j: int| 0 <= j < i ==> s@[j] == p@[j],
        decreases n - i,
    {
        if s.get_char(i) != p.get_char(i) {
            return false;
        }
        i = i + 1;
    }
    true
}

/// The game a window belongs to, judged by the start of its name.
pub open spec fn game_of_window(name: Seq<char>) -> Option<ToonGame> {
    if game_title(ToonGame::CorporateClash).is_prefix_of(name) {
        Some(ToonGame::CorporateClash)
    } else if game_title(ToonGame::ToontownRewritten).is_prefix_of(name) {
        Some(ToonGame::ToontownRewritten)
    } else {
        None
    }
}

/// Recognises a game window by its name.
pub fn classify_window_name(name: &str) -> (g: Option<ToonGame>)
    ensures
        g == game_of_window(name@),
{
    if has_prefix(name, ToonGame::CorporateClash.name()) {
        Some(ToonGame::CorporateClash)
    } else if has_prefix(name, ToonGame::ToontownRewritten.name()) {
        Some(ToonGame::ToontownRewritten)
    } else {
        None
    }
}

/// Whether `c` is an ASCII decimal digit.
pub open spec fn is_digit(c: char) -> bool {
    '0' <= c <= '9'
}

/// The value of a decimal digit.
pub open spec fn digit_value(c: char) -> nat {
    (c as u32 - '0' as u32) as nat
}

/// The value of a sequence of decimal digits.
pub open spec fn digits_value(s: Seq<char>) -> nat
    decreases s.len(),
{
    if s.len() == 0 {
        0
    } else {
        digits_value(s.drop_last()) * 10 + digit_value(s.last())
    }
}

/// Whether `s` is one or more decimal digits.
pub open spec fn all_digits(s: Seq<char>) -> bool {
    s.len() > 0 && forall|i: int| 0 <= i < s.len() ==> is_digit(#[trigger] s[i])
}

/// What parsing `s` as a `u32` gives: an optional `+` followed by one or
/// more decimal digits whose value fits.
pub open spec fn parsed_u32(s: Seq<char>) -> Option<u32> {
    let digits = if s.len() > 0 && s[0] == '+' {
        s.drop_first()
    } else {
        s
    };
    if all_digits(digits) && digits_value(digits) <= u32::MAX {
        Some(digits_value(digits) as u32)
    } else {
        None
    }
}

/// The decimal digits of `n`, without leading zeros.
pub open spec fn decimal(n: nat) -> Seq<char>
    decreases n,
{
    if n < 10 {
        seq![digit_char(n)]
    } else {
        decimal(n / 10).push(digit_char(n % 10))
    }
}

/// The digit character of `d < 10`.
pub open spec fn digit_char(d: nat) -> char {
    (d + '0' as u32) as char
}

/// The prefix of gamescope socket names in the runtime directory.
pub open spec fn gamescope_prefix() -> Seq<char> {
    "gamescope-"@
}

/// The number of a gamescope socket `gamescope-N` (exactly: digits only
/// after the prefix), capped at `u32::MAX`; `None` for any other name.
pub open spec fn gamescope_number(name: Seq<char>) -> Option<u32> {
    if gamescope_prefix().is_prefix_of(name) && all_digits(name.skip(10)) {
        let v = digits_value(name.skip(10));
        Some(if v <= u32::MAX { v as u32 } else { u32::MAX })
    } else {
        None
    }
}

proof fn lemma_digits_step(s: Seq<char>, i: int)
    requires
        0 <= i < s.len(),
    ensures
        digits_value(s.subrange(0, i + 1)) == digits_value(s.subrange(0, i)) * 10 + digit_value(s[i]),
{
    assert(s.subrange(0, i + 1).drop_last() =~= s.subrange(0, i));
}

/// The value of the digits `s[from..]`, saturated just above `u32::MAX`.
fn digits_value_capped(s: &str, from: usize) -> (v: u64)
    requires
        from <= s@.len(),
        forall|i: int| from <= i < s@.len() ==> is_digit(#[trigger] s@[i]),
    ensures
        v == (if digits_value(s@.skip(from as int)) <= u32::MAX {
            digits_value(s@.skip(from as int))
        } else {
            u32::MAX as nat + 1
        }),
{
    let ghost t = s@.skip(from as int);
    let n = s.unicode_len();
    let mut acc: u64 = 0;
    let mut over = false;
    let mut i: usize = from;
    while i < n
        invariant
            n == s@.len(),
            from <= i <= n,
            t == s@.skip(from as int),
            forall|j: int| from <= j < s@.len() ==> is_digit(#[trigger] s@[j]),
            over ==> digits_value(t.subrange(0, i - from)) > u32::MAX,
            !over ==> acc == digits_value(t.subrange(0, i - from)),
            acc <= u32::MAX,
        decreases n - i,
    {
        let c = s.get_char(i);
        proof {
            assert(t[i - from] == c);
            lemma_digits_step(t, i - from);
        }
        let d = (c as u32 - '0' as u32) as u64;
        if !over {
            let next = acc * 10 + d;
            if next > u32::MAX as u64 {
                over = true;
            } else {
                acc = next;
            }
        } else {
            proof {
                assert(digits_value(t.subrange(0, i - from + 1)) >= digits_value(t.subrange(0, i - from)) * 10);
            }
        }
        i = i + 1;
    }
    proof {
        assert(t.subrange(0, n - from) =~= t);
    }
    if over {
        u32::MAX as u64 + 1
    } else {
        acc
    }
}

/// Recognises a gamescope socket name and returns its number.
pub fn parse_gamescope_entry(name: &str) -> (r: Option<u32>)
    ensures
        r == gamescope_number(name@),
{
    proof {
        reveal_strlit("gamescope-");
    }
    if !has_prefix(name, "gamescope-") {
        return None;
    }
    let n = name.unicode_len();
    if n == 10 {
        return None;
    }
    let mut i: usize = 10;
    while i < n
        invariant
            n == name@.len(),
            10 < n,
            10 <= i <= n,
            forall|j: int| 10 <= j < i ==> is_digit(#[trigger] name@[j]),
        decreases n - i,
    {
        let c = name.get_char(i);
        if !('0' <= c && c <= '9') {
            proof {
                assert(name@.skip(10)[i - 10] == c);
            }
            return None;
        }
        i = i + 1;
    }
    proof {
        assert forall|j: int| 0 <= j < name@.skip(10).len() implies is_digit(#[trigger] name@.skip(10)[j]) by {
            assert(name@.skip(10)[j] == name@[j + 10]);
        }
    }
    let v = digits_value_capped(name, 10);
    if v > u32::MAX as u64 {
        Some(u32::MAX)
    } else {
        Some(v as u32)
    }
}

/// The one-character string of digit `d`.
fn digit_str(d: u32) -> (s: &'static str)
    requires
        d < 10,
    ensures
        s@ == seq![digit_char(d as nat)],
{
    proof {
        reveal_strlit("0");
        reveal_strlit("1");
        reveal_strlit("2");
        reveal_strlit("3");
        reveal_strlit("4");
        reveal_strlit("5");
        reveal_strlit("6");
        reveal_strlit("7");
        reveal_strlit("8");
        reveal_strlit("9");
    }
    let s = match d {
        0 => "0",
        1 => "1",
        2 => "2",
        3 => "3",
        4 => "4",
        5 => "5",
        6 => "6",
        7 => "7",
        8 => "8",
        _ => "9",
    };
    assert(s@ =~= seq![digit_char(d as nat)]);
    s
}

/// Appends the decimal digits of `n`.
fn push_decimal(s: &mut String, n: u32)
    ensures
        final(s)@ == old(s)@ + decimal(n as nat),
    decreases n,
{
    if n < 10 {
        s.append(digit_str(n));
    } else {
        push_decimal(s, n / 10);
        s.append(digit_str(n % 10));
        proof {
            assert(old(s)@ + decimal((n / 10) as nat) + seq![digit_char((n % 10) as nat)] =~= old(s)@
                + decimal(n as nat));
        }
    }
}

/// The X display name `:N` of the nested display that gamescope socket
/// number `gs_num` serves (display `gs_num + 1`).
pub fn display_for_gamescope(gs_num: u32) -> (d: String)
    requires
        gs_num < u32::MAX,
    ensures
        d@ == seq![':'] + decimal(gs_num as nat + 1),
{
    let mut d = String::new();
    proof {
        reveal_strlit(":");
    }
    d.append(":");
    push_decimal(&mut d, gs_num + 1);
    d
}

/// Parses `s[from..]` as a `u32`.
pub fn parse_u32_from(s: &str, from: usize) -> (r: Option<u32>)
    requires
        from <= s@.len(),
    ensures
        r == parsed_u32(s@.skip(from as int)),
{
    let n = s.unicode_len();
    let mut start = from;
    if start < n && s.get_char(start) == '+' {
        start = start + 1;
    }
    proof {
        let t = s@.skip(from as int);
        if from < n && s@[from as int] == '+' {
            assert(t[0] == '+');
            assert(t.drop_first() =~= s@.skip(start as int));
        } else {
            assert(from < n ==> t[0] == s@[from as int]);
            assert(t =~= s@.skip(start as int));
        }
        let d = s@.skip(start as int);
        assert(parsed_u32(t) == (if all_digits(d) && digits_value(d) <= u32::MAX {
            Some(digits_value(d) as u32)
        } else {
            None::<u32>
        }));
    }
    if start == n {
        return None;
    }
    let mut i: usize = start;
    while i < n
        invariant
            n == s@.len(),
            start < n,
            start <= i <= n,
            forall|j: int| start <= j < i ==> is_digit(#[trigger] s@[j]),
            parsed_u32(s@.skip(from as int)) == (if all_digits(s@.skip(start as int)) && digits_value(
                s@.skip(start as int),
            ) <= u32::MAX {
                Some(digits_value(s@.skip(start as int)) as u32)
            } else {
                None::<u32>
            }),
        decreases n - i,
    {
        let c = s.get_char(i);
        if !('0' <= c && c <= '9') {
            proof {
                assert(s@.skip(start as int)[i - start] == c);
            }
            return None;
        }
        i = i + 1;
    }
    proof {
        assert forall|j: int| 0 <= j < s@.skip(start as int).len() implies is_digit(
            #[trigger] s@.skip(start as int)[j],
        ) by {
            assert(s@.skip(start as int)[j] == s@[j + start]);
        }
    }
    let v = digits_value_capped(s, start);
    if v > u32::MAX as u64 {
        None
    } else {
        Some(v as u32)
    }
}

/// Whether a display name can be cut after its first character (which
/// must be a one-byte character).
pub open spec fn display_cuttable(d: Seq<char>) -> bool {
    d.len() >= 1 && (d[0] as u32) < 128
}

/// The number of a display name `:N` (0 when the rest does not parse).
pub open spec fn display_key(d: Seq<char>) -> u32 {
    match parsed_u32(d.drop_first()) {
        Some(v) => v,
        None => 0,
    }
}

/// The number that orders windows by display.
pub fn display_number(display: &String) -> (n: u32)
    requires
        display_cuttable(display@),
    ensures
        n == display_key(display@),
{
    let s = display.as_str();
    proof {
        assert(s@.skip(1) =~= display@.drop_first());
    }
    match parse_u32_from(s, 1) {
        Some(v) => v,
        None => 0,
    }
}

/// The order in which found windows are handed to controllers: by display
/// number, then by window id, keeping the found order for ties.
pub open spec fn window_before(a: (u64, Seq<char>, ToonGame), ia: int, b: (u64, Seq<char>, ToonGame), ib: int) -> bool {
    let ka = display_key(a.1);
    let kb = display_key(b.1);
    ka < kb || (ka == kb && (a.0 < b.0 || (a.0 == b.0 && ia < ib)))
}

/// `p` lists each index below `n` exactly once.
pub open spec fn is_permutation(p: Seq<int>, n: nat) -> bool {
    &&& p.len() == n
    &&& p.no_duplicates()
    &&& forall|i: int| 0 <= i < n ==> 0 <= #[trigger] p[i] < n
}

fn before(ka: u32, wa: u64, ia: usize, kb: u32, wb: u64, ib: usize) -> (r: bool)
    ensures
        r == (ka < kb || (ka == kb && (wa < wb || (wa == wb && ia < ib)))),
{
    ka < kb || (ka == kb && (wa < wb || (wa == wb && ia < ib)))
}

/// A copy of a window record.
fn copy_window(w: &ToonWindow) -> (c: ToonWindow)
    ensures
        c@ == w@,
{
    ToonWindow { window: w.window, display: w.display.clone(), game: w.game }
}

/// Sorts found windows by display number, then window id (a stable sort,
/// so equal keys keep their found order).
pub fn sort_toon_windows(ws: &Vec<ToonWindow>) -> (sorted: Vec<ToonWindow>)
    requires
        forall|i: int| 0 <= i < ws.len() ==> display_cuttable(#[trigger] ws[i].display@),
    ensures
        exists|p: Seq<int>|
            {
                &&& is_permutation(p, ws.len() as nat)
                &&& sorted.len() == ws.len()
                &&& forall|i: int| 0 <= i < ws.len() ==> #[trigger] sorted[i]@ == ws[p[i]]@
                &&& forall|i: int, j: int|
                    0 <= i < j < ws.len() ==> window_before(ws[#[trigger] p[i]]@, p[i], ws[#[trigger] p[j]]@, p[j])
            },
{
    let n = ws.len();
    let mut keys: Vec<u32> = Vec::new();
    let mut i: usize = 0;
    while i < n
        invariant
            n == ws.len(),
            i <= n,
            keys.len() == i,
            forall|j: int| 0 <= j < n ==> display_cuttable(#[trigger] ws[j].display@),
            forall|j: int| 0 <= j < i ==> #[trigger] keys[j] == display_key(ws[j].display@),
        decreases n - i,
    {
        keys.push(display_number(&ws[i].display));
        i = i + 1;
    }
    let mut order: Vec<usize> = Vec::new();
    let mut i: usize = 0;
    while i < n
        invariant
            n == ws.len(),
            i <= n,
            keys.len() == n,
            forall|j: int| 0 <= j < n ==> #[trigger] keys[j] == display_key(ws[j].display@),
            order.len() == i,
            order@.no_duplicates(),
            forall|a: int| 0 <= a < i ==> #[trigger] order[a] < i,
            forall|a: int, b: int|
                0 <= a < b < i ==> window_before(ws[#[trigger] order[a] as int]@, order[a] as int, ws[#[trigger] order[b] as int]@, order[b] as int),
        decreases n - i,
    {
        let mut pos: usize = 0;
        while pos < i && !before(keys[i], ws[i].window, i, keys[order[pos]], ws[order[pos]].window, order[pos])
            invariant
                n == ws.len(),
                i < n,
                keys.len() == n,
                order.len() == i,
                pos <= i,
                forall|a: int| 0 <= a < i ==> #[trigger] order[a] < i,
                forall|j: int| 0 <= j < n ==> #[trigger] keys[j] == display_key(ws[j].display@),
                forall|a: int| 0 <= a < pos ==> window_before(ws[#[trigger] order[a] as int]@, order[a] as int, ws[i as int]@, i as int),
            decreases i - pos,
        {
            pos = pos + 1;
        }
        let ghost prev = order@;
        order.insert(pos, i);
        proof {
            assert forall|a: int| 0 <= a < i + 1 implies #[trigger] order[a] < i + 1 by {
                if a < pos {
                    assert(order[a] == prev[a]);
                } else if a > pos {
                    assert(order[a] == prev[a - 1]);
                }
            }
            assert forall|a: int, b: int| 0 <= a < b < order.len() implies order[a] != order[b] by {
                if a < pos && b < pos {
                    assert(order[a] == prev[a] && order[b] == prev[b]);
                } else if a < pos && b == pos {
                    assert(order[a] == prev[a]);
                } else if a < pos {
                    assert(order[a] == prev[a] && order[b] == prev[b - 1]);
                } else if a == pos {
                    assert(order[b] == prev[b - 1]);
                } else {
                    assert(order[a] == prev[a - 1] && order[b] == prev[b - 1]);
                }
            }
            assert forall|a: int, b: int|
                0 <= a < b < i + 1 implies window_before(ws[#[trigger] order[a] as int]@, order[a] as int, ws[#[trigger] order[b] as int]@, order[b] as int) by {
                if pos < i {
                    assert(order[pos + 1] == prev[pos as int]);
                    assert(window_before(ws[i as int]@, i as int, ws[prev[pos as int] as int]@, prev[pos as int] as int));
                }
                if a < pos && b < pos {
                    assert(order[a] == prev[a] && order[b] == prev[b]);
                } else if a < pos && b == pos {
                    assert(order[a] == prev[a]);
                } else if a < pos {
                    assert(order[a] == prev[a] && order[b] == prev[b - 1]);
                    assert(window_before(ws[prev[a] as int]@, prev[a] as int, ws[i as int]@, i as int));
                } else if a == pos {
                    assert(order[b] == prev[b - 1]);
                    if b > pos + 1 {
                        assert(window_before(ws[prev[pos as int] as int]@, prev[pos as int] as int, ws[prev[b - 1] as int]@, prev[b - 1] as int));
                    }
                } else {
                    assert(order[a] == prev[a - 1] && order[b] == prev[b - 1]);
                }
            }
        }
        i = i + 1;
    }
    let mut sorted: Vec<ToonWindow> = Vec::new();
    let mut i: usize = 0;
    while i < n
        invariant
            n == ws.len(),
            i <= n,
            order.len() == n,
            forall|a: int| 0 <= a < n ==> #[trigger] order[a] < n,
            sorted.len() == i,
            forall|a: int| 0 <= a < i ==> #[trigger] sorted[a]@ == ws[order[a] as int]@,
        decreases n - i,
    {
        sorted.push(copy_window(&ws[order[i]]));
        i = i + 1;
    }
    proof {
        let p = order@.map_values(|x: usize| x as int);
        assert(is_permutation(p, n as nat)) by {
            assert forall|a: int, b: int| 0 <= a < b < n implies p[a] != p[b] by {
                assert(order[a] != order[b]);
            }
        }
        assert forall|i: int| 0 <= i < n implies #[trigger] sorted[i]@ == ws[p[i]]@ by {}
        assert forall|a: int, b: int| 0 <= a < b < n implies window_before(ws[#[trigger] p[a]]@, p[a], ws[#[trigger] p[b]]@, p[b]) by {
            assert(window_before(ws[order[a] as int]@, order[a] as int, ws[order[b] as int]@, order[b] as int));
        }
    }
    sorted
}

/// The views of `nested` followed by those of `local`.
pub open spec fn joined_views(nested: Seq<ToonWindow>, local: Seq<ToonWindow>) -> Seq<(u64, Seq<char>, ToonGame)> {
    Seq::new(
        nested.len() + local.len(),
        |i: int|
            if i < nested.len() {
                nested[i]@
            } else {
                local[i - nested.len()]@
            },
    )
}

/// The found windows as one list: those of the nested displays (found in
/// `nested`) and those of the default display `:0` (in `local`), all
/// sorted together by display number, then window id, equal keys keeping
/// their found order, the nested displays' windows first.
pub fn order_found_windows(nested: &Vec<ToonWindow>, local: &Vec<ToonWindow>) -> (all: Vec<ToonWindow>)
    requires
        forall|i: int| 0 <= i < nested.len() ==> display_cuttable(#[trigger] nested[i].display@),
        forall|i: int| 0 <= i < local.len() ==> display_cuttable(#[trigger] local[i].display@),
        nested.len() + local.len() <= usize::MAX,
    ensures
        ({
            let ws = joined_views(nested@, local@);
            exists|p: Seq<int>|
                {
                    &&& is_permutation(p, ws.len())
                    &&& all.len() == ws.len()
                    &&& forall|i: int| 0 <= i < ws.len() ==> #[trigger] all[i]@ == ws[p[i]]
                    &&& forall|i: int, j: int|
                        0 <= i < j < ws.len() ==> window_before(ws[#[trigger] p[i]], p[i], ws[#[trigger] p[j]], p[j])
                }
        }),
{
    let mut found: Vec<ToonWindow> = Vec::new();
    let mut i: usize = 0;
    while i < nested.len()
        invariant
            i <= nested.len(),
            found.len() == i,
            forall|j: int| 0 <= j < i ==> #[trigger] found[j]@ == nested[j]@,
        decreases nested.len() - i,
    {
        found.push(copy_window(&nested[i]));
        i = i + 1;
    }
    let mut i: usize = 0;
    while i < local.len()
        invariant
            i <= local.len(),
            nested.len() + local.len() <= usize::MAX,
            found.len() == nested.len() + i,
            forall|j: int| 0 <= j < nested.len() ==> #[trigger] found[j]@ == nested[j]@,
            forall|j: int| nested.len() <= j < nested.len() + i ==> #[trigger] found[j]@ == local[j - nested.len()]@,
        decreases local.len() - i,
    {
        found.push(copy_window(&local[i]));
        i = i + 1;
    }
    let ghost ws = joined_views(nested@, local@);
    assert forall|j: int| 0 <= j < found.len() implies display_cuttable(#[trigger] found[j].display@) by {
        if j < nested.len() {
            assert(found[j]@ == nested[j]@);
        } else {
            assert(found[j]@ == local[j - nested.len()]@);
        }
    }
    assert forall|j: int| 0 <= j < found.len() implies #[trigger] found[j]@ == ws[j] by {
        if j < nested.len() {
            assert(found[j]@ == nested[j]@);
        } else {
            assert(found[j]@ == local[j - nested.len()]@);
        }
    }
    let all = sort_toon_windows(&found);
    proof {
        let p = choose|p: Seq<int>|
            {
                &&& is_permutation(p, found.len() as nat)
                &&& all.len() == found.len()
                &&& forall|i: int| 0 <= i < found.len() ==> #[trigger] all[i]@ == found[p[i]]@
                &&& forall|i: int, j: int|
                    0 <= i < j < found.len() ==> window_before(found[#[trigger] p[i]]@, p[i], found[#[trigger] p[j]]@, p[j])
            };
        assert(ws.len() == found.len());
        assert(is_permutation(p, ws.len()));
        assert(forall|i: int| 0 <= i < ws.len() ==> #[trigger] all[i]@ == ws[p[i]]);
        assert(forall|i: int, j: int|
            0 <= i < j < ws.len() ==> window_before(ws[#[trigger] p[i]], p[i], ws[#[trigger] p[j]], p[j]));
    }
    all
}

/// The windows of `ws` that belong to game `g`, in order.
pub open spec fn windows_of(ws: Seq<(u64, Seq<char>, ToonGame)>, g: ToonGame) -> Seq<(u64, Seq<char>, ToonGame)>
    decreases ws.len(),
{
    if ws.len() == 0 {
        Seq::empty()
    } else {
        let prev = windows_of(ws.drop_last(), g);
        if ws.last().2 == g {
            prev.push(ws.last())
        } else {
            prev
        }
    }
}

/// The abstract contents of a list of found windows.
pub open spec fn window_views(ws: Seq<ToonWindow>) -> Seq<(u64, Seq<char>, ToonGame)> {
    ws.map_values(|w: ToonWindow| w@)
}

/// Whether some window of `ws` belongs to game `g`.
pub fn has_game(ws: &Vec<ToonWindow>, g: ToonGame) -> (r: bool)
    ensures
        r == exists|i: int| 0 <= i < ws.len() && #[trigger] ws[i].game == g,
{
    let mut i: usize = 0;
    while i < ws.len()
        invariant
            i <= ws.len(),
            forall|j: int| 0 <= j < i ==> #[trigger] ws[j].game != g,
        decreases ws.len() - i,
    {
        if ws[i].game == g {
            return true;
        }
        i = i + 1;
    }
    false
}

/// Keeps only the windows of game `g`, in order.
pub fn windows_of_game(ws: &Vec<ToonWindow>, g: ToonGame) -> (kept: Vec<ToonWindow>)
    ensures
        window_views(kept@) == windows_of(window_views(ws@), g),
{
    let mut kept: Vec<ToonWindow> = Vec::new();
    let mut i: usize = 0;
    while i < ws.len()
        invariant
            i <= ws.len(),
            window_views(kept@) == windows_of(window_views(ws@).take(i as int), g),
        decreases ws.len() - i,
    {
        proof {
            assert(window_views(ws@).take(i + 1).drop_last() =~= window_views(ws@).take(i as int));
        }
        if ws[i].game == g {
            let ghost before = kept@;
            kept.push(copy_window(&ws[i]));
            proof {
                assert(window_views(kept@) =~= window_views(before).push(ws@[i as int]@));
            }
        }
        i = i + 1;
    }
    proof {
        assert(window_views(ws@).take(ws.len() as int) =~= window_views(ws@));
    }
    kept
}

} // verus!
