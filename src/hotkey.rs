//! Hotkey strings: the `MOD-MOD-KEY` grammar, its canonical text form, and
//! the proof that formatting a parsed hotkey and parsing it again gives the
//! same combination back.
use vstd::prelude::*;

verus! {

/// A modifier key that may be held down in a key combination.
#[derive(Clone, Copy, Debug, PartialEq, Eq, Structural)]
pub enum Modifier {
    ALT,
    CTRL,
    SHIFT,
    SUPER,
}

/// A key symbol that ends a key combination.
#[allow(non_camel_case_types)]
#[derive(Clone, Copy, Debug, PartialEq, Eq, Structural)]
pub enum Key {
    BACKSPACE,
    TAB,
    ENTER,
    CAPS_LOCK,
    ESCAPE,
    SPACEBAR,
    PAGE_UP,
    PAGE_DOWN,
    END,
    HOME,
    ARROW_LEFT,
    ARROW_RIGHT,
    ARROW_UP,
    ARROW_DOWN,
    PRINT_SCREEN,
    INSERT,
    DELETE,
    KEY_0,
    KEY_1,
    KEY_2,
    KEY_3,
    KEY_4,
    KEY_5,
    KEY_6,
    KEY_7,
    KEY_8,
    KEY_9,
    A,
    B,
    C,
    D,
    E,
    F,
    G,
    H,
    I,
    J,
    K,
    L,
    M,
    N,
    O,
    P,
    Q,
    R,
    S,
    T,
    V,
    X,
    Y,
    Z,
}

/// A parsed hotkey: the modifiers in the order written, and one key.
#[derive(Clone, Debug, PartialEq)]
pub struct Hotkey {
    pub modifier: Vec<Modifier>,
    pub key: Key,
}

/// The mathematical value of a hotkey.
pub struct HotkeySpec {
    pub modifiers: Seq<Modifier>,
    pub key: Key,
}

/// Why a hotkey string was refused.
#[derive(Clone, Copy, Debug, PartialEq, Eq, Structural)]
pub enum HotkeyError {
    /// The text is not `(MOD-){0,4}KEY` with distinct modifiers and one key.
    NoValidHotkey,
}

impl View for Hotkey {
    type V = HotkeySpec;

    open spec fn view(&self) -> HotkeySpec {
        HotkeySpec { modifiers: self.modifier@, key: self.key }
    }
}

impl Modifier {
    /// The canonical (upper-case) name.
    pub open spec fn spec_name(self) -> Seq<char> {
        match self {
            Modifier::ALT => "ALT"@,
            Modifier::CTRL => "CTRL"@,
            Modifier::SHIFT => "SHIFT"@,
            Modifier::SUPER => "SUPER"@,
        }
    }

    /// The canonical name, as written in a hotkey string.
    pub fn name(&self) -> (r: &'static str)
        ensures
            r@ == self.spec_name(),
    {
        match self {
            Modifier::ALT => "ALT",
            Modifier::CTRL => "CTRL",
            Modifier::SHIFT => "SHIFT",
            Modifier::SUPER => "SUPER",
        }
    }
}

impl Key {
    /// The canonical (upper-case) name.
    pub open spec fn spec_name(self) -> Seq<char> {
        match self {
            Key::BACKSPACE => "BACKSPACE"@,
            Key::TAB => "TAB"@,
            Key::ENTER => "ENTER"@,
            Key::CAPS_LOCK => "CAPS_LOCK"@,
            Key::ESCAPE => "ESCAPE"@,
            Key::SPACEBAR => "SPACEBAR"@,
            Key::PAGE_UP => "PAGE_UP"@,
            Key::PAGE_DOWN => "PAGE_DOWN"@,
            Key::END => "END"@,
            Key::HOME => "HOME"@,
            Key::ARROW_LEFT => "ARROW_LEFT"@,
            Key::ARROW_RIGHT => "ARROW_RIGHT"@,
            Key::ARROW_UP => "ARROW_UP"@,
            Key::ARROW_DOWN => "ARROW_DOWN"@,
            Key::PRINT_SCREEN => "PRINT_SCREEN"@,
            Key::INSERT => "INSERT"@,
            Key::DELETE => "DELETE"@,
            Key::KEY_0 => "KEY_0"@,
            Key::KEY_1 => "KEY_1"@,
            Key::KEY_2 => "KEY_2"@,
            Key::KEY_3 => "KEY_3"@,
            Key::KEY_4 => "KEY_4"@,
            Key::KEY_5 => "KEY_5"@,
            Key::KEY_6 => "KEY_6"@,
            Key::KEY_7 => "KEY_7"@,
            Key::KEY_8 => "KEY_8"@,
            Key::KEY_9 => "KEY_9"@,
            Key::A => "A"@,
            Key::B => "B"@,
            Key::C => "C"@,
            Key::D => "D"@,
            Key::E => "E"@,
            Key::F => "F"@,
            Key::G => "G"@,
            Key::H => "H"@,
            Key::I => "I"@,
            Key::J => "J"@,
            Key::K => "K"@,
            Key::L => "L"@,
            Key::M => "M"@,
            Key::N => "N"@,
            Key::O => "O"@,
            Key::P => "P"@,
            Key::Q => "Q"@,
            Key::R => "R"@,
            Key::S => "S"@,
            Key::T => "T"@,
            Key::V => "V"@,
            Key::X => "X"@,
            Key::Y => "Y"@,
            Key::Z => "Z"@,
        }
    }

    /// The canonical name, as written in a hotkey string.
    pub fn name(&self) -> (r: &'static str)
        ensures
            r@ == self.spec_name(),
    {
        match self {
            Key::BACKSPACE => "BACKSPACE",
            Key::TAB => "TAB",
            Key::ENTER => "ENTER",
            Key::CAPS_LOCK => "CAPS_LOCK",
            Key::ESCAPE => "ESCAPE",
            Key::SPACEBAR => "SPACEBAR",
            Key::PAGE_UP => "PAGE_UP",
            Key::PAGE_DOWN => "PAGE_DOWN",
            Key::END => "END",
            Key::HOME => "HOME",
            Key::ARROW_LEFT => "ARROW_LEFT",
            Key::ARROW_RIGHT => "ARROW_RIGHT",
            Key::ARROW_UP => "ARROW_UP",
            Key::ARROW_DOWN => "ARROW_DOWN",
            Key::PRINT_SCREEN => "PRINT_SCREEN",
            Key::INSERT => "INSERT",
            Key::DELETE => "DELETE",
            Key::KEY_0 => "KEY_0",
            Key::KEY_1 => "KEY_1",
            Key::KEY_2 => "KEY_2",
            Key::KEY_3 => "KEY_3",
            Key::KEY_4 => "KEY_4",
            Key::KEY_5 => "KEY_5",
            Key::KEY_6 => "KEY_6",
            Key::KEY_7 => "KEY_7",
            Key::KEY_8 => "KEY_8",
            Key::KEY_9 => "KEY_9",
            Key::A => "A",
            Key::B => "B",
            Key::C => "C",
            Key::D => "D",
            Key::E => "E",
            Key::F => "F",
            Key::G => "G",
            Key::H => "H",
            Key::I => "I",
            Key::J => "J",
            Key::K => "K",
            Key::L => "L",
            Key::M => "M",
            Key::N => "N",
            Key::O => "O",
            Key::P => "P",
            Key::Q => "Q",
            Key::R => "R",
            Key::S => "S",
            Key::T => "T",
            Key::V => "V",
            Key::X => "X",
            Key::Y => "Y",
            Key::Z => "Z",
        }
    }
}

impl HotkeyError {
    /// The message that describes the error.
    pub fn to_string(&self) -> (r: String)
        ensures
            r@ == (match self {
                HotkeyError::NoValidHotkey => "No valid hotkey match"@,
            }),
    {
        match self {
            HotkeyError::NoValidHotkey => String::from_str("No valid hotkey match"),
        }
    }
}

/// The key symbols, in the order in which a word is matched against them.
pub open spec fn key_table() -> Seq<Key> {
    seq![
        Key::BACKSPACE,
        Key::TAB,
        Key::ENTER,
        Key::CAPS_LOCK,
        Key::ESCAPE,
        Key::SPACEBAR,
        Key::PAGE_UP,
        Key::PAGE_DOWN,
        Key::END,
        Key::HOME,
        Key::ARROW_LEFT,
        Key::ARROW_RIGHT,
        Key::ARROW_UP,
        Key::ARROW_DOWN,
        Key::PRINT_SCREEN,
        Key::INSERT,
        Key::DELETE,
        Key::KEY_0,
        Key::KEY_1,
        Key::KEY_2,
        Key::KEY_3,
        Key::KEY_4,
        Key::KEY_5,
        Key::KEY_6,
        Key::KEY_7,
        Key::KEY_8,
        Key::KEY_9,
        Key::A,
        Key::B,
        Key::C,
        Key::D,
        Key::E,
        Key::F,
        Key::G,
        Key::H,
        Key::I,
        Key::J,
        Key::K,
        Key::L,
        Key::M,
        Key::N,
        Key::O,
        Key::P,
        Key::Q,
        Key::R,
        Key::S,
        Key::T,
        Key::V,
        Key::X,
        Key::Y,
        Key::Z
    ]
}

fn key_list() -> (r: Vec<Key>)
    ensures
        r@ == key_table(),
{
    vec![
        Key::BACKSPACE,
        Key::TAB,
        Key::ENTER,
        Key::CAPS_LOCK,
        Key::ESCAPE,
        Key::SPACEBAR,
        Key::PAGE_UP,
        Key::PAGE_DOWN,
        Key::END,
        Key::HOME,
        Key::ARROW_LEFT,
        Key::ARROW_RIGHT,
        Key::ARROW_UP,
        Key::ARROW_DOWN,
        Key::PRINT_SCREEN,
        Key::INSERT,
        Key::DELETE,
        Key::KEY_0,
        Key::KEY_1,
        Key::KEY_2,
        Key::KEY_3,
        Key::KEY_4,
        Key::KEY_5,
        Key::KEY_6,
        Key::KEY_7,
        Key::KEY_8,
        Key::KEY_9,
        Key::A,
        Key::B,
        Key::C,
        Key::D,
        Key::E,
        Key::F,
        Key::G,
        Key::H,
        Key::I,
        Key::J,
        Key::K,
        Key::L,
        Key::M,
        Key::N,
        Key::O,
        Key::P,
        Key::Q,
        Key::R,
        Key::S,
        Key::T,
        Key::V,
        Key::X,
        Key::Y,
        Key::Z
    ]
}

pub open spec fn is_upper(c: char) -> bool {
    65 <= c as u32 && c as u32 <= 90
}

pub open spec fn is_digit(c: char) -> bool {
    48 <= c as u32 && c as u32 <= 57
}

/// A character that may stand in a word of a hotkey string: an ASCII letter,
/// digit or `_`, or one of the two letters whose upper case is ASCII (the
/// dotless i and the long s).
pub open spec fn is_word_char(c: char) -> bool {
    is_upper(c) || (97 <= c as u32 && c as u32 <= 122) || is_digit(c) || c as u32 == 95
        || c as u32 == 305 || c as u32 == 383
}

/// `a` spells the canonical character `n`, in either case. The long s
/// spells `S`; in a key word (`key`), which is read by its upper case, the
/// dotless i also spells `I`.
pub open spec fn char_eq_ci(a: char, n: char, key: bool) -> bool {
    ||| a == n
    ||| (is_upper(n) && a as u32 == n as u32 + 32)
    ||| (n as u32 == 83 && a as u32 == 383)
    ||| (key && n as u32 == 73 && a as u32 == 305)
}

/// `t` spells the canonical name `n`, ignoring case.
pub open spec fn eq_ci(t: Seq<char>, n: Seq<char>, key: bool) -> bool {
    t.len() == n.len() && forall|i: int| 0 <= i < t.len() ==> char_eq_ci(#[trigger] t[i], n[i], key)
}

pub open spec fn is_word(t: Seq<char>) -> bool {
    t.len() > 0 && forall|i: int| 0 <= i < t.len() ==> is_word_char(#[trigger] t[i])
}

pub open spec fn all_digits(t: Seq<char>) -> bool {
    t.len() > 0 && forall|i: int| 0 <= i < t.len() ==> is_digit(#[trigger] t[i])
}

/// The modifier that a word names, ignoring case.
pub open spec fn modifier_of(t: Seq<char>) -> Option<Modifier> {
    if eq_ci(t, Modifier::ALT.spec_name(), false) {
        Some(Modifier::ALT)
    } else if eq_ci(t, Modifier::CTRL.spec_name(), false) {
        Some(Modifier::CTRL)
    } else if eq_ci(t, Modifier::SHIFT.spec_name(), false) {
        Some(Modifier::SHIFT)
    } else if eq_ci(t, Modifier::SUPER.spec_name(), false) {
        Some(Modifier::SUPER)
    } else {
        None
    }
}

/// The text that is looked up in the key table for a word: a bare number
/// `d` is read as `KEY_d`.
pub open spec fn key_word(t: Seq<char>) -> Seq<char> {
    if all_digits(t) {
        seq!['K', 'E', 'Y', '_'] + t
    } else {
        t
    }
}

/// `j` is the first position of the key table whose name `t` spells.
pub open spec fn first_key_match(t: Seq<char>, j: int) -> bool {
    &&& 0 <= j < key_table().len()
    &&& eq_ci(t, key_table()[j].spec_name(), true)
    &&& forall|i: int| 0 <= i < j ==> !eq_ci(t, #[trigger] key_table()[i].spec_name(), true)
}

/// The key that a word names, ignoring case; bare numbers name digit keys.
pub open spec fn key_of(t: Seq<char>) -> Option<Key> {
    let w = key_word(t);
    if exists|j: int| first_key_match(w, j) {
        Some(key_table()[choose|j: int| first_key_match(w, j)])
    } else {
        None
    }
}


/// The words of `s` between `-` signs, in order (empty words included).
pub open spec fn split_dash(s: Seq<char>) -> Seq<Seq<char>>
    decreases s.len(),
{
    if s.len() == 0 {
        seq![Seq::empty()]
    } else {
        let r = split_dash(s.drop_last());
        if s.last() == '-' {
            r.push(Seq::empty())
        } else {
            r.update(r.len() - 1, r.last().push(s.last()))
        }
    }
}

/// Every word but the last names a modifier, and no modifier repeats.
pub open spec fn modifiers_ok(w: Seq<Seq<char>>) -> bool {
    &&& forall|i: int| 0 <= i < w.len() - 1 ==> (#[trigger] modifier_of(w[i])) is Some
    &&& forall|i: int, j: int|
        0 <= i < j < w.len() - 1 ==> modifier_of(#[trigger] w[i]) != modifier_of(#[trigger] w[j])
}

/// The text has the shape `(MOD-){0,4}WORD` with distinct modifiers.
pub open spec fn shape_ok(w: Seq<Seq<char>>) -> bool {
    &&& 1 <= w.len() <= 5
    &&& forall|i: int| 0 <= i < w.len() ==> is_word(#[trigger] w[i])
    &&& modifiers_ok(w)
}

/// The meaning of a hotkey string.
pub open spec fn parse_spec(s: Seq<char>) -> Result<HotkeySpec, HotkeyError> {
    let w = split_dash(s);
    if !shape_ok(w) {
        Err(HotkeyError::NoValidHotkey)
    } else if key_of(w.last()) is None {
        Err(HotkeyError::NoValidHotkey)
    } else {
        Ok(
            HotkeySpec {
                modifiers: Seq::new((w.len() - 1) as nat, |i: int| modifier_of(w[i])->Some_0),
                key: key_of(w.last())->Some_0,
            },
        )
    }
}

pub open spec fn result_view(r: Result<Hotkey, HotkeyError>) -> Result<HotkeySpec, HotkeyError> {
    match r {
        Ok(h) => Ok(h@),
        Err(e) => Err(e),
    }
}

pub open spec fn views(v: Seq<Vec<char>>) -> Seq<Seq<char>> {
    v.map_values(|x: Vec<char>| x@)
}

fn split_words(s: &str) -> (r: Vec<Vec<char>>)
    ensures
        views(r@) == split_dash(s@),
{
    let n = s.unicode_len();
    let mut done: Vec<Vec<char>> = Vec::new();
    let mut cur: Vec<char> = Vec::new();
    let mut i: usize = 0;
    proof {
        assert(s@.take(0) =~= Seq::<char>::empty());
        assert(views(done@).push(cur@) =~= split_dash(s@.take(0)));
    }
    while i < n
        invariant
            i <= n,
            n == s@.len(),
            views(done@).push(cur@) == split_dash(s@.take(i as int)),
        decreases n - i,
    {
        let c = s.get_char(i);
        proof {
            assert(s@.take(i + 1).drop_last() =~= s@.take(i as int));
            assert(s@.take(i + 1).last() == c);
        }
        if c == '-' {
            let ghost old_done = done@;
            let ghost old_cur = cur@;
            done.push(cur);
            cur = Vec::new();
            proof {
                assert(views(done@) =~= views(old_done).push(old_cur));
                assert(views(done@).push(cur@) =~= views(old_done).push(old_cur).push(Seq::empty()));
            }
        } else {
            let ghost old_cur = cur@;
            cur.push(c);
            proof {
                let r = views(done@).push(old_cur);
                assert(views(done@).push(cur@) =~= r.update(r.len() - 1, r.last().push(c)));
            }
        }
        i += 1;
    }
    let ghost old_done = done@;
    let ghost old_cur = cur@;
    done.push(cur);
    proof {
        assert(s@.take(n as int) =~= s@);
        assert(views(done@) =~= views(old_done).push(old_cur));
    }
    done
}

/// Whether `t` spells the canonical name `n`, ignoring ASCII case.
fn eq_ignore_case(t: &Vec<char>, n: &str, key: bool) -> (r: bool)
    ensures
        r == eq_ci(t@, n@, key),
{
    let len = n.unicode_len();
    if t.len() != len {
        return false;
    }
    let mut i: usize = 0;
    while i < len
        invariant
            i <= len,
            len == n@.len(),
            t@.len() == len,
            forall|j: int| 0 <= j < i ==> char_eq_ci(#[trigger] t@[j], n@[j], key),
        decreases len - i,
    {
        let a = t[i];
        let b = n.get_char(i);
        let bu = b as u32;
        let au = a as u32;
        let same = a == b || (65 <= bu && bu <= 90 && au == bu + 32) || (bu == 83 && au == 383) || (
        key && bu == 73 && au == 305);
        if !same {
            return false;
        }
        i += 1;
    }
    true
}

fn is_word_exec(t: &Vec<char>) -> (r: bool)
    ensures
        r == is_word(t@),
{
    if t.len() == 0 {
        return false;
    }
    let mut i: usize = 0;
    while i < t.len()
        invariant
            i <= t@.len(),
            forall|j: int| 0 <= j < i ==> is_word_char(#[trigger] t@[j]),
        decreases t@.len() - i,
    {
        let c = t[i] as u32;
        if !((65 <= c && c <= 90) || (97 <= c && c <= 122) || (48 <= c && c <= 57) || c == 95
            || c == 305 || c == 383) {
            return false;
        }
        i += 1;
    }
    true
}

fn all_digits_exec(t: &Vec<char>) -> (r: bool)
    ensures
        r == all_digits(t@),
{
    if t.len() == 0 {
        return false;
    }
    let mut i: usize = 0;
    while i < t.len()
        invariant
            i <= t@.len(),
            forall|j: int| 0 <= j < i ==> is_digit(#[trigger] t@[j]),
        decreases t@.len() - i,
    {
        let c = t[i] as u32;
        if !(48 <= c && c <= 57) {
            return false;
        }
        i += 1;
    }
    true
}

fn modifier_of_word(t: &Vec<char>) -> (r: Option<Modifier>)
    ensures
        r == modifier_of(t@),
{
    if eq_ignore_case(t, "ALT", false) {
        Some(Modifier::ALT)
    } else if eq_ignore_case(t, "CTRL", false) {
        Some(Modifier::CTRL)
    } else if eq_ignore_case(t, "SHIFT", false) {
        Some(Modifier::SHIFT)
    } else if eq_ignore_case(t, "SUPER", false) {
        Some(Modifier::SUPER)
    } else {
        None
    }
}

fn key_of_word(t: &Vec<char>) -> (r: Option<Key>)
    ensures
        r == key_of(t@),
{
    let mut w: Vec<char> = Vec::new();
    let digits = all_digits_exec(t);
    if digits {
        w.push('K');
        w.push('E');
        w.push('Y');
        w.push('_');
    }
    let ghost prefix = w@;
    let mut i: usize = 0;
    while i < t.len()
        invariant
            i <= t@.len(),
            w@ == prefix + t@.take(i as int),
        decreases t@.len() - i,
    {
        w.push(t[i]);
        proof {
            assert(t@.take(i + 1) =~= t@.take(i as int).push(t@[i as int]));
        }
        i += 1;
    }
    proof {
        assert(t@.take(t@.len() as int) =~= t@);
        assert(w@ =~= key_word(t@));
    }
    let table = key_list();
    let mut j: usize = 0;
    while j < table.len()
        invariant
            j <= table@.len(),
            table@ == key_table(),
            w@ == key_word(t@),
            forall|i: int| 0 <= i < j ==> !eq_ci(w@, #[trigger] key_table()[i].spec_name(), true),
        decreases table@.len() - j,
    {
        let k = table[j];
        if eq_ignore_case(&w, k.name(), true) {
            proof {
                assert(first_key_match(w@, j as int));
                let c = choose|c: int| first_key_match(w@, c);
                if c < j {
                    assert(!eq_ci(w@, key_table()[c].spec_name(), true));
                } else if c > j {
                    assert(!eq_ci(w@, key_table()[j as int].spec_name(), true));
                }
            }
            return Some(k);
        }
        j += 1;
    }
    None
}

/// Parses a hotkey string such as `CTRL-SHIFT-P` or `super-arrow_up`.
pub fn parse_hotkey(hotkey_string: &str) -> (r: Result<Hotkey, HotkeyError>)
    ensures
        result_view(r) == parse_spec(hotkey_string@),
{
    let w = split_words(hotkey_string);
    let ghost ws = split_dash(hotkey_string@);
    assert(views(w@) == ws);
    assert(w@.len() == ws.len());
    assert(forall|i: int| 0 <= i < w@.len() ==> (#[trigger] w@[i])@ == ws[i]);
    if w.len() < 1 || w.len() > 5 {
        assert(!shape_ok(ws));
        return Err(HotkeyError::NoValidHotkey);
    }
    let mut i: usize = 0;
    while i < w.len()
        invariant
            i <= w@.len(),
            views(w@) == ws,
            ws == split_dash(hotkey_string@),
            forall|j: int| 0 <= j < i ==> is_word(#[trigger] ws[j]),
        decreases w@.len() - i,
    {
        if !is_word_exec(&w[i]) {
            assert(w@[i as int]@ == ws[i as int]);
            assert(!shape_ok(ws));
            return Err(HotkeyError::NoValidHotkey);
        }
        i += 1;
    }
    let n = w.len() - 1;
    let mut modifier: Vec<Modifier> = Vec::new();
    let mut i: usize = 0;
    while i < n
        invariant
            i <= n,
            n == w@.len() - 1,
            views(w@) == ws,
            ws == split_dash(hotkey_string@),
            forall|j: int| 0 <= j < w@.len() ==> is_word(#[trigger] ws[j]),
            modifier@.len() == i,
            forall|j: int| 0 <= j < i ==> modifier_of(#[trigger] ws[j]) == Some(modifier@[j]),
            forall|a: int, b: int| 0 <= a < b < i ==> modifier@[a] != modifier@[b],
        decreases n - i,
    {
        assert(w@[i as int]@ == ws[i as int]);
        match modifier_of_word(&w[i]) {
            None => {
                assert(!shape_ok(ws));
                return Err(HotkeyError::NoValidHotkey);
            },
            Some(m) => {
                let mut k: usize = 0;
                while k < i
                    invariant
                        k <= i,
                        i < n,
                        n == w@.len() - 1,
                        ws.len() == w@.len(),
                        ws == split_dash(hotkey_string@),
                        modifier@.len() == i,
                        modifier_of(ws[i as int]) == Some(m),
                        forall|j: int| 0 <= j < i ==> modifier_of(#[trigger] ws[j]) == Some(modifier@[j]),
                        forall|a: int| 0 <= a < k ==> modifier@[a] != m,
                    decreases i - k,
                {
                    if modifier[k] == m {
                        proof {
                            assert(modifier_of(ws[k as int]) == modifier_of(ws[i as int]));
                            assert(!shape_ok(ws));
                        }
                        return Err(HotkeyError::NoValidHotkey);
                    }
                    k += 1;
                }
                modifier.push(m);
            },
        }
        i += 1;
    }
    assert(shape_ok(ws));
    match key_of_word(&w[n]) {
        None => Err(HotkeyError::NoValidHotkey),
        Some(key) => {
            let h = Hotkey { modifier, key };
            assert(h@.modifiers =~= Seq::new((ws.len() - 1) as nat, |i: int| modifier_of(ws[i])->Some_0));
            Ok(h)
        },
    }
}


/// The place of a modifier in the canonical display order.
pub open spec fn rank(m: Modifier) -> int {
    match m {
        Modifier::ALT => 0,
        Modifier::CTRL => 1,
        Modifier::SHIFT => 2,
        Modifier::SUPER => 3,
    }
}

/// The canonical display order of modifiers.
pub open spec fn modifier_order() -> Seq<Modifier> {
    seq![Modifier::ALT, Modifier::CTRL, Modifier::SHIFT, Modifier::SUPER]
}

/// The modifiers of `s` from place `i` of the display order on, in that order.
pub open spec fn canonical_from(s: Set<Modifier>, i: int) -> Seq<Modifier>
    decreases 4 - i,
{
    if i >= 4 || i < 0 {
        Seq::empty()
    } else {
        let m = modifier_order()[i];
        (if s.contains(m) {
            seq![m]
        } else {
            Seq::empty()
        }) + canonical_from(s, i + 1)
    }
}

/// A set of modifiers in the canonical display order: ALT, CTRL, SHIFT, SUPER.
pub open spec fn canonical_modifiers(s: Set<Modifier>) -> Seq<Modifier> {
    canonical_from(s, 0)
}

/// The words joined with `-` between them.
pub open spec fn join_dash(w: Seq<Seq<char>>) -> Seq<char>
    decreases w.len(),
{
    if w.len() == 0 {
        Seq::empty()
    } else if w.len() == 1 {
        w[0]
    } else {
        join_dash(w.drop_last()) + seq!['-'] + w.last()
    }
}

/// The canonical words of a hotkey: its modifiers in the display order, then
/// its key. Only the set of modifiers matters, not the order written.
pub open spec fn words_of(h: HotkeySpec) -> Seq<Seq<char>> {
    canonical_modifiers(h.modifiers.to_set()).map_values(|m: Modifier| m.spec_name()).push(
        h.key.spec_name(),
    )
}

/// The canonical text of a hotkey, such as `CTRL-SHIFT-P`.
pub open spec fn format_spec(h: HotkeySpec) -> Seq<char> {
    join_dash(words_of(h))
}

pub(crate) fn contains_modifier(mods: &Vec<Modifier>, m: Modifier) -> (r: bool)
    ensures
        r == mods@.to_set().contains(m),
{
    let mut i: usize = 0;
    while i < mods.len()
        invariant
            i <= mods@.len(),
            forall|j: int| 0 <= j < i ==> mods@[j] != m,
        decreases mods@.len() - i,
    {
        if mods[i] == m {
            proof {
                assert(mods@.contains(m));
            }
            return true;
        }
        i += 1;
    }
    proof {
        assert(!mods@.contains(m));
    }
    false
}

impl Hotkey {
    /// The hotkey's modifiers in the canonical display order, each once.
    pub fn canonical_modifiers(&self) -> (r: Vec<Modifier>)
        ensures
            r@ == canonical_modifiers(self.modifier@.to_set()),
    {
        let ghost s = self.modifier@.to_set();
        let mut r: Vec<Modifier> = Vec::new();
        if contains_modifier(&self.modifier, Modifier::ALT) {
            r.push(Modifier::ALT);
        }
        if contains_modifier(&self.modifier, Modifier::CTRL) {
            r.push(Modifier::CTRL);
        }
        if contains_modifier(&self.modifier, Modifier::SHIFT) {
            r.push(Modifier::SHIFT);
        }
        if contains_modifier(&self.modifier, Modifier::SUPER) {
            r.push(Modifier::SUPER);
        }
        proof {
            let o = modifier_order();
            assert(o[0] == Modifier::ALT && o[1] == Modifier::CTRL && o[2] == Modifier::SHIFT
                && o[3] == Modifier::SUPER);
            let c4 = canonical_from(s, 4);
            let c3 = canonical_from(s, 3);
            let c2 = canonical_from(s, 2);
            let c1 = canonical_from(s, 1);
            let c0 = canonical_from(s, 0);
            assert(c4 =~= Seq::<Modifier>::empty());
            assert(c0 =~= (if s.contains(Modifier::ALT) { seq![Modifier::ALT] } else { Seq::empty() })
                + c1);
            assert(c1 =~= (if s.contains(Modifier::CTRL) { seq![Modifier::CTRL] } else { Seq::empty() })
                + c2);
            assert(c2 =~= (if s.contains(Modifier::SHIFT) { seq![Modifier::SHIFT] } else { Seq::empty() })
                + c3);
            assert(c3 =~= (if s.contains(Modifier::SUPER) { seq![Modifier::SUPER] } else { Seq::empty() })
                + c4);
            assert(r@ =~= c0);
        }
        r
    }

    /// The canonical text of the hotkey: upper-case names joined by `-`, the
    /// modifiers in the order ALT, CTRL, SHIFT, SUPER.
    pub fn to_string(&self) -> (r: String)
        ensures
            r@ == format_spec(self@),
    {
        let mods = self.canonical_modifiers();
        let ghost words = words_of(self@);
        let mut r = String::new();
        let mut i: usize = 0;
        proof {
            reveal_strlit("-");
            assert(words.take(0) =~= Seq::<Seq<char>>::empty());
        }
        while i < mods.len()
            invariant
                i <= mods@.len(),
                mods@ == canonical_modifiers(self.modifier@.to_set()),
                words == words_of(self@),
                r@ == join_dash(words.take(i as int)),
            decreases mods@.len() - i,
        {
            if i > 0 {
                r.append("-");
            }
            r.append(mods[i].name());
            proof {
                reveal_strlit("-");
                let t = words.take(i + 1);
                assert(t.drop_last() =~= words.take(i as int));
                assert(t.last() == mods@[i as int].spec_name());
                if i > 0 {
                    assert(r@ =~= join_dash(t.drop_last()) + seq!['-'] + t.last());
                } else {
                    assert(r@ =~= t[0]);
                }
            }
            i += 1;
        }
        if i > 0 {
            r.append("-");
        }
        r.append(self.key.name());
        proof {
            assert(words.drop_last() =~= words.take(i as int));
            if i > 0 {
                assert(r@ =~= join_dash(words.drop_last()) + seq!['-'] + words.last());
            } else {
                assert(r@ =~= words[0]);
            }
        }
        r
    }
}

proof fn lemma_split_len(s: Seq<char>)
    ensures
        split_dash(s).len() >= 1,
    decreases s.len(),
{
    if s.len() > 0 {
        lemma_split_len(s.drop_last());
    }
}

/// Appending a word with no `-` extends the last piece of the split.
proof fn lemma_split_append(p: Seq<char>, b: Seq<char>)
    requires
        forall|i: int| 0 <= i < b.len() ==> b[i] != '-',
    ensures
        split_dash(p + b) == split_dash(p).update(
            split_dash(p).len() - 1,
            split_dash(p).last() + b,
        ),
    decreases b.len(),
{
    lemma_split_len(p);
    let sp = split_dash(p);
    if b.len() == 0 {
        assert(p + b =~= p);
        assert(sp.last() + b =~= sp.last());
        assert(sp.update(sp.len() - 1, sp.last()) =~= sp);
    } else {
        let b0 = b.drop_last();
        lemma_split_append(p, b0);
        assert((p + b).drop_last() =~= p + b0);
        assert((p + b).last() == b.last());
        assert((sp.last() + b0).push(b.last()) =~= sp.last() + b);
        let r0 = sp.update(sp.len() - 1, sp.last() + b0);
        assert(r0.update(r0.len() - 1, r0.last().push(b.last())) =~= sp.update(
            sp.len() - 1,
            sp.last() + b,
        ));
    }
}

/// Splitting the joined words gives the words back.
proof fn lemma_split_join(w: Seq<Seq<char>>)
    requires
        w.len() >= 1,
        forall|i: int, j: int| 0 <= i < w.len() && 0 <= j < w[i].len() ==> w[i][j] != '-',
    ensures
        split_dash(join_dash(w)) == w,
    decreases w.len(),
{
    let e = Seq::<char>::empty();
    if w.len() == 1 {
        lemma_split_append(e, w[0]);
        assert(e + w[0] =~= w[0]);
        assert(split_dash(e) =~= seq![e]);
        assert(seq![e].update(0, w[0]) =~= w);
    } else {
        let v = w.drop_last();
        lemma_split_join(v);
        let j = join_dash(v);
        let jd = j + seq!['-'];
        assert(jd.drop_last() =~= j);
        assert(split_dash(jd) == v.push(e));
        lemma_split_append(jd, w.last());
        assert(jd + w.last() =~= join_dash(w));
        assert(v.push(e).update(v.len() as int, e + w.last()) =~= w);
    }
}

proof fn lemma_eq_ci_refl(a: Seq<char>, key: bool)
    ensures
        eq_ci(a, a, key),
{
}

proof fn lemma_eq_ci_trans(a: Seq<char>, b: Seq<char>, c: Seq<char>, key: bool)
    requires
        eq_ci(a, b, key),
        eq_ci(b, c, key),
    ensures
        eq_ci(a, c, key),
{
    assert forall|i: int| 0 <= i < a.len() implies char_eq_ci(#[trigger] a[i], c[i], key) by {
        assert(char_eq_ci(a[i], b[i], key));
        assert(char_eq_ci(b[i], c[i], key));
    }
}

proof fn lemma_eq_ci_word(a: Seq<char>, b: Seq<char>, key: bool)
    requires
        eq_ci(a, b, key),
        is_word(a),
    ensures
        is_word(b),
        forall|i: int| 0 <= i < b.len() ==> b[i] != '-',
{
    assert forall|i: int| 0 <= i < b.len() implies is_word_char(#[trigger] b[i]) by {
        assert(char_eq_ci(a[i], b[i], key));
        assert(is_word_char(a[i]));
    }
    assert forall|i: int| 0 <= i < b.len() implies b[i] != '-' by {
        assert(is_word_char(b[i]));
    }
}

/// Each modifier's canonical name is a word that names that modifier.
proof fn lemma_modifier_name(m: Modifier)
    ensures
        is_word(m.spec_name()),
        modifier_of(m.spec_name()) == Some(m),
{
    reveal_strlit("ALT");
    reveal_strlit("CTRL");
    reveal_strlit("SHIFT");
    reveal_strlit("SUPER");
    let n = m.spec_name();
    lemma_eq_ci_refl(n, false);
    assert(is_word_char(n[0]));
    assert(is_word(n));
    if m == Modifier::SUPER {
        assert(!char_eq_ci(n[1], Modifier::SHIFT.spec_name()[1], false));
    }
}

/// The canonical order of a set: ranks rise strictly, and it holds exactly
/// the members of the set from place `i` on.
proof fn lemma_canonical_from(s: Set<Modifier>, i: int)
    requires
        0 <= i <= 4,
    ensures
        canonical_from(s, i).len() <= 4 - i,
        forall|k: int|
            0 <= k < canonical_from(s, i).len() ==> rank(#[trigger] canonical_from(s, i)[k]) >= i
                && s.contains(canonical_from(s, i)[k]),
        forall|k1: int, k2: int|
            0 <= k1 < k2 < canonical_from(s, i).len() ==> rank(
                #[trigger] canonical_from(s, i)[k1],
            ) < rank(#[trigger] canonical_from(s, i)[k2]),
        forall|m: Modifier| s.contains(m) && rank(m) >= i ==> canonical_from(s, i).contains(m),
    decreases 4 - i,
{
    if i < 4 {
        lemma_canonical_from(s, i + 1);
        let m = modifier_order()[i];
        assert(rank(m) == i);
        let h: Seq<Modifier> = if s.contains(m) {
            seq![m]
        } else {
            Seq::empty()
        };
        let rest = canonical_from(s, i + 1);
        let c = canonical_from(s, i);
        assert(c == h + rest);
        assert forall|k: int| 0 <= k < c.len() implies rank(#[trigger] c[k]) >= i && s.contains(c[k]) by {
            if k >= h.len() {
                assert(c[k] == rest[k - h.len()]);
            }
        }
        assert forall|k1: int, k2: int| 0 <= k1 < k2 < c.len() implies rank(#[trigger] c[k1]) < rank(
            #[trigger] c[k2],
        ) by {
            assert(c[k2] == rest[k2 - h.len()]);
            if k1 >= h.len() {
                assert(c[k1] == rest[k1 - h.len()]);
            }
        }
        assert forall|x: Modifier| s.contains(x) && rank(x) >= i implies c.contains(x) by {
            if rank(x) == i {
                assert(x == m);
                assert(c[0] == m);
            } else {
                let k = choose|k: int| 0 <= k < rest.len() && rest[k] == x;
                assert(c[k + h.len()] == x);
            }
        }
    } else {
        assert forall|m: Modifier| s.contains(m) && rank(m) >= i implies canonical_from(s, i).contains(m) by {
        }
    }
}

/// A word that names a key, and the key's canonical name, name the same key;
/// the canonical name is itself a word.
proof fn lemma_key_canonical(t: Seq<char>)
    requires
        is_word(t),
        key_of(t) is Some,
    ensures
        is_word(key_of(t)->Some_0.spec_name()),
        key_of(key_of(t)->Some_0.spec_name()) == key_of(t),
{
    let x = key_word(t);
    let j0 = choose|j: int| first_key_match(x, j);
    let k = key_table()[j0];
    let n = k.spec_name();
    assert(eq_ci(x, n, true));
    if all_digits(t) {
        let kw = seq!['K', 'E', 'Y', '_'];
        assert forall|i: int| 0 <= i < x.len() implies is_word_char(#[trigger] x[i]) by {
            if i < 4 {
                assert(kw[0] == 'K' && kw[1] == 'E' && kw[2] == 'Y' && kw[3] == '_');
                assert(x[i] == kw[i]);
            } else {
                assert(x[i] == t[i - 4]);
            }
        }
        assert(x[0] == 'K');
        assert(char_eq_ci(x[0], n[0], true));
        assert(!is_digit(n[0]));
    } else {
        let i = choose|i: int| 0 <= i < t.len() && !is_digit(#[trigger] t[i]);
        assert(char_eq_ci(x[i], n[i], true));
        assert(!is_digit(n[i]));
    }
    lemma_eq_ci_word(x, n, true);
    assert(key_word(n) == n);
    lemma_eq_ci_refl(n, true);
    assert forall|i: int| 0 <= i < j0 implies !eq_ci(n, #[trigger] key_table()[i].spec_name(), true) by {
        if eq_ci(n, key_table()[i].spec_name(), true) {
            lemma_eq_ci_trans(x, n, key_table()[i].spec_name(), true);
        }
    }
    assert(first_key_match(n, j0));
    let c = choose|c: int| first_key_match(n, c);
    if c < j0 {
        assert(!eq_ci(n, key_table()[c].spec_name(), true));
    } else if c > j0 {
        assert(!eq_ci(n, key_table()[j0].spec_name(), true));
    }
}

/// Formatting a parsed hotkey and parsing the text again gives the same key
/// and the same set of modifiers, now in the canonical display order; so
/// parsing, formatting and parsing again yields an equal key combination.
pub proof fn lemma_parse_format_round_trip(s: Seq<char>)
    requires
        parse_spec(s) is Ok,
    ensures
        parse_spec(format_spec(parse_spec(s)->Ok_0)) == Ok::<HotkeySpec, HotkeyError>(
            HotkeySpec {
                modifiers: canonical_modifiers(parse_spec(s)->Ok_0.modifiers.to_set()),
                key: parse_spec(s)->Ok_0.key,
            },
        ),
        canonical_modifiers(parse_spec(s)->Ok_0.modifiers.to_set()).to_set()
            == parse_spec(s)->Ok_0.modifiers.to_set(),
        parse_spec(format_spec(parse_spec(s)->Ok_0))->Ok_0.modifiers.to_set()
            == parse_spec(s)->Ok_0.modifiers.to_set(),
{
    let w = split_dash(s);
    let h = parse_spec(s)->Ok_0;
    let set = h.modifiers.to_set();
    let cm = canonical_modifiers(set);
    lemma_canonical_from(set, 0);
    let v = words_of(h);
    let last = (v.len() - 1) as int;
    assert(v.len() == cm.len() + 1);
    assert forall|i: int| 0 <= i < last implies modifier_of(#[trigger] v[i]) == Some(cm[i]) && is_word(
        v[i],
    ) by {
        assert(v[i] == cm[i].spec_name());
        lemma_modifier_name(cm[i]);
    }
    let wl = w[w.len() - 1];
    assert(is_word(wl));
    lemma_key_canonical(wl);
    assert(v[last] == h.key.spec_name());
    assert forall|i: int, j: int| 0 <= i < v.len() && 0 <= j < v[i].len() implies v[i][j] != '-' by {
        assert(is_word(v[i]));
        assert(is_word_char(v[i][j]));
    }
    lemma_split_join(v);
    assert(split_dash(format_spec(h)) == v);
    assert(v.last() == v[last]);
    assert forall|i: int, j: int| 0 <= i < j < v.len() - 1 implies modifier_of(#[trigger] v[i])
        != modifier_of(#[trigger] v[j]) by {
        assert(rank(cm[i]) < rank(cm[j]));
    }
    assert(shape_ok(v));
    assert(Seq::new((v.len() - 1) as nat, |i: int| modifier_of(v[i])->Some_0) =~= cm);
    assert forall|m: Modifier| cm.to_set().contains(m) == set.contains(m) by {
        if set.contains(m) {
            assert(cm.contains(m));
        }
        if cm.contains(m) {
            let k = choose|k: int| 0 <= k < cm.len() && cm[k] == m;
            assert(set.contains(cm[k]));
        }
    }
    assert(cm.to_set() =~= set);
}

} // verus!
