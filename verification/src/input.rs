//! Device-independent key input: key codes, modifier sets, and the string
//! grammar for key specifications such as `Ctrl-x` or `C-x C-s`.
//!
//! A key specification is a sequence of modifier prefixes joined by `-`
//! (`Ctrl-`/`C-`, `Alt-`/`M-`, `Shift-`/`S-`, `Super-`/`s-`) ending in a key
//! name: a named special key, `F1`..`F12`, or a single character.  A chord
//! sequence is a list of key specifications separated by blanks.

use vstd::prelude::*;

use vstd::string::StrSliceExecFns;

verus! {

/// What key was pressed.
#[derive(Debug, Clone, Copy, PartialEq, Eq)]
pub enum KeyCode {
    Char(char),
    Backspace,
    Enter,
    Left,
    Right,
    Up,
    Down,
    Home,
    End,
    PageUp,
    PageDown,
    Tab,
    Delete,
    Escape,
    /// Function keys F1 to F12.
    F(u8),
}

/// Modifier keys held together with a key.
#[derive(Debug, Clone, Copy, PartialEq, Eq, Default)]
pub struct KeyModifiers {
    pub ctrl: bool,
    pub alt: bool,
    pub shift: bool,
    /// Command on Mac, Super/Windows key elsewhere.
    pub meta: bool,
}

impl KeyModifiers {
    /// No modifiers held.
    pub fn none() -> (m: KeyModifiers)
        ensures
            m == no_modifiers(),
    {
        KeyModifiers { ctrl: false, alt: false, shift: false, meta: false }
    }

    /// Control alone.
    pub fn control() -> (m: KeyModifiers)
        ensures
            m == (KeyModifiers { ctrl: true, ..no_modifiers() }),
    {
        KeyModifiers { ctrl: true, alt: false, shift: false, meta: false }
    }

    /// Alt alone.
    pub fn alt() -> (m: KeyModifiers)
        ensures
            m == (KeyModifiers { alt: true, ..no_modifiers() }),
    {
        KeyModifiers { ctrl: false, alt: true, shift: false, meta: false }
    }

    /// Shift alone.
    pub fn shift() -> (m: KeyModifiers)
        ensures
            m == (KeyModifiers { shift: true, ..no_modifiers() }),
    {
        KeyModifiers { ctrl: false, alt: false, shift: true, meta: false }
    }

    /// Whether no modifier is held.
    pub fn is_empty(&self) -> (r: bool)
        ensures
            r == (*self == no_modifiers()),
    {
        !self.ctrl && !self.alt && !self.shift && !self.meta
    }
}

/// The modifier set with nothing held.
pub open spec fn no_modifiers() -> KeyModifiers {
    KeyModifiers { ctrl: false, alt: false, shift: false, meta: false }
}

/// A key press: a key code with the modifiers held.
#[derive(Debug, Clone, Copy, PartialEq, Eq)]
pub struct EditorKey {
    pub code: KeyCode,
    pub modifiers: KeyModifiers,
}

/// A sequence of key presses, for chords such as `C-x C-s`.
#[derive(Debug, Clone, PartialEq, Eq)]
pub struct KeySequence {
    pub keys: Vec<EditorKey>,
}

/// Why a key specification failed to parse.
#[derive(Debug, Clone, PartialEq, Eq)]
pub enum ParseKeyError {
    /// The specification was empty.
    Empty,
    /// A prefix before a `-` names no known modifier.
    UnknownModifier(String),
    /// The final token names no known key.
    UnknownKey(String),
    /// An `F`-token names no function key between `F1` and `F12`.
    InvalidFunctionKey(String),
}

/// The parse errors, with their text payloads as character sequences.
pub ghost enum KeyErrSpec {
    Empty,
    UnknownModifier(Seq<char>),
    UnknownKey(Seq<char>),
    InvalidFunctionKey(Seq<char>),
}

/// The abstract value of a [`ParseKeyError`].
pub open spec fn err_model(e: ParseKeyError) -> KeyErrSpec {
    match e {
        ParseKeyError::Empty => KeyErrSpec::Empty,
        ParseKeyError::UnknownModifier(s) => KeyErrSpec::UnknownModifier(s@),
        ParseKeyError::UnknownKey(s) => KeyErrSpec::UnknownKey(s@),
        ParseKeyError::InvalidFunctionKey(s) => KeyErrSpec::InvalidFunctionKey(s@),
    }
}

impl ParseKeyError {
    /// The human-readable description of the failure.
    pub fn message(&self) -> (m: String)
        ensures
            self is Empty ==> m@ == "empty key specification"@,
            self matches ParseKeyError::UnknownModifier(s) ==> m@ == "unknown modifier: "@ + s@,
            self matches ParseKeyError::UnknownKey(s) ==> m@ == "unknown key: "@ + s@,
            self matches ParseKeyError::InvalidFunctionKey(s) ==> m@ == "invalid function key: "@
                + s@,
    {
        match self {
            ParseKeyError::Empty => "empty key specification".to_owned(),
            ParseKeyError::UnknownModifier(s) => {
                let mut m = "unknown modifier: ".to_owned();
                m.append(s.as_str());
                m
            },
            ParseKeyError::UnknownKey(s) => {
                let mut m = "unknown key: ".to_owned();
                m.append(s.as_str());
                m
            },
            ParseKeyError::InvalidFunctionKey(s) => {
                let mut m = "invalid function key: ".to_owned();
                m.append(s.as_str());
                m
            },
        }
    }
}

/// Index of the first `-` in `s`, or the length of `s` if there is none.
pub open spec fn first_dash(s: Seq<char>) -> nat
    decreases s.len(),
{
    if s.len() == 0 {
        0
    } else if s[0] == '-' {
        0
    } else {
        1 + first_dash(s.skip(1))
    }
}

/// `s` split on `-`, keeping empty pieces, as Rust's `split('-')` does: the
/// empty string yields one empty piece.
pub open spec fn dash_split(s: Seq<char>) -> Seq<Seq<char>>
    decreases s.len(),
{
    let d = first_dash(s) as int;
    if d >= s.len() {
        seq![s]
    } else {
        seq![s.take(d)] + dash_split(s.skip(d + 1))
    }
}

/// The modifier set after reading one modifier prefix, or nothing if the
/// prefix names no known modifier.
pub open spec fn apply_modifier(m: KeyModifiers, part: Seq<char>) -> Option<KeyModifiers> {
    if part == "Ctrl"@ || part == "C"@ {
        Some(KeyModifiers { ctrl: true, ..m })
    } else if part == "Alt"@ || part == "M"@ {
        Some(KeyModifiers { alt: true, ..m })
    } else if part == "Shift"@ || part == "S"@ {
        Some(KeyModifiers { shift: true, ..m })
    } else if part == "Super"@ || part == "s"@ {
        Some(KeyModifiers { meta: true, ..m })
    } else {
        None
    }
}

/// The modifier set after reading every prefix in `parts`, or the first
/// prefix that names no known modifier.
pub open spec fn fold_modifiers(m: KeyModifiers, parts: Seq<Seq<char>>) -> Result<
    KeyModifiers,
    Seq<char>,
>
    decreases parts.len(),
{
    if parts.len() == 0 {
        Ok(m)
    } else {
        match apply_modifier(m, parts[0]) {
            Some(m2) => fold_modifiers(m2, parts.skip(1)),
            None => Err(parts[0]),
        }
    }
}

/// Whether `c` is a decimal digit.
pub open spec fn is_digit(c: char) -> bool {
    '0' <= c && c <= '9'
}

/// Whether every character of `s` is a decimal digit.
pub open spec fn all_digits(s: Seq<char>) -> bool {
    forall|i: int| 0 <= i < s.len() ==> is_digit(s[i])
}

/// The number the decimal digits of `s` spell.
pub open spec fn digits_value(s: Seq<char>) -> nat
    decreases s.len(),
{
    if s.len() == 0 {
        0
    } else {
        (digits_value(s.drop_last()) * 10 + (s.last() as int - '0' as int)) as nat
    }
}

/// The key code a final token names, or why it names none: a named special
/// key, `F1`..`F12`, or any single character.
pub open spec fn key_code_of(t: Seq<char>) -> Result<KeyCode, KeyErrSpec> {
    if t == "Enter"@ {
        Ok(KeyCode::Enter)
    } else if t == "Backspace"@ {
        Ok(KeyCode::Backspace)
    } else if t == "Delete"@ {
        Ok(KeyCode::Delete)
    } else if t == "Escape"@ || t == "Esc"@ {
        Ok(KeyCode::Escape)
    } else if t == "Tab"@ {
        Ok(KeyCode::Tab)
    } else if t == "Home"@ {
        Ok(KeyCode::Home)
    } else if t == "End"@ {
        Ok(KeyCode::End)
    } else if t == "PageUp"@ {
        Ok(KeyCode::PageUp)
    } else if t == "PageDown"@ {
        Ok(KeyCode::PageDown)
    } else if t == "Left"@ {
        Ok(KeyCode::Left)
    } else if t == "Right"@ {
        Ok(KeyCode::Right)
    } else if t == "Up"@ {
        Ok(KeyCode::Up)
    } else if t == "Down"@ {
        Ok(KeyCode::Down)
    } else if t.len() > 1 && t[0] == 'F' && all_digits(t.skip(1)) {
        if 1 <= digits_value(t.skip(1)) && digits_value(t.skip(1)) <= 12 {
            Ok(KeyCode::F(digits_value(t.skip(1)) as u8))
        } else {
            Err(KeyErrSpec::InvalidFunctionKey(t))
        }
    } else if t.len() == 1 {
        Ok(KeyCode::Char(t[0]))
    } else {
        Err(KeyErrSpec::UnknownKey(t))
    }
}

/// The key a list of dash-separated pieces names: every piece but the last
/// is a modifier prefix, the last names the key code.
pub open spec fn finish_key(m: KeyModifiers, parts: Seq<Seq<char>>) -> Result<
    EditorKey,
    KeyErrSpec,
> {
    match fold_modifiers(m, parts.take(parts.len() - 1)) {
        Err(p) => Err(KeyErrSpec::UnknownModifier(p)),
        Ok(mods) => match key_code_of(parts.last()) {
            Ok(code) => Ok(EditorKey { code, modifiers: mods }),
            Err(e) => Err(e),
        },
    }
}

/// The key a specification string names, or why it names none.
pub open spec fn parse_key_spec(s: Seq<char>) -> Result<EditorKey, KeyErrSpec> {
    if s.len() == 0 {
        Err(KeyErrSpec::Empty)
    } else {
        finish_key(no_modifiers(), dash_split(s))
    }
}

/// Whether `c` separates the key specifications of a chord sequence.
pub open spec fn is_blank(c: char) -> bool {
    c == ' ' || c == '\t' || c == '\n' || c == '\r'
}

/// Index of the first blank in `s`, or the length of `s` if there is none.
pub open spec fn first_blank(s: Seq<char>) -> nat
    decreases s.len(),
{
    if s.len() == 0 {
        0
    } else if is_blank(s[0]) {
        0
    } else {
        1 + first_blank(s.skip(1))
    }
}

/// The maximal blank-free runs of `s`, in order.
pub open spec fn blank_split(s: Seq<char>) -> Seq<Seq<char>>
    decreases s.len(),
{
    if s.len() == 0 {
        Seq::empty()
    } else if is_blank(s[0]) {
        blank_split(s.skip(1))
    } else {
        let d = first_blank(s) as int;
        if d >= s.len() {
            seq![s]
        } else {
            seq![s.take(d)] + blank_split(s.skip(d))
        }
    }
}

/// The keys a list of tokens names, or the first reason a token names none.
pub open spec fn parse_tokens(toks: Seq<Seq<char>>) -> Result<Seq<EditorKey>, KeyErrSpec>
    decreases toks.len(),
{
    if toks.len() == 0 {
        Ok(Seq::empty())
    } else {
        match parse_key_spec(toks[0]) {
            Err(e) => Err(e),
            Ok(k) => match parse_tokens(toks.skip(1)) {
                Err(e) => Err(e),
                Ok(rest) => Ok(seq![k] + rest),
            },
        }
    }
}

/// The keys a chord-sequence string names: its blank-separated tokens parsed
/// in order, the first failure winning; a string with no token is empty.
pub open spec fn parse_sequence_spec(s: Seq<char>) -> Result<Seq<EditorKey>, KeyErrSpec> {
    if blank_split(s).len() == 0 {
        Err(KeyErrSpec::Empty)
    } else {
        parse_tokens(blank_split(s))
    }
}

impl EditorKey {
    /// A key with no modifiers.
    pub fn new(code: KeyCode) -> (k: EditorKey)
        ensures
            k.code == code,
            k.modifiers == no_modifiers(),
    {
        EditorKey { code, modifiers: KeyModifiers::none() }
    }

    /// A key with the given modifiers.
    pub fn with_modifiers(code: KeyCode, modifiers: KeyModifiers) -> (k: EditorKey)
        ensures
            k.code == code,
            k.modifiers == modifiers,
    {
        EditorKey { code, modifiers }
    }

    /// Whether this is a character key with no control, alt or meta
    /// modifier.
    pub fn is_plain_char(&self) -> (r: bool)
        ensures
            r == (self.code matches KeyCode::Char(_) && !self.modifiers.ctrl
                && !self.modifiers.alt && !self.modifiers.meta),
    {
        match self.code {
            KeyCode::Char(_) => !self.modifiers.ctrl && !self.modifiers.alt
                && !self.modifiers.meta,
            _ => false,
        }
    }
}

impl KeySequence {
    /// A sequence of the given keys.
    pub fn new(keys: Vec<EditorKey>) -> (s: KeySequence)
        ensures
            s.keys@ == keys@,
    {
        KeySequence { keys }
    }

    /// A sequence of one key.
    pub fn single(key: EditorKey) -> (s: KeySequence)
        ensures
            s.keys@ == seq![key],
    {
        let mut keys: Vec<EditorKey> = Vec::new();
        keys.push(key);
        proof {
            assert(keys@ =~= seq![key]);
        }
        KeySequence { keys }
    }
}

/// A list split on `-` has at least one piece.
proof fn lemma_dash_split_len(t: Seq<char>)
    ensures
        dash_split(t).len() >= 1,
    decreases t.len(),
{
    let d = first_dash(t) as int;
    if d < t.len() {
        lemma_dash_split_len(t.skip(d + 1));
    }
}

/// `first_dash` finds exactly the position of the first `-`.
proof fn lemma_first_dash_at(t: Seq<char>, d: int)
    requires
        0 <= d <= t.len(),
        forall|j: int| 0 <= j < d ==> t[j] != '-',
        d < t.len() ==> t[d] == '-',
    ensures
        first_dash(t) == d,
    decreases t.len(),
{
    if t.len() == 0 {
    } else if d == 0 {
    } else {
        assert(t[0] != '-');
        assert(forall|j: int| 0 <= j < d - 1 ==> t.skip(1)[j] == t[j + 1]);
        lemma_first_dash_at(t.skip(1), d - 1);
    }
}

/// `first_blank` finds exactly the position of the first blank.
proof fn lemma_first_blank_at(t: Seq<char>, d: int)
    requires
        0 <= d <= t.len(),
        forall|j: int| 0 <= j < d ==> !is_blank(t[j]),
        d < t.len() ==> is_blank(t[d]),
    ensures
        first_blank(t) == d,
    decreases t.len(),
{
    if t.len() == 0 {
    } else if d == 0 {
    } else {
        assert(!is_blank(t[0]));
        assert(forall|j: int| 0 <= j < d - 1 ==> t.skip(1)[j] == t[j + 1]);
        lemma_first_blank_at(t.skip(1), d - 1);
    }
}

/// Reading one modifier prefix commutes with finishing the rest of the
/// pieces.
proof fn lemma_finish_key_step(m: KeyModifiers, p: Seq<char>, rest: Seq<Seq<char>>)
    requires
        rest.len() >= 1,
    ensures
        finish_key(m, seq![p] + rest) == match apply_modifier(m, p) {
            Some(m2) => finish_key(m2, rest),
            None => Err::<EditorKey, KeyErrSpec>(KeyErrSpec::UnknownModifier(p)),
        },
{
    let parts = seq![p] + rest;
    assert(parts.len() == 1 + rest.len());
    assert(parts[0] == p);
    assert(parts.take(parts.len() - 1) == seq![p] + rest.take(rest.len() - 1)) by {
        assert(parts.take(parts.len() - 1) =~= seq![p] + rest.take(rest.len() - 1));
    }
    assert(parts.last() == rest.last());
    let taken = seq![p] + rest.take(rest.len() - 1);
    assert(taken[0] == p);
    assert(taken.skip(1) =~= rest.take(rest.len() - 1));
}

/// Whether the characters of `a` and `b` are the same.
fn str_eq(a: &str, b: &str) -> (r: bool)
    ensures
        r == (a@ == b@),
{
    let na = a.unicode_len();
    let nb = b.unicode_len();
    if na != nb {
        proof {
            assert(a@ != b@) by {
                if a@ == b@ {
                    assert(a@.len() == b@.len());
                }
            }
        }
        return false;
    }
    let mut i: usize = 0;
    while i < na
        invariant
            na == a@.len(),
            na == b@.len(),
            0 <= i <= na,
            forall|j: int| 0 <= j < i ==> a@[j] == b@[j],
        decreases na - i,
    {
        if a.get_char(i) != b.get_char(i) {
            return false;
        }
        i = i + 1;
    }
    proof {
        assert(a@ =~= b@);
    }
    true
}

/// Whether `c` separates the key specifications of a chord sequence.
fn is_blank_char(c: char) -> (r: bool)
    ensures
        r == is_blank(c),
{
    c == ' ' || c == '\t' || c == '\n' || c == '\r'
}

/// Whether every character of `s` from `start` on is a decimal digit.
fn all_digits_from(s: &str, start: usize) -> (r: bool)
    requires
        start <= s@.len(),
    ensures
        r == all_digits(s@.skip(start as int)),
{
    let n = s.unicode_len();
    let mut i = start;
    while i < n
        invariant
            start <= i <= n,
            n == s@.len(),
            forall|j: int| start <= j < i ==> is_digit(s@[j]),
        decreases n - i,
    {
        let c = s.get_char(i);
        if !(c >= '0' && c <= '9') {
            proof {
                assert(s@.skip(start as int)[i - start] == s@[i as int]);
                assert(!all_digits(s@.skip(start as int)));
            }
            return false;
        }
        i = i + 1;
    }
    proof {
        assert forall|j: int| 0 <= j < s@.skip(start as int).len() implies is_digit(
            s@.skip(start as int)[j],
        ) by {
            assert(s@.skip(start as int)[j] == s@[j + start]);
        }
    }
    true
}

/// The number the digits of `s` from `start` on spell, capped at 13 so the
/// range check against 12 stays exact.
fn digits_capped(s: &str, start: usize) -> (v: u32)
    requires
        start <= s@.len(),
        all_digits(s@.skip(start as int)),
    ensures
        v == if digits_value(s@.skip(start as int)) <= 12 {
            digits_value(s@.skip(start as int)) as int
        } else {
            13int
        },
{
    let ghost t = s@.skip(start as int);
    let n = s.unicode_len();
    let mut i = start;
    let mut v: u32 = 0;
    proof {
        assert(t.take(0) =~= Seq::<char>::empty());
    }
    while i < n
        invariant
            start <= i <= n,
            n == s@.len(),
            t == s@.skip(start as int),
            all_digits(t),
            v == if digits_value(t.take(i - start)) <= 12 {
                digits_value(t.take(i - start)) as int
            } else {
                13int
            },
        decreases n - i,
    {
        let c = s.get_char(i);
        proof {
            assert(t[i - start] == s@[i as int]);
            assert(is_digit(t[i - start]));
        }
        let d = c as u32 - '0' as u32;
        let ghost pre = t.take(i - start);
        let ghost pre2 = t.take(i + 1 - start);
        proof {
            assert(pre2.drop_last() =~= pre);
            assert(pre2.last() == t[i - start]);
            assert(digits_value(pre2) == digits_value(pre) * 10 + d);
        }
        v = if v * 10 + d > 13 {
            13
        } else {
            v * 10 + d
        };
        i = i + 1;
    }
    proof {
        assert(t.take(n - start) =~= t);
    }
    v
}

/// The key code a final token names: a named special key, `F1`..`F12`, or a
/// single character.
pub fn parse_key_code(s: &str) -> (r: Result<KeyCode, ParseKeyError>)
    ensures
        match r {
            Ok(c) => key_code_of(s@) == Ok::<KeyCode, KeyErrSpec>(c),
            Err(e) => key_code_of(s@) == Err::<KeyCode, KeyErrSpec>(err_model(e)),
        },
{
    if str_eq(s, "Enter") {
        Ok(KeyCode::Enter)
    } else if str_eq(s, "Backspace") {
        Ok(KeyCode::Backspace)
    } else if str_eq(s, "Delete") {
        Ok(KeyCode::Delete)
    } else if str_eq(s, "Escape") || str_eq(s, "Esc") {
        Ok(KeyCode::Escape)
    } else if str_eq(s, "Tab") {
        Ok(KeyCode::Tab)
    } else if str_eq(s, "Home") {
        Ok(KeyCode::Home)
    } else if str_eq(s, "End") {
        Ok(KeyCode::End)
    } else if str_eq(s, "PageUp") {
        Ok(KeyCode::PageUp)
    } else if str_eq(s, "PageDown") {
        Ok(KeyCode::PageDown)
    } else if str_eq(s, "Left") {
        Ok(KeyCode::Left)
    } else if str_eq(s, "Right") {
        Ok(KeyCode::Right)
    } else if str_eq(s, "Up") {
        Ok(KeyCode::Up)
    } else if str_eq(s, "Down") {
        Ok(KeyCode::Down)
    } else {
        let n = s.unicode_len();
        if n > 1 && s.get_char(0) == 'F' && all_digits_from(s, 1) {
            let v = digits_capped(s, 1);
            if 1 <= v && v <= 12 {
                Ok(KeyCode::F(v as u8))
            } else {
                Err(ParseKeyError::InvalidFunctionKey(s.to_owned()))
            }
        } else if n == 1 {
            Ok(KeyCode::Char(s.get_char(0)))
        } else {
            Err(ParseKeyError::UnknownKey(s.to_owned()))
        }
    }
}

impl EditorKey {
    /// The key a specification string such as `Ctrl-c` or `C-M-s` names.
    pub fn parse(s: &str) -> (r: Result<EditorKey, ParseKeyError>)
        ensures
            match r {
                Ok(k) => parse_key_spec(s@) == Ok::<EditorKey, KeyErrSpec>(k),
                Err(e) => parse_key_spec(s@) == Err::<EditorKey, KeyErrSpec>(err_model(e)),
            },
    {
        let n = s.unicode_len();
        if n == 0 {
            return Err(ParseKeyError::Empty);
        }
        let mut mods = KeyModifiers::none();
        let mut start: usize = 0;
        proof {
            assert(s@.skip(0) =~= s@);
        }
        loop
            invariant
                0 <= start <= n,
                n == s@.len(),
                n > 0,
                finish_key(no_modifiers(), dash_split(s@)) == finish_key(
                    mods,
                    dash_split(s@.skip(start as int)),
                ),
            decreases n - start,
        {
            let ghost rem = s@.skip(start as int);
            let mut d = start;
            while d < n && s.get_char(d) != '-'
                invariant
                    start <= d <= n,
                    n == s@.len(),
                    forall|j: int| start <= j < d ==> s@[j] != '-',
                decreases n - d,
            {
                d = d + 1;
            }
            proof {
                assert forall|j: int| 0 <= j < d - start implies rem[j] != '-' by {
                    assert(rem[j] == s@[j + start]);
                }
                if d < n {
                    assert(rem[d - start] == s@[d as int]);
                }
                lemma_first_dash_at(rem, d - start);
            }
            if d == n {
                let part = s.substring_char(start, n);
                proof {
                    assert(part@ =~= rem);
                    assert(dash_split(rem) == seq![rem]);
                    assert(seq![rem].take(0) =~= Seq::<Seq<char>>::empty());
                    assert(seq![rem].last() == rem);
                }
                match parse_key_code(part) {
                    Ok(code) => {
                        return Ok(EditorKey { code, modifiers: mods });
                    },
                    Err(e) => {
                        return Err(e);
                    },
                }
            } else {
                let part = s.substring_char(start, d);
                let ghost p = rem.take(d - start);
                let ghost rest = dash_split(rem.skip(d - start + 1));
                proof {
                    assert(part@ =~= p);
                    lemma_dash_split_len(rem.skip(d - start + 1));
                    assert(dash_split(rem) == seq![p] + rest);
                    lemma_finish_key_step(mods, p, rest);
                    assert(rem.skip(d - start + 1) =~= s@.skip(d as int + 1));
                }
                if str_eq(part, "Ctrl") || str_eq(part, "C") {
                    mods.ctrl = true;
                } else if str_eq(part, "Alt") || str_eq(part, "M") {
                    mods.alt = true;
                } else if str_eq(part, "Shift") || str_eq(part, "S") {
                    mods.shift = true;
                } else if str_eq(part, "Super") || str_eq(part, "s") {
                    mods.meta = true;
                } else {
                    proof {
                        assert(apply_modifier(mods, p) is None);
                    }
                    return Err(ParseKeyError::UnknownModifier(part.to_owned()));
                }
                start = d + 1;
            }
        }
    }
}

impl KeySequence {
    /// The keys a chord-sequence string such as `C-x C-s` names, parsed in
    /// order with the first failure winning.
    pub fn parse(s: &str) -> (r: Result<KeySequence, ParseKeyError>)
        ensures
            match r {
                Ok(ks) => parse_sequence_spec(s@) == Ok::<Seq<EditorKey>, KeyErrSpec>(ks.keys@),
                Err(e) => parse_sequence_spec(s@) == Err::<Seq<EditorKey>, KeyErrSpec>(
                    err_model(e),
                ),
            },
    {
        let n = s.unicode_len();
        let mut keys: Vec<EditorKey> = Vec::new();
        let mut pos: usize = 0;
        proof {
            assert(s@.skip(0) =~= s@);
            match parse_tokens(blank_split(s@)) {
                Ok(rest) => {
                    assert(Seq::<EditorKey>::empty() + rest =~= rest);
                },
                Err(_) => {},
            }
        }
        loop
            invariant
                0 <= pos <= n,
                n == s@.len(),
                match parse_tokens(blank_split(s@.skip(pos as int))) {
                    Ok(rest) => parse_tokens(blank_split(s@)) == Ok::<Seq<EditorKey>, KeyErrSpec>(
                        keys@ + rest,
                    ),
                    Err(e) => parse_tokens(blank_split(s@)) == Err::<Seq<EditorKey>, KeyErrSpec>(
                        e,
                    ),
                },
                blank_split(s@).len() == keys@.len() + blank_split(s@.skip(pos as int)).len(),
            decreases n - pos,
        {
            let ghost rem = s@.skip(pos as int);
            if pos == n {
                proof {
                    assert(rem =~= Seq::<char>::empty());
                    assert(blank_split(rem).len() == 0);
                    assert(keys@ + Seq::<EditorKey>::empty() =~= keys@);
                }
                if keys.len() == 0 {
                    proof {
                        assert(blank_split(s@).len() == 0);
                    }
                    return Err(ParseKeyError::Empty);
                }
                return Ok(KeySequence { keys });
            }
            let c = s.get_char(pos);
            if is_blank_char(c) {
                proof {
                    assert(rem[0] == s@[pos as int]);
                    assert(rem.skip(1) =~= s@.skip(pos as int + 1));
                }
                pos = pos + 1;
                continue ;
            }
            // a token starts here: find its end
            let mut e = pos;
            while e < n && !is_blank_char(s.get_char(e))
                invariant
                    pos <= e <= n,
                    n == s@.len(),
                    forall|j: int| pos <= j < e ==> !is_blank(s@[j]),
                decreases n - e,
            {
                e = e + 1;
            }
            proof {
                assert forall|j: int| 0 <= j < e - pos implies !is_blank(rem[j]) by {
                    assert(rem[j] == s@[j + pos]);
                }
                if e < n {
                    assert(rem[e - pos] == s@[e as int]);
                }
                lemma_first_blank_at(rem, e - pos);
                assert(rem[0] == s@[pos as int]);
                assert(!is_blank(rem[0]));
            }
            let tok = s.substring_char(pos, e);
            let ghost p = rem.take(e - pos);
            proof {
                assert(tok@ =~= p);
                if e - pos < rem.len() {
                    assert(blank_split(rem) == seq![p] + blank_split(rem.skip(e - pos)));
                } else {
                    assert(rem.take(e - pos) =~= rem);
                    assert(blank_split(rem) == seq![rem]);
                    assert(rem.skip(e - pos) =~= Seq::<char>::empty());
                    assert(blank_split(rem.skip(e - pos)).len() == 0);
                    assert(seq![p] + blank_split(rem.skip(e - pos)) =~= blank_split(rem));
                }
                assert(blank_split(rem) == seq![p] + blank_split(rem.skip(e - pos)));
                assert((seq![p] + blank_split(rem.skip(e - pos)))[0] == p);
                assert((seq![p] + blank_split(rem.skip(e - pos))).skip(1) =~= blank_split(
                    rem.skip(e - pos),
                ));
                assert(rem.skip(e - pos) =~= s@.skip(e as int));
            }
            match EditorKey::parse(tok) {
                Ok(k) => {
                    let ghost old_keys = keys@;
                    keys.push(k);
                    proof {
                        assert(keys@ =~= old_keys + seq![k]);
                        match parse_tokens(blank_split(s@.skip(e as int))) {
                            Ok(rest2) => {
                                assert(old_keys + (seq![k] + rest2) =~= keys@ + rest2);
                            },
                            Err(_) => {},
                        }
                    }
                    pos = e;
                },
                Err(err) => {
                    proof {
                        assert(blank_split(s@).len() >= 1);
                    }
                    return Err(err);
                },
            }
        }
    }
}

impl core::str::FromStr for EditorKey {
    type Err = ParseKeyError;

    fn from_str(s: &str) -> Result<EditorKey, ParseKeyError> {
        EditorKey::parse(s)
    }
}

impl core::str::FromStr for KeySequence {
    type Err = ParseKeyError;

    fn from_str(s: &str) -> Result<KeySequence, ParseKeyError> {
        KeySequence::parse(s)
    }
}

} // verus!
