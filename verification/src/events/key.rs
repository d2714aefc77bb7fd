use vstd::prelude::*;

verus! {

/// A key on the keyboard.
#[derive(Debug, PartialEq, Eq, Structural, Clone, Copy)]
pub enum KeyCode {
    Backspace,
    Enter,
    Left,
    Right,
    Up,
    Down,
    Home,
    End,
    PageUp,
    PageDown,
    Tab,
    BackTab,
    Delete,
    Insert,
    /// `F(1)` is the F1 key.
    F(u8),
    /// A character key.
    Char(char),
    Null,
    Esc,
    CapsLock,
    ScrollLock,
    NumLock,
    PrintScreen,
    Pause,
    Menu,
    KeypadBegin,
    Media(MediaKeyCode),
    Modifier(ModifierKeyCode),
    /// A key that the terminal reported but that has no code here.
    Unknown,
}

/// A media key.
#[derive(Debug, PartialEq, Eq, Structural, Clone, Copy)]
pub enum MediaKeyCode {
    Play,
    Pause,
    PlayPause,
    Reverse,
    Stop,
    FastForward,
    Rewind,
    TrackNext,
    TrackPrevious,
    Record,
    LowerVolume,
    RaiseVolume,
    MuteVolume,
}

/// A modifier key pressed on its own.
#[derive(Debug, PartialEq, Eq, Structural, Clone, Copy)]
pub enum ModifierKeyCode {
    LeftShift,
    LeftControl,
    LeftAlt,
    LeftSuper,
    LeftHyper,
    LeftMeta,
    RightShift,
    RightControl,
    RightAlt,
    RightSuper,
    RightHyper,
    RightMeta,
    IsoLevel3Shift,
    IsoLevel5Shift,
}

/// Whether a key went down, repeated or came up.
#[derive(Debug, PartialEq, Eq, Structural, Clone, Copy)]
pub enum KeyEventKind {
    Press,
    Repeat,
    Release,
}

/// A set of key modifiers (shift, control, alt, ...), one bit each.
#[derive(Debug, PartialEq, Eq, Structural, Clone, Copy)]
pub struct KeyModifiers {
    pub bits: u8,
}

/// Bit of the shift modifier.
pub const SHIFT_BIT: u8 = 0b0000_0001;
/// Bit of the control modifier.
pub const CONTROL_BIT: u8 = 0b0000_0010;
/// Bit of the alt modifier.
pub const ALT_BIT: u8 = 0b0000_0100;
/// Bit of the super modifier.
pub const SUPER_BIT: u8 = 0b0000_1000;
/// Bit of the hyper modifier.
pub const HYPER_BIT: u8 = 0b0001_0000;
/// Bit of the meta modifier.
pub const META_BIT: u8 = 0b0010_0000;

impl KeyModifiers {
    /// The bits of the modifiers in the set.
    pub open spec fn spec_bits(self) -> u8 {
        self.bits
    }

    /// The set holding no modifier.
    pub fn empty() -> (r: Self)
        ensures
            r.spec_bits() == 0,
    {
        KeyModifiers { bits: 0 }
    }

    /// The set whose bits are `bits`, unknown bits kept.
    pub fn from_bits_retain(bits: u8) -> (r: Self)
        ensures
            r.spec_bits() == bits,
    {
        KeyModifiers { bits }
    }

    /// The bits of the modifiers in the set.
    pub fn bits(&self) -> (r: u8)
        ensures
            r == self.spec_bits(),
    {
        self.bits
    }

    /// Whether every bit of `other` is set here.
    pub fn contains(&self, other: KeyModifiers) -> (r: bool)
        ensures
            r == (self.spec_bits() & other.spec_bits() == other.spec_bits()),
    {
        self.bits & other.bits == other.bits
    }

    /// Sets every bit of `other` here.
    pub fn insert(&mut self, other: KeyModifiers)
        ensures
            final(self).spec_bits() == old(self).spec_bits() | other.spec_bits(),
    {
        self.bits = self.bits | other.bits;
    }

    /// Clears every bit of `other` here.
    pub fn remove(&mut self, other: KeyModifiers)
        ensures
            final(self).spec_bits() == old(self).spec_bits() & !other.spec_bits(),
    {
        self.bits = self.bits & !other.bits;
    }
}

/// Extra state reported with a key event, one bit each.
#[derive(Debug, PartialEq, Eq, Structural, Clone, Copy)]
pub struct KeyEventState {
    pub bits: u8,
}

/// The key came from the keypad.
pub const KEYPAD_BIT: u8 = 0b0000_0001;
/// Caps lock was on.
pub const CAPS_LOCK_BIT: u8 = 0b0000_1000;
/// Num lock was on (it shares its bit with caps lock).
pub const NUM_LOCK_BIT: u8 = 0b0000_1000;

impl KeyEventState {
    /// The bits of the flags in the state.
    pub open spec fn spec_bits(self) -> u8 {
        self.bits
    }

    /// The state holding no flag.
    pub fn empty() -> (r: Self)
        ensures
            r.spec_bits() == 0,
    {
        KeyEventState { bits: 0 }
    }

    /// The state whose bits are `bits`, unknown bits kept.
    pub fn from_bits_retain(bits: u8) -> (r: Self)
        ensures
            r.spec_bits() == bits,
    {
        KeyEventState { bits }
    }

    /// The bits of the flags in the state.
    pub fn bits(&self) -> (r: u8)
        ensures
            r == self.spec_bits(),
    {
        self.bits
    }
}

/// Whether `c` is an ASCII upper-case letter.
pub open spec fn is_ascii_upper(c: char) -> bool {
    'A' <= c && c <= 'Z'
}

/// Whether `c` is an ASCII lower-case letter.
pub open spec fn is_ascii_lower(c: char) -> bool {
    'a' <= c && c <= 'z'
}

/// `c` with an ASCII lower-case letter turned into its upper-case letter.
pub open spec fn ascii_upper(c: char) -> char {
    if is_ascii_lower(c) {
        ((c as u32) - 32) as char
    } else {
        c
    }
}

fn to_ascii_uppercase(c: char) -> (r: char)
    ensures
        r == ascii_upper(c),
{
    if 'a' <= c && c <= 'z' {
        let b: u8 = c as u8;
        (b - 32) as char
    } else {
        c
    }
}

/// A key press, repeat or release with its modifiers.
#[derive(Debug, Clone, Copy)]
pub struct KeyEvent {
    pub code: KeyCode,
    pub modifiers: KeyModifiers,
    pub kind: KeyEventKind,
    pub state: KeyEventState,
}

/// The event with SHIFT present exactly when an upper-case character is: an upper-case
/// letter gains SHIFT, a lower-case letter with SHIFT becomes upper-case, and a character
/// with no upper case (such as `'1'`) loses its SHIFT.
pub open spec fn spec_normalize_case(e: KeyEvent) -> KeyEvent {
    match e.code {
        KeyCode::Char(c) => if is_ascii_upper(c) {
            KeyEvent { modifiers: KeyModifiers { bits: e.modifiers.bits | SHIFT_BIT }, ..e }
        } else if e.modifiers.bits & SHIFT_BIT == SHIFT_BIT {
            if is_ascii_lower(c) {
                KeyEvent { code: KeyCode::Char(ascii_upper(c)), ..e }
            } else {
                KeyEvent { modifiers: KeyModifiers { bits: e.modifiers.bits & !SHIFT_BIT }, ..e }
            }
        } else {
            e
        },
        _ => e,
    }
}

/// Whether two key events are the same once their case is normalized.
pub open spec fn spec_key_event_eq(a: KeyEvent, b: KeyEvent) -> bool {
    let na = spec_normalize_case(a);
    let nb = spec_normalize_case(b);
    na.code == nb.code && na.modifiers == nb.modifiers && na.kind == nb.kind && na.state == nb.state
}

impl KeyEvent {
    /// A key press of `code` with `modifiers`.
    pub fn new(code: KeyCode, modifiers: KeyModifiers) -> (r: KeyEvent)
        ensures
            r == (KeyEvent { code, modifiers, kind: KeyEventKind::Press, state: KeyEventState { bits: 0 } }),
    {
        KeyEvent { code, modifiers, kind: KeyEventKind::Press, state: KeyEventState::empty() }
    }

    /// This event with SHIFT present exactly when an upper-case character is, as
    /// `spec_normalize_case` says.
    pub fn normalize_case(self) -> (r: KeyEvent)
        ensures
            r == spec_normalize_case(self),
    {
        let mut out = self;
        let c = match self.code {
            KeyCode::Char(c) => c,
            _ => return out,
        };
        if 'A' <= c && c <= 'Z' {
            out.modifiers.insert(KeyModifiers::from_bits_retain(SHIFT_BIT));
        } else if out.modifiers.contains(KeyModifiers::from_bits_retain(SHIFT_BIT)) {
            if 'a' <= c && c <= 'z' {
                out.code = KeyCode::Char(to_ascii_uppercase(c));
            } else {
                out.modifiers.remove(KeyModifiers::from_bits_retain(SHIFT_BIT));
            }
        }
        out
    }
}

impl PartialEq for KeyEvent {
    fn eq(&self, other: &KeyEvent) -> (r: bool) {
        let lhs = self.normalize_case();
        let rhs = other.normalize_case();
        lhs.code == rhs.code && lhs.modifiers == rhs.modifiers && lhs.kind == rhs.kind
            && lhs.state == rhs.state
    }
}

impl vstd::std_specs::cmp::PartialEqSpecImpl for KeyEvent {
    open spec fn obeys_eq_spec() -> bool {
        true
    }

    open spec fn eq_spec(&self, other: &KeyEvent) -> bool {
        spec_key_event_eq(*self, *other)
    }
}

impl Eq for KeyEvent {}

/// Normalizing the case twice changes nothing more than normalizing it once.
pub proof fn lemma_normalize_case_idempotent(e: KeyEvent)
    ensures
        spec_normalize_case(spec_normalize_case(e)) == spec_normalize_case(e),
{
    match e.code {
        KeyCode::Char(c) => {
            let b = e.modifiers.bits;
            assert((b | 1u8) | 1u8 == b | 1u8) by (bit_vector);
            assert((b | 1u8) & 1u8 == 1u8) by (bit_vector);
            if is_ascii_upper(c) {
            } else if b & SHIFT_BIT == SHIFT_BIT {
                assert(b | 1u8 == b) by (bit_vector) requires b & 1u8 == 1u8;
                if is_ascii_lower(c) {
                    assert(is_ascii_upper(ascii_upper(c)));
                } else {
                    assert((b & !1u8) & 1u8 == 0u8) by (bit_vector);
                    assert(!is_ascii_upper(c));
                }
            }
        },
        _ => {},
    }
}

/// After normalization, a character key carries SHIFT exactly when its character is
/// upper-case.
pub proof fn lemma_normalized_shift_iff_upper(e: KeyEvent, c: char)
    requires
        e.code == KeyCode::Char(c),
    ensures
        spec_normalize_case(e).code matches KeyCode::Char(d) && ((spec_normalize_case(e).modifiers.bits
            & SHIFT_BIT == SHIFT_BIT) <==> is_ascii_upper(d)),
{
    let b = e.modifiers.bits;
    assert((b | 1u8) & 1u8 == 1u8) by (bit_vector);
    assert((b & !1u8) & 1u8 == 0u8) by (bit_vector);
    if is_ascii_lower(c) {
        assert(is_ascii_upper(ascii_upper(c)));
    }
}

/// Key event equality is reflexive, symmetric and transitive.
pub proof fn lemma_key_event_eq_equivalence(a: KeyEvent, b: KeyEvent, c: KeyEvent)
    ensures
        spec_key_event_eq(a, a),
        spec_key_event_eq(a, b) ==> spec_key_event_eq(b, a),
        spec_key_event_eq(a, b) && spec_key_event_eq(b, c) ==> spec_key_event_eq(a, c),
{
}

/// Normalizing the case keeps the kind and the state of an event, and changes nothing of
/// an event without a character.
proof fn lemma_normalize_keeps(e: KeyEvent)
    ensures
        spec_normalize_case(e).kind == e.kind,
        spec_normalize_case(e).state == e.state,
        !(e.code is Char) ==> spec_normalize_case(e) == e,
        e.code is Char ==> spec_normalize_case(e).code is Char,
{
}

/// Equal key events have the same kind and the same state: a press never equals a release.
pub proof fn lemma_key_event_eq_same_kind_and_state(a: KeyEvent, b: KeyEvent)
    ensures
        a.kind != b.kind ==> !spec_key_event_eq(a, b),
        a.state != b.state ==> !spec_key_event_eq(a, b),
{
    lemma_normalize_keeps(a);
    lemma_normalize_keeps(b);
}

/// Normalizing the case touches no modifier but SHIFT.
proof fn lemma_normalize_keeps_other_modifiers(e: KeyEvent)
    ensures
        spec_normalize_case(e).modifiers.bits & !SHIFT_BIT == e.modifiers.bits & !SHIFT_BIT,
{
    let b = e.modifiers.bits;
    assert((b | 1u8) & !1u8 == b & !1u8) by (bit_vector);
    assert((b & !1u8) & !1u8 == b & !1u8) by (bit_vector);
}

/// Equal key events carry the same modifiers apart from SHIFT: control, alt and the others
/// always tell two events apart.
pub proof fn lemma_key_event_eq_same_other_modifiers(a: KeyEvent, b: KeyEvent)
    ensures
        spec_key_event_eq(a, b) ==> a.modifiers.bits & !SHIFT_BIT == b.modifiers.bits & !SHIFT_BIT,
{
    lemma_normalize_keeps_other_modifiers(a);
    lemma_normalize_keeps_other_modifiers(b);
}

/// An event without a character (an arrow, a function key, ...) equals only itself.
pub proof fn lemma_key_event_eq_without_char(a: KeyEvent, b: KeyEvent)
    requires
        !(a.code is Char),
    ensures
        spec_key_event_eq(a, b) <==> a == b,
{
    lemma_normalize_keeps(a);
    lemma_normalize_keeps(b);
    if spec_key_event_eq(a, b) {
        assert(!(b.code is Char));
    }
}

/// An event equals its own normalization.
pub proof fn lemma_key_event_eq_normalized(a: KeyEvent)
    ensures
        spec_key_event_eq(a, spec_normalize_case(a)),
{
    lemma_normalize_case_idempotent(a);
}

} // verus!
