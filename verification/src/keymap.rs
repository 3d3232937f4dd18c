//! From key events to commands.
use crate::command::EditorCommand;
use vstd::prelude::*;

verus! {

/// A key, independent of platform and layout.
///
/// Typed text is no command: it reaches the document through the platform's text
/// input. Only keys that must be taken before that are mapped here.
#[derive(Clone, Copy, Debug, PartialEq, Eq, Structural)]
pub enum EditorKey {
    Character(char),
    Enter,
    Tab,
    Backspace,
    Delete,
    Left,
    Right,
    Up,
    Down,
    Escape,
}

/// The modifier keys that are held down, one bit for each of four.
///
/// The command bit is the platform's primary modifier for shortcuts.
#[derive(Clone, Copy, Debug, PartialEq, Eq, Structural)]
pub struct KeyModifiers {
    bits: u8,
}

/// The bit of the primary modifier.
pub const COMMAND_BIT: u8 = 1;

/// The bit of the shift key.
pub const SHIFT_BIT: u8 = 2;

/// The bit of the control key.
pub const CONTROL_BIT: u8 = 4;

/// The bit of the option key.
pub const OPTION_BIT: u8 = 8;

/// The four bits together.
pub const MODIFIER_BITS: u8 = 15;

impl View for KeyModifiers {
    type V = u8;

    closed spec fn view(&self) -> u8 {
        self.bits
    }
}

/// Modifiers are their bits: two values with the same bits are equal.
pub proof fn law_modifiers_are_their_bits(a: KeyModifiers, b: KeyModifiers)
    requires
        a@ == b@,
    ensures
        a == b,
{
}

impl Default for KeyModifiers {
    fn default() -> (r: KeyModifiers)
        ensures
            r@ == 0,
    {
        KeyModifiers::none()
    }
}

impl KeyModifiers {
    /// No bit but the four is ever set.
    #[verifier::type_invariant]
    spec fn known_bits_only(self) -> bool {
        self.bits & MODIFIER_BITS == self.bits
    }

    /// No modifier.
    pub fn none() -> (r: KeyModifiers)
        ensures
            r@ == 0,
    {
        KeyModifiers::from_bits(0)
    }

    /// The platform's primary modifier.
    pub fn command() -> (r: KeyModifiers)
        ensures
            r@ == COMMAND_BIT,
    {
        KeyModifiers::from_bits(COMMAND_BIT)
    }

    /// The shift key.
    pub fn shift() -> (r: KeyModifiers)
        ensures
            r@ == SHIFT_BIT,
    {
        KeyModifiers::from_bits(SHIFT_BIT)
    }

    /// The control key.
    pub fn control() -> (r: KeyModifiers)
        ensures
            r@ == CONTROL_BIT,
    {
        KeyModifiers::from_bits(CONTROL_BIT)
    }

    /// The option key.
    pub fn option() -> (r: KeyModifiers)
        ensures
            r@ == OPTION_BIT,
    {
        KeyModifiers::from_bits(OPTION_BIT)
    }

    /// The modifiers among a platform's flags; flags with no meaning here, such as
    /// those of the caps lock or the number pad, are left out.
    pub fn from_bits(bits: u8) -> (r: KeyModifiers)
        ensures
            r@ == bits & MODIFIER_BITS,
            r@ & MODIFIER_BITS == r@,
            bits < 16 ==> r@ == bits,
    {
        proof {
            lemma_masked(bits);
        }
        KeyModifiers { bits: bits & MODIFIER_BITS }
    }

    /// The bits that are set.
    pub fn bits(self) -> (r: u8)
        ensures
            r == self@,
            r & MODIFIER_BITS == r,
            r < 16,
    {
        proof {
            use_type_invariant(self);
            lemma_masked(self.bits);
        }
        self.bits
    }

    /// Whether every modifier of `other` is held.
    pub fn contains(self, other: KeyModifiers) -> (r: bool)
        ensures
            r == (self@ & other@ == other@),
    {
        self.bits & other.bits == other.bits
    }
}

/// Masking keeps four bits and changes nothing below sixteen.
proof fn lemma_masked(bits: u8)
    ensures
        (bits & MODIFIER_BITS) & MODIFIER_BITS == bits & MODIFIER_BITS,
        bits & MODIFIER_BITS < 16,
        bits < 16 ==> bits & MODIFIER_BITS == bits,
{
    assert((bits & 15) & 15 == bits & 15) by (bit_vector);
    assert(bits & 15 < 16) by (bit_vector);
    assert(bits < 16 ==> bits & 15 == bits) by (bit_vector);
}

impl core::ops::BitOr for KeyModifiers {
    type Output = KeyModifiers;

    /// The modifiers of either side.
    fn bitor(self, rhs: KeyModifiers) -> (r: KeyModifiers)
        ensures
            r@ == (self@ | rhs@) & MODIFIER_BITS,
            r@ == self@ | rhs@,
    {
        proof {
            use_type_invariant(self);
            use_type_invariant(rhs);
            law_union_is_closed(self.bits, rhs.bits);
        }
        KeyModifiers::from_bits(self.bits | rhs.bits)
    }
}

impl vstd::std_specs::ops::BitOrSpecImpl for KeyModifiers {
    open spec fn obeys_bitor_spec() -> bool {
        true
    }

    open spec fn bitor_req(self, rhs: KeyModifiers) -> bool {
        true
    }

    closed spec fn bitor_spec(self, rhs: KeyModifiers) -> KeyModifiers {
        KeyModifiers { bits: self.bits | rhs.bits }
    }
}

/// Of two sets of modifiers, the union sets no bit beyond the four and contains
/// both.
pub proof fn law_union_is_closed(a: u8, b: u8)
    requires
        a & MODIFIER_BITS == a,
        b & MODIFIER_BITS == b,
    ensures
        (a | b) & MODIFIER_BITS == a | b,
        (a | b) & a == a,
        (a | b) & b == b,
{
    assert(a & 15 == a && b & 15 == b ==> (a | b) & 15 == a | b) by (bit_vector);
    assert((a | b) & a == a && (a | b) & b == b) by (bit_vector);
}

/// A key and the modifiers held with it.
#[derive(Clone, Copy, Debug, PartialEq, Eq, Structural)]
pub struct KeyEvent {
    pub key: EditorKey,
    pub modifiers: KeyModifiers,
}

impl KeyEvent {
    /// The event of `key` with `modifiers`.
    pub fn new(key: EditorKey, modifiers: KeyModifiers) -> (r: KeyEvent)
        ensures
            r.key == key,
            r.modifiers == modifiers,
    {
        KeyEvent { key, modifiers }
    }

    /// The key.
    pub fn key(self) -> (r: EditorKey)
        ensures
            r == self.key,
    {
        self.key
    }

    /// The modifiers held with it.
    pub fn modifiers(self) -> (r: KeyModifiers)
        ensures
            r == self.modifiers,
    {
        self.modifiers
    }
}

/// The command of a key that is pressed with exactly the modifiers `held`.
pub open spec fn key_command(key: EditorKey, held: u8) -> Option<EditorCommand> {
    match key {
        EditorKey::Character(c) => if c != 'z' && c != 'Z' {
            None
        } else if held == COMMAND_BIT {
            Some(EditorCommand::Undo)
        } else if held == COMMAND_BIT + SHIFT_BIT {
            Some(EditorCommand::Redo)
        } else {
            None
        },
        EditorKey::Enter => if held == 0 || held == SHIFT_BIT {
            Some(EditorCommand::InsertNewline)
        } else {
            None
        },
        EditorKey::Tab => if held == 0 {
            Some(EditorCommand::IndentList)
        } else if held == SHIFT_BIT {
            Some(EditorCommand::OutdentList)
        } else {
            None
        },
        EditorKey::Backspace => if held == 0 {
            Some(EditorCommand::DeleteBackward)
        } else {
            None
        },
        EditorKey::Delete => if held == 0 {
            Some(EditorCommand::DeleteForward)
        } else {
            None
        },
        EditorKey::Left => if held == 0 {
            Some(EditorCommand::MoveLeft)
        } else if held == OPTION_BIT || held == CONTROL_BIT {
            Some(EditorCommand::MoveWordLeft)
        } else {
            None
        },
        EditorKey::Right => if held == 0 {
            Some(EditorCommand::MoveRight)
        } else if held == OPTION_BIT || held == CONTROL_BIT {
            Some(EditorCommand::MoveWordRight)
        } else {
            None
        },
        EditorKey::Up => None,
        EditorKey::Down => None,
        EditorKey::Escape => None,
    }
}

/// The command of a key event. `None` leaves the event to the platform's text
/// input: a typed character is inserted there, so that input methods keep working.
pub fn command_for_key(event: KeyEvent) -> (r: Option<EditorCommand>)
    ensures
        r == key_command(event.key, event.modifiers@),
{
    let held: u8 = event.modifiers.bits();
    match event.key {
        EditorKey::Character(c) => {
            if c != 'z' && c != 'Z' {
                None
            } else if held == COMMAND_BIT {
                Some(EditorCommand::undo())
            } else if held == COMMAND_BIT + SHIFT_BIT {
                Some(EditorCommand::redo())
            } else {
                None
            }
        },
        EditorKey::Enter => {
            if held == 0 || held == SHIFT_BIT {
                Some(EditorCommand::insert_newline())
            } else {
                None
            }
        },
        EditorKey::Tab => {
            if held == 0 {
                Some(EditorCommand::indent_list())
            } else if held == SHIFT_BIT {
                Some(EditorCommand::outdent_list())
            } else {
                None
            }
        },
        EditorKey::Backspace => {
            if held == 0 {
                Some(EditorCommand::DeleteBackward)
            } else {
                None
            }
        },
        EditorKey::Delete => {
            if held == 0 {
                Some(EditorCommand::DeleteForward)
            } else {
                None
            }
        },
        EditorKey::Left => {
            if held == 0 {
                Some(EditorCommand::MoveLeft)
            } else if held == OPTION_BIT || held == CONTROL_BIT {
                Some(EditorCommand::move_word_left())
            } else {
                None
            }
        },
        EditorKey::Right => {
            if held == 0 {
                Some(EditorCommand::MoveRight)
            } else if held == OPTION_BIT || held == CONTROL_BIT {
                Some(EditorCommand::move_word_right())
            } else {
                None
            }
        },
        EditorKey::Up | EditorKey::Down | EditorKey::Escape => None,
    }
}

/// Keys for opposite ways do opposite things under the same modifiers: left and right,
/// backspace and delete. The case of a letter makes no difference, and a character that is
/// typed is never a command by itself.
pub proof fn law_opposite_keys(held: u8, c: char)
    ensures
        key_command(EditorKey::Left, held) == Some(EditorCommand::MoveLeft) <==> key_command(
            EditorKey::Right,
            held,
        ) == Some(EditorCommand::MoveRight),
        key_command(EditorKey::Left, held) == Some(EditorCommand::MoveWordLeft) <==> key_command(
            EditorKey::Right,
            held,
        ) == Some(EditorCommand::MoveWordRight),
        key_command(EditorKey::Left, held) is None <==> key_command(EditorKey::Right, held) is None,
        key_command(EditorKey::Backspace, held) == Some(EditorCommand::DeleteBackward)
            <==> key_command(EditorKey::Delete, held) == Some(EditorCommand::DeleteForward),
        key_command(EditorKey::Backspace, 0) is Some,
        key_command(EditorKey::Left, 0) == Some(EditorCommand::MoveLeft),
        key_command(EditorKey::Left, OPTION_BIT) == Some(EditorCommand::MoveWordLeft),
        key_command(EditorKey::Left, CONTROL_BIT) == Some(EditorCommand::MoveWordLeft),
        key_command(EditorKey::Character('z'), held) == key_command(
            EditorKey::Character('Z'),
            held,
        ),
        key_command(EditorKey::Character(c), 0) is None,
        key_command(EditorKey::Character(c), SHIFT_BIT) is None,
        c != 'z' && c != 'Z' ==> key_command(EditorKey::Character(c), held) is None,
{
}

/// Shift turns a command round: redo for undo, and out of a list for into it. Alone it makes
/// no difference to a line break.
pub proof fn law_shift_turns_commands_round()
    ensures
        key_command(EditorKey::Character('z'), COMMAND_BIT) == Some(EditorCommand::Undo),
        key_command(EditorKey::Character('z'), (COMMAND_BIT + SHIFT_BIT) as u8) == Some(
            EditorCommand::Redo,
        ),
        key_command(EditorKey::Tab, 0) == Some(EditorCommand::IndentList),
        key_command(EditorKey::Tab, SHIFT_BIT) == Some(EditorCommand::OutdentList),
        key_command(EditorKey::Enter, 0) == Some(EditorCommand::InsertNewline),
        key_command(EditorKey::Enter, SHIFT_BIT) == key_command(EditorKey::Enter, 0),
{
}

} // verus!
