//! The editable text box's decisions and shared state.
//!
//! The app declares a `value`, and only when *that declared value changes* is
//! the editor overwritten with it ([`DeclaredValue::redeclare`]); re-declaring
//! an unchanged value never clobbers what the user is typing.
//!
//! A key press is decided by [`key_outcome`]: while an IME composition is in
//! progress the IME owns the keyboard; a press that confirms is consumed and
//! never also edits; otherwise [`key_table`] says which editing action the key
//! and its Shift and Ctrl modifiers stand for. Enter inserts a newline and
//! Ctrl+Enter confirms by default ([`confirm_on_ctrl_enter`]).
//!
//! The render builder is a closure with no world access, so values that change
//! after it was captured travel through shared cells it holds a clone of.
//! Sizes and offsets are `f32`s stored as their bit patterns; the cells here
//! deal in those bit patterns.

use std::sync::atomic::{AtomicBool, AtomicU32, Ordering};
use std::sync::Arc;

use vstd::prelude::*;

use crate::live::{bits_changed, changed};

verus! {

/// The last `value` the app declared, so a re-declaration of an unchanged
/// value can be told apart from an app-driven change.
#[derive(Clone, PartialEq, Debug)]
pub struct DeclaredValue(pub String);

impl DeclaredValue {
    /// The app declared `value` again: remember it, and report whether it
    /// differs from the last declaration, which is exactly when the editor's
    /// buffer is to be overwritten with it.
    pub fn redeclare(&mut self, value: &str) -> (r: bool)
        ensures
            r == (old(self).0@ != value@),
            final(self).0@ == value@,
    {
        let owned = value.to_owned();
        let same = self.0 == owned;
        if !same {
            self.0 = owned;
        }
        !same
    }
}

/// A key as the text box tells keys apart.
#[derive(Clone, PartialEq, Eq, Debug)]
pub enum EditKey {
    Backspace,
    Delete,
    ArrowLeft,
    ArrowRight,
    ArrowUp,
    ArrowDown,
    Home,
    End,
    Enter,
    Space,
    Tab,
    /// Any other named key.
    OtherNamed,
    /// A key that produces text.
    Character(String),
    /// Anything else.
    Other,
}

/// One editing operation on the text box's editor.
#[derive(Clone, PartialEq, Eq, Debug)]
pub enum EditAction {
    Backdelete,
    BackdeleteWord,
    Delete,
    DeleteWord,
    MoveLeft,
    MoveWordLeft,
    SelectLeft,
    SelectWordLeft,
    MoveRight,
    MoveWordRight,
    SelectRight,
    SelectWordRight,
    MoveUp,
    SelectUp,
    MoveDown,
    SelectDown,
    MoveToLineStart,
    MoveToTextStart,
    SelectToLineStart,
    SelectToTextStart,
    MoveToLineEnd,
    MoveToTextEnd,
    SelectToLineEnd,
    SelectToTextEnd,
    /// Insert a newline, replacing the selection.
    InsertNewline,
    /// Insert a space, replacing the selection.
    InsertSpace,
    /// Insert this text, replacing the selection.
    Insert(String),
    SelectAll,
}

/// What a key press comes to.
#[derive(Clone, PartialEq, Eq, Debug)]
pub enum KeyOutcome {
    /// Consumed and left alone: the IME is composing and owns the keyboard.
    Swallow,
    /// Consumed as a confirmation; the app is told, the text is not edited.
    Confirm,
    /// Consumed by applying this action; the app is told the text changed.
    Edit(EditAction),
    /// Not for the text box: the event goes on to whoever else wants it.
    Ignore,
}

/// Whether `text` is the letter that selects everything with Ctrl, in either
/// case.
pub open spec fn is_select_all_letter(text: Seq<char>) -> bool {
    text == seq!['a'] || text == seq!['A']
}

/// One of the four moves a Shift/Ctrl pair picks among.
pub open spec fn by_modifiers(
    shift: bool,
    ctrl: bool,
    plain: EditAction,
    word: EditAction,
    select: EditAction,
    select_word: EditAction,
) -> EditAction {
    if shift {
        if ctrl {
            select_word
        } else {
            select
        }
    } else {
        if ctrl {
            word
        } else {
            plain
        }
    }
}

/// What a key does to the editor when nothing composes or confirms.
pub open spec fn key_table(key: EditKey, shift: bool, ctrl: bool) -> KeyOutcome {
    match key {
        EditKey::Backspace => KeyOutcome::Edit(
            if ctrl {
                EditAction::BackdeleteWord
            } else {
                EditAction::Backdelete
            },
        ),
        EditKey::Delete => KeyOutcome::Edit(
            if ctrl {
                EditAction::DeleteWord
            } else {
                EditAction::Delete
            },
        ),
        EditKey::ArrowLeft => KeyOutcome::Edit(
            by_modifiers(
                shift,
                ctrl,
                EditAction::MoveLeft,
                EditAction::MoveWordLeft,
                EditAction::SelectLeft,
                EditAction::SelectWordLeft,
            ),
        ),
        EditKey::ArrowRight => KeyOutcome::Edit(
            by_modifiers(
                shift,
                ctrl,
                EditAction::MoveRight,
                EditAction::MoveWordRight,
                EditAction::SelectRight,
                EditAction::SelectWordRight,
            ),
        ),
        EditKey::ArrowUp => KeyOutcome::Edit(
            if shift {
                EditAction::SelectUp
            } else {
                EditAction::MoveUp
            },
        ),
        EditKey::ArrowDown => KeyOutcome::Edit(
            if shift {
                EditAction::SelectDown
            } else {
                EditAction::MoveDown
            },
        ),
        EditKey::Home => KeyOutcome::Edit(
            by_modifiers(
                shift,
                ctrl,
                EditAction::MoveToLineStart,
                EditAction::MoveToTextStart,
                EditAction::SelectToLineStart,
                EditAction::SelectToTextStart,
            ),
        ),
        EditKey::End => KeyOutcome::Edit(
            by_modifiers(
                shift,
                ctrl,
                EditAction::MoveToLineEnd,
                EditAction::MoveToTextEnd,
                EditAction::SelectToLineEnd,
                EditAction::SelectToTextEnd,
            ),
        ),
        EditKey::Enter => KeyOutcome::Edit(EditAction::InsertNewline),
        EditKey::Space => KeyOutcome::Edit(EditAction::InsertSpace),
        EditKey::Character(text) => if ctrl {
            if is_select_all_letter(text@) {
                KeyOutcome::Edit(EditAction::SelectAll)
            } else {
                KeyOutcome::Ignore
            }
        } else {
            KeyOutcome::Edit(EditAction::Insert(text))
        },
        EditKey::Tab | EditKey::OtherNamed | EditKey::Other => KeyOutcome::Ignore,
    }
}

/// Whether an action extends the selection rather than moving the caret or
/// editing.
pub open spec fn extends_selection(a: EditAction) -> bool {
    match a {
        EditAction::SelectLeft | EditAction::SelectWordLeft | EditAction::SelectRight
        | EditAction::SelectWordRight | EditAction::SelectUp | EditAction::SelectDown
        | EditAction::SelectToLineStart | EditAction::SelectToTextStart
        | EditAction::SelectToLineEnd | EditAction::SelectToTextEnd | EditAction::SelectAll => true,
        _ => false,
    }
}

/// Whether an action works by the larger unit: a word for the arrows and
/// the deletions, the whole text for Home and End.
pub open spec fn by_larger_unit(a: EditAction) -> bool {
    match a {
        EditAction::BackdeleteWord | EditAction::DeleteWord | EditAction::MoveWordLeft
        | EditAction::SelectWordLeft | EditAction::MoveWordRight | EditAction::SelectWordRight
        | EditAction::MoveToTextStart | EditAction::SelectToTextStart | EditAction::MoveToTextEnd
        | EditAction::SelectToTextEnd => true,
        _ => false,
    }
}

/// The key whose direction or deletion an action carries out.
pub open spec fn bound_key(a: EditAction) -> EditKey {
    match a {
        EditAction::Backdelete | EditAction::BackdeleteWord => EditKey::Backspace,
        EditAction::Delete | EditAction::DeleteWord => EditKey::Delete,
        EditAction::MoveLeft | EditAction::MoveWordLeft | EditAction::SelectLeft
        | EditAction::SelectWordLeft => EditKey::ArrowLeft,
        EditAction::MoveRight | EditAction::MoveWordRight | EditAction::SelectRight
        | EditAction::SelectWordRight => EditKey::ArrowRight,
        EditAction::MoveUp | EditAction::SelectUp => EditKey::ArrowUp,
        EditAction::MoveDown | EditAction::SelectDown => EditKey::ArrowDown,
        EditAction::MoveToLineStart | EditAction::MoveToTextStart | EditAction::SelectToLineStart
        | EditAction::SelectToTextStart => EditKey::Home,
        EditAction::MoveToLineEnd | EditAction::MoveToTextEnd | EditAction::SelectToLineEnd
        | EditAction::SelectToTextEnd => EditKey::End,
        EditAction::InsertNewline => EditKey::Enter,
        EditAction::InsertSpace => EditKey::Space,
        EditAction::Insert(text) => EditKey::Character(text),
        EditAction::SelectAll => EditKey::Other,
    }
}

/// Whether a key moves or selects with both Shift and Ctrl meaning something.
pub open spec fn is_two_modifier_key(key: EditKey) -> bool {
    key == EditKey::ArrowLeft || key == EditKey::ArrowRight || key == EditKey::Home || key
        == EditKey::End
}

/// The editing keys do what they are named for, and their modifiers mean
/// the same thing everywhere: the action a key press comes to carries out
/// that key; Shift turns a move into a selection; Ctrl makes the arrows and
/// deletions work a word at a time and Home and End go to the text's ends;
/// the up and down arrows and the deletions ignore the modifier that means
/// nothing to them; a plain character inserts exactly itself.
pub proof fn lemma_keys_follow_their_modifiers(
    key: EditKey,
    shift: bool,
    ctrl: bool,
    r: KeyOutcome,
)
    requires
        r == key_table(key, shift, ctrl),
    ensures
        is_two_modifier_key(key) ==> (r matches KeyOutcome::Edit(a) && bound_key(a) == key
            && extends_selection(a) == shift && by_larger_unit(a) == ctrl),
        (key == EditKey::ArrowUp || key == EditKey::ArrowDown) ==> (r matches KeyOutcome::Edit(a)
            && bound_key(a) == key && extends_selection(a) == shift && !by_larger_unit(a)),
        (key == EditKey::Backspace || key == EditKey::Delete) ==> (r matches KeyOutcome::Edit(a)
            && bound_key(a) == key && !extends_selection(a) && by_larger_unit(a) == ctrl),
        (key == EditKey::Enter || key == EditKey::Space) ==> (r matches KeyOutcome::Edit(a)
            && bound_key(a) == key && !extends_selection(a)),
        key is Character && !ctrl ==> (r matches KeyOutcome::Edit(a) && (a matches EditAction::Insert(
            inserted,
        ) && EditKey::Character(inserted) == key)),
{
}

/// The four Shift/Ctrl combinations of an arrow, Home or End key come to four
/// different actions.
pub proof fn lemma_modifier_combinations_differ(
    key: EditKey,
    shift1: bool,
    ctrl1: bool,
    shift2: bool,
    ctrl2: bool,
)
    requires
        is_two_modifier_key(key),
        key_table(key, shift1, ctrl1) == key_table(key, shift2, ctrl2),
    ensures
        shift1 == shift2,
        ctrl1 == ctrl2,
{
    lemma_keys_follow_their_modifiers(key, shift1, ctrl1, key_table(key, shift1, ctrl1));
    lemma_keys_follow_their_modifiers(key, shift2, ctrl2, key_table(key, shift2, ctrl2));
}

/// Whether `text` is `a` or `A`, as `eq_ignore_ascii_case("a")` tells.
fn is_letter_a(text: &str) -> (r: bool)
    ensures
        r == is_select_all_letter(text@),
{
    let mut seen: u8 = 0;
    let mut first_is_a = false;
    for c in it: text.chars()
        invariant
            it.seq() == text@,
            seen as int == if it.index() < 2 {
                it.index() as int
            } else {
                2
            },
            it.index() >= 1 ==> first_is_a == (text@[0] == 'a' || text@[0] == 'A'),
    {
        if seen == 0 {
            first_is_a = c == 'a' || c == 'A';
        }
        if seen < 2 {
            seen = seen + 1;
        }
    }
    proof {
        if seen == 1 && first_is_a {
            if text@[0] == 'a' {
                assert(text@ =~= seq!['a']);
            } else {
                assert(text@ =~= seq!['A']);
            }
        }
    }
    seen == 1 && first_is_a
}

/// Pick among four actions by the Shift and Ctrl flags.
fn pick_by_modifiers(
    shift: bool,
    ctrl: bool,
    plain: EditAction,
    word: EditAction,
    select: EditAction,
    select_word: EditAction,
) -> (r: EditAction)
    ensures
        r == by_modifiers(shift, ctrl, plain, word, select, select_word),
{
    match (shift, ctrl) {
        (false, false) => plain,
        (false, true) => word,
        (true, false) => select,
        (true, true) => select_word,
    }
}

/// Decide a key press: the IME owns the keyboard while it composes; a press
/// that `confirms` is consumed as a confirmation before anything is edited;
/// otherwise the key table decides.
pub fn key_outcome(key: &EditKey, shift: bool, ctrl: bool, composing: bool, confirms: bool) -> (r:
    KeyOutcome)
    ensures
        composing ==> r == KeyOutcome::Swallow,
        !composing && confirms ==> r == KeyOutcome::Confirm,
        !composing && !confirms ==> r == key_table(*key, shift, ctrl),
{
    if composing {
        return KeyOutcome::Swallow;
    }
    if confirms {
        return KeyOutcome::Confirm;
    }
    match key {
        EditKey::Backspace => KeyOutcome::Edit(
            if ctrl {
                EditAction::BackdeleteWord
            } else {
                EditAction::Backdelete
            },
        ),
        EditKey::Delete => KeyOutcome::Edit(
            if ctrl {
                EditAction::DeleteWord
            } else {
                EditAction::Delete
            },
        ),
        EditKey::ArrowLeft => KeyOutcome::Edit(
            pick_by_modifiers(
                shift,
                ctrl,
                EditAction::MoveLeft,
                EditAction::MoveWordLeft,
                EditAction::SelectLeft,
                EditAction::SelectWordLeft,
            ),
        ),
        EditKey::ArrowRight => KeyOutcome::Edit(
            pick_by_modifiers(
                shift,
                ctrl,
                EditAction::MoveRight,
                EditAction::MoveWordRight,
                EditAction::SelectRight,
                EditAction::SelectWordRight,
            ),
        ),
        EditKey::ArrowUp => KeyOutcome::Edit(
            if shift {
                EditAction::SelectUp
            } else {
                EditAction::MoveUp
            },
        ),
        EditKey::ArrowDown => KeyOutcome::Edit(
            if shift {
                EditAction::SelectDown
            } else {
                EditAction::MoveDown
            },
        ),
        EditKey::Home => KeyOutcome::Edit(
            pick_by_modifiers(
                shift,
                ctrl,
                EditAction::MoveToLineStart,
                EditAction::MoveToTextStart,
                EditAction::SelectToLineStart,
                EditAction::SelectToTextStart,
            ),
        ),
        EditKey::End => KeyOutcome::Edit(
            pick_by_modifiers(
                shift,
                ctrl,
                EditAction::MoveToLineEnd,
                EditAction::MoveToTextEnd,
                EditAction::SelectToLineEnd,
                EditAction::SelectToTextEnd,
            ),
        ),
        EditKey::Enter => KeyOutcome::Edit(EditAction::InsertNewline),
        EditKey::Space => KeyOutcome::Edit(EditAction::InsertSpace),
        EditKey::Character(text) => {
            if ctrl {
                if is_letter_a(text.as_str()) {
                    KeyOutcome::Edit(EditAction::SelectAll)
                } else {
                    KeyOutcome::Ignore
                }
            } else {
                KeyOutcome::Edit(EditAction::Insert(text.clone()))
            }
        },
        EditKey::Tab | EditKey::OtherNamed | EditKey::Other => KeyOutcome::Ignore,
    }
}

/// Confirm on plain Enter; Enter then no longer inserts a newline, which is
/// what a single-line-style field wants.
pub fn confirm_on_enter(key: &EditKey, ctrl: bool) -> (r: bool)
    ensures
        r == (*key == EditKey::Enter && !ctrl),
{
    match key {
        EditKey::Enter => !ctrl,
        _ => false,
    }
}

/// Confirm on Ctrl+Enter, leaving plain Enter to insert a newline. The
/// default.
pub fn confirm_on_ctrl_enter(key: &EditKey, ctrl: bool) -> (r: bool)
    ensures
        r == (*key == EditKey::Enter && ctrl),
{
    match key {
        EditKey::Enter => ctrl,
        _ => false,
    }
}

/// Values the render builder needs but that change after it was captured.
///
/// What a cell holds at any moment depends on every clone of it, so nothing
/// is stated of the values read; a store reports a change through
/// [`changed`] or [`bits_changed`] on the value it replaced.
#[derive(Clone, Default)]
pub struct TextBoxLive {
    /// Vertical scroll offset in pixels, as `f32` bits.
    scroll: Arc<AtomicU32>,
    /// Whether the caret is in its visible blink phase.
    caret_visible: Arc<AtomicBool>,
    /// The size layout actually allocated, as `f32` bits. Zero until the
    /// first arrange.
    allocated: Arc<[AtomicU32; 2]>,
    /// The wrap width the editor was last shaped at, as `f32` bits.
    applied_wrap_width: Arc<AtomicU32>,
}

impl TextBoxLive {
    /// The scroll offset's bits.
    pub fn scroll_bits(&self) -> u32 {
        self.scroll.load(Ordering::Relaxed)
    }

    /// Store a scroll offset's bits, reporting whether they changed.
    pub fn set_scroll_bits(&self, bits: u32) -> bool {
        let previous = self.scroll.swap(bits, Ordering::Relaxed);
        bits_changed(previous, bits)
    }

    /// Whether the caret is in its visible blink phase.
    pub fn caret_visible(&self) -> bool {
        self.caret_visible.load(Ordering::Relaxed)
    }

    /// Set the caret's blink phase, reporting whether it actually changed.
    pub fn set_caret_visible(&self, value: bool) -> bool {
        let previous = self.caret_visible.swap(value, Ordering::Relaxed);
        changed(previous, value)
    }

    /// The allocated size's bits.
    pub fn allocated_bits(&self) -> [u32; 2] {
        [self.allocated[0].load(Ordering::Relaxed), self.allocated[1].load(Ordering::Relaxed)]
    }

    /// Publish the allocated size's bits.
    pub fn set_allocated_bits(&self, size: [u32; 2]) {
        self.allocated[0].store(size[0], Ordering::Relaxed);
        self.allocated[1].store(size[1], Ordering::Relaxed);
    }

    /// Record a wrap width's bits as applied, reporting whether they differ
    /// from the last ones.
    pub fn take_wrap_width_change_bits(&self, bits: u32) -> bool {
        let previous = self.applied_wrap_width.swap(bits, Ordering::Relaxed);
        bits_changed(previous, bits)
    }
}

} // verus!
