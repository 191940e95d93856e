//! The passphrase field: what the keyboard does to it, and what it shows.

use crate::secure_string::{after_pop, after_push, SecureString};
use vstd::prelude::*;
use vstd::string::*;
use vstd::utf8::encode_utf8;

verus! {

/// An input event, as far as the passphrase field tells events apart.
pub enum FieldEvent<'a> {
    /// A text was typed.
    Text(&'a str),
    /// A text was pasted.
    Paste(&'a str),
    /// The backspace key went down.
    Backspace,
    /// The content is asked for by a copy.
    Copy,
    /// The content is asked for by a cut.
    Cut,
    /// Anything else.
    Other,
}

/// The passphrase after an event.
pub open spec fn after_event(chars: Seq<char>, event: FieldEvent) -> Seq<char> {
    match event {
        FieldEvent::Text(text) => after_push(chars, text@),
        FieldEvent::Paste(text) => after_push(chars, text@),
        FieldEvent::Backspace => after_pop(chars),
        _ => chars,
    }
}

/// Applies an event to the passphrase of the focused field. The result says whether the event
/// ends here: everything that speaks of the content does, so that neither a copy nor a cut
/// takes it anywhere.
pub fn handle_event(target: &mut SecureString, event: &FieldEvent) -> (consumed: bool)
    requires
        old(target).wf(),
    ensures
        final(target).wf(),
        final(target)@ == after_event(old(target)@, *event),
        consumed == !(*event is Other),
{
    match event {
        FieldEvent::Text(text) => {
            target.push_str(text);
            true
        },
        FieldEvent::Paste(text) => {
            target.push_str(text);
            true
        },
        FieldEvent::Backspace => {
            target.pop_char();
            true
        },
        FieldEvent::Copy => true,
        FieldEvent::Cut => true,
        FieldEvent::Other => false,
    }
}

/// Whether the field shows its hint: nothing was typed, and it has not the focus.
pub open spec fn shows_hint(chars: Seq<char>, focused: bool) -> bool {
    chars.len() == 0 && !focused
}

/// What the field shows: its hint, or a dot for each character.
pub open spec fn shown_text(chars: Seq<char>, focused: bool) -> Seq<char> {
    if shows_hint(chars, focused) {
        "(Passphrase eingeben)"@
    } else {
        Seq::new(chars.len(), |i: int| '•')
    }
}

/// What the field shows, and whether that is the hint.
pub fn field_text(target: &SecureString, focused: bool) -> (r: (String, bool))
    requires
        target.wf(),
    ensures
        r.0@ == shown_text(target@, focused),
        r.1 == shows_hint(target@, focused),
{
    let n: usize = target.char_count();
    if n == 0 && !focused {
        return ("(Passphrase eingeben)".to_string(), true);
    }
    let mut dots = String::new();
    let mut i: usize = 0;
    while i < n
        invariant
            i <= n,
            dots@ == Seq::new(i as nat, |j: int| '•'),
        decreases n - i,
    {
        dots.push('•');
        i = i + 1;
        assert(dots@ =~= Seq::new(i as nat, |j: int| '•'));
    }
    (dots, false)
}

/// What is typed or pasted is appended where it fits in 1024 bytes, backspace takes the last
/// character away, and nothing else changes the passphrase.
pub proof fn law_events_do_what_they_say(chars: Seq<char>, event: FieldEvent)
    ensures
        match event {
            FieldEvent::Text(text) | FieldEvent::Paste(text) => after_event(chars, event)
                == if encode_utf8(chars).len() + encode_utf8(text@).len() <= 1024 {
                chars + text@
            } else {
                chars
            },
            FieldEvent::Backspace => after_event(chars, event) == if chars.len() == 0 {
                chars
            } else {
                chars.drop_last()
            },
            _ => after_event(chars, event) == chars,
        },
{
}

/// The field shows its hint where it is empty and has not the focus, and otherwise as many dots as
/// the passphrase has characters.
pub proof fn law_field_shows_dots(chars: Seq<char>, focused: bool)
    ensures
        shows_hint(chars, focused) <==> chars.len() == 0 && !focused,
        shows_hint(chars, focused) ==> shown_text(chars, focused) == "(Passphrase eingeben)"@,
        !shows_hint(chars, focused) ==> {
            &&& shown_text(chars, focused).len() == chars.len()
            &&& forall|i: int| 0 <= i < chars.len() ==> #[trigger] shown_text(chars, focused)[i]
                == '\u{2022}'
        },
{
}

/// What the field shows tells no more of a passphrase than the number of its characters.
pub proof fn law_field_shows_only_the_length(a: Seq<char>, b: Seq<char>, focused: bool)
    requires
        a.len() == b.len(),
    ensures
        shown_text(a, focused) == shown_text(b, focused),
{
}

} // verus!
