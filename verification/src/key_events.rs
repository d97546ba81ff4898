//! Turning the key names printed by the keyboard listener into image
//! requests, and deciding each turn of the display loop.

use vstd::prelude::*;
use crate::assoc::lookup;
use crate::key_counts::{count_keys, count_keys_accepts, finishing_spell, type_key, KeyCounts};
use crate::keys::{
    check_key, check_key_accepts, lemma_ascii_names_decodable, spec_check_key, starts_with_key,
};
use vstd::utf8::{encode_utf8, is_ascii_chars, is_char_boundary};
use vstd::string::StringSliceAdditionalSpecFns;
use crate::spell_book::SpellBook;

verus! {

/// How many seconds an image stays on screen once its spell is typed.
pub const DISPLAY_SECONDS: u64 = 3;

/// What the key-listening side asks of the display loop.
#[derive(Debug, PartialEq, Eq)]
pub enum Message {
    /// Show the image at `path` for `duration` seconds.
    DisplayImage { path: String, duration: u64 },
    /// Close the display loop.
    Quit,
}

/// The inputs on which one printed key name can be handled: it can be
/// decoded, and the image of any spell the letter finishes can be found.
pub open spec fn key_event_accepts(
    counts: Seq<crate::assoc::Entry>,
    book: Seq<crate::assoc::Entry>,
    line: Seq<char>,
) -> bool {
    &&& check_key_accepts(line)
    &&& (spec_check_key(line) matches Some(c) ==> count_keys_accepts(counts, book, c))
}

/// Handles one printed key name: a letter key is typed into the progress, and
/// where it finishes a spell, the image of that spell is to be shown for
/// `DISPLAY_SECONDS` seconds. Other keys change nothing.
pub fn process_key_event(counts: &mut KeyCounts, book: &SpellBook, line: String) -> (res: Option<
    Message,
>)
    requires
        key_event_accepts(old(counts)@, book@, line@),
    ensures
        match spec_check_key(line@) {
            None => final(counts)@ == old(counts)@ && res is None,
            Some(c) => {
                &&& final(counts)@ == type_key(old(counts)@, c).0
                &&& match type_key(old(counts)@, c).1 {
                    Some(s) => res matches Some(Message::DisplayImage { path, duration }) && lookup(
                        book@,
                        s,
                    ) == Some(path@) && duration == DISPLAY_SECONDS,
                    None => res is None,
                }
            },
        },
{
    match check_key(line) {
        Some(c) => match count_keys(counts, book, c) {
            Some(path) => Some(Message::DisplayImage { path, duration: DISPLAY_SECONDS }),
            None => None,
        },
        None => None,
    }
}

/// Why a printed key name could not be handled.
#[derive(Debug, PartialEq, Eq, Structural)]
pub enum KeyEventError {
    /// The name is too short to hold `Key` and a letter where it starts so.
    MalformedKeyName,
    /// The letter finishes a spell that the spell book does not have.
    UnknownSpell,
}

/// Handles one printed key name as `process_key_event` does, after testing
/// that it can: a name that cannot be decoded, or a letter that finishes a
/// spell missing from the book, is reported and changes nothing.
pub fn try_process_key_event(counts: &mut KeyCounts, book: &SpellBook, line: String) -> (res:
    Result<Option<Message>, KeyEventError>)
    ensures
        (res == Err::<Option<Message>, KeyEventError>(KeyEventError::MalformedKeyName)) <==> !(
        encode_utf8(line@).len() >= 3 && is_char_boundary(encode_utf8(line@), 3) && !(line@.len()
            == 3 && line@[0] == 'K' && line@[1] == 'e' && line@[2] == 'y')),
        !check_key_accepts(line@) ==> res == Err::<Option<Message>, KeyEventError>(
            KeyEventError::MalformedKeyName,
        ) && final(counts)@ == old(counts)@,
        check_key_accepts(line@) && !key_event_accepts(old(counts)@, book@, line@) ==> res == Err::<
            Option<Message>,
            KeyEventError,
        >(KeyEventError::UnknownSpell) && final(counts)@ == old(counts)@,
        key_event_accepts(old(counts)@, book@, line@) ==> res is Ok && match spec_check_key(line@) {
            None => final(counts)@ == old(counts)@ && res == Ok::<Option<Message>, KeyEventError>(
                None,
            ),
            Some(c) => {
                &&& final(counts)@ == type_key(old(counts)@, c).0
                &&& match type_key(old(counts)@, c).1 {
                    Some(s) => res matches Ok(Some(Message::DisplayImage { path, duration }))
                        && lookup(book@, s) == Some(path@) && duration == DISPLAY_SECONDS,
                    None => res == Ok::<Option<Message>, KeyEventError>(None),
                }
            },
        },
{
    let text = line.as_str();
    let byte_len = text.as_bytes().len();
    proof {
        assert(text@ == line@);
    }
    if byte_len < 3 {
        return Err(KeyEventError::MalformedKeyName);
    }
    if !text.is_char_boundary(3) {
        proof {
            assert(!is_char_boundary(encode_utf8(line@), 3));
        }
        return Err(KeyEventError::MalformedKeyName);
    }
    let n = text.unicode_len();
    if n == 3 && text.get_char(0) == 'K' && text.get_char(1) == 'e' && text.get_char(2) == 'y' {
        return Err(KeyEventError::MalformedKeyName);
    }
    proof {
        assert(starts_with_key(line@) ==> line@.len() > 3);
    }
    match check_key(line.clone()) {
        Some(c) => match finishing_spell(counts, c) {
            Some(spell) => match book.get(&spell) {
                Some(_) => {},
                None => {
                    return Err(KeyEventError::UnknownSpell);
                },
            },
            None => {},
        },
        None => {},
    }
    Ok(process_key_event(counts, book, line))
}

/// Law (which key names are malformed): a printed key name made of at least
/// three ASCII characters is never reported malformed, unless it is the bare
/// name `Key`; such a name is handled (typed, or passed over) as
/// `process_key_event` says.
pub proof fn lemma_ascii_names_not_malformed(line: Seq<char>)
    requires
        is_ascii_chars(line),
        line.len() >= 3,
        !(line.len() == 3 && line[0] == 'K' && line[1] == 'e' && line[2] == 'y'),
    ensures
        encode_utf8(line).len() >= 3 && is_char_boundary(encode_utf8(line), 3) && !(line.len() == 3
            && line[0] == 'K' && line[1] == 'e' && line[2] == 'y'),
        check_key_accepts(line),
{
    lemma_ascii_names_decodable(line);
}

/// An input event of the image window, as far as the display loop cares.
#[derive(Debug, PartialEq, Eq, Structural)]
pub enum InputEvent {
    /// The window system asks to quit.
    Quit,
    /// The Escape key went down.
    EscapeDown,
    /// Anything else.
    Other,
}

/// Whether an input event closes the display loop: a quit request, or Escape.
pub fn requests_quit(event: &InputEvent) -> (res: bool)
    ensures
        res == (*event == InputEvent::Quit || *event == InputEvent::EscapeDown),
{
    match event {
        InputEvent::Quit => true,
        InputEvent::EscapeDown => true,
        InputEvent::Other => false,
    }
}

/// What the display loop does in one turn.
#[derive(Debug, PartialEq, Eq)]
pub enum LoopAction {
    /// Leave the loop.
    Stop,
    /// Open a window with the image at `path` for `duration` seconds.
    Display { path: String, duration: u64 },
    /// Nothing new: tidy the windows and wait.
    Idle,
}

/// One turn of the display loop: a stop request or a closed window ends the
/// loop; otherwise the message received (if any) decides.
pub fn loop_step(stop_requested: bool, window_open: bool, message: Option<Message>) -> (res:
    LoopAction)
    ensures
        (stop_requested || !window_open) ==> res == LoopAction::Stop,
        (!stop_requested && window_open) ==> match message {
            Some(Message::DisplayImage { path, duration }) => res == LoopAction::Display {
                path,
                duration,
            },
            Some(Message::Quit) => res == LoopAction::Stop,
            None => res == LoopAction::Idle,
        },
{
    if stop_requested || !window_open {
        LoopAction::Stop
    } else {
        match message {
            Some(Message::DisplayImage { path, duration }) => LoopAction::Display { path, duration },
            Some(Message::Quit) => LoopAction::Stop,
            None => LoopAction::Idle,
        }
    }
}

} // verus!
