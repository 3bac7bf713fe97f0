use vstd::prelude::*;

use crate::text::{free_of, string_of, trim, trim_chars};

verus! {

/// A key press, as the terminal reports it.
#[derive(Clone, Copy, Debug, PartialEq, Eq)]
pub enum Key {
    /// Ctrl+C: close the interface.
    CtrlC,
    /// No key was pressed.
    Nothing,
    ArrowDown,
    ArrowUp,
    Enter,
    Backspace,
    /// Any other key, by the first byte that the terminal sent for it.
    Byte(u8),
}

/// The input state of the chat interface: the messages waiting to be sent, which input line is
/// selected (0: message, 1: tags), the text of both lines, and the messages to display, newest
/// first.
pub struct UiState {
    out_buf: Vec<(String, String)>,
    input_selector: i64,
    msg_input: Vec<char>,
    tag_input: Vec<char>,
    message_buffer: Vec<String>,
}

/// What the interface holds, as plain values.
pub struct UiView {
    pub outgoing: Seq<(Seq<char>, Seq<char>)>,
    pub selector: i64,
    pub message: Seq<char>,
    pub tags: Seq<char>,
    pub messages: Seq<Seq<char>>,
}

impl View for UiState {
    type V = UiView;

    closed spec fn view(&self) -> UiView {
        UiView {
            outgoing: self.out_buf@.map_values(|p: (String, String)| (p.0@, p.1@)),
            selector: self.input_selector,
            message: self.msg_input@,
            tags: self.tag_input@,
            messages: self.message_buffer@.map_values(|m: String| m@),
        }
    }
}

/// `s` without its null characters.
pub open spec fn without_nulls(s: Seq<char>) -> Seq<char>
    decreases s.len(),
{
    if s.len() == 0 {
        s
    } else if s.last() == '\0' {
        without_nulls(s.drop_last())
    } else {
        without_nulls(s.drop_last()).push(s.last())
    }
}

/// Whether `c` is a control character (`char::is_control`: the Unicode category Cc).
pub open spec fn is_control(c: char) -> bool {
    c <= '\u{1f}' || ('\u{7f}' <= c && c <= '\u{9f}')
}

/// The character that a byte stands for on its own (`u8 as char`, Latin-1).
pub open spec fn byte_char(b: u8) -> char {
    (b as u32) as char
}

/// `v` between `lo` and `hi` (`i64::clamp`).
pub open spec fn clamp(v: int, lo: int, hi: int) -> int {
    if v < lo {
        lo
    } else if v > hi {
        hi
    } else {
        v
    }
}

/// The state after a key press, and whether the interface goes on.
pub open spec fn key_effect(s: UiView, key: Key) -> (UiView, bool) {
    match key {
        Key::CtrlC => (s, false),
        Key::Nothing => (s, true),
        Key::ArrowDown => (UiView { selector: clamp(s.selector + 1, 0, 1) as i64, ..s }, true),
        Key::ArrowUp => (UiView { selector: clamp(s.selector - 1, 0, 1) as i64, ..s }, true),
        Key::Enter => if s.message.len() == 0 {
            (s, true)
        } else {
            (
                UiView {
                    outgoing: s.outgoing.push(
                        (without_nulls(trim(s.message)), without_nulls(trim(s.tags))),
                    ),
                    message: Seq::empty(),
                    ..s
                },
                true,
            )
        },
        Key::Backspace => if s.selector == 0 {
            (UiView { message: if s.message.len() > 0 { s.message.drop_last() } else { s.message }, ..s }, true)
        } else if s.selector == 1 {
            (UiView { tags: if s.tags.len() > 0 { s.tags.drop_last() } else { s.tags }, ..s }, true)
        } else {
            (s, true)
        },
        Key::Byte(b) => if is_control(byte_char(b)) {
            (s, true)
        } else if s.selector == 0 {
            (UiView { message: s.message.push(byte_char(b)), ..s }, true)
        } else if s.selector == 1 {
            (UiView { tags: s.tags.push(byte_char(b)), ..s }, true)
        } else {
            (s, true)
        },
    }
}

/// Enter sends the message line: whatever the tag line holds (empty too), a nonempty message
/// line is queued last among the outgoing messages, trimmed and without null characters, with
/// the tag line treated alike; the message line is emptied and nothing else changes. An empty
/// message line sends nothing.
pub proof fn lemma_enter_sends_message(before: UiView)
    ensures
        ({
            let (after, going_on) = key_effect(before, Key::Enter);
            &&& going_on
            &&& before.message.len() > 0 ==> {
                &&& after.outgoing.len() == before.outgoing.len() + 1
                &&& after.outgoing.last() == (
                    without_nulls(trim(before.message)),
                    without_nulls(trim(before.tags)),
                )
                &&& forall|i: int|
                    0 <= i < before.outgoing.len() ==> after.outgoing[i] == before.outgoing[i]
                &&& after.message.len() == 0
                &&& after.tags == before.tags
                &&& after.selector == before.selector
                &&& after.messages == before.messages
            }
            &&& before.message.len() == 0 ==> after == before
        }),
{
}

/// Backspace deletes the last character of the selected line only: with the message line
/// selected (0) the message line loses its last character, with the tag line selected (1) the
/// tag line does, and everything else stays.
pub proof fn lemma_backspace_edits_selected_line(before: UiView)
    requires
        0 <= before.selector <= 1,
    ensures
        ({
            let (after, going_on) = key_effect(before, Key::Backspace);
            let selected = if before.selector == 0 {
                before.message
            } else {
                before.tags
            };
            let edited = if selected.len() > 0 {
                selected.subrange(0, selected.len() - 1)
            } else {
                selected
            };
            &&& going_on
            &&& after.message == (if before.selector == 0 {
                edited
            } else {
                before.message
            })
            &&& after.tags == (if before.selector == 1 {
                edited
            } else {
                before.tags
            })
            &&& after.outgoing == before.outgoing
            &&& after.selector == before.selector
            &&& after.messages == before.messages
        }),
{
}

/// Typing a character that is not a control character appends it to the selected line only;
/// a control character changes nothing.
pub proof fn lemma_typing_edits_selected_line(before: UiView, b: u8)
    requires
        0 <= before.selector <= 1,
    ensures
        ({
            let (after, going_on) = key_effect(before, Key::Byte(b));
            let c = byte_char(b);
            &&& going_on
            &&& is_control(c) ==> after == before
            &&& !is_control(c) ==> {
                &&& after.message == (if before.selector == 0 {
                    before.message + seq![c]
                } else {
                    before.message
                })
                &&& after.tags == (if before.selector == 1 {
                    before.tags + seq![c]
                } else {
                    before.tags
                })
                &&& after.outgoing == before.outgoing
                &&& after.selector == before.selector
                &&& after.messages == before.messages
            }
        }),
{
}

/// Typing a character that is not a control character and then pressing Backspace gives the
/// state back.
pub proof fn lemma_backspace_undoes_typing(before: UiView, b: u8)
    requires
        0 <= before.selector <= 1,
        !is_control(byte_char(b)),
    ensures
        key_effect(key_effect(before, Key::Byte(b)).0, Key::Backspace).0 == before,
{
    let typed = key_effect(before, Key::Byte(b)).0;
    let back = key_effect(typed, Key::Backspace).0;
    if !is_control(byte_char(b)) {
        assert(before.message.push(byte_char(b)).drop_last() == before.message);
        assert(before.tags.push(byte_char(b)).drop_last() == before.tags);
        assert(back.message == before.message);
        assert(back.tags == before.tags);
        assert(back.outgoing == before.outgoing);
        assert(back.messages == before.messages);
        assert(back.selector == before.selector);
    }
}

/// The arrows select a line: down selects the tag line (1), up the message line (0); nothing
/// else changes. Ctrl+C closes the interface and changes nothing; no other key closes it.
pub proof fn lemma_arrows_and_closing(before: UiView, key: Key)
    requires
        0 <= before.selector <= 1,
    ensures
        key_effect(before, Key::ArrowDown).0 == (UiView { selector: 1, ..before }),
        key_effect(before, Key::ArrowUp).0 == (UiView { selector: 0, ..before }),
        key_effect(before, Key::CtrlC) == (before, false),
        key_effect(before, Key::Nothing) == (before, true),
        key != Key::CtrlC ==> key_effect(before, key).1,
{
}

/// Whether no message of `outgoing` holds a null character, in its text or its tags.
pub open spec fn outgoing_null_free(outgoing: Seq<(Seq<char>, Seq<char>)>) -> bool {
    forall|i: int|
        0 <= i < outgoing.len() ==> free_of(#[trigger] outgoing[i].0, '\0') && free_of(
            outgoing[i].1,
            '\0',
        )
}

/// Text without its null characters holds none.
pub proof fn lemma_without_nulls_free(s: Seq<char>)
    ensures
        free_of(without_nulls(s), '\0'),
    decreases s.len(),
{
    if s.len() > 0 {
        lemma_without_nulls_free(s.drop_last());
    }
}

/// `s` without its null characters.
fn remove_nulls(s: &[char]) -> (res: String)
    ensures
        res@ == without_nulls(s@),
{
    let mut kept: Vec<char> = Vec::new();
    let mut i: usize = 0;
    while i < s.len()
        invariant
            i <= s@.len(),
            kept@ == without_nulls(s@.take(i as int)),
        decreases s@.len() - i,
    {
        assert(s@.take(i + 1).drop_last() == s@.take(i as int));
        assert(s@.take(i + 1).last() == s@[i as int]);
        if s[i] != '\0' {
            kept.push(s[i]);
        }
        i = i + 1;
    }
    assert(s@.take(s@.len() as int) == s@);
    string_of(kept.as_slice())
}

impl UiState {
    /// The interface's invariant: the selector is 0 or 1, and no message waiting to be sent
    /// holds a null character, in its text or its tags (they would break the wire format).
    pub closed spec fn wf(&self) -> bool {
        &&& 0 <= self.input_selector <= 1
        &&& outgoing_null_free(self@.outgoing)
    }

    /// A new interface state: nothing typed, the message line selected, no messages.
    pub fn new() -> (res: Self)
        ensures
            res.wf(),
            res@.outgoing == Seq::<(Seq<char>, Seq<char>)>::empty(),
            res@.selector == 0,
            res@.message == Seq::<char>::empty(),
            res@.tags == Seq::<char>::empty(),
            res@.messages == Seq::<Seq<char>>::empty(),
    {
        let res = UiState {
            out_buf: Vec::new(),
            input_selector: 0,
            msg_input: Vec::new(),
            tag_input: Vec::new(),
            message_buffer: Vec::new(),
        };
        assert(res@.outgoing =~= Seq::<(Seq<char>, Seq<char>)>::empty());
        assert(res@.messages =~= Seq::<Seq<char>>::empty());
        res
    }

    /// Insert a message to the buffer to be displayed
    pub fn new_message(&mut self, text: String)
        requires
            old(self).wf(),
        ensures
            final(self).wf(),
            final(self)@.messages == seq![text@] + old(self)@.messages,
            final(self)@.outgoing == old(self)@.outgoing,
            final(self)@.selector == old(self)@.selector,
            final(self)@.message == old(self)@.message,
            final(self)@.tags == old(self)@.tags,
    {
        let ghost text_view = text@;
        self.message_buffer.insert(0, text);
        assert(self@.messages =~= seq![text_view] + old(self)@.messages);
    }

    /// Handles one key press; returns `false` when the interface is to close.
    #[verifier::spinoff_prover]
    pub fn handle_key(&mut self, key: Key) -> (res: bool)
        requires
            old(self).wf(),
        ensures
            final(self).wf(),
            (final(self)@, res) == key_effect(old(self)@, key),
    {
        let ghost before = self@;
        match key {
            Key::CtrlC => {
                return false;
            },
            Key::Nothing => {},
            Key::ArrowDown => {
                let next = self.input_selector + 1;
                self.input_selector = if next < 0 {
                    0
                } else if next > 1 {
                    1
                } else {
                    next
                };
            },
            Key::ArrowUp => {
                let next = self.input_selector - 1;
                self.input_selector = if next < 0 {
                    0
                } else if next > 1 {
                    1
                } else {
                    next
                };
            },
            Key::Enter => {
                if self.msg_input.len() > 0 {
                    let message = remove_nulls(trim_chars(self.msg_input.as_slice()).as_slice());
                    let tags = remove_nulls(trim_chars(self.tag_input.as_slice()).as_slice());
                    let ghost pair = (message@, tags@);
                    self.out_buf.push((message, tags));
                    self.msg_input = Vec::new();
                    assert(self@.outgoing =~= before.outgoing.push(pair));
                    proof {
                        lemma_without_nulls_free(trim(before.message));
                        lemma_without_nulls_free(trim(before.tags));
                        assert(outgoing_null_free(self@.outgoing)) by {
                            assert forall|i: int| 0 <= i < self@.outgoing.len() implies free_of(
                                #[trigger] self@.outgoing[i].0,
                                '\0',
                            ) && free_of(self@.outgoing[i].1, '\0') by {
                                if i < before.outgoing.len() {
                                    assert(self@.outgoing[i] == before.outgoing[i]);
                                }
                            }
                        }
                    }
                }
            },
            Key::Backspace => {
                if self.input_selector == 0 {
                    self.msg_input.pop();
                } else if self.input_selector == 1 {
                    self.tag_input.pop();
                }
            },
            Key::Byte(b) => {
                let c = b as char;
                assert(c == byte_char(b));
                if !(c <= '\u{1f}' || ('\u{7f}' <= c && c <= '\u{9f}')) {
                    if self.input_selector == 0 {
                        self.msg_input.push(c);
                    } else if self.input_selector == 1 {
                        self.tag_input.push(c);
                    }
                }
            },
        }
        assert(self@.outgoing =~= key_effect(before, key).0.outgoing);
        assert(self@.messages =~= key_effect(before, key).0.messages);
        true
    }

    /// Fetches all outgoing messages
    ///
    /// Returns Vec of (message, tags)
    pub fn get_outgoing(&mut self) -> (res: Vec<(String, String)>)
        requires
            old(self).wf(),
        ensures
            final(self).wf(),
            res@.map_values(|p: (String, String)| (p.0@, p.1@)) == old(self)@.outgoing,
            outgoing_null_free(old(self)@.outgoing),
            final(self)@.outgoing == Seq::<(Seq<char>, Seq<char>)>::empty(),
            final(self)@.selector == old(self)@.selector,
            final(self)@.message == old(self)@.message,
            final(self)@.tags == old(self)@.tags,
            final(self)@.messages == old(self)@.messages,
    {
        let mut out: Vec<(String, String)> = Vec::new();
        std::mem::swap(&mut out, &mut self.out_buf);
        assert(self@.outgoing =~= Seq::<(Seq<char>, Seq<char>)>::empty());
        out
    }

    /// The message line's text.
    pub fn msg_input(&self) -> (res: String)
        ensures
            res@ == self@.message,
    {
        string_of(self.msg_input.as_slice())
    }

    /// The tag line's text.
    pub fn tag_input(&self) -> (res: String)
        ensures
            res@ == self@.tags,
    {
        string_of(self.tag_input.as_slice())
    }

    /// Which input line is selected: 0 for the message, 1 for the tags.
    pub fn input_selector(&self) -> (res: i64)
        ensures
            res == self@.selector,
    {
        self.input_selector
    }

    /// The messages to display, newest first.
    pub fn messages(&self) -> (res: &Vec<String>)
        ensures
            res@.map_values(|m: String| m@) == self@.messages,
    {
        &self.message_buffer
    }
}

} // verus!
