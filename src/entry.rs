//! One task and the three one-line forms it takes: the stored line, the
//! plain line and the numbered listing line.

use crate::text::{decimal, decimal_of};
use colored::Colorize;
use vstd::prelude::*;

verus! {

/// Why a stored line could not be read back as a task.
#[derive(Clone, Copy, Debug, PartialEq, Eq, Structural)]
pub enum DecodeError {
    /// The line is shorter than the four characters of a marker.
    LineTooShort,
}

/// One task: its text and whether it is done.
pub struct Entry {
    pub todo_entry: String,
    pub done: bool,
}

/// What an entry holds, as mathematical values.
pub struct EntryView {
    pub text: Seq<char>,
    pub done: bool,
}

impl View for Entry {
    type V = EntryView;

    open spec fn view(&self) -> EntryView {
        EntryView { text: self.todo_entry@, done: self.done }
    }
}

/// The marker in front of a done task.
pub open spec fn done_marker() -> Seq<char> {
    seq!['[', '*', ']', ' ']
}

/// The marker in front of a task that is not done (one character shorter).
pub open spec fn todo_marker() -> Seq<char> {
    seq!['[', ' ', ']']
}

/// The stored form of an entry, without its line feed.
pub open spec fn stored_line(e: EntryView) -> Seq<char> {
    if e.done {
        done_marker() + e.text
    } else {
        todo_marker() + e.text
    }
}

/// Reading a stored line: done when it opens with the done marker; the text
/// is what follows the first four characters, whichever marker stood there.
pub open spec fn decode_line(l: Seq<char>) -> Result<EntryView, DecodeError> {
    if l.len() < 4 {
        Err(DecodeError::LineTooShort)
    } else {
        Ok(EntryView { text: l.skip(4), done: l.take(4) == done_marker() })
    }
}

/// The listing form of a task: its number, a space, the text as shown and a
/// line feed.
pub open spec fn listing_of(number: nat, shown: Seq<char>) -> Seq<char> {
    decimal_of(number) + seq![' '] + shown + seq!['\n']
}

/// Reading back the stored line of an entry gives its done flag. A done
/// entry comes back whole; an entry that is not done loses the first
/// character of its text, since its marker is one character shorter than the
/// four that reading strips, and with an empty text its line is too short.
pub proof fn lemma_round_trip(e: EntryView)
    ensures
        e.done ==> decode_line(stored_line(e)) == Ok::<EntryView, DecodeError>(e),
        !e.done && e.text.len() > 0 ==> decode_line(stored_line(e)) == Ok::<
            EntryView,
            DecodeError,
        >(EntryView { text: e.text.drop_first(), done: false }),
        !e.done && e.text.len() == 0 ==> decode_line(stored_line(e)) == Err::<
            EntryView,
            DecodeError,
        >(DecodeError::LineTooShort),
{
    let l = stored_line(e);
    if e.done {
        assert(l.take(4) =~= done_marker());
        assert(l.skip(4) =~= e.text);
    } else if e.text.len() > 0 {
        assert(l.take(4)[1] == ' ');
        assert(l.skip(4) =~= e.text.drop_first());
    }
}

/// The model of a decoding result.
pub open spec fn decoded(r: Result<Entry, DecodeError>) -> Result<EntryView, DecodeError> {
    match r {
        Ok(e) => Ok(e@),
        Err(err) => Err(err),
    }
}

/// Relies on colored's `Colorize::strikethrough` for `&str` and the `Display`
/// of `ColoredString`: the text decorated as struck through, or left plain,
/// as the terminal settings decide. Nothing is promised of the result.
#[verifier::external_body]
fn struck(text: &str) -> String {
    text.strikethrough().to_string()
}

/// A listing line from a number and the text as it is to be shown.
pub fn numbered_line(number: usize, shown: &str) -> (r: String)
    ensures
        r@ == listing_of(number as nat, shown@),
{
    proof {
        reveal_strlit(" ");
        reveal_strlit("\n");
    }
    let mut r = decimal(number);
    r.append(" ");
    r.append(shown);
    r.append("\n");
    r
}

impl Entry {
    pub fn new(todo_entry: String, done: bool) -> (r: Self)
        ensures
            r@ == (EntryView { text: todo_entry@, done }),
    {
        Self { todo_entry, done }
    }

    /// The line that stores this entry in the task file.
    pub fn file_line(&self) -> (r: String)
        ensures
            r@ == stored_line(self@).push('\n'),
    {
        proof {
            reveal_strlit("[*] ");
            reveal_strlit("[ ]");
            reveal_strlit("\n");
        }
        let mut r = if self.done {
            String::from_str("[*] ")
        } else {
            String::from_str("[ ]")
        };
        r.append(self.todo_entry.as_str());
        r.append("\n");
        assert(r@ =~= stored_line(self@).push('\n'));
        r
    }

    /// The line that lists this entry under `number`; a done entry's text
    /// goes through the strike-through decoration.
    pub fn list_line(&self, number: usize) -> (r: String)
        ensures
            !self.done ==> r@ == listing_of(number as nat, self.todo_entry@),
            self.done ==> exists|shown: Seq<char>| r@ == listing_of(number as nat, shown),
    {
        if self.done {
            let shown = struck(self.todo_entry.as_str());
            numbered_line(number, shown.as_str())
        } else {
            numbered_line(number, self.todo_entry.as_str())
        }
    }

    /// Reads a stored line back as an entry.
    pub fn read_line(line: &String) -> (r: Result<Self, DecodeError>)
        ensures
            decoded(r) == decode_line(line@),
    {
        let s = line.as_str();
        let n = s.unicode_len();
        if n < 4 {
            return Err(DecodeError::LineTooShort);
        }
        let done = s.get_char(0) == '[' && s.get_char(1) == '*' && s.get_char(2) == ']'
            && s.get_char(3) == ' ';
        assert(s@.take(4) =~= seq![s@[0], s@[1], s@[2], s@[3]]);
        assert(done == (s@.take(4) == done_marker())) by {
            if s@.take(4) == done_marker() {
                assert(s@.take(4)[1] == '*');
            }
        }
        let todo_entry = String::from_str(s.substring_char(4, n));
        assert(todo_entry@ =~= line@.skip(4));
        Ok(Self { todo_entry, done })
    }

    /// The entry's text alone, with a line feed.
    pub fn raw_line(&self) -> (r: String)
        ensures
            r@ == self.todo_entry@.push('\n'),
    {
        proof {
            reveal_strlit("\n");
        }
        let mut r = self.todo_entry.clone();
        r.append("\n");
        assert(r@ =~= self.todo_entry@.push('\n'));
        r
    }
}

} // verus!
