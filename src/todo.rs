//! The task list: the lines of the task file, and what each command makes
//! of them.

use crate::entry::{done_marker, stored_line, DecodeError, Entry, EntryView, listing_of};
use crate::text::{
    decimal, decimal_of, is_blank, is_blank_text, lemma_line_end_at, lines_of, strip_cr,
    same_text, split_lines, views,
};
use vstd::prelude::*;

verus! {

/// What a command can fail on before it touches any file.
#[derive(Clone, Copy, Debug, PartialEq, Eq, Structural)]
pub enum TodoError {
    /// The command was given a number of arguments it does not take.
    InvalidArgCount,
    /// No path was given and no home directory is known.
    HomeUnresolved,
    /// A line that the command reads is too short to hold a marker.
    LineTooShort,
}

/// The task list as loaded, with where it lives and where its backup goes.
pub struct Todo {
    pub todo: Vec<String>,
    pub todo_path: String,
    pub todo_bak: String,
    pub no_backup: bool,
}

/// A stored line that opens with the done marker.
pub open spec fn is_done_line(l: Seq<char>) -> bool {
    l.len() >= 4 && l.take(4) == done_marker()
}

/// Every line is long enough to be decoded.
pub open spec fn all_decodable(ls: Seq<Seq<char>>) -> bool {
    forall|i: int| 0 <= i < ls.len() ==> (#[trigger] ls[i]).len() >= 4
}

/// Some argument is the decimal numeral of the 1-based position `pos`.
pub open spec fn position_named(args: Seq<Seq<char>>, pos: nat) -> bool {
    exists|k: int| 0 <= k < args.len() && args[k] == decimal_of(pos)
}

/// A line with its line feed.
pub open spec fn terminated(l: Seq<char>) -> Seq<char> {
    l.push('\n')
}

/// The lines written back unchanged, each with a line feed.
pub open spec fn normalized(ls: Seq<Seq<char>>) -> Seq<char>
    decreases ls.len(),
{
    if ls.len() == 0 {
        Seq::empty()
    } else {
        normalized(ls.drop_last()) + terminated(ls.last())
    }
}

/// The argument that selects done tasks.
pub open spec fn done_word() -> Seq<char> {
    seq!['d', 'o', 'n', 'e']
}

/// The argument that selects tasks not yet done.
pub open spec fn todo_word() -> Seq<char> {
    seq!['t', 'o', 'd', 'o']
}

/// What the plain export writes for one line under `filter`.
pub open spec fn raw_piece(filter: Seq<char>, l: Seq<char>) -> Seq<char> {
    let done = is_done_line(l);
    if (done && filter == done_word()) || (!done && filter == todo_word()) {
        terminated(l.skip(4))
    } else {
        Seq::empty()
    }
}

/// The plain export of the lines that `filter` selects, in order.
pub open spec fn raw_output(ls: Seq<Seq<char>>, filter: Seq<char>) -> Seq<char>
    decreases ls.len(),
{
    if ls.len() == 0 {
        Seq::empty()
    } else {
        raw_output(ls.drop_last(), filter) + raw_piece(filter, ls.last())
    }
}

/// The listing of the lines, numbered from one, each text as `shown` has it.
pub open spec fn listing_output(shown: Seq<Seq<char>>) -> Seq<char>
    decreases shown.len(),
{
    if shown.len() == 0 {
        Seq::empty()
    } else {
        listing_output(shown.drop_last()) + listing_of(shown.len(), shown.last())
    }
}

/// What adding one argument appends: nothing for a blank one, else a new
/// task that is not done.
pub open spec fn added_piece(a: Seq<char>) -> Seq<char> {
    if is_blank_text(a) {
        Seq::empty()
    } else {
        terminated(stored_line(EntryView { text: a, done: false }))
    }
}

/// What adding the arguments appends, in order.
pub open spec fn added_output(args: Seq<Seq<char>>) -> Seq<char>
    decreases args.len(),
{
    if args.len() == 0 {
        Seq::empty()
    } else {
        added_output(args.drop_last()) + added_piece(args.last())
    }
}

/// The lines that no argument names, each with a line feed, in order.
pub open spec fn removed_output(ls: Seq<Seq<char>>, args: Seq<Seq<char>>) -> Seq<char>
    decreases ls.len(),
{
    if ls.len() == 0 {
        Seq::empty()
    } else if position_named(args, ls.len()) {
        removed_output(ls.drop_last(), args)
    } else {
        removed_output(ls.drop_last(), args) + terminated(ls.last())
    }
}

/// The lines of one group (done or not), each with a line feed, in order.
pub open spec fn group_output(ls: Seq<Seq<char>>, done: bool) -> Seq<char>
    decreases ls.len(),
{
    if ls.len() == 0 {
        Seq::empty()
    } else if is_done_line(ls.last()) == done {
        group_output(ls.drop_last(), done) + terminated(ls.last())
    } else {
        group_output(ls.drop_last(), done)
    }
}

/// The lines not done, then the lines done, each group in its own order.
pub open spec fn sorted_output(ls: Seq<Seq<char>>) -> Seq<char> {
    group_output(ls, false) + group_output(ls, true)
}

/// A line with its done flag flipped, stored anew.
pub open spec fn toggled(l: Seq<char>) -> Seq<char> {
    stored_line(EntryView { text: l.skip(4), done: !is_done_line(l) })
}

/// The lines with those that the arguments name toggled.
pub open spec fn done_output(ls: Seq<Seq<char>>, args: Seq<Seq<char>>) -> Seq<char>
    decreases ls.len(),
{
    if ls.len() == 0 {
        Seq::empty()
    } else if position_named(args, ls.len()) {
        done_output(ls.drop_last(), args) + terminated(toggled(ls.last()))
    } else {
        done_output(ls.drop_last(), args) + terminated(ls.last())
    }
}

/// Some line that the arguments name is too short to decode.
pub open spec fn named_line_too_short(ls: Seq<Seq<char>>, args: Seq<Seq<char>>) -> bool {
    exists|i: int|
        0 <= i < ls.len() && position_named(args, (i + 1) as nat) && #[trigger] ls[i].len() < 4
}

/// A line given a new text, its done flag kept.
pub open spec fn retexted(l: Seq<char>, text: Seq<char>) -> Seq<char> {
    stored_line(EntryView { text, done: is_done_line(l) })
}

/// The lines with the one at position `index` given the text `text`.
pub open spec fn edit_output(ls: Seq<Seq<char>>, index: Seq<char>, text: Seq<char>) -> Seq<char>
    decreases ls.len(),
{
    if ls.len() == 0 {
        Seq::empty()
    } else if index == decimal_of(ls.len()) {
        edit_output(ls.drop_last(), index, text) + terminated(retexted(ls.last(), text))
    } else {
        edit_output(ls.drop_last(), index, text) + terminated(ls.last())
    }
}

/// The line at position `index` is too short to decode.
pub open spec fn indexed_line_too_short(ls: Seq<Seq<char>>, index: Seq<char>) -> bool {
    exists|i: int| 0 <= i < ls.len() && index == decimal_of((i + 1) as nat) && #[trigger] ls[i].len() < 4
}

/// The legacy place of the task file in a home directory.
pub open spec fn legacy_path_of(home: Seq<char>) -> Seq<char> {
    home + seq!['/', 'T', 'O', 'D', 'O']
}

/// The usual place of the task file in a home directory.
pub open spec fn default_path_of(home: Seq<char>) -> Seq<char> {
    home + seq!['/', '.', 't', 'o', 'd', 'o']
}

/// The backup place used when none is given.
pub open spec fn default_backup_path() -> Seq<char> {
    seq!['/', 't', 'm', 'p', '/', 't', 'o', 'd', 'o', '.', 'b', 'a', 'k']
}

/// The legacy place of the task file in `home`.
pub fn legacy_path(home: &str) -> (r: String)
    ensures
        r@ == legacy_path_of(home@),
{
    proof {
        reveal_strlit("/TODO");
    }
    let mut r = String::from_str(home);
    r.append("/TODO");
    assert(r@ =~= legacy_path_of(home@));
    r
}

/// The usual place of the task file in `home`.
pub fn default_path(home: &str) -> (r: String)
    ensures
        r@ == default_path_of(home@),
{
    proof {
        reveal_strlit("/.todo");
    }
    let mut r = String::from_str(home);
    r.append("/.todo");
    assert(r@ =~= default_path_of(home@));
    r
}

/// Where the task file is: the path given, else the legacy place in the
/// home directory where a file is there, else the usual place.
pub fn resolve_todo_path(given: Option<String>, home: Option<String>, legacy_exists: bool) -> (r:
    Result<String, TodoError>)
    ensures
        given is Some ==> r is Ok && r->Ok_0@ == given->Some_0@,
        given is None && home is None ==> r == Err::<String, TodoError>(TodoError::HomeUnresolved),
        given is None && home is Some ==> r is Ok && r->Ok_0@ == (if legacy_exists {
            legacy_path_of(home->Some_0@)
        } else {
            default_path_of(home->Some_0@)
        }),
{
    match given {
        Some(p) => Ok(p),
        None => match home {
            None => Err(TodoError::HomeUnresolved),
            Some(h) => {
                if legacy_exists {
                    Ok(legacy_path(h.as_str()))
                } else {
                    Ok(default_path(h.as_str()))
                }
            },
        },
    }
}

/// Where the backup goes: the path given, else the usual place.
pub fn resolve_backup_path(given: Option<String>) -> (r: String)
    ensures
        given is Some ==> r@ == given->Some_0@,
        given is None ==> r@ == default_backup_path(),
{
    match given {
        Some(p) => p,
        None => {
            proof {
                reveal_strlit("/tmp/todo.bak");
            }
            let r = String::from_str("/tmp/todo.bak");
            assert(r@ =~= default_backup_path());
            r
        },
    }
}

/// Appends a line and its line feed.
fn push_line(out: &mut String, l: &str)
    ensures
        final(out)@ == old(out)@ + terminated(l@),
{
    proof {
        reveal_strlit("\n");
    }
    out.append(l);
    out.append("\n");
    assert(final(out)@ =~= old(out)@ + terminated(l@));
}

/// Whether some argument is the decimal numeral of `pos`.
fn names_position(args: &[String], pos: usize) -> (r: bool)
    ensures
        r == position_named(views(args@), pos as nat),
{
    let d = decimal(pos);
    let mut k: usize = 0;
    while k < args.len()
        invariant
            d@ == decimal_of(pos as nat),
            k <= args.len(),
            forall|j: int| 0 <= j < k ==> args@[j]@ != decimal_of(pos as nat),
        decreases args.len() - k,
    {
        if same_text(args[k].as_str(), d.as_str()) {
            assert(views(args@)[k as int] == decimal_of(pos as nat));
            return true;
        }
        k = k + 1;
    }
    assert(forall|j: int| 0 <= j < args.len() ==> views(args@)[j] == args@[j]@);
    false
}

impl Todo {
    /// The lines of the task file.
    pub open spec fn lines(&self) -> Seq<Seq<char>> {
        views(self.todo@)
    }

    /// Whether a reset copies the file to the backup place first.
    pub fn reset_backs_up(&self) -> (r: bool)
        ensures
            r == !self.no_backup,
    {
        !self.no_backup
    }

    /// Whether a reset goes on to delete the task file, given whether the
    /// backup copy succeeded: never without a backup unless backups are off.
    pub fn reset_deletes(&self, backup_ok: bool) -> (r: bool)
        ensures
            r == (self.no_backup || backup_ok),
    {
        self.no_backup || backup_ok
    }

    /// A task list from the paths it uses and the text of its file.
    pub fn new(todo_path: String, todo_bak: String, no_backup: bool, contents: &str) -> (r: Self)
        ensures
            r.lines() == lines_of(contents@),
            r.todo_path@ == todo_path@,
            r.todo_bak@ == todo_bak@,
            r.no_backup == no_backup,
    {
        let todo = split_lines(contents);
        Self { todo, todo_path, todo_bak, no_backup }
    }

    /// The file written back without the lines at the positions that `args`
    /// name.
    pub fn remove(&self, args: &[String]) -> (r: Result<String, TodoError>)
        ensures
            args.len() == 0 ==> r == Err::<String, TodoError>(TodoError::InvalidArgCount),
            args.len() > 0 ==> r is Ok && r->Ok_0@ == removed_output(self.lines(), views(args@)),
    {
        if args.len() == 0 {
            return Err(TodoError::InvalidArgCount);
        }
        let ghost ls = self.lines();
        let mut out = String::new();
        let mut i: usize = 0;
        while i < self.todo.len()
            invariant
                ls == self.lines(),
                i <= ls.len(),
                out@ == removed_output(ls.take(i as int), views(args@)),
            decreases self.todo.len() - i,
        {
            if !names_position(args, i + 1) {
                push_line(&mut out, self.todo[i].as_str());
            }
            assert(ls.take(i + 1).drop_last() =~= ls.take(i as int));
            assert(ls[i as int] == self.todo@[i as int]@);
            i = i + 1;
        }
        assert(ls.take(ls.len() as int) =~= ls);
        Ok(out)
    }

    /// The numbered listing of the tasks; the text of a done task goes
    /// through the strike-through decoration, that of another task is shown
    /// as it is.
    pub fn list(&self) -> (r: Result<String, TodoError>)
        ensures
            !all_decodable(self.lines()) ==> r == Err::<String, TodoError>(TodoError::LineTooShort),
            all_decodable(self.lines()) ==> r is Ok && exists|shown: Seq<Seq<char>>|
                shown.len() == self.lines().len() && (forall|i: int|
                    0 <= i < shown.len() && !is_done_line(self.lines()[i]) ==> #[trigger] shown[i]
                        == self.lines()[i].skip(4)) && r->Ok_0@ == listing_output(shown),
    {
        let ghost ls = self.lines();
        let ghost mut shown: Seq<Seq<char>> = Seq::empty();
        let mut out = String::new();
        let mut i: usize = 0;
        while i < self.todo.len()
            invariant
                ls == self.lines(),
                i <= ls.len(),
                all_decodable(ls.take(i as int)),
                shown.len() == i,
                forall|k: int|
                    0 <= k < i && !is_done_line(ls[k]) ==> #[trigger] shown[k] == ls[k].skip(4),
                out@ == listing_output(shown),
            decreases self.todo.len() - i,
        {
            assert(ls[i as int] == self.todo@[i as int]@);
            match Entry::read_line(&self.todo[i]) {
                Err(_) => {
                    assert(ls[i as int].len() < 4);
                    return Err(TodoError::LineTooShort);
                },
                Ok(e) => {
                    let line = e.list_line(i + 1);
                    let ghost s = if e.done {
                        choose|s: Seq<char>| line@ == #[trigger] listing_of((i + 1) as nat, s)
                    } else {
                        e.todo_entry@
                    };
                    proof {
                        assert(shown.push(s).drop_last() =~= shown);
                        shown = shown.push(s);
                    }
                    out.append(line.as_str());
                },
            }
            assert(ls.take(i + 1).drop_last() =~= ls.take(i as int));
            i = i + 1;
        }
        assert(ls.take(ls.len() as int) =~= ls);
        Ok(out)
    }

    /// What adding the arguments appends to the file: one task that is not
    /// done for each argument that is not blank, in order.
    pub fn add(&self, args: &[String]) -> (r: Result<String, TodoError>)
        ensures
            args.len() == 0 ==> r == Err::<String, TodoError>(TodoError::InvalidArgCount),
            args.len() > 0 ==> r is Ok && r->Ok_0@ == added_output(views(args@)),
    {
        if args.len() == 0 {
            return Err(TodoError::InvalidArgCount);
        }
        let ghost a = views(args@);
        let mut out = String::new();
        let mut i: usize = 0;
        while i < args.len()
            invariant
                a == views(args@),
                i <= a.len(),
                out@ == added_output(a.take(i as int)),
            decreases args.len() - i,
        {
            assert(a[i as int] == args@[i as int]@);
            if !is_blank(args[i].as_str()) {
                let entry = Entry::new(args[i].clone(), false);
                let line = entry.file_line();
                out.append(line.as_str());
            }
            assert(a.take(i + 1).drop_last() =~= a.take(i as int));
            i = i + 1;
        }
        assert(a.take(a.len() as int) =~= a);
        Ok(out)
    }

    /// The file written back with the done flag of each line that `args`
    /// name flipped.
    pub fn done(&self, args: &[String]) -> (r: Result<String, TodoError>)
        ensures
            args.len() == 0 ==> r == Err::<String, TodoError>(TodoError::InvalidArgCount),
            args.len() > 0 && named_line_too_short(self.lines(), views(args@)) ==> r == Err::<
                String,
                TodoError,
            >(TodoError::LineTooShort),
            args.len() > 0 && !named_line_too_short(self.lines(), views(args@)) ==> r is Ok
                && r->Ok_0@ == done_output(self.lines(), views(args@)),
    {
        if args.len() == 0 {
            return Err(TodoError::InvalidArgCount);
        }
        let ghost ls = self.lines();
        let ghost a = views(args@);
        let mut out = String::new();
        let mut i: usize = 0;
        while i < self.todo.len()
            invariant
                ls == self.lines(),
                a == views(args@),
                i <= ls.len(),
                !named_line_too_short(ls.take(i as int), a),
                out@ == done_output(ls.take(i as int), a),
            decreases self.todo.len() - i,
        {
            assert(ls[i as int] == self.todo@[i as int]@);
            if names_position(args, i + 1) {
                match Entry::read_line(&self.todo[i]) {
                    Err(_) => {
                        assert(ls[i as int].len() < 4);
                        return Err(TodoError::LineTooShort);
                    },
                    Ok(e) => {
                        let mut e = e;
                        e.done = !e.done;
                        let line = e.file_line();
                        out.append(line.as_str());
                    },
                }
            } else {
                push_line(&mut out, self.todo[i].as_str());
            }
            assert(ls.take(i + 1).drop_last() =~= ls.take(i as int));
            assert(!named_line_too_short(ls.take(i + 1), a)) by {
                if named_line_too_short(ls.take(i + 1), a) {
                    let j = choose|j: int|
                        0 <= j < i + 1 && position_named(a, (j + 1) as nat) && #[trigger] ls.take(
                            i + 1,
                        )[j].len() < 4;
                    if j < i {
                        assert(ls.take(i as int)[j] == ls.take(i + 1)[j]);
                    }
                }
            }
            i = i + 1;
        }
        assert(ls.take(ls.len() as int) =~= ls);
        Ok(out)
    }

    /// The file written back with the line at the position that `args[0]`
    /// names given the text `args[1]`; with no such line, the file as it was.
    pub fn edit(&self, args: &[String]) -> (r: Result<String, TodoError>)
        ensures
            args.len() != 2 ==> r == Err::<String, TodoError>(TodoError::InvalidArgCount),
            args.len() == 2 && indexed_line_too_short(self.lines(), args[0]@) ==> r == Err::<
                String,
                TodoError,
            >(TodoError::LineTooShort),
            args.len() == 2 && !indexed_line_too_short(self.lines(), args[0]@) ==> r is Ok
                && r->Ok_0@ == edit_output(self.lines(), args[0]@, args[1]@),
    {
        if args.len() != 2 {
            return Err(TodoError::InvalidArgCount);
        }
        let ghost ls = self.lines();
        let mut out = String::new();
        let mut i: usize = 0;
        while i < self.todo.len()
            invariant
                ls == self.lines(),
                args.len() == 2,
                i <= ls.len(),
                !indexed_line_too_short(ls.take(i as int), args[0]@),
                out@ == edit_output(ls.take(i as int), args[0]@, args[1]@),
            decreases self.todo.len() - i,
        {
            assert(ls[i as int] == self.todo@[i as int]@);
            let pos = decimal(i + 1);
            if same_text(args[0].as_str(), pos.as_str()) {
                match Entry::read_line(&self.todo[i]) {
                    Err(_) => {
                        assert(ls[i as int].len() < 4);
                        return Err(TodoError::LineTooShort);
                    },
                    Ok(e) => {
                        let mut e = e;
                        e.todo_entry = args[1].clone();
                        let line = e.file_line();
                        out.append(line.as_str());
                    },
                }
            } else {
                push_line(&mut out, self.todo[i].as_str());
            }
            assert(ls.take(i + 1).drop_last() =~= ls.take(i as int));
            assert(!indexed_line_too_short(ls.take(i + 1), args[0]@)) by {
                if indexed_line_too_short(ls.take(i + 1), args[0]@) {
                    let j = choose|j: int|
                        0 <= j < i + 1 && args[0]@ == decimal_of((j + 1) as nat)
                            && #[trigger] ls.take(i + 1)[j].len() < 4;
                    if j < i {
                        assert(ls.take(i as int)[j] == ls.take(i + 1)[j]);
                    }
                }
            }
            i = i + 1;
        }
        assert(ls.take(ls.len() as int) =~= ls);
        Ok(out)
    }

    /// The file written back with the lines not done first and the done
    /// lines after them, each group in its own order.
    pub fn sort(&self) -> (r: Result<String, TodoError>)
        ensures
            !all_decodable(self.lines()) ==> r == Err::<String, TodoError>(TodoError::LineTooShort),
            all_decodable(self.lines()) ==> r is Ok && r->Ok_0@ == sorted_output(self.lines()),
    {
        let ghost ls = self.lines();
        let mut pending = String::new();
        let mut done = String::new();
        let mut i: usize = 0;
        while i < self.todo.len()
            invariant
                ls == self.lines(),
                i <= ls.len(),
                all_decodable(ls.take(i as int)),
                pending@ == group_output(ls.take(i as int), false),
                done@ == group_output(ls.take(i as int), true),
            decreases self.todo.len() - i,
        {
            match Entry::read_line(&self.todo[i]) {
                Err(_) => {
                    assert(ls[i as int].len() < 4);
                    return Err(TodoError::LineTooShort);
                },
                Ok(e) => {
                    if e.done {
                        push_line(&mut done, self.todo[i].as_str());
                    } else {
                        push_line(&mut pending, self.todo[i].as_str());
                    }
                },
            }
            assert(ls.take(i + 1).drop_last() =~= ls.take(i as int));
            assert(ls[i as int] == self.todo@[i as int]@);
            i = i + 1;
        }
        assert(ls.take(ls.len() as int) =~= ls);
        pending.append(done.as_str());
        Ok(pending)
    }

    /// The plain export of the done tasks (argument `done`) or of those not
    /// done (argument `todo`); any other word selects nothing.
    pub fn raw(&self, args: &[String]) -> (r: Result<String, TodoError>)
        ensures
            args.len() != 1 ==> r == Err::<String, TodoError>(TodoError::InvalidArgCount),
            args.len() == 1 && !all_decodable(self.lines()) ==> r == Err::<String, TodoError>(
                TodoError::LineTooShort,
            ),
            args.len() == 1 && all_decodable(self.lines()) ==> r is Ok && r->Ok_0@ == raw_output(
                self.lines(),
                args[0]@,
            ),
    {
        if args.len() != 1 {
            return Err(TodoError::InvalidArgCount);
        }
        proof {
            reveal_strlit("done");
            reveal_strlit("todo");
        }
        let want_done = same_text(args[0].as_str(), "done");
        let want_todo = same_text(args[0].as_str(), "todo");
        assert(want_done == (args[0]@ == done_word())) by {
            assert("done"@ =~= done_word());
        }
        assert(want_todo == (args[0]@ == todo_word())) by {
            assert("todo"@ =~= todo_word());
        }
        let ghost ls = self.lines();
        let mut out = String::new();
        let mut i: usize = 0;
        while i < self.todo.len()
            invariant
                ls == self.lines(),
                i <= ls.len(),
                all_decodable(ls.take(i as int)),
                args.len() == 1,
                want_done == (args[0]@ == done_word()),
                want_todo == (args[0]@ == todo_word()),
                out@ == raw_output(ls.take(i as int), args[0]@),
            decreases self.todo.len() - i,
        {
            match Entry::read_line(&self.todo[i]) {
                Err(_) => {
                    assert(ls[i as int].len() < 4);
                    return Err(TodoError::LineTooShort);
                },
                Ok(e) => {
                    if (e.done && want_done) || (!e.done && want_todo) {
                        let line = e.raw_line();
                        out.append(line.as_str());
                    }
                },
            }
            assert(ls.take(i + 1).drop_last() =~= ls.take(i as int));
            assert(ls[i as int] == self.todo@[i as int]@);
            i = i + 1;
        }
        assert(ls.take(ls.len() as int) =~= ls);
        Ok(out)
    }
}

/// Toggling a line twice gives back its done flag. (Its text is not given
/// back: each reading strips four characters, and a line that is not done
/// has a marker of three.)
pub proof fn lemma_toggle_twice(l: Seq<char>)
    requires
        l.len() >= 4,
        toggled(l).len() >= 4,
    ensures
        is_done_line(toggled(toggled(l))) == is_done_line(l),
{
    let t = toggled(l);
    if is_done_line(l) {
        assert(t.take(4)[1] == ' ');
        assert(toggled(t).take(4) =~= done_marker());
    } else {
        assert(t.take(4) =~= done_marker());
        if toggled(t).len() >= 4 {
            assert(toggled(t).take(4)[1] == ' ');
        }
    }
}

/// The done command writes each named line toggled and every other line as
/// it was, in order.
pub proof fn lemma_done_output_lines(ls: Seq<Seq<char>>, args: Seq<Seq<char>>)
    ensures
        done_output(ls, args) == normalized(
            Seq::new(
                ls.len(),
                |i: int|
                    if position_named(args, (i + 1) as nat) {
                        toggled(ls[i])
                    } else {
                        ls[i]
                    },
            ),
        ),
    decreases ls.len(),
{
    let m = Seq::new(
        ls.len(),
        |i: int|
            if position_named(args, (i + 1) as nat) {
                toggled(ls[i])
            } else {
                ls[i]
            },
    );
    if ls.len() > 0 {
        lemma_done_output_lines(ls.drop_last(), args);
        assert(m.drop_last() =~= Seq::new(
            ls.drop_last().len(),
            |i: int|
                if position_named(args, (i + 1) as nat) {
                    toggled(ls.drop_last()[i])
                } else {
                    ls.drop_last()[i]
                },
        ));
    }
}

/// With no done line before a line that is not done, every line of the
/// group that is absent adds nothing.
proof fn lemma_group_absent(ls: Seq<Seq<char>>, done: bool)
    requires
        forall|i: int| 0 <= i < ls.len() ==> is_done_line(#[trigger] ls[i]) != done,
    ensures
        group_output(ls, done) == Seq::<char>::empty(),
    decreases ls.len(),
{
    if ls.len() > 0 {
        lemma_group_absent(ls.drop_last(), done);
    }
}

/// Sorting a list that is already sorted (no done line before a line that
/// is not done) writes the file back unchanged, up to line terminators.
pub proof fn lemma_sort_sorted(ls: Seq<Seq<char>>)
    requires
        forall|i: int, j: int|
            0 <= i < j < ls.len() && is_done_line(#[trigger] ls[i]) ==> is_done_line(
                #[trigger] ls[j],
            ),
    ensures
        sorted_output(ls) == normalized(ls),
    decreases ls.len(),
{
    if ls.len() > 0 {
        let init = ls.drop_last();
        assert forall|i: int, j: int|
            0 <= i < j < init.len() && is_done_line(#[trigger] init[i]) implies is_done_line(
                #[trigger] init[j],
            ) by {
            assert(init[i] == ls[i] && init[j] == ls[j]);
        }
        lemma_sort_sorted(init);
        if is_done_line(ls.last()) {
            assert(sorted_output(ls) =~= sorted_output(init) + terminated(ls.last()));
        } else {
            assert forall|i: int| 0 <= i < init.len() implies is_done_line(#[trigger] init[i])
                != true by {
                assert(init[i] == ls[i]);
                if is_done_line(ls[i]) {
                    assert(is_done_line(ls[ls.len() - 1]));
                }
            }
            lemma_group_absent(init, true);
            assert(sorted_output(ls) =~= sorted_output(init) + terminated(ls.last()));
        }
    }
}

/// The lines that are not done, in order.
pub open spec fn pending_lines(ls: Seq<Seq<char>>) -> Seq<Seq<char>> {
    ls.filter(|l: Seq<char>| !is_done_line(l))
}

/// The lines that are done, in order.
pub open spec fn done_lines(ls: Seq<Seq<char>>) -> Seq<Seq<char>> {
    ls.filter(|l: Seq<char>| is_done_line(l))
}

/// Sorting keeps each group in its order: the lines not done come out in
/// the order they stood in, and then the done lines in theirs.
pub proof fn lemma_sort_groups(ls: Seq<Seq<char>>)
    ensures
        sorted_output(ls) == normalized(pending_lines(ls)) + normalized(done_lines(ls)),
{
    lemma_pending_group(ls);
    lemma_done_group(ls);
}

proof fn lemma_done_group(ls: Seq<Seq<char>>)
    ensures
        group_output(ls, true) == normalized(done_lines(ls)),
    decreases ls.len(),
{
    reveal(Seq::filter);
    if ls.len() > 0 {
        lemma_done_group(ls.drop_last());
        if is_done_line(ls.last()) {
            assert(done_lines(ls).drop_last() == done_lines(ls.drop_last()));
        }
    }
}

proof fn lemma_pending_group(ls: Seq<Seq<char>>)
    ensures
        group_output(ls, false) == normalized(pending_lines(ls)),
    decreases ls.len(),
{
    reveal(Seq::filter);
    if ls.len() > 0 {
        lemma_pending_group(ls.drop_last());
        if !is_done_line(ls.last()) {
            assert(pending_lines(ls).drop_last() == pending_lines(ls.drop_last()));
        }
    }
}

/// Removing by positions that name no line writes the file back unchanged,
/// up to line terminators.
pub proof fn lemma_remove_absent(ls: Seq<Seq<char>>, args: Seq<Seq<char>>)
    requires
        forall|p: nat| 1 <= p <= ls.len() ==> !#[trigger] position_named(args, p),
    ensures
        removed_output(ls, args) == normalized(ls),
    decreases ls.len(),
{
    if ls.len() > 0 {
        lemma_remove_absent(ls.drop_last(), args);
    }
}

/// Removing keeps the surviving lines in their order: the file written is
/// the lines at positions that no argument names, in order.
pub proof fn lemma_remove_keeps_order(ls: Seq<Seq<char>>, args: Seq<Seq<char>>)
    ensures
        removed_output(ls, args) == normalized(
            Seq::new(ls.len(), |i: int| i).filter(
                |i: int| !position_named(args, (i + 1) as nat),
            ).map_values(|i: int| ls[i]),
        ),
    decreases ls.len(),
{
    reveal(Seq::filter);
    if ls.len() > 0 {
        let init = ls.drop_last();
        lemma_remove_keeps_order(init, args);
        let n = ls.len() as int;
        let idx = Seq::new(ls.len(), |i: int| i);
        let keep = |i: int| !position_named(args, (i + 1) as nat);
        assert(idx.drop_last() =~= Seq::new(init.len(), |i: int| i));
        let kept = idx.filter(keep);
        let kept_init = Seq::new(init.len(), |i: int| i).filter(keep);
        assert forall|k: int| 0 <= k < kept_init.len() implies 0 <= #[trigger] kept_init[k] < init.len() by {
            let all = Seq::new(init.len(), |i: int| i);
            assert(kept_init.contains(kept_init[k]));
            all.lemma_filter_contains_rev(keep, kept_init[k]);
        }
        assert(kept_init.map_values(|i: int| ls[i]) =~= kept_init.map_values(|i: int| init[i]));
        if keep(n - 1) {
            assert(kept.drop_last() == kept_init);
            assert(kept.map_values(|i: int| ls[i]).drop_last() =~= kept_init.map_values(
                |i: int| ls[i],
            ));
        } else {
            assert(kept == kept_init);
        }
    }
}

/// Editing at an index that names no line writes the file back unchanged,
/// up to line terminators.
pub proof fn lemma_edit_absent(ls: Seq<Seq<char>>, index: Seq<char>, text: Seq<char>)
    requires
        forall|p: nat| 1 <= p <= ls.len() ==> index != #[trigger] decimal_of(p),
    ensures
        edit_output(ls, index, text) == normalized(ls),
    decreases ls.len(),
{
    if ls.len() > 0 {
        lemma_edit_absent(ls.drop_last(), index, text);
    }
}

/// A line as the task file can give it back: no line feed inside, no
/// carriage return at its end.
pub open spec fn is_plain_line(l: Seq<char>) -> bool {
    &&& forall|k: int| 0 <= k < l.len() ==> #[trigger] l[k] != '\n'
    &&& !(l.len() > 0 && l.last() == '\r')
}

proof fn lemma_normalized_front(ls: Seq<Seq<char>>)
    requires
        ls.len() > 0,
    ensures
        normalized(ls) == terminated(ls[0]) + normalized(ls.drop_first()),
    decreases ls.len(),
{
    if ls.len() == 1 {
        assert(ls.drop_last() =~= Seq::<Seq<char>>::empty());
        assert(ls.drop_first() =~= Seq::<Seq<char>>::empty());
        assert(normalized(ls.drop_last()) == Seq::<char>::empty());
        assert(normalized(ls) =~= terminated(ls[0]));
    } else {
        let init = ls.drop_last();
        lemma_normalized_front(init);
        assert(init.drop_first() =~= ls.drop_first().drop_last());
        assert(ls.drop_first().last() == ls.last());
        assert(normalized(ls) =~= terminated(ls[0]) + normalized(ls.drop_first()));
    }
}

proof fn lemma_normalized_append(a: Seq<Seq<char>>, b: Seq<Seq<char>>)
    ensures
        normalized(a + b) == normalized(a) + normalized(b),
    decreases b.len(),
{
    if b.len() == 0 {
        assert(a + b =~= a);
        assert(normalized(a) + normalized(b) =~= normalized(a));
    } else {
        lemma_normalized_append(a, b.drop_last());
        assert((a + b).drop_last() =~= a + b.drop_last());
        assert((a + b).last() == b.last());
        assert(normalized(a + b) =~= normalized(a) + normalized(b));
    }
}

/// Writing plain lines back and reading the file again gives the same lines.
pub proof fn lemma_reload(ls: Seq<Seq<char>>)
    requires
        forall|i: int| 0 <= i < ls.len() ==> is_plain_line(#[trigger] ls[i]),
    ensures
        lines_of(normalized(ls)) == ls,
    decreases ls.len(),
{
    if ls.len() > 0 {
        let l = ls[0];
        let rest = normalized(ls.drop_first());
        let s = normalized(ls);
        lemma_normalized_front(ls);
        assert(is_plain_line(l));
        assert(s == l + seq!['\n'] + rest);
        lemma_line_end_at(s, l.len() as int);
        assert(s.take(l.len() as int) =~= l);
        assert(s.skip((l.len() + 1) as int) =~= rest);
        assert(strip_cr(l) == l);
        lemma_reload(ls.drop_first());
        assert(lines_of(s) =~= seq![l] + ls.drop_first());
        assert(seq![l] + ls.drop_first() =~= ls);
    } else {
        assert(normalized(ls) =~= Seq::<char>::empty());
    }
}

/// Sorting is idempotent: sorting, reading the file again and sorting once
/// more writes the same text.
pub proof fn lemma_sort_idempotent(ls: Seq<Seq<char>>)
    requires
        forall|i: int| 0 <= i < ls.len() ==> is_plain_line(#[trigger] ls[i]),
    ensures
        sorted_output(lines_of(sorted_output(ls))) == sorted_output(ls),
{
    let p = pending_lines(ls);
    let d = done_lines(ls);
    let m = p + d;
    lemma_sort_groups(ls);
    lemma_normalized_append(p, d);
    broadcast use vstd::seq_lib::group_filter_ensures;
    assert(p == ls.filter(|l: Seq<char>| !is_done_line(l)));
    assert(d == ls.filter(|l: Seq<char>| is_done_line(l)));
    assert forall|i: int| 0 <= i < m.len() implies is_plain_line(#[trigger] m[i]) by {
        if i < p.len() {
            assert(p.contains(p[i]));
            ls.lemma_filter_contains_rev(|l: Seq<char>| !is_done_line(l), p[i]);
            assert(m[i] == p[i]);
        } else {
            assert(d.contains(d[i - p.len()]));
            ls.lemma_filter_contains_rev(|l: Seq<char>| is_done_line(l), d[i - p.len()]);
            assert(m[i] == d[i - p.len()]);
        }
    }
    lemma_reload(m);
    assert forall|i: int, j: int|
        0 <= i < j < m.len() && is_done_line(#[trigger] m[i]) implies is_done_line(
            #[trigger] m[j],
        ) by {
        if i < p.len() {
            assert(!is_done_line(p[i]));
        }
        assert(j >= p.len());
        assert(m[j] == d[j - p.len()]);
    }
    lemma_sort_sorted(m);
}

/// Marking the same lines done twice, reading the file again in between,
/// gives every named line back its done flag and leaves the other lines as
/// they were.
pub proof fn lemma_done_twice(ls: Seq<Seq<char>>, args: Seq<Seq<char>>)
    requires
        forall|i: int| 0 <= i < ls.len() ==> is_plain_line(#[trigger] ls[i]),
        forall|i: int|
            0 <= i < ls.len() && position_named(args, (i + 1) as nat) ==> (#[trigger] ls[i]).len()
                >= 4 && toggled(ls[i]).len() >= 4,
    ensures
        ({
            let again = lines_of(done_output(lines_of(done_output(ls, args)), args));
            &&& again.len() == ls.len()
            &&& forall|i: int|
                0 <= i < ls.len() ==> if position_named(args, (i + 1) as nat) {
                    is_done_line(#[trigger] again[i]) == is_done_line(ls[i])
                } else {
                    again[i] == ls[i]
                }
        }),
{
    let once = Seq::new(
        ls.len(),
        |i: int|
            if position_named(args, (i + 1) as nat) {
                toggled(ls[i])
            } else {
                ls[i]
            },
    );
    lemma_done_output_lines(ls, args);
    assert forall|i: int| 0 <= i < once.len() implies is_plain_line(#[trigger] once[i]) by {
        if position_named(args, (i + 1) as nat) {
            let l = ls[i];
            let t = toggled(l);
            assert(is_plain_line(l));
            assert forall|k: int| 0 <= k < t.len() implies #[trigger] t[k] != '\n' by {
                if is_done_line(l) {
                    if k >= 3 {
                        assert(t[k] == l[k + 1]);
                    }
                } else {
                    if k >= 4 {
                        assert(t[k] == l[k]);
                    }
                }
            }
            if l.len() > 4 {
                assert(t.last() == l.last());
            }
        }
    }
    lemma_reload(once);
    let twice = Seq::new(
        once.len(),
        |i: int|
            if position_named(args, (i + 1) as nat) {
                toggled(once[i])
            } else {
                once[i]
            },
    );
    lemma_done_output_lines(once, args);
    assert forall|i: int| 0 <= i < twice.len() implies is_plain_line(#[trigger] twice[i]) by {
        if position_named(args, (i + 1) as nat) {
            let l = once[i];
            let t = toggled(l);
            assert(is_plain_line(l));
            assert forall|k: int| 0 <= k < t.len() implies #[trigger] t[k] != '\n' by {
                if is_done_line(l) {
                    if k >= 3 {
                        assert(t[k] == l[k + 1]);
                    }
                } else {
                    if k >= 4 {
                        assert(t[k] == l[k]);
                    }
                }
            }
            if t.len() > 0 {
                if l.len() > 4 {
                    assert(t.last() == l.last());
                }
            }
        }
    }
    lemma_reload(twice);
    assert forall|i: int| 0 <= i < ls.len() && position_named(args, (i + 1) as nat) implies
        is_done_line(#[trigger] twice[i]) == is_done_line(ls[i]) by {
        lemma_toggle_twice(ls[i]);
    }
}

} // verus!
