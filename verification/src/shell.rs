//! The line editor of the interactive shell, without its terminal: a buffer
//! with a cursor, a history of entered lines, and what each key does to
//! them.

use crate::text::string_of;
use vstd::prelude::*;

verus! {

/// The state of the prompt.
#[derive(Debug, Clone, PartialEq, Eq)]
pub struct Shell {
    /// The text shown before the input.
    pub prompt: String,
    /// The lines that were entered, oldest first.
    pub history: Vec<Vec<char>>,
    /// How many lines of the history were run.
    pub executed: usize,
    /// The line being edited.
    pub buffer: Vec<char>,
    /// Where in the buffer the next character goes.
    pub cursor: usize,
    /// The width of the terminal when the prompt was last drawn.
    pub last_width: u16,
    /// How many rows the cursor is below the first row of the prompt.
    pub prompt_to_cursor: u16,
    /// Whether the prompt must be drawn again.
    pub update: bool,
}

/// The modifier keys held with a key, as far as the editor tells them
/// apart.
#[derive(Debug, Clone, Copy, PartialEq, Eq)]
pub enum Modifiers {
    Plain,
    Shift,
    Control,
    Other,
}

/// The keys that the editor knows.
#[derive(Debug, Clone, Copy, PartialEq, Eq)]
pub enum KeyCode {
    Char(char),
    Left,
    Right,
    Backspace,
    Delete,
    Enter,
    Home,
    End,
    Other,
}

/// One key press.
#[derive(Debug, Clone, Copy, PartialEq, Eq)]
pub struct KeyEvent {
    pub modifiers: Modifiers,
    pub code: KeyCode,
}

/// What is left for the caller to do after a key was handled.
#[derive(Debug, Clone, Copy, PartialEq, Eq)]
pub enum KeyOutcome {
    /// Nothing.
    Handled,
    /// Leave the shell with this status.
    Exit(i32),
    /// Clear the whole screen and put the cursor in its corner.
    ClearScreen,
}

/// The lines of a history as sequences of characters.
pub open spec fn lines(history: Seq<Vec<char>>) -> Seq<Seq<char>> {
    history.map_values(|line: Vec<char>| line@)
}

impl Shell {
    /// The cursor is in the buffer or just behind it, and no more lines
    /// were run than entered.
    pub open spec fn wf(&self) -> bool {
        self.cursor <= self.buffer.len() && self.executed <= self.history.len()
    }

    /// The buffer ends in a backslash: the line is to go on, which the
    /// editor cannot do.
    pub open spec fn continues(&self) -> bool {
        self.buffer.len() > 0 && self.buffer@.last() == '\\'
    }

    /// A fresh prompt for a terminal of the given width.
    pub fn new(width: u16) -> (r: Shell)
        ensures
            r.wf(),
            r.prompt@ == "> "@,
            r.history@.len() == 0,
            r.executed == 0,
            r.buffer@.len() == 0,
            r.cursor == 0,
            r.last_width == width,
            r.prompt_to_cursor == 0,
            !r.update,
    {
        Shell {
            prompt: "> ".to_string(),
            history: Vec::new(),
            executed: 0,
            buffer: Vec::new(),
            cursor: 0,
            last_width: width,
            prompt_to_cursor: 0,
            update: false,
        }
    }
}

/// What a key does to the prompt.
pub enum Edit {
    /// Put the character in at the cursor.
    Input(char),
    /// Empty the buffer.
    Erase,
    /// Leave the shell.
    Exit,
    /// Clear the screen.
    Clear,
    /// Move the cursor by so many places.
    Shift(int),
    /// Delete the character so many places from the cursor.
    Remove(int),
    /// Enter the line.
    Enter,
    /// Put the cursor at the beginning of the line.
    Home,
    /// Put the cursor at the end of the line.
    End,
    /// Nothing.
    Nothing,
}

/// The two prompts agree in all that editing the line leaves alone.
pub open spec fn same_frame(a: &Shell, b: &Shell) -> bool {
    &&& a.prompt == b.prompt
    &&& a.executed == b.executed
    &&& a.last_width == b.last_width
    &&& a.prompt_to_cursor == b.prompt_to_cursor
}

/// The cursor was put at `pos`, and the prompt is drawn again if that
/// moved it.
pub open spec fn cursor_set(before: &Shell, after: &Shell, pos: int) -> bool {
    &&& after.cursor == pos
    &&& after.update == (before.update || pos != before.cursor)
    &&& after.buffer == before.buffer
    &&& after.history == before.history
    &&& same_frame(after, before)
}

/// Where the cursor lands when moved by `delta`, if that is in the buffer
/// or just behind it.
pub open spec fn shifted(shell: &Shell, delta: int) -> Option<int> {
    let pos = shell.cursor + delta;
    if 0 <= pos <= shell.buffer.len() {
        Some(pos)
    } else {
        None
    }
}

/// The character `delta` places from the cursor, if there is one there.
pub open spec fn deletable(shell: &Shell, delta: int) -> Option<int> {
    let pos = shell.cursor + delta;
    if 0 <= pos < shell.buffer.len() {
        Some(pos)
    } else {
        None
    }
}

/// What an edit makes of the prompt.
pub open spec fn applies(edit: Edit, before: &Shell, after: &Shell) -> bool {
    match edit {
        Edit::Input(c) => {
            &&& after.buffer@ == before.buffer@.insert(before.cursor as int, c)
            &&& after.cursor == before.cursor + 1
            &&& after.update
            &&& after.history == before.history
            &&& same_frame(after, before)
        },
        Edit::Erase => {
            &&& after.buffer@.len() == 0
            &&& after.cursor == 0
            &&& after.update
            &&& after.history == before.history
            &&& same_frame(after, before)
        },
        Edit::Clear => {
            &&& after.prompt_to_cursor == 0
            &&& after.update
            &&& after.buffer == before.buffer
            &&& after.cursor == before.cursor
            &&& after.history == before.history
            &&& after.executed == before.executed
            &&& after.prompt == before.prompt
            &&& after.last_width == before.last_width
        },
        Edit::Shift(delta) => {
            &&& after.buffer == before.buffer
            &&& after.history == before.history
            &&& same_frame(after, before)
            &&& match shifted(before, delta) {
                Some(pos) => after.cursor == pos && after.update,
                None => after.cursor == before.cursor && after.update == before.update,
            }
        },
        Edit::Remove(delta) => {
            &&& after.history == before.history
            &&& same_frame(after, before)
            &&& match deletable(before, delta) {
                Some(pos) => {
                    &&& after.buffer@ == before.buffer@.remove(pos)
                    &&& after.cursor == pos
                    &&& after.update
                },
                None => {
                    &&& after.buffer@ == before.buffer@
                    &&& after.cursor == before.cursor
                    &&& after.update == before.update
                },
            }
        },
        Edit::Enter => {
            &&& lines(after.history@) == lines(before.history@).push(before.buffer@)
            &&& after.buffer@.len() == 0
            &&& after.cursor == 0
            &&& after.update
            &&& same_frame(after, before)
        },
        Edit::Home => cursor_set(before, after, 0),
        Edit::End => cursor_set(before, after, before.buffer.len() as int),
        Edit::Exit => *after == *before,
        Edit::Nothing => *after == *before,
    }
}

/// Puts the cursor at `pos`. The prompt is drawn again only if that moved
/// it.
pub fn prompt_set_cursor(shell: &mut Shell, pos: usize)
    ensures
        cursor_set(old(shell), final(shell), pos as int),
{
    if pos != shell.cursor {
        shell.cursor = pos;
        shell.update = true;
    }
}

/// The position `cursor + delta`, where that is no less than 0 and fits.
fn offset(cursor: usize, delta: isize) -> (r: Option<usize>)
    ensures
        match r {
            Some(pos) => pos == cursor + delta,
            None => cursor + delta < 0 || cursor + delta > usize::MAX,
        },
{
    if delta >= 0 {
        cursor.checked_add(delta as usize)
    } else {
        let back: usize = ((-(delta + 1)) as usize) + 1;
        cursor.checked_sub(back)
    }
}

/// Moves the cursor by `delta`, unless that would take it out of the
/// buffer.
pub fn prompt_shift_cursor(shell: &mut Shell, delta: isize)
    ensures
        applies(Edit::Shift(delta as int), old(shell), final(shell)),
{
    match offset(shell.cursor, delta) {
        Some(pos) => {
            if pos <= shell.buffer.len() {
                shell.cursor = pos;
                shell.update = true;
            }
        },
        None => {},
    }
}

/// Puts the character into the buffer at the cursor and moves the cursor
/// behind it.
pub fn prompt_input(shell: &mut Shell, c: char)
    requires
        old(shell).cursor <= old(shell).buffer.len(),
    ensures
        applies(Edit::Input(c), old(shell), final(shell)),
{
    shell.buffer.insert(shell.cursor, c);
    assert(shell.buffer.len() == old(shell).buffer.len() + 1);
    shell.cursor = shell.cursor + 1;
    shell.update = true;
}

/// Deletes the character `delta` places from the cursor and leaves the
/// cursor where that character was: `-1` is the character before the
/// cursor, `0` the one under it. Without a character there nothing
/// happens.
pub fn prompt_delete(shell: &mut Shell, delta: isize)
    ensures
        applies(Edit::Remove(delta as int), old(shell), final(shell)),
{
    match offset(shell.cursor, delta) {
        Some(pos) => {
            if pos < shell.buffer.len() {
                shell.buffer.remove(pos);
                shell.cursor = pos;
                shell.update = true;
            }
        },
        None => {},
    }
}

/// Empties the buffer.
pub fn prompt_erase(shell: &mut Shell)
    ensures
        applies(Edit::Erase, old(shell), final(shell)),
{
    shell.buffer.clear();
    shell.cursor = 0;
    shell.update = true;
}

/// Enters the line: the buffer goes to the end of the history and is
/// emptied. A line that ends in a backslash cannot be entered.
pub fn prompt_enter(shell: &mut Shell)
    requires
        !old(shell).continues(),
    ensures
        applies(Edit::Enter, old(shell), final(shell)),
        final(shell).history.len() == old(shell).history.len() + 1,
{
    let ghost before = lines(shell.history@);
    let line = shell.buffer.clone();
    shell.history.push(line);
    assert(lines(shell.history@) =~= before.push(old(shell).buffer@));
    shell.buffer.clear();
    shell.cursor = 0;
    shell.update = true;
}

/// Notes that the screen was cleared: the cursor is on the first row of the
/// prompt, which must be drawn again.
pub fn prompt_clear(shell: &mut Shell)
    ensures
        applies(Edit::Clear, old(shell), final(shell)),
{
    shell.prompt_to_cursor = 0;
    shell.update = true;
}

/// What the key does: a character typed plainly or with shift goes into
/// the buffer; with control, `c` erases the line, `d` leaves the shell and
/// `l` clears the screen; the arrows, backspace, delete and enter act only
/// without modifiers; home and end act with any.
pub open spec fn edit_of(key: KeyEvent) -> Edit {
    match (key.modifiers, key.code) {
        (Modifiers::Plain, KeyCode::Char(c)) => Edit::Input(c),
        (Modifiers::Shift, KeyCode::Char(c)) => Edit::Input(c),
        (Modifiers::Control, KeyCode::Char(c)) => if c == 'c' {
            Edit::Erase
        } else if c == 'd' {
            Edit::Exit
        } else if c == 'l' {
            Edit::Clear
        } else {
            Edit::Nothing
        },
        (Modifiers::Plain, KeyCode::Left) => Edit::Shift(-1),
        (Modifiers::Plain, KeyCode::Right) => Edit::Shift(1),
        (Modifiers::Plain, KeyCode::Backspace) => Edit::Remove(-1),
        (Modifiers::Plain, KeyCode::Delete) => Edit::Remove(0),
        (Modifiers::Plain, KeyCode::Enter) => Edit::Enter,
        (_, KeyCode::Home) => Edit::Home,
        (_, KeyCode::End) => Edit::End,
        _ => Edit::Nothing,
    }
}

/// What is left for the caller to do after an edit.
pub open spec fn outcome_of(edit: Edit) -> KeyOutcome {
    match edit {
        Edit::Exit => KeyOutcome::Exit(0),
        Edit::Clear => KeyOutcome::ClearScreen,
        _ => KeyOutcome::Handled,
    }
}

/// Applies one key press to the prompt, and says what is left to do.
pub fn handle_key_event(key: KeyEvent, shell: &mut Shell) -> (r: KeyOutcome)
    requires
        old(shell).wf(),
        edit_of(key) is Enter ==> !old(shell).continues(),
    ensures
        final(shell).wf(),
        applies(edit_of(key), old(shell), final(shell)),
        r == outcome_of(edit_of(key)),
{
    match (key.modifiers, key.code) {
        (Modifiers::Plain, KeyCode::Char(c)) => {
            prompt_input(shell, c);
        },
        (Modifiers::Shift, KeyCode::Char(c)) => {
            prompt_input(shell, c);
        },
        (Modifiers::Control, KeyCode::Char(c)) => {
            if c == 'c' {
                prompt_erase(shell);
            } else if c == 'd' {
                return KeyOutcome::Exit(0);
            } else if c == 'l' {
                prompt_clear(shell);
                return KeyOutcome::ClearScreen;
            }
        },
        (Modifiers::Plain, KeyCode::Left) => {
            prompt_shift_cursor(shell, -1);
        },
        (Modifiers::Plain, KeyCode::Right) => {
            prompt_shift_cursor(shell, 1);
        },
        (Modifiers::Plain, KeyCode::Backspace) => {
            prompt_delete(shell, -1);
        },
        (Modifiers::Plain, KeyCode::Delete) => {
            prompt_delete(shell, 0);
        },
        (Modifiers::Plain, KeyCode::Enter) => {
            prompt_enter(shell);
        },
        (_, KeyCode::Home) => {
            prompt_set_cursor(shell, 0);
        },
        (_, KeyCode::End) => {
            let end: usize = shell.buffer.len();
            prompt_set_cursor(shell, end);
        },
        _ => {},
    }
    KeyOutcome::Handled
}

/// Takes the oldest line of the history that was not run yet, if there is
/// one, and counts it as run.
pub fn invoke_prompt(shell: &mut Shell) -> (r: Option<String>)
    requires
        old(shell).wf(),
    ensures
        final(shell).wf(),
        final(shell).history == old(shell).history,
        final(shell).buffer == old(shell).buffer,
        final(shell).cursor == old(shell).cursor,
        final(shell).update == old(shell).update,
        match r {
            Some(command) => {
                &&& old(shell).executed < old(shell).history.len()
                &&& command@ == old(shell).history@[old(shell).executed as int]@
                &&& final(shell).executed == old(shell).executed + 1
            },
            None => {
                &&& old(shell).executed == old(shell).history.len()
                &&& final(shell).executed == old(shell).executed
            },
        },
{
    if shell.executed < shell.history.len() {
        let command = string_of(&shell.history[shell.executed]);
        shell.executed = shell.executed + 1;
        Some(command)
    } else {
        None
    }
}

/// The column and row of the cursor after `n` characters of input, in a
/// terminal `width` columns wide: the prompt takes two columns, and the
/// cursor wraps to the next row after the last column.
pub open spec fn cell(n: nat, width: int) -> (int, int)
    decreases n,
{
    if n == 0 {
        (2, 0)
    } else {
        let (col, row) = cell((n - 1) as nat, width);
        if col == width - 1 {
            (0, row + 1)
        } else {
            (col + 1, row)
        }
    }
}

/// How many characters lie before the cursor.
pub open spec fn typed_before(buffer: Seq<char>, cursor: int) -> nat {
    if cursor < buffer.len() {
        if cursor < 0 {
            0
        } else {
            cursor as nat
        }
    } else {
        buffer.len()
    }
}

/// The text of the prompt line: the prompt, the buffer, and a blank for
/// the cursor to stand on when it is behind the last character.
pub open spec fn formatted(buffer: Seq<char>, cursor: int) -> Seq<char> {
    "> "@ + buffer + if cursor == buffer.len() {
        seq![' ']
    } else {
        Seq::<char>::empty()
    }
}

/// The cursor never gets further than the characters typed allow.
pub proof fn lemma_cell_bounds(n: nat, width: int)
    ensures
        0 <= cell(n, width).0 <= n + 2,
        0 <= cell(n, width).1 <= n,
    decreases n,
{
    if n > 0 {
        lemma_cell_bounds((n - 1) as nat, width);
    }
}

/// Lays out the prompt line: its text, and the column and row of the
/// cursor counted from where the prompt begins.
pub fn format_buffer(buffer: &Vec<char>, cursor: usize, width: u16) -> (r: (String, u16, u16))
    requires
        width > 0,
        typed_before(buffer@, cursor as int) + 2 <= u16::MAX,
    ensures
        r.0@ == formatted(buffer@, cursor as int),
        (r.1 as int, r.2 as int) == cell(typed_before(buffer@, cursor as int), width as int),
{
    let mut col: u16 = 2;
    let mut row: u16 = 0;
    let mut text: Vec<char> = Vec::new();
    text.push('>');
    text.push(' ');
    proof {
        reveal_strlit("> ");
        assert(text@ =~= "> "@ + buffer@.take(0));
    }
    let mut i: usize = 0;
    while i < buffer.len()
        invariant
            i <= buffer.len(),
            width > 0,
            typed_before(buffer@, cursor as int) + 2 <= u16::MAX,
            text@ == "> "@ + buffer@.take(i as int),
            (col as int, row as int) == cell(
                typed_before(buffer@.take(i as int), cursor as int),
                width as int,
            ),
        decreases buffer.len() - i,
    {
        text.push(buffer[i]);
        assert(buffer@.take(i + 1) =~= buffer@.take(i as int).push(buffer@[i as int]));
        assert(text@ =~= "> "@ + buffer@.take(i + 1));
        if i < cursor {
            proof {
                assert(typed_before(buffer@.take(i as int), cursor as int) == i);
                assert(typed_before(buffer@.take(i + 1), cursor as int) == i + 1);
                lemma_cell_bounds(i as nat, width as int);
                lemma_cell_bounds((i + 1) as nat, width as int);
                assert(i + 1 <= typed_before(buffer@, cursor as int));
            }
            if col == width - 1 {
                row = row + 1;
                col = 0;
            } else {
                col = col + 1;
            }
        } else {
            assert(typed_before(buffer@.take(i as int), cursor as int) == typed_before(
                buffer@.take(i + 1),
                cursor as int,
            ));
        }
        i += 1;
    }
    assert(buffer@.take(buffer.len() as int) =~= buffer@);
    if cursor == buffer.len() {
        text.push(' ');
        assert(text@ =~= formatted(buffer@, cursor as int));
    } else {
        assert(text@ =~= formatted(buffer@, cursor as int));
    }
    (string_of(&text), col, row)
}

/// What to draw: the text of the prompt line, how many rows above the
/// cursor it begins, and where the cursor goes, counted from where the
/// prompt begins.
#[derive(Debug, Clone, PartialEq, Eq)]
pub struct Frame {
    pub text: String,
    pub rows_up: u16,
    pub col: u16,
    pub row: u16,
}

/// The line that the prompt shows: the oldest entered line that was not
/// run yet, with the cursor behind it, or else the buffer.
pub open spec fn shown_line(shell: &Shell) -> (Seq<char>, int) {
    if shell.executed < shell.history.len() {
        (
            shell.history@[shell.executed as int]@,
            shell.history@[shell.executed as int]@.len() as int,
        )
    } else {
        (shell.buffer@, shell.cursor as int)
    }
}

/// Lays out the prompt for a terminal of the given width, and notes that
/// it was drawn.
pub fn display_buffer(shell: &mut Shell, width: u16) -> (r: Frame)
    requires
        width > 0,
        typed_before(shown_line(old(shell)).0, shown_line(old(shell)).1) + 2 <= u16::MAX,
    ensures
        r.text@ == formatted(shown_line(old(shell)).0, shown_line(old(shell)).1),
        (r.col as int, r.row as int) == cell(
            typed_before(shown_line(old(shell)).0, shown_line(old(shell)).1),
            width as int,
        ),
        r.rows_up == old(shell).prompt_to_cursor,
        final(shell).prompt_to_cursor == r.row,
        final(shell).last_width == width,
        !final(shell).update,
        final(shell).buffer == old(shell).buffer,
        final(shell).cursor == old(shell).cursor,
        final(shell).history == old(shell).history,
        final(shell).executed == old(shell).executed,
        final(shell).prompt == old(shell).prompt,
{
    let rows_up: u16 = shell.prompt_to_cursor;
    let (text, col, row) = if shell.executed < shell.history.len() {
        let line: &Vec<char> = &shell.history[shell.executed];
        format_buffer(line, line.len(), width)
    } else {
        format_buffer(&shell.buffer, shell.cursor, width)
    };
    shell.prompt_to_cursor = row;
    shell.last_width = width;
    shell.update = false;
    Frame { text, rows_up, col, row }
}

} // verus!
