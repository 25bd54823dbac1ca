//! The text form of one task: a line of four fields separated by `|`, which
//! are the identifier in decimal, the title, the description and the status
//! word. Nothing is escaped, so a title or description that holds `|` or a
//! line feed does not survive being written and read back.

use crate::task::{Task, TaskStatus, TaskView};
use crate::text::{
    decimal, find_char, is_digit, is_free_of, lemma_decimal, lemma_lines_of_concat,
    lemma_lines_of_one, lemma_split_on_first, lemma_split_on_from, lemma_split_on_nonempty,
    lemma_split_on_one, lines_of, parse_u32, parsed_u32, push_decimal, split_on, string_of,
    strip_cr,
};
use vstd::prelude::*;
use vstd::slice::slice_subrange;

verus! {

/// The character between the fields of a line.
pub const FIELD_SEPARATOR: char = '|';

/// The status that a field names, if it is one of the three status words.
pub open spec fn parsed_status(field: Seq<char>) -> Option<TaskStatus> {
    if field == TaskStatus::Pending.token() {
        Some(TaskStatus::Pending)
    } else if field == TaskStatus::Completed.token() {
        Some(TaskStatus::Completed)
    } else if field == TaskStatus::Deleted.token() {
        Some(TaskStatus::Deleted)
    } else {
        None
    }
}

/// The task that a line holds, if it is well formed: exactly four fields, of
/// which the first is a number and the last a status word.
pub open spec fn parsed_line(line: Seq<char>) -> Option<TaskView> {
    let fields = split_on(line, FIELD_SEPARATOR);
    if fields.len() == 4 {
        match (parsed_u32(fields[0]), parsed_status(fields[3])) {
            (Some(id), Some(status)) => Some(
                TaskView { id, title: fields[1], description: fields[2], status },
            ),
            _ => None,
        }
    } else {
        None
    }
}

/// The line that stands for a task, without a line ending.
pub open spec fn line_of(task: TaskView) -> Seq<char> {
    decimal(task.id as nat) + seq![FIELD_SEPARATOR] + task.title + seq![FIELD_SEPARATOR]
        + task.description + seq![FIELD_SEPARATOR] + task.status.token()
}

/// The line that stands for a task, with its line feed.
pub open spec fn rendered_line(task: TaskView) -> Seq<char> {
    line_of(task) + seq!['\n']
}

/// Whether a text can stand in a field as it is: it holds neither the field
/// separator nor a line feed.
pub open spec fn is_plain(text: Seq<char>) -> bool {
    is_free_of(text, FIELD_SEPARATOR) && is_free_of(text, '\n')
}

/// Whether both texts of a task can stand in a field as they are.
pub open spec fn has_plain_texts(task: TaskView) -> bool {
    is_plain(task.title) && is_plain(task.description)
}

/// The lines of the given tasks, one after the other.
pub open spec fn rendered(tasks: Seq<TaskView>) -> Seq<char>
    decreases tasks.len(),
{
    if tasks.len() == 0 {
        Seq::empty()
    } else {
        rendered(tasks.drop_last()) + rendered_line(tasks.last())
    }
}

/// Whether the characters are exactly those of `word`.
fn is_word(chars: &[char], word: &str) -> (same: bool)
    ensures
        same == (chars@ == word@),
{
    let mut i: usize = 0;
    for c in it: word.chars()
        invariant
            it.seq() == word@,
            i == it.index(),
            i <= chars.len(),
            chars@.take(i as int) == word@.take(i as int),
    {
        if i >= chars.len() || chars[i] != c {
            assert(chars@ != word@) by {
                if i < chars.len() {
                    assert(chars@[i as int] != word@[i as int]);
                }
            }
            return false;
        }
        assert(chars@.take(i + 1) =~= chars@.take(i as int).push(chars@[i as int]));
        assert(word@.take(i + 1) =~= word@.take(i as int).push(word@[i as int]));
        i += 1;
    }
    assert(word@.take(i as int) =~= word@);
    if i == chars.len() {
        assert(chars@.take(i as int) =~= chars@);
    }
    i == chars.len()
}

/// Reads a status word.
pub fn parse_status(field: &[char]) -> (status: Option<TaskStatus>)
    ensures
        status == parsed_status(field@),
{
    if is_word(field, TaskStatus::Pending.as_str()) {
        Some(TaskStatus::Pending)
    } else if is_word(field, TaskStatus::Completed.as_str()) {
        Some(TaskStatus::Completed)
    } else if is_word(field, TaskStatus::Deleted.as_str()) {
        Some(TaskStatus::Deleted)
    } else {
        None
    }
}

/// Reads one line, without its line ending. A line that is not well formed
/// gives `None`.
pub fn parse_line(line: &[char]) -> (task: Option<Task>)
    ensures
        match task {
            Some(t) => parsed_line(line@) == Some(t@),
            None => parsed_line(line@) is None,
        },
{
    let n = line.len();
    let ghost fields = split_on(line@, FIELD_SEPARATOR);
    assert(line@.skip(0) =~= line@);
    let id_end = find_char(line, 0, FIELD_SEPARATOR);
    proof {
        lemma_split_on_from(line@, FIELD_SEPARATOR, 0, id_end as int);
    }
    if id_end == n {
        return None;
    }
    let title_end = find_char(line, id_end + 1, FIELD_SEPARATOR);
    proof {
        lemma_split_on_from(line@, FIELD_SEPARATOR, id_end + 1, title_end as int);
    }
    if title_end == n {
        return None;
    }
    let description_end = find_char(line, title_end + 1, FIELD_SEPARATOR);
    proof {
        lemma_split_on_from(line@, FIELD_SEPARATOR, title_end + 1, description_end as int);
    }
    if description_end == n {
        return None;
    }
    let status_end = find_char(line, description_end + 1, FIELD_SEPARATOR);
    proof {
        lemma_split_on_from(line@, FIELD_SEPARATOR, description_end + 1, status_end as int);
        if status_end < n {
            lemma_split_on_nonempty(line@.skip(status_end + 1), FIELD_SEPARATOR);
        }
    }
    if status_end != n {
        return None;
    }
    assert(fields.len() == 4);
    assert(fields[0] == line@.subrange(0, id_end as int));
    assert(fields[1] == line@.subrange(id_end + 1, title_end as int));
    assert(fields[2] == line@.subrange(title_end + 1, description_end as int));
    assert(fields[3] =~= line@.subrange(description_end + 1, n as int));
    let id = match parse_u32(slice_subrange(line, 0, id_end)) {
        Some(id) => id,
        None => {
            return None;
        },
    };
    let status = match parse_status(slice_subrange(line, description_end + 1, n)) {
        Some(status) => status,
        None => {
            return None;
        },
    };
    let title = string_of(slice_subrange(line, id_end + 1, title_end));
    let description = string_of(slice_subrange(line, title_end + 1, description_end));
    let mut task = Task::new(id, title, description);
    match status {
        TaskStatus::Pending => {},
        TaskStatus::Completed => task.mark_completed(),
        TaskStatus::Deleted => task.mark_deleted(),
    }
    Some(task)
}

/// Appends the line that stands for `task`, with its line feed.
pub fn push_line(out: &mut String, task: &Task)
    ensures
        final(out)@ == old(out)@ + rendered_line(task@),
{
    push_decimal(out, task.id());
    out.push(FIELD_SEPARATOR);
    out.append(task.title());
    out.push(FIELD_SEPARATOR);
    out.append(task.description());
    out.push(FIELD_SEPARATOR);
    out.append(task.status().as_str());
    out.push('\n');
    assert(out@ =~= old(out)@ + rendered_line(task@));
}

/// Each status word can stand in a field as it is, does not end in a
/// carriage return, and names its own status and no other.
pub proof fn lemma_status_words(status: TaskStatus)
    ensures
        is_plain(status.token()),
        status.token().len() > 0,
        status.token().last() != '\r',
        parsed_status(status.token()) == Some(status),
{
    reveal_strlit("Pending");
    reveal_strlit("Completed");
    reveal_strlit("Deleted");
    assert("Pending"@[0] != "Deleted"@[0]);
}

/// The line of a task whose texts are plain reads back as that task, holds
/// no line feed, and does not end in a carriage return.
pub proof fn lemma_line_reads_back(task: TaskView)
    requires
        has_plain_texts(task),
    ensures
        parsed_line(line_of(task)) == Some(task),
        is_free_of(line_of(task), '\n'),
        strip_cr(line_of(task)) == line_of(task),
{
    let number = decimal(task.id as nat);
    let word = task.status.token();
    let sep = seq![FIELD_SEPARATOR];
    lemma_decimal(task.id as nat);
    lemma_status_words(task.status);
    assert(is_plain(number)) by {
        assert forall|i: int| 0 <= i < number.len() implies number[i] != FIELD_SEPARATOR
            && number[i] != '\n' by {
            assert(is_digit(number[i]));
        }
    }
    let after_description = word;
    let after_title = task.description + sep + after_description;
    let after_number = task.title + sep + after_title;
    assert(line_of(task) =~= number + sep + after_number);
    lemma_split_on_first(number, after_number, FIELD_SEPARATOR);
    lemma_split_on_first(task.title, after_title, FIELD_SEPARATOR);
    lemma_split_on_first(task.description, after_description, FIELD_SEPARATOR);
    lemma_split_on_one(word, FIELD_SEPARATOR);
    let fields = split_on(line_of(task), FIELD_SEPARATOR);
    assert(fields =~= seq![number, task.title, task.description, word]);
    assert(parsed_u32(number) == Some(task.id)) by {
        assert(is_digit(number[0]));
    }
    assert(line_of(task).last() == word.last());
}

/// The text of tasks whose texts are plain has one line for each task, in
/// order, and is empty or ends with a line feed.
pub proof fn lemma_lines_of_rendered(tasks: Seq<TaskView>)
    requires
        forall|i: int| 0 <= i < tasks.len() ==> has_plain_texts(#[trigger] tasks[i]),
    ensures
        lines_of(rendered(tasks)) == tasks.map_values(|task: TaskView| line_of(task)),
        rendered(tasks).len() == 0 || rendered(tasks).last() == '\n',
    decreases tasks.len(),
{
    let lines = tasks.map_values(|task: TaskView| line_of(task));
    if tasks.len() == 0 {
        assert(lines_of(rendered(tasks)) =~= lines);
    } else {
        let init = tasks.drop_last();
        let last = tasks.last();
        assert forall|i: int| 0 <= i < init.len() implies has_plain_texts(#[trigger] init[i]) by {
            assert(init[i] == tasks[i]);
        }
        lemma_lines_of_rendered(init);
        lemma_line_reads_back(last);
        lemma_lines_of_one(line_of(last));
        lemma_lines_of_concat(rendered(init), rendered_line(last));
        assert(lines_of(rendered(tasks)) =~= lines);
    }
}

} // verus!
