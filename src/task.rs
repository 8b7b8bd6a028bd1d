use vstd::prelude::*;
use crate::text::{chars_of, has_newline, is_ws, push_all, slice_of, string_of};
use crate::reference::{trim, trim_chars, lemma_trim_ends, lemma_trim_noop};

verus! {

/// A single checkbox item.
#[derive(Debug, PartialEq)]
pub struct Task {
    pub text: String,
    pub done: bool,
    pub done_date: Option<String>,
}

/// What a task holds, as plain sequences.
pub struct TaskView {
    pub text: Seq<char>,
    pub done: bool,
    pub done_date: Option<Seq<char>>,
}

pub open spec fn opt_view(o: Option<String>) -> Option<Seq<char>> {
    match o {
        Some(s) => Some(s@),
        None => None,
    }
}

impl View for Task {
    type V = TaskView;

    open spec fn view(&self) -> TaskView {
        TaskView { text: self.text@, done: self.done, done_date: opt_view(self.done_date) }
    }
}

pub open spec fn checkmark() -> char {
    '\u{2705}'
}

pub open spec fn is_digit(c: char) -> bool {
    '0' <= c && c <= '9'
}

/// Four digits, a dash, two digits, a dash, two digits.
pub open spec fn is_date(s: Seq<char>) -> bool {
    &&& s.len() == 10
    &&& is_digit(s[0]) && is_digit(s[1]) && is_digit(s[2]) && is_digit(s[3])
    &&& s[4] == '-'
    &&& is_digit(s[5]) && is_digit(s[6])
    &&& s[7] == '-'
    &&& is_digit(s[8]) && is_digit(s[9])
}

/// `s` ends with a space, the checkmark, a space and a date.
pub open spec fn ends_with_date(s: Seq<char>) -> bool {
    &&& s.len() >= 13
    &&& s[s.len() - 13] == ' '
    &&& s[s.len() - 12] == checkmark()
    &&& s[s.len() - 11] == ' '
    &&& is_date(s.subrange(s.len() - 10, s.len() as int))
}

pub open spec fn box_prefix(done: bool) -> Seq<char> {
    seq!['-', ' ', '[', if done { 'x' } else { ' ' }, ']', ' ']
}

pub open spec fn date_marker(d: Seq<char>) -> Seq<char> {
    seq![' ', checkmark(), ' '] + d
}

/// The line that stands for a task.
pub open spec fn encode(t: TaskView) -> Seq<char> {
    box_prefix(t.done) + t.text + match t.done_date {
        Some(d) => date_marker(d),
        None => Seq::<char>::empty(),
    }
}

/// `line` has the shape `- [ ] rest` or `- [x] rest`, with a non-empty `rest` free of newlines.
pub open spec fn is_task_line(line: Seq<char>) -> bool {
    &&& line.len() >= 7
    &&& line[0] == '-' && line[1] == ' ' && line[2] == '['
    &&& (line[3] == ' ' || line[3] == 'x')
    &&& line[4] == ']' && line[5] == ' '
    &&& !has_newline(line.skip(6))
}

/// The task that a line stands for once leading and trailing whitespace is
/// dropped, if it is then a task line.
pub open spec fn decode(line: Seq<char>) -> Option<TaskView> {
    decode_bare(trim(line))
}

/// The task that an already trimmed line stands for, if it is a task line.
pub open spec fn decode_bare(line: Seq<char>) -> Option<TaskView> {
    if is_task_line(line) {
        let rest = line.skip(6);
        let done = line[3] == 'x';
        if ends_with_date(rest) {
            Some(
                TaskView {
                    text: rest.take(rest.len() - 13),
                    done,
                    done_date: Some(rest.skip(rest.len() - 10)),
                },
            )
        } else {
            Some(TaskView { text: rest, done, done_date: None })
        }
    } else {
        None
    }
}

/// A task that its line gives back unchanged: no newline in it, a well-formed
/// date, and, without a date, a non-empty text that neither ends in whitespace
/// nor itself ends like a date marker.
pub open spec fn round_trips(t: TaskView) -> bool {
    &&& !has_newline(t.text)
    &&& match t.done_date {
        Some(d) => is_date(d),
        None => t.text.len() > 0 && !ends_with_date(t.text) && !is_ws(t.text.last()),
    }
}

/// Decoding the line of a task whose text is free of newlines and does not end
/// like a date marker gives the task back.
pub proof fn lemma_decode_encode(t: TaskView)
    requires
        round_trips(t),
    ensures
        decode_bare(encode(t)) == Some(t),
        decode(encode(t)) == Some(t),
        !is_ws(encode(t).last()),
{
    let line = encode(t);
    let rest = line.skip(6);
    match t.done_date {
        Some(d) => {
            assert(line.last() == d[9]);
        },
        None => {
            assert(line.last() == t.text.last());
        },
    }
    lemma_trim_noop(line);
    match t.done_date {
        Some(d) => {
            assert(rest =~= t.text + date_marker(d));
            assert(rest.skip(rest.len() - 10) =~= d);
            assert(rest.take(rest.len() - 13) =~= t.text);
            assert(rest.subrange(rest.len() - 10, rest.len() as int) =~= d);
            assert forall|i: int| 0 <= i < rest.len() implies rest[i] != '\n' by {
                if i < t.text.len() {
                    assert(rest[i] == t.text[i]);
                } else if i >= t.text.len() + 3 {
                    assert(rest[i] == d[i - t.text.len() - 3]);
                }
            }
        },
        None => {
            assert(rest =~= t.text);
        },
    }
}

/// A trimmed line that decodes is the line of the task it decodes to.
proof fn lemma_encode_decode_bare(line: Seq<char>)
    requires
        decode_bare(line) is Some,
        !is_ws(line.last()),
    ensures
        encode(decode_bare(line).unwrap()) == line,
        round_trips(decode_bare(line).unwrap()),
{
    let rest = line.skip(6);
    let t = decode_bare(line).unwrap();
    assert(line.take(6) =~= box_prefix(t.done));
    if ends_with_date(rest) {
        assert(rest =~= t.text + date_marker(rest.skip(rest.len() - 10)));
        assert(rest.skip(rest.len() - 10) =~= rest.subrange(rest.len() - 10, rest.len() as int));
        assert(line =~= box_prefix(t.done) + rest);
        assert forall|i: int| 0 <= i < t.text.len() implies t.text[i] != '\n' by {
            assert(t.text[i] == rest[i]);
        }
    } else {
        assert(line =~= box_prefix(t.done) + rest);
        assert(encode(t) =~= box_prefix(t.done) + rest);
        assert(rest.last() == line.last());
    }
}

/// A line that decodes gives, trimmed, the line of the task it decodes to.
pub proof fn lemma_encode_decode(line: Seq<char>)
    requires
        decode(line) is Some,
    ensures
        encode(decode(line).unwrap()) == trim(line),
        round_trips(decode(line).unwrap()),
{
    lemma_trim_ends(line);
    lemma_encode_decode_bare(trim(line));
}

impl Task {
    /// A task with the same text, state and date.
    pub fn duplicate(&self) -> (r: Task)
        ensures
            r@ == self@,
    {
        let done_date = match &self.done_date {
            Some(d) => Some(d.clone()),
            None => None,
        };
        Task { text: self.text.clone(), done: self.done, done_date }
    }

    /// The characters of the line that stands for the task.
    pub fn line_chars(&self) -> (r: Vec<char>)
        ensures
            r@ == encode(self@),
    {
        let mut r: Vec<char> = Vec::new();
        r.push('-');
        r.push(' ');
        r.push('[');
        r.push(if self.done { 'x' } else { ' ' });
        r.push(']');
        r.push(' ');
        proof {
            assert(r@ =~= box_prefix(self.done));
        }
        let text = chars_of(self.text.as_str());
        push_all(&mut r, &text);
        match &self.done_date {
            Some(d) => {
                let mut m: Vec<char> = Vec::new();
                m.push(' ');
                m.push('\u{2705}');
                m.push(' ');
                let dc = chars_of(d.as_str());
                push_all(&mut m, &dc);
                proof {
                    assert(m@ =~= date_marker(d@));
                }
                push_all(&mut r, &m);
            },
            None => {
                proof {
                    assert(r@ =~= encode(self@));
                }
            },
        }
        r
    }

    /// The markdown line of the task: `- [ ] text` or `- [x] text`, then
    /// ` ✅ date` where a completion date is set.
    pub fn to_markdown(&self) -> (r: String)
        ensures
            r@ == encode(self@),
    {
        let v = self.line_chars();
        string_of(&v)
    }

    /// The task that `line`, without leading and trailing whitespace, stands
    /// for, or `None` where it is then no task line.
    pub fn from_chars(line: &Vec<char>) -> (r: Option<Task>)
        ensures
            match r {
                Some(t) => decode(line@) == Some(t@),
                None => decode(line@) is None,
            },
    {
        let t = trim_chars(line);
        Task::from_bare(&t)
    }

    fn from_bare(line: &Vec<char>) -> (r: Option<Task>)
        ensures
            match r {
                Some(t) => decode_bare(line@) == Some(t@),
                None => decode_bare(line@) is None,
            },
    {
        let n = line.len();
        if n < 7 || line[0] != '-' || line[1] != ' ' || line[2] != '[' || (line[3] != ' ' && line[3]
            != 'x') || line[4] != ']' || line[5] != ' ' {
            return None;
        }
        let mut i: usize = 6;
        while i < n
            invariant
                6 <= i <= n,
                n == line.len(),
                forall|j: int| 6 <= j < i ==> line@[j] != '\n',
            decreases n - i,
        {
            if line[i] == '\n' {
                proof {
                    assert(line@.skip(6)[i - 6] == '\n');
                }
                return None;
            }
            i = i + 1;
        }
        proof {
            assert forall|j: int| 0 <= j < line@.skip(6).len() implies line@.skip(6)[j] != '\n' by {
                assert(line@.skip(6)[j] == line@[j + 6]);
            }
        }
        let done = line[3] == 'x';
        let rest = slice_of(line, 6, n);
        proof {
            assert(rest@ =~= line@.skip(6));
        }
        let m = rest.len();
        let dated = m >= 13 && rest[m - 13] == ' ' && rest[m - 12] == '\u{2705}' && rest[m - 11]
            == ' ' && is_digit_char(rest[m - 10]) && is_digit_char(rest[m - 9]) && is_digit_char(
            rest[m - 8],
        ) && is_digit_char(rest[m - 7]) && rest[m - 6] == '-' && is_digit_char(rest[m - 5])
            && is_digit_char(rest[m - 4]) && rest[m - 3] == '-' && is_digit_char(rest[m - 2])
            && is_digit_char(rest[m - 1]);
        proof {
            if m >= 13 {
                let d = rest@.subrange(m - 10, m as int);
                assert(d[0] == rest@[m - 10]);
                assert(d[1] == rest@[m - 9]);
                assert(d[2] == rest@[m - 8]);
                assert(d[3] == rest@[m - 7]);
                assert(d[4] == rest@[m - 6]);
                assert(d[5] == rest@[m - 5]);
                assert(d[6] == rest@[m - 4]);
                assert(d[7] == rest@[m - 3]);
                assert(d[8] == rest@[m - 2]);
                assert(d[9] == rest@[m - 1]);
            }
            assert(dated == ends_with_date(rest@));
        }
        if dated {
            let t = slice_of(&rest, 0, m - 13);
            let d = slice_of(&rest, m - 10, m);
            proof {
                assert(t@ =~= rest@.take(m - 13));
                assert(d@ =~= rest@.skip(m - 10));
            }
            Some(Task { text: string_of(&t), done, done_date: Some(string_of(&d)) })
        } else {
            Some(Task { text: string_of(&rest), done, done_date: None })
        }
    }

    /// The task that the markdown `line` stands for once trimmed, or `None`
    /// where it is no task line.
    pub fn from_line(line: &str) -> (r: Option<Task>)
        ensures
            match r {
                Some(t) => decode(line@) == Some(t@),
                None => decode(line@) is None,
            },
    {
        let v = chars_of(line);
        Task::from_chars(&v)
    }
}

pub fn is_digit_char(c: char) -> (r: bool)
    ensures
        r == is_digit(c),
{
    '0' <= c && c <= '9'
}

} // verus!
