//! The text of the queue file and of the history file.
//!
//! Both files hold one task per line. This module says what text a list of
//! tasks is written as and what list of tasks a text is read as; opening,
//! reading and writing the files is left to the caller.

use vstd::prelude::*;
use crate::text::{chars_of, string_of, text_of};

verus! {

/// A line can be written and read back unchanged if it holds no line feed
/// and does not end in a carriage return.
pub open spec fn line_safe(line: Seq<char>) -> bool {
    &&& !line.contains('\n')
    &&& (line.len() == 0 || line.last() != '\r')
}

/// The index of the first line feed in `text`, or its length if it has none.
pub open spec fn first_newline(text: Seq<char>) -> int
    decreases text.len(),
{
    if text.len() == 0 || text[0] == '\n' {
        0
    } else {
        1 + first_newline(text.skip(1))
    }
}

/// A line without the carriage return that ends it, if one does.
pub open spec fn strip_cr(line: Seq<char>) -> Seq<char> {
    if line.len() > 0 && line.last() == '\r' {
        line.drop_last()
    } else {
        line
    }
}

/// The lines of a text. A line ends with a line feed, or with a carriage
/// return and a line feed; neither belongs to the line. What follows the
/// last line feed is a line too, unless it is empty.
pub open spec fn lines_of(text: Seq<char>) -> Seq<Seq<char>>
    decreases text.len(),
{
    if text.len() == 0 {
        Seq::empty()
    } else {
        let n = first_newline(text);
        if 0 <= n < text.len() {
            seq![strip_cr(text.take(n))] + lines_of(text.skip(n + 1))
        } else {
            seq![text]
        }
    }
}

/// The text of a list of lines: each line followed by a line feed.
pub open spec fn content_of(lines: Seq<Seq<char>>) -> Seq<char>
    decreases lines.len(),
{
    if lines.len() == 0 {
        Seq::empty()
    } else {
        lines[0] + seq!['\n'] + content_of(lines.drop_first())
    }
}

/// A text with one more line at its end.
pub open spec fn appended(text: Seq<char>, line: Seq<char>) -> Seq<char> {
    text + line + seq!['\n']
}

/// Where `text` has no line feed before `n`, and ends or has a line feed at
/// `n`, its first line feed is at `n`.
pub proof fn lemma_first_newline(text: Seq<char>, n: int)
    requires
        0 <= n <= text.len(),
        forall|k: int| 0 <= k < n ==> text[k] != '\n',
        n == text.len() || text[n] == '\n',
    ensures
        first_newline(text) == n,
    decreases n,
{
    if n > 0 {
        lemma_first_newline(text.skip(1), n - 1);
    }
}

/// Writing one more line at the end of a list adds it to the end of the text.
pub proof fn lemma_content_push(lines: Seq<Seq<char>>, line: Seq<char>)
    ensures
        content_of(lines.push(line)) == appended(content_of(lines), line),
    decreases lines.len(),
{
    if lines.len() == 0 {
        let one = lines.push(line);
        assert(one.drop_first() =~= Seq::<Seq<char>>::empty());
        assert(content_of(one.drop_first()).len() == 0);
        assert(content_of(lines).len() == 0);
        assert(one[0] == line);
        assert(content_of(one) == one[0] + seq!['\n'] + content_of(one.drop_first()));
        assert(content_of(one) =~= appended(content_of(lines), line));
    } else {
        lemma_content_push(lines.drop_first(), line);
        assert(lines.push(line).drop_first() =~= lines.drop_first().push(line));
        assert(content_of(lines.push(line)) =~= appended(content_of(lines), line));
    }
}

/// Reads a text as its lines.
pub fn read(content: &str) -> (tasks: Vec<String>)
    ensures
        text_of(tasks@) == lines_of(content@),
{
    let chars = chars_of(content);
    let mut tasks: Vec<String> = Vec::new();
    let mut start: usize = 0;
    let mut i: usize = 0;
    proof {
        assert(chars@.skip(0) =~= chars@);
        assert(text_of(tasks@) + lines_of(chars@) =~= lines_of(chars@));
    }
    while i < chars.len()
        invariant
            chars@ == content@,
            start <= i <= chars.len(),
            forall|k: int| start <= k < i ==> chars@[k] != '\n',
            lines_of(chars@) == text_of(tasks@) + lines_of(chars@.skip(start as int)),
        decreases chars.len() - i,
    {
        if chars[i] == '\n' {
            let end: usize = if i > start && chars[i - 1] == '\r' {
                i - 1
            } else {
                i
            };
            let line = string_of(&chars, start, end);
            proof {
                let rest = chars@.skip(start as int);
                lemma_first_newline(rest, i - start);
                assert(rest.take(i - start) =~= chars@.subrange(start as int, i as int));
                assert(strip_cr(rest.take(i - start)) =~= line@);
                assert(rest.skip(i - start + 1) =~= chars@.skip(i + 1));
                assert(text_of(tasks@.push(line)) =~= text_of(tasks@) + seq![line@]);
            }
            tasks.push(line);
            start = i + 1;
        }
        i += 1;
    }
    if start < chars.len() {
        let line = string_of(&chars, start, chars.len());
        proof {
            let rest = chars@.skip(start as int);
            lemma_first_newline(rest, rest.len() as int);
            assert(rest =~= line@);
            assert(text_of(tasks@.push(line)) =~= text_of(tasks@) + seq![line@]);
        }
        tasks.push(line);
    } else {
        assert(text_of(tasks@) + Seq::<Seq<char>>::empty() =~= text_of(tasks@));
    }
    tasks
}

/// The text that a queue file holds for `tasks`: empty for no tasks, else
/// each task followed by a line feed.
pub fn write(tasks: &[String]) -> (content: String)
    ensures
        content@ == content_of(text_of(tasks@)),
        tasks@.len() == 0 ==> content@.len() == 0,
{
    let mut content = String::new();
    let mut i: usize = 0;
    while i < tasks.len()
        invariant
            i <= tasks.len(),
            content@ == content_of(text_of(tasks@.take(i as int))),
        decreases tasks.len() - i,
    {
        proof {
            lemma_content_push(text_of(tasks@.take(i as int)), tasks@[i as int]@);
            assert(text_of(tasks@.take(i + 1)) =~= text_of(tasks@.take(i as int)).push(
                tasks@[i as int]@,
            ));
        }
        append(&mut content, tasks[i].as_str());
        i += 1;
    }
    assert(tasks@.take(tasks@.len() as int) =~= tasks@);
    content
}

/// Adds one line to the end of a text: the line, then a line feed. What the
/// text held before stays in front of it.
pub fn append(content: &mut String, line: &str)
    ensures
        final(content)@ == appended(old(content)@, line@),
{
    content.append(line);
    content.push('\n');
}

/// Written and read back, a list of lines that are safe comes out as it
/// went in, in the same order; the empty list is written as the empty text.
pub proof fn law_write_then_read(lines: Seq<Seq<char>>)
    requires
        forall|i: int| 0 <= i < lines.len() ==> line_safe(#[trigger] lines[i]),
    ensures
        lines_of(content_of(lines)) == lines,
        lines.len() == 0 ==> content_of(lines).len() == 0,
    decreases lines.len(),
{
    if lines.len() > 0 {
        let head = lines[0];
        let rest = lines.drop_first();
        let text = content_of(lines);
        assert(line_safe(head));
        assert forall|i: int| 0 <= i < rest.len() implies line_safe(#[trigger] rest[i]) by {
            assert(rest[i] == lines[i + 1]);
        }
        law_write_then_read(rest);
        assert forall|k: int| 0 <= k < head.len() implies text[k] != '\n' by {
            assert(text[k] == head[k]);
            assert(head.contains(head[k]));
        }
        assert(text[head.len() as int] == '\n');
        lemma_first_newline(text, head.len() as int);
        assert(text.take(head.len() as int) =~= head);
        assert(text.skip(head.len() as int + 1) =~= content_of(rest));
        assert(lines_of(text) =~= seq![head] + rest);
        assert(seq![head] + rest =~= lines);
    }
}

/// Appending is additive: the text before an append is the front of the text
/// after it, and two appends to a text of safe lines add both lines to its
/// end, in the order of the calls.
pub proof fn law_append_is_additive(text: Seq<char>, lines: Seq<Seq<char>>, a: Seq<char>, b: Seq<char>)
    requires
        forall|i: int| 0 <= i < lines.len() ==> line_safe(#[trigger] lines[i]),
        line_safe(a),
        line_safe(b),
    ensures
        appended(text, a).take(text.len() as int) == text,
        appended(appended(text, a), b) == text + a + seq!['\n'] + b + seq!['\n'],
        lines_of(appended(appended(content_of(lines), a), b)) == lines.push(a).push(b),
{
    assert(appended(text, a).take(text.len() as int) =~= text);
    lemma_content_push(lines, a);
    lemma_content_push(lines.push(a), b);
    let all = lines.push(a).push(b);
    assert forall|i: int| 0 <= i < all.len() implies line_safe(#[trigger] all[i]) by {
        if i < lines.len() {
            assert(all[i] == lines[i]);
        }
    }
    law_write_then_read(all);
}

} // verus!
