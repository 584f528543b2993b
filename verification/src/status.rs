//! The status table: the pool's state as text, one row for each slot and a
//! row of totals.

use vstd::prelude::*;
use crate::thread_pool::{total_failures, total_successes, SlotView, ThreadPool, WorkerSlot};

verus! {

/// How many characters of a task a row shows.
pub const TASK_WIDTH: usize = 48;

/// The character of a decimal digit.
pub open spec fn digit(d: nat) -> char {
    if d == 0 {
        '0'
    } else if d == 1 {
        '1'
    } else if d == 2 {
        '2'
    } else if d == 3 {
        '3'
    } else if d == 4 {
        '4'
    } else if d == 5 {
        '5'
    } else if d == 6 {
        '6'
    } else if d == 7 {
        '7'
    } else if d == 8 {
        '8'
    } else {
        '9'
    }
}

/// A number in decimal, without leading zeros.
pub open spec fn decimal(n: nat) -> Seq<char>
    decreases n,
{
    if n < 10 {
        seq![digit(n)]
    } else {
        decimal(n / 10).push(digit(n % 10))
    }
}

/// `count` spaces.
pub open spec fn spaces(count: nat) -> Seq<char> {
    Seq::new(count, |i: int| ' ')
}

/// A text moved to the right end of a field of `width` characters; a text
/// that is longer than the field stays as it is.
pub open spec fn pad_left(text: Seq<char>, width: nat) -> Seq<char> {
    if text.len() >= width {
        text
    } else {
        spaces((width - text.len()) as nat) + text
    }
}

/// A task cut to the width that a row shows.
pub open spec fn clipped(task: Seq<char>) -> Seq<char> {
    if task.len() <= TASK_WIDTH {
        task
    } else {
        task.take(TASK_WIDTH as int)
    }
}

/// The first line of the table.
pub open spec fn header() -> Seq<char> {
    "[THREAD STATUS SUCCESS FAILURE] CMD\n"@
}

/// The row of slot `index`: its name, whether it is active, its successes
/// and failures, and its task. The row of a fresh slot is coloured.
pub open spec fn row(index: nat, s: SlotView) -> Seq<char> {
    (if s.fresh {
        "\x1b[34m"@
    } else {
        Seq::empty()
    }) + "["@ + pad_left("T"@ + decimal(index), 6) + " "@ + (if s.running {
        "Active"@
    } else {
        " Idle "@
    }) + " "@ + pad_left(decimal(s.successes), 7) + pad_left(decimal(s.failures), 8)
        + "] "@ + clipped(s.task) + (if s.fresh {
        "\x1b[0m"@
    } else {
        Seq::empty()
    }) + "\n"@
}

/// The rows of all slots, in the order of their indices.
pub open spec fn rows(slots: Seq<SlotView>) -> Seq<char>
    decreases slots.len(),
{
    if slots.len() == 0 {
        Seq::empty()
    } else {
        rows(slots.drop_last()) + row((slots.len() - 1) as nat, slots.last())
    }
}

/// How many slots are fresh.
pub open spec fn fresh_count(slots: Seq<SlotView>) -> nat
    decreases slots.len(),
{
    if slots.len() == 0 {
        0
    } else {
        fresh_count(slots.drop_last()) + if slots.last().fresh {
            1nat
        } else {
            0nat
        }
    }
}

/// The last line of the table: the number of fresh slots and the totals.
pub open spec fn footer(slots: Seq<SlotView>) -> Seq<char> {
    "["@ + pad_left(decimal(fresh_count(slots)), 6) + " "@ + "      "@ + " "@ + pad_left(
        decimal(total_successes(slots)),
        7,
    ) + pad_left(decimal(total_failures(slots)), 8) + "]\n"@
}

/// The whole table.
pub open spec fn table(slots: Seq<SlotView>) -> Seq<char> {
    header() + rows(slots) + footer(slots)
}

/// The control sequence that moves the cursor up over a table of
/// `slot_count` rows, its header and its footer.
pub open spec fn rewind_of(slot_count: nat) -> Seq<char> {
    "\x1b["@ + decimal(slot_count + 2) + "A"@
}

fn digit_char(d: u8) -> (c: char)
    requires
        d < 10,
    ensures
        c == digit(d as nat),
{
    match d {
        0 => '0',
        1 => '1',
        2 => '2',
        3 => '3',
        4 => '4',
        5 => '5',
        6 => '6',
        7 => '7',
        8 => '8',
        _ => '9',
    }
}

fn push_decimal(out: &mut String, n: u128)
    ensures
        final(out)@ == old(out)@ + decimal(n as nat),
    decreases n,
{
    if n >= 10 {
        push_decimal(out, n / 10);
    }
    out.push(digit_char((n % 10) as u8));
    assert(out@ =~= old(out)@ + decimal(n as nat));
}

fn push_padded(out: &mut String, text: &str, width: usize)
    ensures
        final(out)@ == old(out)@ + pad_left(text@, width as nat),
{
    let len = text.unicode_len();
    let mut field = String::new();
    if len < width {
        let missing: usize = width - len;
        let mut pad: usize = 0;
        assert(field@ =~= spaces(0));
        while pad < missing
            invariant
                pad <= missing,
                field@ == spaces(pad as nat),
            decreases missing - pad,
        {
            field.push(' ');
            assert(spaces(pad as nat).push(' ') =~= spaces((pad + 1) as nat));
            pad += 1;
        }
        field.append(text);
    } else {
        field.append(text);
        assert(field@ =~= text@);
    }
    out.append(field.as_str());
}

fn push_number(out: &mut String, n: u128, width: usize)
    ensures
        final(out)@ == old(out)@ + pad_left(decimal(n as nat), width as nat),
{
    let mut number = String::new();
    push_decimal(&mut number, n);
    assert(number@ =~= decimal(n as nat));
    push_padded(out, number.as_str(), width);
}

fn row_text(index: usize, slot: &WorkerSlot) -> (line: String)
    ensures
        line@ == row(index as nat, slot@),
{
    let mut line = String::new();
    if slot.fresh {
        line.append("\x1b[34m");
        assert(line@ =~= "\x1b[34m"@);
    }
    line.append("[");
    let mut label = String::from_str("T");
    push_decimal(&mut label, index as u128);
    push_padded(&mut line, label.as_str(), 6);
    line.append(" ");
    if slot.running {
        line.append("Active");
    } else {
        line.append(" Idle ");
    }
    line.append(" ");
    push_number(&mut line, slot.successes as u128, 7);
    push_number(&mut line, slot.failures as u128, 8);
    line.append("] ");
    let length = slot.task.as_str().unicode_len();
    let shown: usize = if length <= TASK_WIDTH {
        length
    } else {
        TASK_WIDTH
    };
    let task = slot.task.as_str().substring_char(0, shown);
    assert(task@ =~= clipped(slot@.task));
    line.append(task);
    if slot.fresh {
        line.append("\x1b[0m");
    } else {
        assert(line@ + Seq::<char>::empty() =~= line@);
    }
    line.append("\n");
    line
}

fn footer_text(fresh: usize, successes: u128, failures: u128) -> (line: String)
    ensures
        line@ == "["@ + pad_left(decimal(fresh as nat), 6) + " "@ + "      "@ + " "@ + pad_left(
            decimal(successes as nat),
            7,
        ) + pad_left(decimal(failures as nat), 8) + "]\n"@,
{
    let mut line = String::from_str("[");
    push_number(&mut line, fresh as u128, 6);
    line.append(" ");
    line.append("      ");
    line.append(" ");
    push_number(&mut line, successes, 7);
    push_number(&mut line, failures, 8);
    line.append("]\n");
    line
}

impl ThreadPool {
    /// The status table of the pool.
    pub fn render(&self) -> (text: String)
        ensures
            text@ == table(self@),
    {
        let mut out = String::from_str("[THREAD STATUS SUCCESS FAILURE] CMD\n");
        let n = self.capacity();
        let mut fresh: usize = 0;
        let mut successes: u128 = 0;
        let mut failures: u128 = 0;
        let mut i: usize = 0;
        assert(self@.take(0) =~= Seq::<SlotView>::empty());
        assert(out@ =~= header() + rows(self@.take(0)));
        while i < n
            invariant
                i <= n,
                n == self@.len(),
                out@ == header() + rows(self@.take(i as int)),
                fresh == fresh_count(self@.take(i as int)),
                fresh <= i,
                successes == total_successes(self@.take(i as int)),
                failures == total_failures(self@.take(i as int)),
                successes <= i * 0xFFFF_FFFF_FFFF_FFFF,
                failures <= i * 0xFFFF_FFFF_FFFF_FFFF,
            decreases n - i,
        {
            let slot = self.slot(i);
            proof {
                assert(self@.take(i + 1).drop_last() =~= self@.take(i as int));
                assert(self@.take(i + 1).last() == slot@);
                assert((i + 1) * 0xFFFF_FFFF_FFFF_FFFF == i * 0xFFFF_FFFF_FFFF_FFFF
                    + 0xFFFF_FFFF_FFFF_FFFF) by (nonlinear_arith);
                assert(i * 0xFFFF_FFFF_FFFF_FFFF <= 0xFFFF_FFFF_FFFF_FFFF * 0xFFFF_FFFF_FFFF_FFFF)
                    by (nonlinear_arith)
                    requires
                        0 <= i <= 0xFFFF_FFFF_FFFF_FFFF,
                ;
            }
            let line = row_text(i, slot);
            out.append(line.as_str());
            if slot.fresh {
                fresh = fresh + 1;
            }
            successes = successes + slot.successes as u128;
            failures = failures + slot.failures as u128;
            assert(out@ =~= header() + rows(self@.take(i + 1)));
            i += 1;
        }
        assert(self@.take(n as int) =~= self@);
        let last = footer_text(fresh, successes, failures);
        out.append(last.as_str());
        out
    }

    /// The control sequence that moves the cursor back to the top of the
    /// table, so that the next table is written over this one.
    pub fn rewind(&self) -> (text: String)
        ensures
            text@ == rewind_of(self@.len()),
    {
        let mut out = String::from_str("\x1b[");
        push_decimal(&mut out, self.capacity() as u128 + 2);
        out.append("A");
        out
    }
}

} // verus!
