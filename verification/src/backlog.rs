//! Names around the backlog: which files of a watched directory are
//! backlogs, what the lock marker of a queue file is called, and what the
//! history file is called.

use vstd::prelude::*;
use crate::text::chars_of;

verus! {

/// The ending of a backlog file's name.
pub open spec fn backlog_suffix() -> Seq<char> {
    seq!['.', 'b', 'l']
}

/// A file name is that of a backlog if it ends in `.bl` and has at least one
/// character before that.
pub open spec fn is_backlog(name: Seq<char>) -> bool {
    &&& name.len() > 3
    &&& name.subrange(name.len() - 3, name.len() as int) == backlog_suffix()
}

/// Whether `i` is the lowest index of a backlog's name in `names`.
pub open spec fn is_first_backlog(names: Seq<String>, i: int) -> bool {
    &&& 0 <= i < names.len()
    &&& is_backlog(names[i]@)
    &&& forall|j: int| 0 <= j < i ==> !is_backlog(#[trigger] names[j]@)
}

/// The name of the lock marker of a queue file: a dot, the file's name, and
/// `.swp`.
pub open spec fn lock_marker_of(name: Seq<char>) -> Seq<char> {
    "."@ + name + ".swp"@
}

/// Whether a file name is that of a backlog.
pub fn is_backlog_name(name: &str) -> (yes: bool)
    ensures
        yes == is_backlog(name@),
{
    let chars = chars_of(name);
    let n = chars.len();
    if n <= 3 {
        return false;
    }
    let yes = chars[n - 3] == '.' && chars[n - 2] == 'b' && chars[n - 1] == 'l';
    proof {
        let tail = name@.subrange(n - 3, n as int);
        if yes {
            assert(tail =~= backlog_suffix());
        } else {
            assert(tail[0] == chars@[n - 3] && tail[1] == chars@[n - 2] && tail[2] == chars@[n - 1]);
            assert(backlog_suffix()[0] == '.' && backlog_suffix()[1] == 'b' && backlog_suffix()[2]
                == 'l');
        }
    }
    yes
}

/// The first backlog among the file names of a directory, in the order in
/// which the directory listed them.
pub fn first_backlog(names: &Vec<String>) -> (found: Option<usize>)
    ensures
        match found {
            Some(i) => is_first_backlog(names@, i as int),
            None => forall|j: int| 0 <= j < names.len() ==> !is_backlog(#[trigger] names[j]@),
        },
{
    let mut i: usize = 0;
    while i < names.len()
        invariant
            i <= names.len(),
            forall|j: int| 0 <= j < i ==> !is_backlog(#[trigger] names[j]@),
        decreases names.len() - i,
    {
        if is_backlog_name(names[i].as_str()) {
            return Some(i);
        }
        i += 1;
    }
    None
}

/// The name of the lock marker that an editor leaves beside the queue file
/// `name`.
pub fn lock_marker_name(name: &str) -> (marker: String)
    ensures
        marker@ == lock_marker_of(name@),
{
    let mut marker = String::from_str(".");
    marker.append(name);
    marker.append(".swp");
    marker
}

/// The name of the history file.
pub fn history_file_name() -> (name: String)
    ensures
        name@ == "qrun_history.log"@,
{
    String::from_str("qrun_history.log")
}

} // verus!
