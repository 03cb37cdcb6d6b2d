use vstd::prelude::*;

use crate::chars::blank;
use crate::chars::chars_of;
use crate::chars::is_blank;
use crate::chars::push_char;
use crate::chars::string_of;
use crate::codec::decode_line;
use crate::codec::decode_line_spec;
use crate::codec::encode_line;
use crate::codec::encode_line_spec;
use crate::codec::split_on;
use crate::codec::split_sep;
use crate::codec::sub_chars;
use crate::codec::views_of;
use crate::provider::fresh_id;
use crate::provider::id_char;
use crate::provider::now_timestamp;
use crate::sort::sort_desc;
use crate::sort::sort_tasks;
use crate::sort::task_views;
use crate::task::Task;
use crate::task::TaskView;
use crate::timestamp::Timestamp;

verus! {

// ---------------------------------------------------------------------------
// The file's shape.
// ---------------------------------------------------------------------------

/// The fixed header line naming the three fields.
pub open spec fn header_text() -> Seq<char> {
    "id,created_at,task_description"@
}

/// What one `record` call appends: the header first if the file did not
/// exist yet, then the record's line, each terminated by a newline.
pub open spec fn record_text_spec(file_exists: bool, t: TaskView) -> Seq<char> {
    if file_exists {
        encode_line_spec(t) + seq!['\n']
    } else {
        header_text() + seq!['\n'] + encode_line_spec(t) + seq!['\n']
    }
}

/// The data lines of the given records, in write order.
pub open spec fn body_text(tasks: Seq<TaskView>) -> Seq<char>
    decreases tasks.len(),
{
    if tasks.len() == 0 {
        Seq::empty()
    } else {
        encode_line_spec(tasks[0]) + seq!['\n'] + body_text(tasks.drop_first())
    }
}

/// The whole file after the given records were written to a fresh location.
pub open spec fn store_text(tasks: Seq<TaskView>) -> Seq<char> {
    header_text() + seq!['\n'] + body_text(tasks)
}

// ---------------------------------------------------------------------------
// Splitting a file into its lines, the way the reader does: line feeds end
// lines, one carriage return before a line feed is dropped, and a final
// line terminator is optional.
// ---------------------------------------------------------------------------

pub open spec fn strip_cr(s: Seq<char>) -> Seq<char> {
    if s.len() > 0 && s.last() == '\r' {
        s.drop_last()
    } else {
        s
    }
}

pub open spec fn lines_of(s: Seq<char>) -> Seq<Seq<char>> {
    let p = split_on(s, '\n');
    if p.last().len() == 0 {
        p.drop_last().map_values(|l: Seq<char>| strip_cr(l))
    } else {
        p.drop_last().map_values(|l: Seq<char>| strip_cr(l)).push(p.last())
    }
}

fn strip_cr_x(v: &Vec<char>) -> (r: Vec<char>)
    ensures
        r@ == strip_cr(v@),
{
    if v.len() > 0 && v[v.len() - 1] == '\r' {
        let r = sub_chars(v, 0, v.len() - 1);
        proof {
            assert(v@.subrange(0, v@.len() - 1) =~= v@.drop_last());
        }
        r
    } else {
        let r = sub_chars(v, 0, v.len());
        proof {
            assert(v@.subrange(0, v@.len() as int) =~= v@);
        }
        r
    }
}

/// Split a file into its lines.
pub fn split_lines(v: &Vec<char>) -> (lines: Vec<Vec<char>>)
    ensures
        views_of(lines@) == lines_of(v@),
{
    let mut parts = split_sep(v, '\n');
    let ghost p = views_of(parts@);
    let last = match parts.pop() {
        Some(l) => l,
        None => Vec::new(),
    };
    proof {
        assert(p.len() >= 1);
        assert(views_of(parts@) =~= p.drop_last());
        assert(parts@.len() == p.len() - 1);
        assert(last@ == p.last());
    }
    let mut out: Vec<Vec<char>> = Vec::new();
    let mut k: usize = 0;
    proof {
        assert(views_of(out@) =~= p.drop_last().map_values(|l: Seq<char>| strip_cr(l)).take(0));
    }
    while k < parts.len()
        invariant
            k <= parts@.len(),
            p.len() >= 1,
            parts@.len() == p.len() - 1,
            out@.len() == k,
            views_of(parts@) == p.drop_last(),
            views_of(out@) == p.drop_last().map_values(|l: Seq<char>| strip_cr(l)).take(k as int),
        decreases parts@.len() - k,
    {
        let stripped = strip_cr_x(&parts[k]);
        let ghost out0 = out@;
        out.push(stripped);
        proof {
            let m = p.drop_last().map_values(|l: Seq<char>| strip_cr(l));
            assert(views_of(parts@)[k as int] == parts@[k as int]@);
            assert(m[k as int] == strip_cr(p.drop_last()[k as int]));
            assert(out@ == out0.push(stripped));
            assert(views_of(out@) =~= views_of(out0).push(stripped@));
            assert(views_of(out@) =~= m.take(k + 1));
        }
        k = k + 1;
    }
    proof {
        let m = p.drop_last().map_values(|l: Seq<char>| strip_cr(l));
        assert(m.take(m.len() as int) =~= m);
    }
    if last.len() > 0 {
        out.push(last);
        proof {
            assert(views_of(out@) =~= views_of(out@.drop_last()).push(last@));
        }
    }
    out
}

// ---------------------------------------------------------------------------
// Reading the whole log back.
// ---------------------------------------------------------------------------

/// The records the data rows denote, in file order: blank rows and short
/// rows contribute nothing.
pub open spec fn decode_rows(rows: Seq<Seq<char>>, fallback: Timestamp) -> Seq<TaskView>
    decreases rows.len(),
{
    if rows.len() == 0 {
        Seq::empty()
    } else {
        let init = decode_rows(rows.drop_last(), fallback);
        if is_blank(rows.last()) {
            init
        } else {
            match decode_line_spec(rows.last(), fallback) {
                Some(t) => init.push(t),
                None => init,
            }
        }
    }
}

/// The rows after the header: everything but the first line.
pub open spec fn data_rows(s: Seq<char>) -> Seq<Seq<char>> {
    let ls = lines_of(s);
    if ls.len() == 0 {
        Seq::empty()
    } else {
        ls.drop_first()
    }
}

/// What reading a file yields: its data rows decoded in file order, then
/// ordered newest first.
pub open spec fn parse_log_spec(s: Seq<char>, fallback: Timestamp) -> Seq<TaskView> {
    sort_desc(decode_rows(data_rows(s), fallback))
}

/// Decode a whole file: skip the first line, decode every non-blank,
/// non-short remaining row, substitute `fallback` for a timestamp that does
/// not parse, and order the result newest first.
pub fn parse_log(contents: &str, fallback: &Timestamp) -> (r: Vec<Task>)
    requires
        fallback.wf(),
    ensures
        task_views(r@) == parse_log_spec(contents@, *fallback),
        forall|i: int| 0 <= i < r@.len() ==> r@[i]@.wf(),
{
    let v = chars_of(contents);
    let lines = split_lines(&v);
    let ghost lv = views_of(lines@);
    let ghost rows = data_rows(contents@);
    proof {
        assert(rows.take(0) =~= Seq::<Seq<char>>::empty());
        assert(task_views(Seq::<Task>::empty()) =~= Seq::<TaskView>::empty());
    }
    let mut tasks: Vec<Task> = Vec::new();
    let mut k: usize = 1;
    while k < lines.len()
        invariant
            1 <= k,
            k - 1 <= rows.len(),
            lv == views_of(lines@),
            rows == data_rows(contents@),
            lv.len() >= 1 ==> rows == lv.drop_first(),
            lv.len() == 0 ==> rows.len() == 0,
            k <= lines@.len() || k == 1,
            fallback.wf(),
            task_views(tasks@) == decode_rows(rows.take(k - 1), *fallback),
            forall|i: int| 0 <= i < tasks@.len() ==> tasks@[i]@.wf(),
        decreases lines@.len() - k,
    {
        let ghost j = k - 1;
        proof {
            assert(rows[j] == lv[k as int]);
            assert(lv[k as int] == lines@[k as int]@);
            assert(rows.take(j + 1).drop_last() =~= rows.take(j));
            assert(rows.take(j + 1).last() == rows[j]);
        }
        if !blank(&lines[k]) {
            match decode_line(&lines[k], fallback) {
                Some(t) => {
                    proof {
                        assert(decode_line_spec(rows[j], *fallback) == Some(t@));
                        assert(t@.wf());
                    }
                    tasks.push(t);
                    proof {
                        assert(task_views(tasks@) =~= task_views(tasks@.drop_last()).push(
                            tasks@.last()@,
                        ));
                    }
                },
                None => {
                },
            }
        }
        k = k + 1;
    }
    proof {
        assert(k - 1 >= rows.len());
        assert(rows.take(rows.len() as int) =~= rows);
    }
    sort_tasks(tasks)
}

/// Read a store that may not exist yet: a missing file is an empty history,
/// not an error; an existing file is decoded with the current instant as
/// the fallback for unreadable timestamps.
pub fn get_tasks_from(contents: Option<&str>) -> (r: Vec<Task>)
    ensures
        contents is None ==> r@.len() == 0,
        contents matches Some(s) ==> exists|fb: Timestamp|
            fb.wf() && task_views(r@) == parse_log_spec(s@, fb),
        forall|i: int| 0 <= i < r@.len() ==> r@[i]@.wf(),
{
    match contents {
        None => Vec::new(),
        Some(s) => {
            let fb = now_timestamp();
            let r = parse_log(s, &fb);
            proof {
                assert(fb.wf() && task_views(r@) == parse_log_spec(s@, fb));
            }
            r
        },
    }
}

// ---------------------------------------------------------------------------
// Writing one record.
// ---------------------------------------------------------------------------

/// A fresh record for the given description: a new unique id and the
/// current instant.
pub fn make_task(task_description: String) -> (t: Task)
    ensures
        t@.wf(),
        t@.task_description == task_description@,
        t@.id.len() == 36,
        forall|i: int| 0 <= i < t@.id.len() ==> id_char(t@.id[i]),
{
    Task { id: fresh_id(), created_at: now_timestamp(), task_description }
}

/// The header line as a string.
pub fn header_line() -> (r: String)
    ensures
        r@ == header_text(),
{
    String::from_str("id,created_at,task_description")
}

/// The exact text one `record` call appends to the file.
pub fn record_text(file_exists: bool, t: &Task) -> (r: String)
    requires
        t@.wf(),
    ensures
        r@ == record_text_spec(file_exists, t@),
{
    let mut out = String::new();
    if !file_exists {
        out.append("id,created_at,task_description");
        push_char(&mut out, '\n');
    }
    let line = encode_line(t);
    let ls = string_of(&line);
    out.append(ls.as_str());
    push_char(&mut out, '\n');
    proof {
        assert(out@ =~= record_text_spec(file_exists, t@));
    }
    out
}

/// The confirmation a successful `record` call returns, with the original
/// text embedded verbatim.
pub open spec fn confirmation_text(description: Seq<char>) -> Seq<char> {
    "Task saved successfully: "@ + description
}

pub fn confirmation_message(description: &str) -> (r: String)
    ensures
        r@ == confirmation_text(description@),
{
    let mut out = String::from_str("Task saved successfully: ");
    out.append(description);
    out
}

/// The greeting the surrounding shell shows.
pub fn greet(name: &str) -> (r: String)
    ensures
        r@ == "Hello, "@ + name@ + "! You've been greeted from Rust!"@,
{
    let mut out = String::from_str("Hello, ");
    out.append(name);
    out.append("! You've been greeted from Rust!");
    out
}

} // verus!
