use vstd::prelude::*;

use crate::chars::is_blank;
use crate::codec::decode_line_spec;
use crate::codec::encode_line_spec;
use crate::codec::escape_quotes;
use crate::codec::lemma_escape_keeps_out;
use crate::codec::lemma_line_round_trip;
use crate::codec::lemma_split_rec_prefix;
use crate::codec::split_on;
use crate::sort::sort_desc;
use crate::store::body_text;
use crate::store::data_rows;
use crate::store::decode_rows;
use crate::store::header_text;
use crate::store::lines_of;
use crate::store::parse_log_spec;
use crate::store::record_text_spec;
use crate::store::store_text;
use crate::store::strip_cr;
use crate::task::TaskView;
use crate::timestamp::lemma_ts_text_plain;
use crate::timestamp::ts_text;
use crate::timestamp::Timestamp;

verus! {

/// The data lines of a history, in write order.
pub open spec fn encoded_lines(tasks: Seq<TaskView>) -> Seq<Seq<char>> {
    tasks.map_values(|t: TaskView| encode_line_spec(t))
}

/// A record that writes cleanly into the line format: a well-formed
/// instant, an id free of commas and line breaks, a description free of
/// quotes and line breaks.
pub open spec fn plain_record(t: TaskView) -> bool {
    t.wf() && (forall|i: int| 0 <= i < t.id.len() ==> t.id[i] != ',' && t.id[i] != '\n') && (
    forall|i: int|
        0 <= i < t.task_description.len() ==> t.task_description[i] != '"'
            && t.task_description[i] != '\n')
}

pub proof fn lemma_header_plain()
    ensures
        header_text().len() == 30,
        forall|i: int| 0 <= i < header_text().len() ==> header_text()[i] != '\n',
        header_text().last() != '\r',
{
    reveal_strlit("id,created_at,task_description");
}

/// An encoded line never spans lines, never ends in a carriage return, and
/// is never blank.
pub proof fn lemma_line_plain(t: TaskView)
    requires
        plain_record(t),
    ensures
        forall|i: int|
            0 <= i < encode_line_spec(t).len() ==> encode_line_spec(t)[i] != '\n',
        encode_line_spec(t).len() > 0,
        encode_line_spec(t).last() == '"',
        !is_blank(encode_line_spec(t)),
{
    let line = encode_line_spec(t);
    let tst = ts_text(t.created_at);
    let esc = escape_quotes(t.task_description);
    let a = t.id.len() as int;
    let e = esc.len() as int;
    lemma_ts_text_plain(t.created_at);
    lemma_escape_keeps_out(t.task_description, '\n');
    assert(line.len() == a + 2 + 19 + 3 + e + 1);
    assert forall|i: int| 0 <= i < line.len() implies line[i] != '\n' by {
        if i < a {
            assert(line[i] == t.id[i]);
        } else if i == a {
            assert(line[i] == ',');
        } else if i == a + 1 {
            assert(line[i] == '"');
        } else if i < a + 2 + 19 {
            assert(line[i] == tst[i - (a + 2)]);
        } else if i == a + 21 {
            assert(line[i] == '"');
        } else if i == a + 22 {
            assert(line[i] == ',');
        } else if i == a + 23 {
            assert(line[i] == '"');
        } else if i < a + 24 + e {
            assert(line[i] == esc[i - (a + 24)]);
        } else {
            assert(line[i] == '"');
        }
    }
    assert(line.last() == '"');
    assert(line[a] == ',');
    assert(!crate::chars::is_space(','));
    assert(!is_blank(line));
}

pub proof fn lemma_split_body(tasks: Seq<TaskView>)
    requires
        forall|k: int| 0 <= k < tasks.len() ==> plain_record(tasks[k]),
    ensures
        split_on(body_text(tasks), '\n') == encoded_lines(tasks).push(Seq::<char>::empty()),
    decreases tasks.len(),
{
    if tasks.len() == 0 {
        assert(split_on(body_text(tasks), '\n') == seq![Seq::<char>::empty()]);
        assert(encoded_lines(tasks).push(Seq::<char>::empty()) =~= seq![Seq::<char>::empty()]);
    } else {
        let t0 = tasks[0];
        let rest = tasks.drop_first();
        assert(forall|k: int| 0 <= k < rest.len() ==> plain_record(rest[k]));
        lemma_split_body(rest);
        lemma_line_plain(t0);
        lemma_split_rec_prefix(encode_line_spec(t0), '\n', body_text(rest), Seq::empty());
        assert(Seq::empty() + encode_line_spec(t0) =~= encode_line_spec(t0));
        assert(split_on(body_text(tasks), '\n') == seq![encode_line_spec(t0)] + split_on(
            body_text(rest),
            '\n',
        ));
        assert(encoded_lines(tasks).push(Seq::<char>::empty()) =~= seq![encode_line_spec(t0)] + (
        encoded_lines(rest).push(Seq::<char>::empty())));
    }
}

/// Header idempotence: a fresh store written to N times reads back as
/// exactly one header line followed by the N data lines in write order.
pub proof fn lemma_store_lines(tasks: Seq<TaskView>)
    requires
        forall|k: int| 0 <= k < tasks.len() ==> plain_record(tasks[k]),
    ensures
        lines_of(store_text(tasks)) == seq![header_text()] + encoded_lines(tasks),
{
    lemma_header_plain();
    lemma_split_body(tasks);
    lemma_split_rec_prefix(header_text(), '\n', body_text(tasks), Seq::empty());
    assert(Seq::empty() + header_text() =~= header_text());
    assert(store_text(tasks) == header_text() + seq!['\n'] + body_text(tasks));
    let p = split_on(store_text(tasks), '\n');
    assert(p == seq![header_text()] + (encoded_lines(tasks).push(Seq::<char>::empty())));
    assert(p.last().len() == 0);
    assert(p.drop_last() =~= seq![header_text()] + encoded_lines(tasks));
    let m = p.drop_last().map_values(|l: Seq<char>| strip_cr(l));
    assert forall|k: int| 0 <= k < m.len() implies m[k] == p.drop_last()[k] by {
        if k == 0 {
            assert(p.drop_last()[k] == header_text());
            assert(strip_cr(header_text()) == header_text());
        } else {
            let t = tasks[k - 1];
            assert(p.drop_last()[k] == encoded_lines(tasks)[k - 1]);
            assert(encoded_lines(tasks)[k - 1] == encode_line_spec(t));
            lemma_line_plain(t);
            assert(strip_cr(encode_line_spec(t)) == encode_line_spec(t));
        }
    }
    assert(m =~= p.drop_last());
    assert(lines_of(store_text(tasks)) == m);
}

pub proof fn lemma_decode_encoded(tasks: Seq<TaskView>, fallback: Timestamp)
    requires
        forall|k: int| 0 <= k < tasks.len() ==> plain_record(tasks[k]),
    ensures
        decode_rows(encoded_lines(tasks), fallback) == tasks,
    decreases tasks.len(),
{
    let rows = encoded_lines(tasks);
    if tasks.len() == 0 {
        assert(rows.len() == 0);
        assert(decode_rows(rows, fallback) =~= tasks);
    } else {
        let last = tasks.last();
        assert(rows.last() == encode_line_spec(last));
        assert(rows.drop_last() =~= encoded_lines(tasks.drop_last()));
        lemma_decode_encoded(tasks.drop_last(), fallback);
        lemma_line_plain(last);
        lemma_line_round_trip(last, fallback);
        assert(decode_line_spec(rows.last(), fallback) == Some(last));
        assert(tasks.drop_last().push(last) =~= tasks);
    }
}

/// Full round trip: a history of cleanly encodable records, written to a
/// fresh store, reads back as exactly those records ordered newest first,
/// whatever fallback instant the reader would use.
pub proof fn lemma_store_round_trip(tasks: Seq<TaskView>, fallback: Timestamp)
    requires
        forall|k: int| 0 <= k < tasks.len() ==> plain_record(tasks[k]),
    ensures
        parse_log_spec(store_text(tasks), fallback) == sort_desc(tasks),
{
    lemma_store_lines(tasks);
    let ls = lines_of(store_text(tasks));
    assert(ls.len() == 1 + tasks.len());
    assert(ls.drop_first() =~= encoded_lines(tasks));
    assert(data_rows(store_text(tasks)) == encoded_lines(tasks));
    lemma_decode_encoded(tasks, fallback);
}

/// Writing one record to a fresh location produces exactly what a
/// one-record store holds.
pub proof fn lemma_record_fresh(t: TaskView)
    ensures
        store_text(seq![t]) == record_text_spec(false, t),
{
    assert(seq![t].drop_first() =~= Seq::<TaskView>::empty());
    assert(seq![t][0] == t);
    assert(body_text(Seq::<TaskView>::empty()) == Seq::<char>::empty());
    assert(body_text(seq![t]) =~= encode_line_spec(t) + seq!['\n'] + Seq::<char>::empty());
    assert(body_text(seq![t]) =~= encode_line_spec(t) + seq!['\n']);
    assert(store_text(seq![t]) =~= record_text_spec(false, t));
}

pub proof fn lemma_body_push(tasks: Seq<TaskView>, t: TaskView)
    ensures
        body_text(tasks.push(t)) == body_text(tasks) + encode_line_spec(t) + seq!['\n'],
    decreases tasks.len(),
{
    if tasks.len() == 0 {
        assert(tasks.push(t)[0] == t);
        assert(tasks.push(t).drop_first() =~= Seq::<TaskView>::empty());
        assert(body_text(Seq::<TaskView>::empty()) == Seq::<char>::empty());
        assert(body_text(tasks.push(t)) =~= encode_line_spec(t) + seq!['\n']
            + Seq::<char>::empty());
        assert(body_text(tasks.push(t)) =~= encode_line_spec(t) + seq!['\n']);
        assert(body_text(tasks) + encode_line_spec(t) + seq!['\n'] =~= encode_line_spec(t)
            + seq!['\n']);
    } else {
        assert(tasks.push(t)[0] == tasks[0]);
        assert(tasks.push(t).drop_first() =~= tasks.drop_first().push(t));
        lemma_body_push(tasks.drop_first(), t);
        assert(encode_line_spec(tasks[0]) + seq!['\n'] + (body_text(tasks.drop_first())
            + encode_line_spec(t) + seq!['\n']) =~= (encode_line_spec(tasks[0]) + seq!['\n']
            + body_text(tasks.drop_first())) + encode_line_spec(t) + seq!['\n']);
    }
}

/// Appending one record to an existing store extends its text by exactly
/// that record's line.
pub proof fn lemma_record_append(tasks: Seq<TaskView>, t: TaskView)
    ensures
        store_text(tasks.push(t)) == store_text(tasks) + record_text_spec(true, t),
{
    lemma_body_push(tasks, t);
    assert(header_text() + seq!['\n'] + (body_text(tasks) + encode_line_spec(t) + seq!['\n']) =~= (
    header_text() + seq!['\n'] + body_text(tasks)) + (encode_line_spec(t) + seq!['\n']));
}

/// Ordering: three records created at strictly increasing instants come
/// back newest first, whatever order ties anything else.
pub proof fn lemma_three_instants(t1: TaskView, t2: TaskView, t3: TaskView)
    requires
        !t2.created_at.le(t1.created_at),
        !t3.created_at.le(t2.created_at),
    ensures
        sort_desc(seq![t1, t2, t3]) == seq![t3, t2, t1],
{
    let s = seq![t1, t2, t3];
    assert(s.drop_last() =~= seq![t1, t2]);
    assert(seq![t1, t2].drop_last() =~= seq![t1]);
    assert(seq![t1].drop_last() =~= Seq::<TaskView>::empty());
    assert(sort_desc(Seq::<TaskView>::empty()) == Seq::<TaskView>::empty());
    assert(crate::sort::insert_pos(Seq::<TaskView>::empty(), t1) == 0);
    assert(crate::sort::insert_desc(Seq::<TaskView>::empty(), t1) =~= seq![t1]);
    assert(sort_desc(seq![t1]) == seq![t1]);
    assert(crate::sort::insert_pos(seq![t1], t2) == 0);
    assert(crate::sort::insert_desc(seq![t1], t2) =~= seq![t2, t1]);
    assert(sort_desc(seq![t1, t2]) == seq![t2, t1]);
    assert(crate::sort::insert_pos(seq![t2, t1], t3) == 0);
    assert(crate::sort::insert_desc(seq![t2, t1], t3) =~= seq![t3, t2, t1]);
    assert(sort_desc(s) == seq![t3, t2, t1]);
}

/// Stability on equal instants: two records created at the same instant
/// come back in write order.
pub proof fn lemma_equal_instants_stable(t1: TaskView, t2: TaskView)
    requires
        t1.created_at.le(t2.created_at),
        t2.created_at.le(t1.created_at),
    ensures
        sort_desc(seq![t1, t2]) == seq![t1, t2],
{
    let s = seq![t1, t2];
    assert(s.drop_last() =~= seq![t1]);
    assert(seq![t1].drop_last() =~= Seq::<TaskView>::empty());
    assert(sort_desc(Seq::<TaskView>::empty()) == Seq::<TaskView>::empty());
    assert(crate::sort::insert_pos(Seq::<TaskView>::empty(), t1) == 0);
    assert(crate::sort::insert_desc(Seq::<TaskView>::empty(), t1) =~= seq![t1]);
    assert(sort_desc(seq![t1]) == seq![t1]);
    assert(seq![t1].drop_first() =~= Seq::<TaskView>::empty());
    assert(crate::sort::insert_pos(Seq::<TaskView>::empty(), t2) == 0);
    assert(crate::sort::insert_pos(seq![t1], t2) == 1);
    assert(crate::sort::insert_desc(seq![t1], t2) =~= seq![t1, t2]);
    assert(sort_desc(s) == seq![t1, t2]);
}

/// Reading a location with no file, or an empty file, yields no records.
pub proof fn lemma_empty_store(fallback: Timestamp)
    ensures
        parse_log_spec(Seq::<char>::empty(), fallback) == Seq::<TaskView>::empty(),
{
    let p = split_on(Seq::<char>::empty(), '\n');
    assert(p == seq![Seq::<char>::empty()]);
    assert(p.last().len() == 0);
    assert(p.drop_last() =~= Seq::<Seq<char>>::empty());
    assert(lines_of(Seq::<char>::empty()) =~= Seq::<Seq<char>>::empty());
    assert(data_rows(Seq::<char>::empty()) =~= Seq::<Seq<char>>::empty());
}

/// Malformed-row tolerance: removing one short row (fewer than three
/// fields) from the data rows changes nothing in what a read yields; the
/// well-formed rows all survive.
pub proof fn lemma_short_row_skipped(rows: Seq<Seq<char>>, i: int, fallback: Timestamp)
    requires
        0 <= i < rows.len(),
        split_on(rows[i], ',').len() < 3,
    ensures
        decode_rows(rows.remove(i), fallback) == decode_rows(rows, fallback),
    decreases rows.len(),
{
    if i == rows.len() - 1 {
        assert(rows.remove(i) =~= rows.drop_last());
        assert(decode_line_spec(rows.last(), fallback) is None);
    } else {
        let shorter = rows.remove(i);
        assert(shorter.drop_last() =~= rows.drop_last().remove(i));
        assert(shorter.last() == rows.last());
        assert(rows.drop_last()[i] == rows[i]);
        lemma_short_row_skipped(rows.drop_last(), i, fallback);
    }
}

} // verus!
