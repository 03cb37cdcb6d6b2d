use vstd::prelude::*;

use crate::chars::chars_of;
use crate::chars::string_of;
use crate::task::Task;
use crate::task::TaskView;
use crate::timestamp::ts_of_text;
use crate::timestamp::ts_text;
use crate::timestamp::valid_ts_text;
use crate::timestamp::parse_ts;
use crate::timestamp::ts_chars;
use crate::timestamp::Timestamp;

verus! {

// ---------------------------------------------------------------------------
// Splitting a text on a separator character, left to right. `cur` carries the
// field read so far, so the definition mirrors a single forward scan.
// ---------------------------------------------------------------------------

pub open spec fn split_rec(s: Seq<char>, sep: char, cur: Seq<char>) -> Seq<Seq<char>>
    decreases s.len(),
{
    if s.len() == 0 {
        seq![cur]
    } else if s[0] == sep {
        seq![cur] + split_rec(s.drop_first(), sep, Seq::empty())
    } else {
        split_rec(s.drop_first(), sep, cur.push(s[0]))
    }
}

/// The fields of `s` between occurrences of `sep`; never empty.
pub open spec fn split_on(s: Seq<char>, sep: char) -> Seq<Seq<char>> {
    split_rec(s, sep, Seq::empty())
}

/// The fields joined back with the separator between them.
pub open spec fn join_with(parts: Seq<Seq<char>>, sep: char) -> Seq<char>
    decreases parts.len(),
{
    if parts.len() == 0 {
        Seq::empty()
    } else if parts.len() == 1 {
        parts[0]
    } else {
        join_with(parts.drop_last(), sep) + seq![sep] + parts.last()
    }
}

pub proof fn lemma_split_rec_len(s: Seq<char>, sep: char, cur: Seq<char>)
    ensures
        split_rec(s, sep, cur).len() >= 1,
    decreases s.len(),
{
    if s.len() == 0 {
    } else if s[0] == sep {
    } else {
        lemma_split_rec_len(s.drop_first(), sep, cur.push(s[0]));
    }
}

/// Splitting starts with the separator-free prefix as its first field.
pub proof fn lemma_split_rec_prefix(a: Seq<char>, sep: char, rest: Seq<char>, cur: Seq<char>)
    requires
        forall|i: int| 0 <= i < a.len() ==> a[i] != sep,
    ensures
        split_rec(a + seq![sep] + rest, sep, cur) == seq![cur + a] + split_on(rest, sep),
    decreases a.len(),
{
    let s = a + seq![sep] + rest;
    if a.len() == 0 {
        assert(s[0] == sep);
        assert(s.drop_first() =~= rest);
        assert(cur + a =~= cur);
    } else {
        assert(s[0] == a[0]);
        assert(s.drop_first() =~= a.drop_first() + seq![sep] + rest);
        lemma_split_rec_prefix(a.drop_first(), sep, rest, cur.push(a[0]));
        assert(cur.push(a[0]) + a.drop_first() =~= cur + a);
    }
}

/// Joining a first field onto at least one more puts one separator between.
pub proof fn lemma_join_cons(x: Seq<char>, parts: Seq<Seq<char>>, sep: char)
    requires
        parts.len() >= 1,
    ensures
        join_with(seq![x] + parts, sep) == x + seq![sep] + join_with(parts, sep),
    decreases parts.len(),
{
    let w = seq![x] + parts;
    if parts.len() == 1 {
        assert(w.drop_last() =~= seq![x]);
        assert(w.last() == parts[0]);
        assert(join_with(seq![x], sep) == x);
    } else {
        assert(w.drop_last() =~= seq![x] + parts.drop_last());
        lemma_join_cons(x, parts.drop_last(), sep);
        assert(w.last() == parts.last());
        assert((x + seq![sep] + join_with(parts.drop_last(), sep)) + seq![sep] + parts.last()
            =~= x + seq![sep] + (join_with(parts.drop_last(), sep) + seq![sep] + parts.last()));
    }
}

pub proof fn lemma_join_split_rec(s: Seq<char>, sep: char, cur: Seq<char>)
    ensures
        join_with(split_rec(s, sep, cur), sep) == cur + s,
    decreases s.len(),
{
    if s.len() == 0 {
        assert(cur + s =~= cur);
    } else if s[0] == sep {
        lemma_split_rec_len(s.drop_first(), sep, Seq::empty());
        lemma_join_cons(cur, split_rec(s.drop_first(), sep, Seq::empty()), sep);
        lemma_join_split_rec(s.drop_first(), sep, Seq::empty());
        assert(Seq::empty() + s.drop_first() =~= s.drop_first());
        assert(cur + seq![sep] + s.drop_first() =~= cur + s);
    } else {
        lemma_join_split_rec(s.drop_first(), sep, cur.push(s[0]));
        assert(cur.push(s[0]) + s.drop_first() =~= cur + s);
    }
}

/// Joining what splitting produced restores the text.
pub proof fn lemma_join_split(s: Seq<char>, sep: char)
    ensures
        join_with(split_on(s, sep), sep) == s,
{
    lemma_join_split_rec(s, sep, Seq::empty());
    assert(Seq::empty() + s =~= s);
}

// ---------------------------------------------------------------------------
// Stripping quote characters from both ends of a field.
// ---------------------------------------------------------------------------

pub open spec fn lead_quotes(s: Seq<char>) -> int
    decreases s.len(),
{
    if s.len() > 0 && s[0] == '"' {
        1 + lead_quotes(s.drop_first())
    } else {
        0
    }
}

pub open spec fn trail_quotes(s: Seq<char>) -> int
    decreases s.len(),
{
    if s.len() > 0 && s.last() == '"' {
        1 + trail_quotes(s.drop_last())
    } else {
        0
    }
}

/// The field with every leading and every trailing quote removed.
pub open spec fn trim_quotes(s: Seq<char>) -> Seq<char> {
    let t = s.skip(lead_quotes(s));
    t.take(t.len() - trail_quotes(t))
}

pub proof fn lemma_lead_quotes(s: Seq<char>)
    ensures
        0 <= lead_quotes(s) <= s.len(),
        forall|k: int| 0 <= k < lead_quotes(s) ==> s[k] == '"',
        lead_quotes(s) < s.len() ==> s[lead_quotes(s)] != '"',
    decreases s.len(),
{
    if s.len() > 0 && s[0] == '"' {
        lemma_lead_quotes(s.drop_first());
        assert forall|k: int| 0 <= k < lead_quotes(s) implies s[k] == '"' by {
            if k > 0 {
                assert(s.drop_first()[k - 1] == s[k]);
            }
        }
    }
}

pub proof fn lemma_trail_quotes(s: Seq<char>)
    ensures
        0 <= trail_quotes(s) <= s.len(),
        forall|k: int| s.len() - trail_quotes(s) <= k < s.len() ==> s[k] == '"',
        trail_quotes(s) < s.len() ==> s[s.len() - trail_quotes(s) - 1] != '"',
    decreases s.len(),
{
    if s.len() > 0 && s.last() == '"' {
        lemma_trail_quotes(s.drop_last());
        assert forall|k: int| s.len() - trail_quotes(s) <= k < s.len() implies s[k] == '"' by {
            if k < s.len() - 1 {
                assert(s.drop_last()[k] == s[k]);
            }
        }
    }
}

/// Wrapping a quote-free text in one pair of quotes and trimming gives it
/// back.
pub proof fn lemma_trim_wrapped(s: Seq<char>)
    requires
        forall|i: int| 0 <= i < s.len() ==> s[i] != '"',
    ensures
        trim_quotes(seq!['"'] + s + seq!['"']) == s,
{
    let w = seq!['"'] + s + seq!['"'];
    if s.len() == 0 {
        assert(w =~= seq!['"', '"']);
        assert(w[0] == '"');
        assert(lead_quotes(Seq::<char>::empty()) == 0);
        assert(seq!['"'].len() == 1 && seq!['"'][0] == '"');
        assert(seq!['"'].drop_first() =~= Seq::<char>::empty());
        assert(lead_quotes(seq!['"']) == 1);
        assert(w.drop_first() =~= seq!['"']);
        assert(lead_quotes(w) == 1 + lead_quotes(seq!['"']));
        assert(lead_quotes(w) == 2);
        let t = w.skip(2);
        assert(t =~= Seq::<char>::empty());
        assert(trail_quotes(t) == 0);
        assert(trim_quotes(w) =~= s);
    } else {
        assert(w[0] == '"');
        assert(w.drop_first() =~= s + seq!['"']);
        assert((s + seq!['"'])[0] == s[0]);
        assert(s[0] != '"');
        assert(lead_quotes(s + seq!['"']) == 0);
        assert(lead_quotes(w) == 1);
        let t = w.skip(1);
        assert(t =~= s + seq!['"']);
        assert(t.last() == '"');
        assert(t.drop_last() =~= s);
        assert(s.last() != '"');
        assert(trail_quotes(s) == 0);
        assert(trail_quotes(t) == 1);
        assert(t.take(t.len() - 1) =~= s);
    }
}

// ---------------------------------------------------------------------------
// Doubling quote characters on the way out.
// ---------------------------------------------------------------------------

pub open spec fn escape_quotes(s: Seq<char>) -> Seq<char>
    decreases s.len(),
{
    if s.len() == 0 {
        Seq::empty()
    } else if s[0] == '"' {
        seq!['"', '"'] + escape_quotes(s.drop_first())
    } else {
        seq![s[0]] + escape_quotes(s.drop_first())
    }
}

pub proof fn lemma_escape_app(a: Seq<char>, b: Seq<char>)
    ensures
        escape_quotes(a + b) == escape_quotes(a) + escape_quotes(b),
    decreases a.len(),
{
    if a.len() == 0 {
        assert(a + b =~= b);
        assert(Seq::<char>::empty() + escape_quotes(b) =~= escape_quotes(b));
    } else {
        assert((a + b)[0] == a[0]);
        assert((a + b).drop_first() =~= a.drop_first() + b);
        lemma_escape_app(a.drop_first(), b);
        if a[0] == '"' {
            assert(seq!['"', '"'] + (escape_quotes(a.drop_first()) + escape_quotes(b)) =~= (
            seq!['"', '"'] + escape_quotes(a.drop_first())) + escape_quotes(b));
        } else {
            assert(seq![a[0]] + (escape_quotes(a.drop_first()) + escape_quotes(b)) =~= (
            seq![a[0]] + escape_quotes(a.drop_first())) + escape_quotes(b));
        }
    }
}

/// Escaping changes nothing in a quote-free text.
pub proof fn lemma_escape_no_quote(s: Seq<char>)
    requires
        forall|i: int| 0 <= i < s.len() ==> s[i] != '"',
    ensures
        escape_quotes(s) == s,
    decreases s.len(),
{
    if s.len() > 0 {
        lemma_escape_no_quote(s.drop_first());
        assert(seq![s[0]] + s.drop_first() =~= s);
    }
}

/// Escaping introduces no character other than the quote.
pub proof fn lemma_escape_keeps_out(s: Seq<char>, c: char)
    requires
        c != '"',
        forall|i: int| 0 <= i < s.len() ==> s[i] != c,
    ensures
        forall|i: int| 0 <= i < escape_quotes(s).len() ==> escape_quotes(s)[i] != c,
    decreases s.len(),
{
    if s.len() > 0 {
        lemma_escape_keeps_out(s.drop_first(), c);
        let e = escape_quotes(s);
        let rest = escape_quotes(s.drop_first());
        if s[0] == '"' {
            assert forall|i: int| 0 <= i < e.len() implies e[i] != c by {
                if i >= 2 {
                    assert(e[i] == rest[i - 2]);
                } else {
                    assert(e[i] == '"');
                }
            }
        } else {
            assert forall|i: int| 0 <= i < e.len() implies e[i] != c by {
                if i >= 1 {
                    assert(e[i] == rest[i - 1]);
                } else {
                    assert(e[i] == s[0]);
                }
            }
        }
    }
}

// ---------------------------------------------------------------------------
// Executable counterparts.
// ---------------------------------------------------------------------------

/// The views of a vector of fields.
pub open spec fn views_of(parts: Seq<Vec<char>>) -> Seq<Seq<char>> {
    parts.map_values(|p: Vec<char>| p@)
}

/// Split a text into its fields on a separator.
pub fn split_sep(v: &Vec<char>, sep: char) -> (parts: Vec<Vec<char>>)
    ensures
        views_of(parts@) == split_on(v@, sep),
        parts@.len() >= 1,
{
    let mut parts: Vec<Vec<char>> = Vec::new();
    let mut cur: Vec<char> = Vec::new();
    let mut i: usize = 0;
    proof {
        assert(v@.skip(0) =~= v@);
        assert(views_of(parts@) =~= Seq::<Seq<char>>::empty());
        assert(Seq::<Seq<char>>::empty() + split_rec(v@, sep, cur@) =~= split_rec(v@, sep, cur@));
    }
    while i < v.len()
        invariant
            i <= v@.len(),
            split_on(v@, sep) == views_of(parts@) + split_rec(v@.skip(i as int), sep, cur@),
        decreases v@.len() - i,
    {
        proof {
            assert(v@.skip(i as int)[0] == v@[i as int]);
            assert(v@.skip(i as int).drop_first() =~= v@.skip(i + 1));
        }
        if v[i] == sep {
            let done = cur;
            cur = Vec::new();
            parts.push(done);
            proof {
                assert(views_of(parts@) =~= views_of(parts@.drop_last()).push(done@));
                assert(views_of(parts@.drop_last()).push(done@) + split_rec(
                    v@.skip(i + 1),
                    sep,
                    cur@,
                ) =~= views_of(parts@.drop_last()) + (seq![done@] + split_rec(
                    v@.skip(i + 1),
                    sep,
                    cur@,
                )));
            }
        } else {
            cur.push(v[i]);
        }
        i = i + 1;
    }
    proof {
        assert(v@.skip(v@.len() as int) =~= Seq::<char>::empty());
    }
    parts.push(cur);
    proof {
        assert(views_of(parts@) =~= views_of(parts@.drop_last()).push(cur@));
        assert(views_of(parts@.drop_last()) + seq![cur@] =~= views_of(parts@.drop_last()).push(
            cur@,
        ));
    }
    parts
}

/// Join the fields from index `from` on, separated by `sep`.
pub fn join_from(parts: &Vec<Vec<char>>, from: usize, sep: char) -> (r: Vec<char>)
    requires
        from < parts@.len(),
    ensures
        r@ == join_with(views_of(parts@).skip(from as int), sep),
{
    let pv = Ghost(views_of(parts@));
    let n = parts.len();
    let mut out: Vec<char> = Vec::new();
    out.extend_from_slice(parts[from].as_slice());
    proof {
        assert(pv@.subrange(from as int, from + 1) =~= seq![pv@[from as int]]);
        assert(out@ =~= pv@[from as int]);
    }
    let mut k: usize = from + 1;
    while k < n
        invariant
            from < k <= parts@.len(),
            n == parts@.len(),
            pv@ == views_of(parts@),
            out@ == join_with(pv@.subrange(from as int, k as int), sep),
        decreases parts@.len() - k,
    {
        out.push(sep);
        out.extend_from_slice(parts[k].as_slice());
        proof {
            let sub = pv@.subrange(from as int, k + 1);
            assert(sub.drop_last() =~= pv@.subrange(from as int, k as int));
            assert(sub.last() == pv@[k as int]);
            assert(join_with(pv@.subrange(from as int, k as int), sep) + seq![sep] + pv@[k as int]
                =~= out@);
        }
        k = k + 1;
    }
    proof {
        assert(pv@.subrange(from as int, pv@.len() as int) =~= pv@.skip(from as int));
    }
    out
}

/// Copy the characters `from..to` of a field.
pub fn sub_chars(v: &Vec<char>, from: usize, to: usize) -> (r: Vec<char>)
    requires
        from <= to <= v@.len(),
    ensures
        r@ == v@.subrange(from as int, to as int),
{
    let mut out: Vec<char> = Vec::new();
    let mut k: usize = from;
    while k < to
        invariant
            from <= k <= to <= v@.len(),
            out@ == v@.subrange(from as int, k as int),
        decreases to - k,
    {
        out.push(v[k]);
        proof {
            assert(v@.subrange(from as int, k + 1) =~= v@.subrange(from as int, k as int).push(
                v@[k as int],
            ));
        }
        k = k + 1;
    }
    out
}

/// Strip every leading and trailing quote from a field.
pub fn trim_quotes_x(v: &Vec<char>) -> (r: Vec<char>)
    ensures
        r@ == trim_quotes(v@),
{
    let s = Ghost(v@);
    let mut i: usize = 0;
    while i < v.len() && v[i] == '"'
        invariant
            i <= s@.len(),
            s@ == v@,
            forall|k: int| 0 <= k < i ==> s@[k] == '"',
        decreases s@.len() - i,
    {
        i = i + 1;
    }
    proof {
        lemma_lead_quotes(s@);
        if i < lead_quotes(s@) {
            assert(s@[i as int] == '"');
            assert(false);
        }
        if lead_quotes(s@) < i {
            assert(s@[lead_quotes(s@)] == '"');
            assert(false);
        }
    }
    let mut j: usize = v.len();
    while j > i && v[j - 1] == '"'
        invariant
            i <= j <= s@.len(),
            s@ == v@,
            forall|k: int| j <= k < s@.len() ==> s@[k] == '"',
        decreases j,
    {
        j = j - 1;
    }
    proof {
        let t = s@.skip(i as int);
        lemma_trail_quotes(t);
        let m = s@.len() - j;
        assert(forall|k: int| 0 <= k < t.len() ==> t[k] == s@[k + i]);
        if m < trail_quotes(t) {
            assert(t[t.len() - m - 1] == '"');
            assert(s@[j - 1] == '"');
            assert(j > i);
            assert(false);
        }
        if trail_quotes(t) < m {
            assert(t[t.len() - trail_quotes(t) - 1] != '"');
            assert(t.len() - trail_quotes(t) - 1 + i >= j);
            assert(false);
        }
        assert(trim_quotes(s@) =~= s@.subrange(i as int, j as int));
    }
    sub_chars(v, i, j)
}

/// Double every quote character of a text.
pub fn escape_quotes_x(v: &Vec<char>) -> (r: Vec<char>)
    ensures
        r@ == escape_quotes(v@),
{
    let mut out: Vec<char> = Vec::new();
    let mut i: usize = 0;
    proof {
        assert(v@.take(0) =~= Seq::<char>::empty());
    }
    while i < v.len()
        invariant
            i <= v@.len(),
            out@ == escape_quotes(v@.take(i as int)),
        decreases v@.len() - i,
    {
        let c = v[i];
        proof {
            lemma_escape_app(v@.take(i as int), seq![c]);
            assert(v@.take(i + 1) =~= v@.take(i as int) + seq![c]);
            assert(seq![c].drop_first() =~= Seq::<char>::empty());
            assert(escape_quotes(Seq::<char>::empty()) == Seq::<char>::empty());
            assert(seq![c].len() == 1 && seq![c][0] == c);
            if c == '"' {
                assert(escape_quotes(seq![c]) =~= seq!['"', '"']);
            } else {
                assert(escape_quotes(seq![c]) =~= seq![c]);
            }
        }
        if c == '"' {
            out.push('"');
            out.push('"');
        } else {
            out.push(c);
        }
        proof {
            assert(out@ =~= escape_quotes(v@.take(i + 1)));
        }
        i = i + 1;
    }
    proof {
        assert(v@.take(v@.len() as int) =~= v@);
    }
    out
}

// ---------------------------------------------------------------------------
// One record as one log line.
// ---------------------------------------------------------------------------

/// One record rendered as its log line: unquoted id, quoted timestamp,
/// quoted description with every inner quote doubled.
pub open spec fn encode_line_spec(t: TaskView) -> Seq<char> {
    t.id + seq![',', '"'] + ts_text(t.created_at) + seq!['"', ',', '"'] + escape_quotes(
        t.task_description,
    ) + seq!['"']
}

/// What one data line denotes: `None` exactly on short lines (fewer than
/// three comma-separated fields). A timestamp field that is not the fixed
/// format is replaced by `fallback`. Fields past the second are rejoined,
/// so a literal comma inside a description survives.
pub open spec fn decode_line_spec(line: Seq<char>, fallback: Timestamp) -> Option<TaskView> {
    let parts = split_on(line, ',');
    if parts.len() < 3 {
        None
    } else {
        Some(
            TaskView {
                id: parts[0],
                created_at: if valid_ts_text(trim_quotes(parts[1])) {
                    ts_of_text(trim_quotes(parts[1]))
                } else {
                    fallback
                },
                task_description: trim_quotes(join_with(parts.skip(2), ',')),
            },
        )
    }
}

/// Render one record as the characters of its log line.
pub fn encode_line(t: &Task) -> (r: Vec<char>)
    requires
        t@.wf(),
    ensures
        r@ == encode_line_spec(t@),
{
    let mut out = chars_of(t.id.as_str());
    out.push(',');
    out.push('"');
    let mut tsv = ts_chars(&t.created_at);
    out.append(&mut tsv);
    out.push('"');
    out.push(',');
    out.push('"');
    let descv = chars_of(t.task_description.as_str());
    let mut esc = escape_quotes_x(&descv);
    out.append(&mut esc);
    out.push('"');
    proof {
        assert(out@ =~= encode_line_spec(t@));
    }
    out
}

/// Decode one data line; `None` exactly on short lines.
pub fn decode_line(line: &Vec<char>, fallback: &Timestamp) -> (r: Option<Task>)
    ensures
        r is Some <==> decode_line_spec(line@, *fallback) is Some,
        r matches Some(t) ==> decode_line_spec(line@, *fallback) == Some(t@),
{
    let parts = split_sep(line, ',');
    let ghost pv = views_of(parts@);
    if parts.len() < 3 {
        return None;
    }
    proof {
        assert(pv[0] == parts@[0]@);
        assert(pv[1] == parts@[1]@);
    }
    let id = string_of(&parts[0]);
    let tsf = trim_quotes_x(&parts[1]);
    let created_at = match parse_ts(&tsf) {
        Some(ts) => ts,
        None => *fallback,
    };
    let joined = join_from(&parts, 2, ',');
    let trimmed = trim_quotes_x(&joined);
    let task_description = string_of(&trimmed);
    let task = Task { id, created_at, task_description };
    proof {
        assert(decode_line_spec(line@, *fallback) == Some(task@));
    }
    Some(task)
}

/// Round trip at line level: a record whose id holds no comma and whose
/// description holds no quote character is read back exactly from its own
/// encoded line, whatever the fallback timestamp.
pub proof fn lemma_line_round_trip(t: TaskView, fallback: Timestamp)
    requires
        t.wf(),
        forall|i: int| 0 <= i < t.id.len() ==> t.id[i] != ',',
        forall|i: int| 0 <= i < t.task_description.len() ==> t.task_description[i] != '"',
    ensures
        decode_line_spec(encode_line_spec(t), fallback) == Some(t),
{
    let line = encode_line_spec(t);
    let tst = ts_text(t.created_at);
    let desc = t.task_description;
    lemma_escape_no_quote(desc);
    crate::timestamp::lemma_ts_text_plain(t.created_at);
    let field1 = seq!['"'] + tst + seq!['"'];
    let rest2 = seq!['"'] + desc + seq!['"'];
    assert(line =~= t.id + seq![','] + (field1 + seq![','] + rest2));
    lemma_split_rec_prefix(t.id, ',', field1 + seq![','] + rest2, Seq::empty());
    assert(Seq::empty() + t.id =~= t.id);
    assert forall|i: int| 0 <= i < field1.len() implies field1[i] != ',' by {
        if i == 0 {
            assert(field1[i] == '"');
        } else if i <= tst.len() {
            assert(field1[i] == tst[i - 1]);
        } else {
            assert(field1[i] == '"');
        }
    }
    lemma_split_rec_prefix(field1, ',', rest2, Seq::empty());
    assert(Seq::empty() + field1 =~= field1);
    lemma_join_split(rest2, ',');
    lemma_split_rec_len(rest2, ',', Seq::empty());
    let pdesc = split_on(rest2, ',');
    let parts = split_on(line, ',');
    assert(parts =~= seq![t.id, field1] + pdesc);
    assert(parts.len() >= 3);
    assert(parts[0] == t.id);
    assert(parts[1] == field1);
    lemma_trim_wrapped(tst);
    crate::timestamp::lemma_ts_text_round_trip(t.created_at);
    assert(parts.skip(2) =~= pdesc);
    lemma_trim_wrapped(desc);
    assert(decode_line_spec(line, fallback) == Some(t));
}

} // verus!
