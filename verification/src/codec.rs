//! The file codec: a stored task list is one record per line.  Reading
//! splits on line feeds, drops a trailing carriage return, skips blank lines
//! and parses everything else; one malformed line rejects the whole text.
//! Writing serializes each record and terminates it with a line feed.

use vstd::prelude::*;
use crate::date::{date_chars, lemma_date_chars_shape};
use crate::error::Error;
use crate::text::{
    chars_of, first_idx, is_digit_char, is_space_char, is_upper_char, lemma_first_idx_is,
    space_char, string_range,
};
use crate::todo::{
    lemma_parse_serialize, round_trippable, spec_parse_line, spec_serialize, Todo, TodoView,
};

verus! {

pub open spec fn todo_views(ts: Seq<Todo>) -> Seq<TodoView> {
    ts.map_values(|t: Todo| t@)
}

/// One line as parsing sees it: without a trailing carriage return.
pub open spec fn strip_cr(l: Seq<char>) -> Seq<char> {
    if l.len() > 0 && l.last() == '\r' {
        l.drop_last()
    } else {
        l
    }
}

/// A line that reading skips: nothing but whitespace.
pub open spec fn is_blank(l: Seq<char>) -> bool {
    forall|k: int| 0 <= k < l.len() ==> is_space_char(l[k])
}

/// Folds one line into the records of the following text.
pub open spec fn read_step(line: Seq<char>, tail: Option<Seq<TodoView>>) -> Option<
    Seq<TodoView>,
> {
    if is_blank(line) {
        tail
    } else {
        match spec_parse_line(line) {
            None => None,
            Some(v) => match tail {
                None => None,
                Some(vs) => Some(seq![v] + vs),
            },
        }
    }
}

/// The records denoted by a text, in file order; `None` when some non-blank
/// line is malformed.
pub open spec fn spec_read_records(s: Seq<char>) -> Option<Seq<TodoView>>
    decreases s.len(),
{
    if s.len() == 0 {
        Some(Seq::empty())
    } else {
        let e = first_idx(s, '\n') as int;
        if e < s.len() {
            read_step(strip_cr(s.take(e)), spec_read_records(s.skip(e + 1)))
        } else {
            read_step(strip_cr(s), Some(Seq::empty()))
        }
    }
}

/// The text a list of records is stored as: each line terminated.
pub open spec fn spec_render_records(vs: Seq<TodoView>) -> Seq<char>
    decreases vs.len(),
{
    if vs.len() == 0 {
        Seq::empty()
    } else {
        spec_serialize(vs[0]) + seq!['\n'] + spec_render_records(vs.skip(1))
    }
}

/// Finds the current line: its end `e` (the next line feed or the end of
/// the text) and the end `le` of its content, less a trailing carriage
/// return.
fn line_bounds(v: &Vec<char>, i: usize) -> (r: (usize, usize))
    requires
        i < v@.len(),
    ensures
        i <= r.1 <= r.0 <= v@.len(),
        first_idx(v@.skip(i as int), '\n') == r.0 - i,
        strip_cr(v@.skip(i as int).take(r.0 - i)) == v@.subrange(i as int, r.1 as int),
{
    let ghost s = v@;
    let ghost sub = s.skip(i as int);
    let n = v.len();
    let mut e: usize = i;
    while e < n && v[e] != '\n'
        invariant
            i <= e <= n,
            n == s.len(),
            s == v@,
            forall|k: int| i <= k < e ==> s[k] != '\n',
        decreases n - e,
    {
        e = e + 1;
    }
    proof {
        assert forall|k: int| 0 <= k < e - i implies sub[k] != '\n' by {
            assert(sub[k] == s[i + k]);
        }
        if e - i < sub.len() {
            assert(sub[e - i] == s[e as int]);
        }
        lemma_first_idx_is(sub, '\n', e - i);
    }
    let mut le: usize = e;
    if le > i && v[le - 1] == '\r' {
        le = le - 1;
    }
    proof {
        assert(sub.take(e - i) =~= s.subrange(i as int, e as int));
        if e > i {
            assert(sub.take(e - i).last() == s[e - 1]);
        }
        assert(strip_cr(sub.take(e - i)) =~= s.subrange(i as int, le as int));
    }
    (e, le)
}

/// Is `v[i..le]` nothing but whitespace?
fn blank_range(v: &Vec<char>, i: usize, le: usize) -> (r: bool)
    requires
        i <= le <= v@.len(),
    ensures
        r == is_blank(v@.subrange(i as int, le as int)),
{
    let ghost line = v@.subrange(i as int, le as int);
    let mut k: usize = i;
    while k < le
        invariant
            i <= k <= le <= v@.len(),
            line == v@.subrange(i as int, le as int),
            forall|m: int| i <= m < k ==> is_space_char(v@[m]),
        decreases le - k,
    {
        if !space_char(v[k]) {
            proof {
                assert(line[k - i] == v@[k as int]);
            }
            return false;
        }
        k = k + 1;
    }
    proof {
        assert forall|m: int| 0 <= m < line.len() implies is_space_char(line[m]) by {
            assert(line[m] == v@[i + m]);
        }
    }
    true
}

/// A record the codec stores losslessly: it round-trips as a single record,
/// its description holds no line feed and does not end in a carriage
/// return, and it serializes to a non-blank line (some part is present).
pub open spec fn storable(v: TodoView) -> bool {
    &&& round_trippable(v)
    &&& forall|k: int| 0 <= k < v.description.len() ==> v.description[k] != '\n'
    &&& (v.description.len() > 0 ==> v.description.last() != '\r')
    &&& (v.done || v.priority is Some || v.created is Some || v.description.len() > 0)
}

/// The line a storable record serializes to is nonempty, free of line feeds,
/// does not end in a carriage return, and is not blank.
proof fn lemma_line_shape(v: TodoView)
    requires
        storable(v),
    ensures
        spec_serialize(v).len() > 0,
        forall|k: int| 0 <= k < spec_serialize(v).len() ==> #[trigger] spec_serialize(v)[k]
            != '\n',
        spec_serialize(v).last() != '\r',
        !is_blank(spec_serialize(v)),
{
    let a: Seq<char> = if v.done {
        seq!['x', ' ']
    } else {
        Seq::<char>::empty()
    };
    let b: Seq<char> = match v.priority {
        Some(c) => seq!['(', c, ')', ' '],
        None => Seq::<char>::empty(),
    };
    let c: Seq<char> = match v.completed {
        Some(d) => date_chars(d) + seq![' '],
        None => Seq::<char>::empty(),
    };
    let dd: Seq<char> = match v.created {
        Some(d) => date_chars(d) + seq![' '],
        None => Seq::<char>::empty(),
    };
    let e = v.description;
    let s = spec_serialize(v);
    assert(s == a + b + c + dd + e);
    if v.completed is Some {
        lemma_date_chars_shape(v.completed->0);
    }
    if v.created is Some {
        lemma_date_chars_shape(v.created->0);
    }
    let al = a.len() as int;
    let bl = b.len() as int;
    let cl = c.len() as int;
    let dl = dd.len() as int;
    // Every character is a flag or marker character, a date character, a
    // separating space, or a description character.
    assert forall|k: int| 0 <= k < s.len() implies #[trigger] s[k] != '\n' && (k == s.len() - 1
        ==> s[k] != '\r') && (k == al + bl + cl + dl && e.len() > 0 ==> !is_space_char(
        s[k],
    )) by {
        if k < al {
            assert(s[k] == a[k]);
        } else if k < al + bl {
            assert(s[k] == b[k - al]);
            if k - al == 1 {
                assert(is_upper_char(b[1]));
            }
        } else if k < al + bl + cl {
            assert(s[k] == c[k - al - bl]);
            if k - al - bl < 10 {
                assert(c[k - al - bl] == date_chars(v.completed->0)[k - al - bl]);
            } else {
                assert(c[k - al - bl] == ' ');
            }
        } else if k < al + bl + cl + dl {
            assert(s[k] == dd[k - al - bl - cl]);
            if k - al - bl - cl < 10 {
                assert(dd[k - al - bl - cl] == date_chars(v.created->0)[k - al - bl - cl]);
            } else {
                assert(dd[k - al - bl - cl] == ' ');
            }
        } else {
            assert(s[k] == e[k - al - bl - cl - dl]);
            if k == s.len() - 1 {
                assert(s[k] == e.last());
            }
            if k == al + bl + cl + dl {
                assert(s[k] == e[0]);
            }
        }
    }
    // Not blank: some character is not whitespace.
    if e.len() > 0 {
        assert(!is_space_char(s[al + bl + cl + dl]));
    } else if v.done {
        assert(s[0] == 'x');
        assert(!is_space_char(s[0]));
    } else if v.priority is Some {
        assert(s[0] == '(');
        assert(!is_space_char(s[0]));
    } else {
        assert(v.created is Some);
        assert(s[al + bl + cl] == date_chars(v.created->0)[0]);
        assert(is_digit_char(s[al + bl + cl]) || s[al + bl + cl] == '-');
        assert(!is_space_char(s[al + bl + cl]));
    }
}

/// Writing a list of storable records and reading the text back yields the
/// same list.
pub proof fn lemma_render_read_round_trip(vs: Seq<TodoView>)
    requires
        forall|i: int| 0 <= i < vs.len() ==> storable(#[trigger] vs[i]),
    ensures
        spec_read_records(spec_render_records(vs)) == Some(vs),
    decreases vs.len(),
{
    if vs.len() == 0 {
        assert(spec_render_records(vs) =~= Seq::<char>::empty());
        assert(Seq::<TodoView>::empty() =~= vs);
    } else {
        let v = vs[0];
        let line = spec_serialize(v);
        let rest = spec_render_records(vs.skip(1));
        let s = spec_render_records(vs);
        assert(s == line + seq!['\n'] + rest);
        lemma_line_shape(v);
        assert forall|k: int| 0 <= k < line.len() implies s[k] != '\n' by {
            assert(s[k] == line[k]);
        }
        assert(s[line.len() as int] == '\n');
        lemma_first_idx_is(s, '\n', line.len() as int);
        assert(s.take(line.len() as int) =~= line);
        assert(strip_cr(line) == line);
        assert(s.skip(line.len() as int + 1) =~= rest);
        assert forall|i: int| 0 <= i < vs.skip(1).len() implies storable(
            #[trigger] vs.skip(1)[i],
        ) by {
            assert(vs.skip(1)[i] == vs[i + 1]);
        }
        lemma_render_read_round_trip(vs.skip(1));
        lemma_parse_serialize(v);
        assert(seq![v] + vs.skip(1) =~= vs);
    }
}

/// Parses a whole stored text into records.
#[verifier::rlimit(100)]
pub fn read_records(text: &str) -> (r: Result<Vec<Todo>, Error>)
    ensures
        spec_read_records(text@) matches Some(vs) ==> r matches Ok(ts) && todo_views(ts@) == vs,
        spec_read_records(text@) is None ==> r is Err,
{
    let v = chars_of(text);
    let ghost s = text@;
    let n = v.len();
    let mut result: Vec<Todo> = Vec::new();
    proof {
        assert(s.skip(0) =~= s);
        assert(todo_views(result@) =~= Seq::<TodoView>::empty());
    }
    let mut i: usize = 0;
    while i < n
        invariant
            0 <= i <= n,
            n == s.len(),
            s == v@,
            s == text@,
            match spec_read_records(s.skip(i as int)) {
                Some(vs) => spec_read_records(s) == Some(todo_views(result@) + vs),
                None => spec_read_records(s) is None,
            },
        decreases n - i,
    {
        let ghost sub = s.skip(i as int);
        let (e, le) = line_bounds(&v, i);
        let ghost line = strip_cr(sub.take(e - i));
        let blank = blank_range(&v, i, le);
        let ghost tail = if e < n {
            spec_read_records(s.skip(e + 1))
        } else {
            Some(Seq::<TodoView>::empty())
        };
        proof {
            assert(line == s.subrange(i as int, le as int));
            if e < n {
                assert(sub.skip(e - i + 1) =~= s.skip(e + 1));
            } else {
                assert(sub.take(e - i) =~= sub);
            }
            assert(spec_read_records(sub) == read_step(line, tail));
        }
        if !blank {
            let lstr = string_range(&v, i, le);
            proof {
                assert(lstr@ =~= line);
                assert(!is_blank(line));
            }
            match Todo::parse(lstr.as_str()) {
                Ok(t) => {
                    proof {
                        assert(spec_parse_line(line) == Some(t@));
                        match tail {
                            Some(vs2) => {
                                assert(todo_views(result@.push(t)) =~= todo_views(
                                    result@,
                                ).push(t@));
                                assert(todo_views(result@) + (seq![t@] + vs2) =~= todo_views(
                                    result@.push(t),
                                ) + vs2);
                            },
                            None => {},
                        }
                    }
                    result.push(t);
                },
                Err(err) => {
                    proof {
                        assert(spec_parse_line(line) is None);
                        assert(spec_read_records(sub) is None);
                    }
                    return Err(err);
                },
            }
        }
        proof {
            if e >= n {
                assert(s.skip(n as int) =~= Seq::<char>::empty());
            }
        }
        if e < n {
            i = e + 1;
        } else {
            i = e;
        }
    }
    proof {
        assert(s.skip(i as int) =~= Seq::<char>::empty());
        assert(spec_read_records(s.skip(i as int)) == Some(Seq::<TodoView>::empty()));
        assert(todo_views(result@) + Seq::<TodoView>::empty() =~= todo_views(result@));
        assert(spec_read_records(s) == Some(todo_views(result@)));
    }
    Ok(result)
}

/// Renders a list of records as the stored text.
pub fn render_records(todos: &Vec<Todo>) -> (r: String)
    ensures
        r@ == spec_render_records(todo_views(todos@)),
{
    let ghost views = todo_views(todos@);
    let mut out = String::new();
    proof {
        assert(views.skip(0) =~= views);
        assert(out@ + spec_render_records(views) =~= spec_render_records(views));
    }
    let mut k: usize = 0;
    while k < todos.len()
        invariant
            0 <= k <= todos@.len(),
            views == todo_views(todos@),
            spec_render_records(views) == out@ + spec_render_records(views.skip(k as int)),
        decreases todos@.len() - k,
    {
        let ghost before = out@;
        let line = todos[k].serialize();
        out.append(line.as_str());
        out.push('\n');
        proof {
            assert(views.skip(k as int)[0] == todos@[k as int]@);
            assert(views.skip(k as int).skip(1) =~= views.skip(k + 1));
            assert(out@ =~= before + (spec_serialize(views.skip(k as int)[0]) + seq!['\n']));
            assert(out@ + spec_render_records(views.skip(k + 1)) =~= before + (spec_serialize(
                views.skip(k as int)[0],
            ) + seq!['\n'] + spec_render_records(views.skip(k as int).skip(1))));
        }
        k = k + 1;
    }
    proof {
        assert(views.skip(k as int) =~= Seq::<TodoView>::empty());
        assert(out@ + spec_render_records(views.skip(k as int)) =~= out@);
    }
    out
}

} // verus!
