//! The task record: its line grammar, serializer and parser, the metadata
//! helpers over its description, and the proof that serializing a record and
//! parsing the line gives the record back.

use vstd::prelude::*;
use crate::date::{
    date_chars, lemma_date_chars_shape, lemma_date_round_trip, spec_parse_date, Date,
};
use crate::error::Error;
use crate::tags::{
    escape_chars, escape_tags, find_tags, part_chars, part_views, scan_tags, DescriptionPart,
    PartView,
};
use crate::text::{
    chars_of, is_digit_char, is_space_char, is_upper_char, lemma_space_run_is, lemma_token_len_is,
    space_char, space_run, string_of, string_range, token_len, upper_char,
};

verus! {

/// The abstract value of a record.
pub ghost struct TodoView {
    pub done: bool,
    pub priority: Option<char>,
    pub created: Option<Date>,
    pub completed: Option<Date>,
    pub description: Seq<char>,
}

/// One task record.  `completed` may be set only when `created` is; the
/// constructor rejects anything else.
#[derive(Debug, Clone)]
pub struct Todo {
    pub done: bool,
    pub priority: Option<char>,
    pub created: Option<Date>,
    pub completed: Option<Date>,
    pub description: String,
}

impl View for Todo {
    type V = TodoView;

    open spec fn view(&self) -> TodoView {
        TodoView {
            done: self.done,
            priority: self.priority,
            created: self.created,
            completed: self.completed,
            description: self.description@,
        }
    }
}

impl PartialEq for Todo {
    /// Structural equality over all five fields.
    fn eq(&self, other: &Self) -> (r: bool) {
        let flags = self.done == other.done && match (self.priority, other.priority) {
            (Some(a), Some(b)) => a == b,
            (None, None) => true,
            _ => false,
        };
        let dates = match (self.created, other.created) {
            (Some(a), Some(b)) => a == b,
            (None, None) => true,
            _ => false,
        } && match (self.completed, other.completed) {
            (Some(a), Some(b)) => a == b,
            (None, None) => true,
            _ => false,
        };
        flags && dates && self.description == other.description
    }
}

impl vstd::std_specs::cmp::PartialEqSpecImpl for Todo {
    open spec fn obeys_eq_spec() -> bool {
        true
    }

    open spec fn eq_spec(&self, other: &Self) -> bool {
        self@ == other@
    }
}

// ---------------------------------------------------------------------------
// The line grammar
// ---------------------------------------------------------------------------

/// Does the text start with a priority marker `(P) ` (an uppercase letter in
/// parentheses followed by whitespace)?
pub open spec fn has_priority(s: Seq<char>) -> bool {
    s.len() >= 4 && s[0] == '(' && is_upper_char(s[1]) && s[2] == ')' && is_space_char(s[3])
}

/// The line a record serializes to: the parts that are present, each
/// followed by a single space, and the description verbatim.
pub open spec fn spec_serialize(v: TodoView) -> Seq<char> {
    (if v.done {
        seq!['x', ' ']
    } else {
        Seq::<char>::empty()
    }) + (match v.priority {
        Some(c) => seq!['(', c, ')', ' '],
        None => Seq::<char>::empty(),
    }) + (match v.completed {
        Some(d) => date_chars(d) + seq![' '],
        None => Seq::<char>::empty(),
    }) + (match v.created {
        Some(d) => date_chars(d) + seq![' '],
        None => Seq::<char>::empty(),
    }) + v.description
}

/// The record a line parses to, or `None` when the line is rejected.  In
/// order: the completion flag (`x` followed by one whitespace character,
/// both consumed), the priority marker, then one whitespace-delimited
/// token as a date (a second date token makes it the completion date, and
/// demands the flag); what remains, less leading whitespace, is the
/// description.
pub open spec fn spec_parse_line(s: Seq<char>) -> Option<TodoView> {
    let done = s.len() >= 2 && s[0] == 'x' && is_space_char(s[1]);
    let s1 = if done {
        s.skip(2)
    } else {
        s
    };
    let pri: Option<char> = if has_priority(s1) {
        Some(s1[1])
    } else {
        None
    };
    let s2 = if has_priority(s1) {
        s1.skip(3 + space_run(s1.skip(3)) as int)
    } else {
        s1
    };
    match spec_parse_dates(s2, done) {
        None => None,
        Some(dates) => Some(
            TodoView {
                done,
                priority: pri,
                created: dates.0,
                completed: dates.1,
                description: dates.2.skip(space_run(dates.2) as int),
            },
        ),
    }
}

/// The date stage of the line grammar: up to two leading whitespace-delimited
/// date tokens of the remaining text, and what follows them.  `None` stands
/// for the one rejection, a completion date on an uncompleted record.
pub open spec fn spec_parse_dates(s2: Seq<char>, done: bool) -> Option<
    (Option<Date>, Option<Date>, Seq<char>),
> {
    let fs = token_len(s2) as int;
    if fs < s2.len() && spec_parse_date(s2.take(fs)) is Some {
        let d1 = spec_parse_date(s2.take(fs))->0;
        let rest = s2.skip(fs + 1);
        let fs2 = token_len(rest) as int;
        if fs2 < rest.len() && spec_parse_date(rest.take(fs2)) is Some {
            if !done {
                None
            } else {
                Some(
                    (
                        Some(spec_parse_date(rest.take(fs2))->0),
                        Some(d1),
                        rest.skip(fs2 + 1),
                    ),
                )
            }
        } else {
            Some((Some(d1), None, rest))
        }
    } else {
        Some((None, None, s2))
    }
}

/// Reads the date tokens starting at `i`, returning the dates and the
/// position right after them.
fn parse_dates(v: &Vec<char>, i: usize, done: bool) -> (r: Result<
    (Option<Date>, Option<Date>, usize),
    Error,
>)
    requires
        i <= v@.len(),
    ensures
        match spec_parse_dates(v@.skip(i as int), done) {
            Some(t) => r matches Ok(e) && e.0 == t.0 && e.1 == t.1 && i <= e.2 <= v@.len()
                && v@.skip(e.2 as int) == t.2,
            None => r is Err,
        },
{
    let ghost s = v@;
    let ghost s2 = s.skip(i as int);
    let n = v.len();
    let mut j: usize = i;
    while j < n && !space_char(v[j])
        invariant
            i <= j <= n,
            n == s.len(),
            s == v@,
            forall|k: int| i <= k < j ==> !is_space_char(s[k]),
        decreases n - j,
    {
        j = j + 1;
    }
    proof {
        assert forall|k: int| 0 <= k < j - i implies !is_space_char(s2[k]) by {
            assert(s2[k] == s[i + k]);
        }
        if j - i < s2.len() {
            assert(s2[j - i] == s[j as int]);
        }
        lemma_token_len_is(s2, j - i);
    }
    if j >= n {
        return Ok((None, None, i));
    }
    let part = string_range(v, i, j);
    proof {
        assert(part@ =~= s2.take(j - i));
    }
    let d1 = match Date::parse(part.as_str()) {
        Ok(d) => d,
        Err(_) => {
            return Ok((None, None, i));
        },
    };
    let ghost rest = s2.skip(j - i + 1);
    proof {
        assert(rest =~= s.skip(j + 1));
    }
    // A second date token makes the first the completion date.
    let mut j2: usize = j + 1;
    while j2 < n && !space_char(v[j2])
        invariant
            j + 1 <= j2 <= n,
            n == s.len(),
            s == v@,
            forall|k: int| j + 1 <= k < j2 ==> !is_space_char(s[k]),
        decreases n - j2,
    {
        j2 = j2 + 1;
    }
    proof {
        assert forall|k: int| 0 <= k < j2 - j - 1 implies !is_space_char(rest[k]) by {
            assert(rest[k] == s[j + 1 + k]);
        }
        if j2 - j - 1 < rest.len() {
            assert(rest[j2 - j - 1] == s[j2 as int]);
        }
        lemma_token_len_is(rest, j2 - j - 1);
    }
    if j2 < n {
        let part2 = string_range(v, j + 1, j2);
        proof {
            assert(part2@ =~= rest.take(j2 - j - 1));
        }
        match Date::parse(part2.as_str()) {
            Ok(d2) => {
                if !done {
                    return Err(Error::new("Completion date present on uncompleted todo"));
                }
                proof {
                    assert(rest.skip(j2 - j - 1 + 1) =~= s.skip(j2 + 1));
                }
                return Ok((Some(d2), Some(d1), j2 + 1));
            },
            Err(_) => {},
        }
    }
    Ok((Some(d1), None, j + 1))
}

impl Todo {
    /// Builds a record, rejecting a completion date without a creation date.
    pub fn new(
        done: bool,
        priority: Option<char>,
        created: Option<Date>,
        completed: Option<Date>,
        description: String,
    ) -> (r: Result<Todo, Error>)
        ensures
            r is Ok <==> !(completed is Some && created is None),
            r matches Ok(t) ==> t == (Todo { done, priority, created, completed, description }),
    {
        if completed.is_some() && created.is_none() {
            return Err(
                Error::new("Can't have a Todo with a completion date and not a creation date"),
            );
        }
        Ok(Todo { done, priority, created, completed, description })
    }

    /// Serializes the record to its line.
    #[verifier::rlimit(50)]
    pub fn serialize(&self) -> (r: String)
        ensures
            r@ == spec_serialize(self@),
    {
        let mut out = String::new();
        if self.done {
            out.push('x');
            out.push(' ');
        }
        if let Some(c) = self.priority {
            out.push('(');
            out.push(c);
            out.push(')');
            out.push(' ');
        }
        if let Some(d) = self.completed {
            let ds = d.format();
            out.append(ds.as_str());
            out.push(' ');
        }
        if let Some(d) = self.created {
            let ds = d.format();
            out.append(ds.as_str());
            out.push(' ');
        }
        out.append(self.description.as_str());
        proof {
            assert(out@ =~= spec_serialize(self@));
        }
        out
    }

    /// Parses one line into a record.
    #[verifier::rlimit(100)]
    pub fn parse(line: &str) -> (r: Result<Todo, Error>)
        ensures
            spec_parse_line(line@) matches Some(v) ==> r matches Ok(t) && t@ == v,
            spec_parse_line(line@) is None ==> r is Err,
    {
        let v = chars_of(line);
        let ghost s = line@;
        let n = v.len();

        // Completion flag: `x` followed by any whitespace character.
        let mut done = false;
        let mut i: usize = 0;
        if n >= 2 && v[0] == 'x' && space_char(v[1]) {
            done = true;
            i = 2;
        }
        let ghost s1 = if done {
            s.skip(2)
        } else {
            s
        };
        proof {
            assert(done == (s.len() >= 2 && s[0] == 'x' && is_space_char(s[1])));
            assert(s1 =~= s.skip(i as int));
        }

        // Priority marker.
        let mut priority: Option<char> = None;
        if n - i >= 4 && v[i] == '(' && upper_char(v[i + 1]) && v[i + 2] == ')' && space_char(
            v[i + 3],
        ) {
            proof {
                assert(s1[0] == s[i as int]);
                assert(s1[1] == s[i + 1]);
                assert(s1[2] == s[i + 2]);
                assert(s1[3] == s[i + 3]);
                assert(has_priority(s1));
            }
            priority = Some(v[i + 1]);
            let base = i + 3;
            let mut p = base;
            while p < n && space_char(v[p])
                invariant
                    base <= p <= n,
                    n == s.len(),
                    s == v@,
                    forall|k: int| base <= k < p ==> is_space_char(s[k]),
                decreases n - p,
            {
                p = p + 1;
            }
            proof {
                let tail = s1.skip(3);
                assert forall|k: int| 0 <= k < p - base implies is_space_char(tail[k]) by {
                    assert(tail[k] == s[base + k]);
                }
                if p - base < tail.len() {
                    assert(tail[p - base] == s[p as int]);
                }
                lemma_space_run_is(tail, p - base);
            }
            i = p;
        } else {
            proof {
                if has_priority(s1) {
                    assert(s1[0] == s[i as int]);
                    assert(s1[1] == s[i + 1]);
                    assert(s1[2] == s[i + 2]);
                    assert(s1[3] == s[i + 3]);
                }
            }
        }
        let ghost s2 = if has_priority(s1) {
            s1.skip(3 + space_run(s1.skip(3)) as int)
        } else {
            s1
        };
        proof {
            assert(s2 =~= s.skip(i as int));
        }

        // Up to two leading date tokens.
        let (created, completed, after) = match parse_dates(&v, i, done) {
            Ok(t) => t,
            Err(e) => {
                return Err(e);
            },
        };
        i = after;

        // The description: what remains, less leading whitespace.
        let ghost s3 = s.skip(i as int);
        let mut d: usize = i;
        while d < n && space_char(v[d])
            invariant
                i <= d <= n,
                n == s.len(),
                s == v@,
                forall|k: int| i <= k < d ==> is_space_char(s[k]),
            decreases n - d,
        {
            d = d + 1;
        }
        proof {
            assert forall|k: int| 0 <= k < d - i implies is_space_char(s3[k]) by {
                assert(s3[k] == s[i + k]);
            }
            if d - i < s3.len() {
                assert(s3[d - i] == s[d as int]);
            }
            lemma_space_run_is(s3, d - i);
            assert(s3.skip(space_run(s3) as int) =~= s.skip(d as int));
        }
        let description = string_range(&v, d, n);
        proof {
            assert(description@ =~= s.skip(d as int));
        }
        Ok(Todo { done, priority, created, completed, description })
    }

    // -----------------------------------------------------------------------
    // Metadata helpers
    // -----------------------------------------------------------------------

    /// All metadata tags embedded in the description, left to right; the
    /// description itself is left untouched.
    pub fn find_meta(&self) -> (r: Vec<DescriptionPart>)
        ensures
            part_views(r@) == find_tags(self.description@),
    {
        let v = chars_of(self.description.as_str());
        scan_tags(&v)
    }

    /// The tags as a vector (the extraction itself, materialized).
    pub fn get_tag(&self) -> (r: Vec<DescriptionPart>)
        ensures
            part_views(r@) == find_tags(self.description@),
    {
        self.find_meta()
    }

    /// Does the description carry this exact tag?
    pub fn has_tag(&self, tag: &DescriptionPart) -> (r: bool)
        ensures
            r == find_tags(self.description@).contains(tag@),
    {
        let parts = self.find_meta();
        let ghost found = find_tags(self.description@);
        let mut k: usize = 0;
        while k < parts.len()
            invariant
                0 <= k <= parts@.len(),
                found == find_tags(self.description@),
                part_views(parts@) == found,
                forall|m: int| 0 <= m < k ==> parts@[m]@ != tag@,
            decreases parts@.len() - k,
        {
            if parts[k] == *tag {
                proof {
                    assert(part_views(parts@)[k as int] == parts@[k as int]@);
                    assert(find_tags(self.description@)[k as int] == tag@);
                }
                return true;
            }
            k = k + 1;
        }
        assert forall|m: int| 0 <= m < found.len() implies found[m] != tag@ by {
            assert(part_views(parts@)[m] == parts@[m]@);
        }
        false
    }

    /// Does the description carry the context tag `@ctx`?
    pub fn has_context(&self, ctx: &str) -> (r: bool)
        ensures
            r == find_tags(self.description@).contains(PartView::Context(ctx@)),
    {
        let tag = DescriptionPart::Context(ctx.to_owned());
        self.has_tag(&tag)
    }

    /// Does the description carry the project tag `+name`?
    pub fn has_project(&self, name: &str) -> (r: bool)
        ensures
            r == find_tags(self.description@).contains(PartView::Project(name@)),
    {
        let tag = DescriptionPart::Project(name.to_owned());
        self.has_tag(&tag)
    }

    /// The value of the first `key:value` data tag with this key, if any.
    pub fn get_data(&self, key: &str) -> (r: Option<String>)
        ensures
            match first_data_value(find_tags(self.description@), key@) {
                Some(val) => r matches Some(rv) && rv@ == val,
                None => r is None,
            },
    {
        let key_owned: String = key.to_owned();
        let parts = self.find_meta();
        let ghost found = find_tags(self.description@);
        proof {
            assert(found.skip(0) =~= found);
        }
        let mut k: usize = 0;
        while k < parts.len()
            invariant
                0 <= k <= parts@.len(),
                key_owned@ == key@,
                found == find_tags(self.description@),
                part_views(parts@) == found,
                first_data_value(found, key@) == first_data_value(found.skip(k as int), key@),
            decreases parts@.len() - k,
        {
            proof {
                assert(found.skip(k as int)[0] == parts@[k as int]@);
                assert(found.skip(k as int).skip(1) =~= found.skip(k + 1));
            }
            match &parts[k] {
                DescriptionPart::Data(k0, v0) => {
                    if *k0 == key_owned {
                        proof {
                            assert(parts@[k as int]@ == PartView::Data(k0@, v0@));
                            assert(found.skip(k as int)[0] == PartView::Data(k0@, v0@));
                            assert(first_data_value(found.skip(k as int), key@) == Some(v0@));
                        }
                        return Some(v0.clone());
                    }
                },
                _ => {},
            }
            k = k + 1;
        }
        proof {
            assert(found.skip(k as int) =~= Seq::<PartView>::empty());
        }
        None
    }

    /// Escapes tag-like text so that extraction no longer finds it, keeping
    /// the visible characters.
    pub fn escape_description(desc: &str) -> (r: String)
        ensures
            r@ == escape_tags(desc@),
    {
        let v = chars_of(desc);
        let out = escape_chars(&v);
        string_of(&out)
    }

    /// Appends a rendered tag to the description: it becomes the whole
    /// description when that is empty, follows directly after trailing
    /// whitespace, and is set off with a single space otherwise.
    pub fn append_tag(&mut self, part: &DescriptionPart)
        ensures
            final(self).description@ == append_part_chars(old(self).description@, part@),
            final(self).done == old(self).done,
            final(self).priority == old(self).priority,
            final(self).created == old(self).created,
            final(self).completed == old(self).completed,
    {
        let rendered = part.render();
        let n = self.description.as_str().unicode_len();
        if n == 0 {
            self.description = rendered;
        } else {
            let last = self.description.as_str().get_char(n - 1);
            if !space_char(last) {
                self.description.push(' ');
            }
            self.description.append(rendered.as_str());
            proof {
                if !is_space_char(old(self).description@.last()) {
                    assert(self.description@ =~= append_part_chars(
                        old(self).description@,
                        part@,
                    ));
                }
            }
        }
    }
}

/// The value of the first data tag with the given key among the parts.
pub open spec fn first_data_value(parts: Seq<PartView>, key: Seq<char>) -> Option<Seq<char>>
    decreases parts.len(),
{
    if parts.len() == 0 {
        None
    } else {
        match parts[0] {
            PartView::Data(k, v) => if k == key {
                Some(v)
            } else {
                first_data_value(parts.skip(1), key)
            },
            _ => first_data_value(parts.skip(1), key),
        }
    }
}

/// The records whose serialized line parses back to the record itself.
/// Besides the constructor's invariant this asks: a completed record is done
/// and carries valid dates, the priority is a real uppercase letter, and the
/// description does not imitate a part that the parser would consume (no
/// leading whitespace, no leading `x ` or `(P) ` marker where no earlier
/// part shields it, and no leading date token where one would be read).
pub open spec fn round_trippable(v: TodoView) -> bool {
    &&& v.completed is Some ==> v.created is Some && v.done
    &&& (v.priority matches Some(c) ==> is_upper_char(c))
    &&& (v.created matches Some(d) ==> d.wf())
    &&& (v.completed matches Some(d) ==> d.wf())
    &&& v.description.len() > 0 ==> !is_space_char(v.description[0])
    &&& v.completed is None ==> no_leading_date(v.description)
    &&& (v.priority is None && v.created is None) ==> !has_priority(v.description)
    &&& (!v.done && v.priority is None && v.created is None) ==> !(v.description.len() >= 2
        && v.description[0] == 'x' && is_space_char(v.description[1]))
}

/// The text's first whitespace-delimited token, if the text has more than
/// one, is not a date.
pub open spec fn no_leading_date(s: Seq<char>) -> bool {
    token_len(s) < s.len() ==> spec_parse_date(s.take(token_len(s) as int)) is None
}

/// The date stage of the round trip: reading back the serialized dates
/// yields the record's dates and leaves exactly the description.
proof fn lemma_round_trip_dates(v: TodoView, s2: Seq<char>)
    requires
        round_trippable(v),
        s2 == (match v.completed {
            Some(d) => date_chars(d) + seq![' '],
            None => Seq::<char>::empty(),
        }) + (match v.created {
            Some(d) => date_chars(d) + seq![' '],
            None => Seq::<char>::empty(),
        }) + v.description,
    ensures
        spec_parse_dates(s2, v.done) matches Some(t) && t.0 == v.created && t.1 == v.completed
            && t.2.skip(space_run(t.2) as int) == v.description,
{
    let e = v.description;
    let done = v.done;
    if v.completed is Some {
        lemma_date_chars_shape(v.completed->0);
    }
    if v.created is Some {
        lemma_date_chars_shape(v.created->0);
    }
    if v.completed is Some {
        let dc = v.completed->0;
        let dr = v.created->0;
        let dd = date_chars(dr) + seq![' '];
        assert forall|k: int| 0 <= k < 10 implies !is_space_char(s2[k]) by {
            assert(s2[k] == date_chars(dc)[k]);
        }
        assert(s2[10] == ' ');
        lemma_token_len_is(s2, 10);
        assert(s2.take(10) =~= date_chars(dc));
        lemma_date_round_trip(dc);
        let rest = s2.skip(11);
        assert(rest =~= dd + e);
        assert forall|k: int| 0 <= k < 10 implies !is_space_char(rest[k]) by {
            assert(rest[k] == date_chars(dr)[k]);
        }
        assert(rest[10] == ' ');
        lemma_token_len_is(rest, 10);
        assert(rest.take(10) =~= date_chars(dr));
        lemma_date_round_trip(dr);
        let s3 = rest.skip(11);
        assert(s3 =~= e);
        lemma_space_run_is(s3, 0);
        assert(s3.skip(space_run(s3) as int) =~= e);
        assert(spec_parse_dates(s2, done) == Some((Some(dr), Some(dc), s3)));
    } else if v.created is Some {
        let dr = v.created->0;
        assert forall|k: int| 0 <= k < 10 implies !is_space_char(s2[k]) by {
            assert(s2[k] == date_chars(dr)[k]);
        }
        assert(s2[10] == ' ');
        lemma_token_len_is(s2, 10);
        assert(s2.take(10) =~= date_chars(dr));
        lemma_date_round_trip(dr);
        let rest = s2.skip(11);
        assert(rest =~= e);
        // The description's first token is no date, so no second date is read.
        assert(token_len(rest) == token_len(e));
        if token_len(rest) < rest.len() {
            assert(rest.take(token_len(rest) as int) =~= e.take(token_len(e) as int));
        }
        lemma_space_run_is(rest, 0);
        assert(rest.skip(space_run(rest) as int) =~= e);
        assert(spec_parse_dates(s2, done) == Some((Some(dr), Option::<Date>::None, rest)));
    } else {
        assert(s2 =~= e);
        assert(token_len(s2) == token_len(e));
        if token_len(s2) < s2.len() {
            assert(s2.take(token_len(s2) as int) =~= e.take(token_len(e) as int));
        }
        lemma_space_run_is(s2, 0);
        assert(s2.skip(space_run(s2) as int) =~= e);
        assert(spec_parse_dates(s2, done) == Some(
            (Option::<Date>::None, Option::<Date>::None, s2),
        ));
    }
}

/// Round trip: serializing a record and parsing the line gives the record
/// back, for every record within `round_trippable`.
#[verifier::rlimit(100)]
pub proof fn lemma_parse_serialize(v: TodoView)
    requires
        round_trippable(v),
    ensures
        spec_parse_line(spec_serialize(v)) == Some(v),
{
    let s = spec_serialize(v);
    let a: Seq<char> = if v.done {
        seq!['x', ' ']
    } else {
        Seq::<char>::empty()
    };
    let b: Seq<char> = match v.priority {
        Some(c) => seq!['(', c, ')', ' '],
        None => Seq::<char>::empty(),
    };
    let c: Seq<char> = match v.completed {
        Some(d) => date_chars(d) + seq![' '],
        None => Seq::<char>::empty(),
    };
    let dd: Seq<char> = match v.created {
        Some(d) => date_chars(d) + seq![' '],
        None => Seq::<char>::empty(),
    };
    let e = v.description;
    assert(s == a + b + c + dd + e);
    if v.completed is Some {
        lemma_date_chars_shape(v.completed->0);
    }
    if v.created is Some {
        lemma_date_chars_shape(v.created->0);
    }
    // What the text after any flag and priority starts with.
    let cde = c + dd + e;
    assert(cde.len() > 0 ==> (is_digit_char(cde[0]) || !is_space_char(cde[0]))) by {
        if c.len() > 0 {
            assert(cde[0] == date_chars(v.completed->0)[0]);
        } else if dd.len() > 0 {
            assert(cde[0] == date_chars(v.created->0)[0]);
        } else if e.len() > 0 {
            assert(cde[0] == e[0]);
        }
    }
    assert(cde.len() > 0 ==> !is_space_char(cde[0]));

    // Stage 1: the completion flag.
    let done = s.len() >= 2 && s[0] == 'x' && is_space_char(s[1]);
    if v.done {
        assert(s[0] == 'x' && s[1] == ' ');
        assert(done);
    } else {
        assert(c =~= Seq::<char>::empty());
        if b.len() > 0 {
            assert(s[0] == '(');
        } else if dd.len() > 0 {
            assert(s =~= dd + e);
            assert(dd =~= date_chars(v.created->0) + seq![' ']);
            assert(s[0] == date_chars(v.created->0)[0]);
            assert(is_digit_char(s[0]) || s[0] == '-');
            assert(s[0] != 'x');
        } else {
            assert(s =~= e);
        }
        assert(!done);
    }
    assert(done == v.done);
    let s1 = if done {
        s.skip(2)
    } else {
        s
    };
    assert(s1 =~= b + cde);

    // Stage 2: the priority marker.
    if v.priority is Some {
        let c0 = v.priority->0;
        assert(s1[0] == '(' && s1[1] == c0 && s1[2] == ')' && s1[3] == ' ');
        assert(has_priority(s1));
        let tail = s1.skip(3);
        assert(tail =~= seq![' '] + cde);
        assert(tail[0] == ' ');
        if 1 < tail.len() {
            assert(tail[1] == cde[0]);
        }
        lemma_space_run_is(tail, 1);
        assert(s1.skip(3 + space_run(s1.skip(3)) as int) =~= cde);
    } else {
        if b.len() == 0 && c.len() == 0 && dd.len() == 0 {
            assert(s1 =~= e);
            assert(!has_priority(s1));
        } else {
            // The priority is absent, so a date starts the remaining text.
            assert(b.len() == 0);
            assert(s1 =~= cde);
            if c.len() > 0 {
                assert(cde[0] == date_chars(v.completed->0)[0]);
                assert(is_digit_char(cde[0]) || cde[0] == '-');
            } else {
                assert(dd.len() > 0);
                assert(cde =~= dd + e);
                assert(cde[0] == date_chars(v.created->0)[0]);
                assert(is_digit_char(cde[0]) || cde[0] == '-');
            }
            assert(s1[0] != '(');
            assert(!has_priority(s1));
        }
    }
    let s2 = if has_priority(s1) {
        s1.skip(3 + space_run(s1.skip(3)) as int)
    } else {
        s1
    };
    assert(s2 =~= cde);

    // Stage 3: the date tokens, and what remains as the description.
    lemma_round_trip_dates(v, s2);
}

/// How `append_tag` extends a description.
pub open spec fn append_part_chars(desc: Seq<char>, p: PartView) -> Seq<char> {
    if desc.len() == 0 {
        part_chars(p)
    } else if is_space_char(desc.last()) {
        desc + part_chars(p)
    } else {
        desc + seq![' '] + part_chars(p)
    }
}

} // verus!
