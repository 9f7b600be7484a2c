//! Turning one remote feed item into a task record: the date-only prefix of
//! each timestamp is parsed, the body is escaped unless that is disabled,
//! and the project, identifier and context tags are appended in order.

use vstd::prelude::*;
use crate::date::{spec_parse_date, Date};
use crate::error::Error;
use crate::tags::{escape_tags, DescriptionPart, PartView};
use crate::text::{chars_of, first_idx, lemma_first_idx_is, num_chars, push_num_chars, string_of,
    string_range};
use crate::todo::{append_part_chars, Todo, TodoView};
use crate::reconcile::id_key;

verus! {

/// The date-only prefix of a feed timestamp: what stands before the first
/// `T`, which must be present.
pub open spec fn spec_date_prefix(s: Seq<char>) -> Option<Seq<char>> {
    let i = first_idx(s, 'T') as int;
    if i < s.len() {
        Some(s.take(i))
    } else {
        None
    }
}

/// The record a feed item converts to, or `None` where a timestamp cannot
/// be read.
pub open spec fn spec_feed_todo(
    body: Seq<char>,
    target_type: Seq<char>,
    action_name: Seq<char>,
    created_at: Seq<char>,
    updated_at: Seq<char>,
    done: bool,
    id: nat,
    project: Option<Seq<char>>,
    group: Option<Seq<char>>,
    escape_meta: bool,
    context_tag: Option<Seq<char>>,
) -> Option<TodoView> {
    let cp = spec_date_prefix(created_at);
    if cp is None || spec_parse_date(cp->0) is None {
        None
    } else if done && (spec_date_prefix(updated_at) is None || spec_parse_date(
        spec_date_prefix(updated_at)->0,
    ) is None) {
        None
    } else {
        let created = Some(spec_parse_date(cp->0)->0);
        let completed = if done {
            Some(spec_parse_date(spec_date_prefix(updated_at)->0)->0)
        } else {
            None
        };
        let text = if escape_meta {
            escape_tags(body)
        } else {
            body
        };
        let base = seq!['['] + target_type + seq![':'] + action_name + seq![']', ' '] + text;
        let with_project = match project {
            Some(p) => append_part_chars(base, PartView::Project(p)),
            None => match group {
                Some(g) => append_part_chars(base, PartView::Project(g)),
                None => base,
            },
        };
        let with_id = append_part_chars(with_project, PartView::Data(id_key(), num_chars(id)));
        let with_context = match context_tag {
            Some(c) => append_part_chars(with_id, PartView::Context(c)),
            None => with_id,
        };
        Some(
            TodoView {
                done,
                priority: None,
                created,
                completed,
                description: with_context,
            },
        )
    }
}

/// Reads the date from a feed timestamp: the part before the first `T`.
fn date_from_timestamp(raw: &str) -> (r: Result<Date, Error>)
    ensures
        match spec_date_prefix(raw@) {
            None => r is Err,
            Some(p) => match spec_parse_date(p) {
                Some(d) => r matches Ok(rd) && rd == d,
                None => r is Err,
            },
        },
{
    let v = chars_of(raw);
    let n = v.len();
    let mut i: usize = 0;
    while i < n && v[i] != 'T'
        invariant
            0 <= i <= n,
            n == v@.len(),
            v@ == raw@,
            forall|k: int| 0 <= k < i ==> raw@[k] != 'T',
        decreases n - i,
    {
        i = i + 1;
    }
    proof {
        lemma_first_idx_is(raw@, 'T', i as int);
    }
    if i >= n {
        return Err(Error::new("Couldn't parse date from timestamp"));
    }
    let prefix = string_range(&v, 0, i);
    proof {
        assert(prefix@ =~= raw@.take(i as int));
    }
    Date::parse(prefix.as_str())
}

/// Builds the record for one feed item.
pub fn feed_item_to_todo(
    body: &str,
    target_type: &str,
    action_name: &str,
    created_at: &str,
    updated_at: &str,
    done: bool,
    id: usize,
    project: Option<&str>,
    group: Option<&str>,
    escape_meta: bool,
    context_tag: Option<&str>,
) -> (r: Result<Todo, Error>)
    ensures
        ({
            let spec = spec_feed_todo(
                body@,
                target_type@,
                action_name@,
                created_at@,
                updated_at@,
                done,
                id as nat,
                match project {
                    Some(p) => Some(p@),
                    None => None,
                },
                match group {
                    Some(g) => Some(g@),
                    None => None,
                },
                escape_meta,
                match context_tag {
                    Some(c) => Some(c@),
                    None => None,
                },
            );
            match spec {
                Some(v) => r matches Ok(t) && t@ == v,
                None => r is Err,
            }
        }),
{
    let created = match date_from_timestamp(created_at) {
        Ok(d) => d,
        Err(e) => {
            return Err(e);
        },
    };
    let completed: Option<Date> = if done {
        match date_from_timestamp(updated_at) {
            Ok(d) => Some(d),
            Err(e) => {
                return Err(e);
            },
        }
    } else {
        None
    };
    let mut description = String::new();
    description.push('[');
    description.append(target_type);
    description.push(':');
    description.append(action_name);
    description.push(']');
    description.push(' ');
    if escape_meta {
        let escaped = Todo::escape_description(body);
        description.append(escaped.as_str());
    } else {
        description.append(body);
    }
    let mut todo = match Todo::new(done, None, Some(created), completed, description) {
        Ok(t) => t,
        Err(e) => {
            return Err(e);
        },
    };
    proof {
        assert(todo.description@ =~= seq!['['] + target_type@ + seq![':'] + action_name@ + seq![
            ']',
            ' ',
        ] + (if escape_meta {
            escape_tags(body@)
        } else {
            body@
        }));
    }
    match project {
        Some(p) => {
            let tag = DescriptionPart::Project(p.to_owned());
            todo.append_tag(&tag);
        },
        None => {
            match group {
                Some(g) => {
                    let tag = DescriptionPart::Project(g.to_owned());
                    todo.append_tag(&tag);
                },
                None => {},
            }
        },
    }
    let mut id_chars: Vec<char> = Vec::new();
    push_num_chars(&mut id_chars, id as u64);
    let id_tag = DescriptionPart::Data("id".to_owned(), string_of(&id_chars));
    proof {
        reveal_strlit("id");
        assert("id"@ =~= id_key());
        assert(id_tag@ == PartView::Data(id_key(), num_chars(id as nat)));
    }
    todo.append_tag(&id_tag);
    match context_tag {
        Some(c) => {
            let tag = DescriptionPart::Context(c.to_owned());
            todo.append_tag(&tag);
        },
        None => {},
    }
    Ok(todo)
}

} // verus!
