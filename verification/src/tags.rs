//! The metadata-tag sublanguage of a record's description.
//!
//! A tag is found inside a whitespace-delimited token of the description: a
//! head (`@`, `+`, or a word run followed by `:`) and a nonempty remainder,
//! the tag ending right after the token's last word character.  Escaping
//! inserts a backslash right before the head's final character, which keeps
//! the visible text but makes the head unrecognizable to extraction.

use vstd::prelude::*;
use crate::error::Error;
use crate::text::{
    chars_of, first_idx, is_space_char, is_word_char, last_word_end, lemma_first_idx_is,
    lemma_last_word_end_is, lemma_token_len, lemma_token_len_is, lemma_word_run_is, push_range,
    space_char, string_range, token_len, word_char, word_run,
};

verus! {

/// The abstract value of one metadata tag.
pub ghost enum PartView {
    Project(Seq<char>),
    Context(Seq<char>),
    Data(Seq<char>, Seq<char>),
}

/// One metadata tag as extracted from a description.
#[derive(Debug, Clone)]
pub enum DescriptionPart {
    Project(String),
    Context(String),
    Data(String, String),
}

impl View for DescriptionPart {
    type V = PartView;

    open spec fn view(&self) -> PartView {
        match self {
            DescriptionPart::Project(p) => PartView::Project(p@),
            DescriptionPart::Context(c) => PartView::Context(c@),
            DescriptionPart::Data(k, v) => PartView::Data(k@, v@),
        }
    }
}

pub open spec fn part_views(q: Seq<DescriptionPart>) -> Seq<PartView> {
    q.map_values(|p: DescriptionPart| p@)
}

/// The text a tag renders to: `+name`, `@name`, or `key:value`.
pub open spec fn part_chars(p: PartView) -> Seq<char> {
    match p {
        PartView::Project(n) => seq!['+'] + n,
        PartView::Context(n) => seq!['@'] + n,
        PartView::Data(k, v) => k + seq![':'] + v,
    }
}

// ---------------------------------------------------------------------------
// The tag grammar over one token
// ---------------------------------------------------------------------------

/// Length of a tag head at the start of token `t`: `1` for `@` or `+`, one
/// past the colon for `word:`, and `0` when `t` has no head.
pub open spec fn head_len(t: Seq<char>) -> int {
    if t.len() > 0 && (t[0] == '@' || t[0] == '+') {
        1
    } else {
        let w = word_run(t) as int;
        if w > 0 && w < t.len() && t[w] == ':' {
            w + 1
        } else {
            0
        }
    }
}

/// End of the tag in token `t` (one past the token's last word character),
/// or `0` when the token holds no tag: a tag needs a head and at least one
/// word character after it.
pub open spec fn tag_end(t: Seq<char>) -> int {
    let h = head_len(t);
    if h > 0 {
        let e = last_word_end(t) as int;
        if e > h {
            e
        } else {
            0
        }
    } else {
        0
    }
}

/// The tag value carried by token `t`; meaningful when `tag_end(t) > 0`.
pub open spec fn token_part(t: Seq<char>) -> PartView {
    let e = tag_end(t);
    if t[0] == '@' {
        PartView::Context(t.subrange(1, e))
    } else if t[0] == '+' {
        PartView::Project(t.subrange(1, e))
    } else {
        let w = word_run(t) as int;
        PartView::Data(t.subrange(0, w), t.subrange(w + 1, e))
    }
}

// ---------------------------------------------------------------------------
// Extraction and escaping over a whole description
// ---------------------------------------------------------------------------

/// All tags of `s`, in order of appearance.  A tag may start only at the
/// beginning of a whitespace-delimited token, and each token yields at most
/// one tag.
pub open spec fn find_tags(s: Seq<char>) -> Seq<PartView>
    decreases s.len(),
{
    if s.len() == 0 {
        Seq::empty()
    } else if is_space_char(s[0]) {
        find_tags(s.skip(1))
    } else {
        let n = token_len(s) as int;
        // The guard always holds (`lemma_token_len`); it keeps the recursion
        // visibly well-founded.
        if n <= s.len() {
            let t = s.take(n);
            (if tag_end(t) > 0 {
                seq![token_part(t)]
            } else {
                Seq::<PartView>::empty()
            }) + find_tags(s.skip(n))
        } else {
            Seq::empty()
        }
    }
}

/// One token with its tag neutralized: a backslash goes right before the
/// head's final character (`@`, `+`, or the colon after the key).
pub open spec fn escape_token(t: Seq<char>) -> Seq<char> {
    let h = head_len(t);
    if tag_end(t) > 0 {
        t.take(h - 1) + seq!['\\'] + t.skip(h - 1)
    } else {
        t
    }
}

/// The description with every extractable tag neutralized.
pub open spec fn escape_tags(s: Seq<char>) -> Seq<char>
    decreases s.len(),
{
    if s.len() == 0 {
        s
    } else if is_space_char(s[0]) {
        seq![s[0]] + escape_tags(s.skip(1))
    } else {
        let n = token_len(s) as int;
        // As in `find_tags`, the guard always holds.
        if n <= s.len() {
            escape_token(s.take(n)) + escape_tags(s.skip(n))
        } else {
            s
        }
    }
}

// ---------------------------------------------------------------------------
// Structure lemmas
// ---------------------------------------------------------------------------

/// Extraction and escaping of a string that starts with one whole token.
pub proof fn lemma_leading_token(u: Seq<char>, w: Seq<char>)
    requires
        u.len() > 0,
        forall|k: int| 0 <= k < u.len() ==> !is_space_char(u[k]),
        w.len() > 0 ==> is_space_char(w[0]),
    ensures
        find_tags(u + w) == (if tag_end(u) > 0 {
            seq![token_part(u)]
        } else {
            Seq::<PartView>::empty()
        }) + find_tags(w),
        escape_tags(u + w) == escape_token(u) + escape_tags(w),
{
    let s = u + w;
    assert(s[0] == u[0]);
    assert forall|k: int| 0 <= k < u.len() implies !is_space_char(s[k]) by {
        assert(s[k] == u[k]);
    }
    if u.len() < s.len() {
        assert(s[u.len() as int] == w[0]);
    }
    lemma_token_len_is(s, u.len() as int);
    assert(s.take(u.len() as int) =~= u);
    assert(s.skip(u.len() as int) =~= w);
}

/// Escaping never changes whether the text is empty or starts with a space.
pub proof fn lemma_escape_head_shape(s: Seq<char>)
    ensures
        escape_tags(s).len() == 0 <==> s.len() == 0,
        s.len() > 0 ==> (is_space_char(escape_tags(s)[0]) <==> is_space_char(s[0])),
{
    if s.len() == 0 {
    } else if is_space_char(s[0]) {
        assert(escape_tags(s)[0] == s[0]);
    } else {
        lemma_token_len(s);
        let n = token_len(s) as int;
        let t = s.take(n);
        assert(t[0] == s[0]);
        let h = head_len(t);
        if tag_end(t) > 0 {
            let et = escape_token(t);
            if h == 1 {
                assert(et[0] == '\\');
            } else {
                assert(et[0] == t[0]);
            }
            assert(et.len() > 0);
            assert(escape_tags(s)[0] == et[0]);
            assert(!is_space_char(et[0]));
        } else {
            assert(escape_tags(s)[0] == t[0]);
        }
    }
}

/// A token whose tag was neutralized carries no tag any more, and is still a
/// single nonempty token.
pub proof fn lemma_escape_token(t: Seq<char>)
    requires
        t.len() > 0,
        forall|k: int| 0 <= k < t.len() ==> !is_space_char(t[k]),
    ensures
        escape_token(t).len() > 0,
        forall|k: int| 0 <= k < escape_token(t).len() ==> !is_space_char(escape_token(t)[k]),
        tag_end(escape_token(t)) == 0,
{
    let h = head_len(t);
    let et = escape_token(t);
    if tag_end(t) > 0 {
        assert(et =~= t.take(h - 1) + seq!['\\'] + t.skip(h - 1));
        assert forall|k: int| 0 <= k < et.len() implies !is_space_char(et[k]) by {
            if k < h - 1 {
                assert(et[k] == t[k]);
            } else if k == h - 1 {
                assert(et[k] == '\\');
            } else {
                assert(et[k] == t[k - 1]);
            }
        }
        if t[0] == '@' || t[0] == '+' {
            assert(h == 1);
            assert(et[0] == '\\');
            assert(word_run(et) == 0) by {
                assert(!is_word_char('\\'));
            }
            assert(head_len(et) == 0);
        } else {
            let w = word_run(t) as int;
            crate::text::lemma_word_run(t);
            assert(w > 0 && t[w] == ':');
            assert(h == w + 1);
            // The escaped token keeps the key's word run, now stopped by the
            // backslash instead of the colon.
            assert forall|k: int| 0 <= k < w implies is_word_char(et[k]) by {
                assert(et[k] == t[k]);
            }
            assert(et[w] == '\\');
            assert(!is_word_char('\\'));
            lemma_word_run_is(et, w);
            assert(et[0] == t[0]);
            assert(is_word_char(t[0]));
            assert(t[0] != '@' && t[0] != '+');
            assert(head_len(et) == 0);
        }
    }
}

/// After escaping, extraction finds nothing: every tag's head was broken and
/// no new token or head was created.
pub proof fn lemma_escape_finds_nothing(s: Seq<char>)
    ensures
        find_tags(escape_tags(s)) == Seq::<PartView>::empty(),
    decreases s.len(),
{
    if s.len() == 0 {
    } else if is_space_char(s[0]) {
        let tail = s.skip(1);
        lemma_escape_finds_nothing(tail);
        let es = escape_tags(s);
        assert(es == seq![s[0]] + escape_tags(tail));
        assert(es[0] == s[0]);
        assert(es.skip(1) =~= escape_tags(tail));
    } else {
        lemma_token_len(s);
        let n = token_len(s) as int;
        let t = s.take(n);
        let rest = s.skip(n);
        assert forall|k: int| 0 <= k < t.len() implies !is_space_char(t[k]) by {
            assert(t[k] == s[k]);
        }
        lemma_escape_token(t);
        lemma_escape_head_shape(rest);
        if rest.len() > 0 {
            assert(rest[0] == s[n]);
        }
        lemma_leading_token(escape_token(t), escape_tags(rest));
        lemma_escape_finds_nothing(rest);
        assert(escape_tags(s) == escape_token(t) + escape_tags(rest));
    }
}

// ---------------------------------------------------------------------------
// Escaping preserves plain text
// ---------------------------------------------------------------------------

/// Text free of whitespace and of the three delimiter characters a tag head
/// can end in.
pub open spec fn plain_text(p: Seq<char>) -> bool {
    forall|k: int|
        0 <= k < p.len() ==> !is_space_char(p[k]) && p[k] != '@' && p[k] != '+' && p[k] != ':'
}

pub open spec fn occurs_at(s: Seq<char>, p: Seq<char>, a: int) -> bool {
    0 <= a && a + p.len() <= s.len() && s.subrange(a, a + p.len()) == p
}

pub open spec fn occurs_in(s: Seq<char>, p: Seq<char>) -> bool {
    exists|a: int| occurs_at(s, p, a)
}

/// A nonempty plain substring of a description survives escaping intact:
/// every inserted backslash lands right before a delimiter character, and a
/// plain substring contains none.
pub proof fn lemma_escape_preserves_plain(s: Seq<char>, p: Seq<char>)
    requires
        p.len() > 0,
        plain_text(p),
        occurs_in(s, p),
    ensures
        occurs_in(escape_tags(s), p),
    decreases s.len(),
{
    let a = choose|a: int| occurs_at(s, p, a);
    assert forall|k: int| 0 <= k < p.len() implies s[a + k] == #[trigger] p[k] by {
        assert(s.subrange(a, a + p.len())[k] == s[a + k]);
    }
    if is_space_char(s[0]) {
        let tail = s.skip(1);
        assert(a >= 1) by {
            if a == 0 {
                assert(p[0] == s[0]);
            }
        }
        assert(occurs_at(tail, p, a - 1)) by {
            assert(tail.subrange(a - 1, a - 1 + p.len()) =~= p);
        }
        lemma_escape_preserves_plain(tail, p);
        let b = choose|b: int| occurs_at(escape_tags(tail), p, b);
        let es = escape_tags(s);
        assert(es == seq![s[0]] + escape_tags(tail));
        assert(occurs_at(es, p, b + 1)) by {
            assert(es.subrange(b + 1, b + 1 + p.len()) =~= escape_tags(tail).subrange(
                b,
                b + p.len(),
            ));
        }
    } else {
        lemma_token_len(s);
        let n = token_len(s) as int;
        let t = s.take(n);
        let rest = s.skip(n);
        let et = escape_token(t);
        let es = escape_tags(s);
        assert(es == et + escape_tags(rest));
        if a + p.len() <= n {
            // The occurrence lies inside the leading token.
            let h = head_len(t);
            assert forall|k: int| 0 <= k < p.len() implies t[a + k] == #[trigger] p[k] by {
                assert(t[a + k] == s[a + k]);
            }
            if tag_end(t) > 0 {
                assert(et =~= t.take(h - 1) + seq!['\\'] + t.skip(h - 1));
                // The insertion point h-1 carries a delimiter, so it cannot
                // fall strictly inside the occurrence.
                assert(t[h - 1] == '@' || t[h - 1] == '+' || t[h - 1] == ':') by {
                    if t[0] != '@' && t[0] != '+' {
                        assert(t[h - 1] == t[word_run(t) as int]);
                    }
                }
                if a <= h - 1 < a + p.len() {
                    assert(p[h - 1 - a] == t[h - 1]);
                    assert(false);
                }
                if a + p.len() <= h - 1 {
                    assert forall|k: int| 0 <= k < p.len() implies es.subrange(a, a + p.len())[k]
                        == #[trigger] p[k] by {
                        assert(et[a + k] == t[a + k]);
                        assert(es[a + k] == et[a + k]);
                    }
                    assert(es.subrange(a, a + p.len()) =~= p);
                    assert(occurs_at(es, p, a));
                } else {
                    assert(a >= h);
                    assert forall|k: int| 0 <= k < p.len() implies es.subrange(
                        a + 1,
                        a + 1 + p.len(),
                    )[k] == #[trigger] p[k] by {
                        assert(et[a + 1 + k] == t[a + k]);
                        assert(es[a + 1 + k] == et[a + 1 + k]);
                    }
                    assert(es.subrange(a + 1, a + 1 + p.len()) =~= p);
                    assert(occurs_at(es, p, a + 1));
                }
            } else {
                assert(et == t);
                assert forall|k: int| 0 <= k < p.len() implies es.subrange(a, a + p.len())[k]
                    == #[trigger] p[k] by {
                    assert(es[a + k] == t[a + k]);
                }
                assert(es.subrange(a, a + p.len()) =~= p);
                assert(occurs_at(es, p, a));
            }
        } else {
            // The occurrence cannot touch the separating space, so it lies
            // wholly inside the remainder.
            assert(n < s.len());
            assert(is_space_char(s[n]));
            assert(a > n) by {
                if a <= n {
                    assert(p[n - a] == s[n]);
                }
            }
            assert(occurs_at(rest, p, a - n)) by {
                assert(rest.subrange(a - n, a - n + p.len()) =~= p);
            }
            lemma_escape_preserves_plain(rest, p);
            let b = choose|b: int| occurs_at(escape_tags(rest), p, b);
            assert forall|k: int| 0 <= k < p.len() implies es.subrange(
                et.len() + b,
                et.len() + b + p.len(),
            )[k] == #[trigger] p[k] by {
                assert(es[et.len() + b + k] == escape_tags(rest)[b + k]);
                assert(escape_tags(rest).subrange(b, b + p.len())[k] == escape_tags(rest)[b + k]);
            }
            assert(es.subrange(et.len() + b, et.len() + b + p.len()) =~= p);
            assert(occurs_at(es, p, et.len() + b));
        }
    }
}

// ---------------------------------------------------------------------------
// Executable extraction and escaping
// ---------------------------------------------------------------------------

/// Measures the token starting at `i`: its end `j`, and, when it carries a
/// tag head, one past the head (`h`, `0` otherwise) and one past the token's
/// last word character (`e`).
fn analyze_token(v: &Vec<char>, i: usize) -> (r: (usize, usize, usize))
    requires
        i < v@.len(),
        !is_space_char(v@[i as int]),
    ensures
        i < r.0 <= v@.len(),
        token_len(v@.skip(i as int)) == r.0 - i,
        ({
            let t = v@.subrange(i as int, r.0 as int);
            if r.1 == 0 {
                tag_end(t) == 0
            } else {
                &&& i < r.1 <= r.0
                &&& head_len(t) == r.1 - i
                &&& last_word_end(t) == r.2 - i
                &&& i <= r.2 <= r.0
                &&& tag_end(t) == (if r.2 > r.1 {
                    r.2 - i
                } else {
                    0
                })
            }
        }),
{
    let ghost s = v@;
    let n = v.len();
    // End of the token: the next space or the end of the text.
    let mut j: usize = i;
    while j < n && !space_char(v[j])
        invariant
            i <= j <= n,
            n == s.len(),
            s == v@,
            forall|k: int| i <= k < j ==> !is_space_char(s[k]),
        decreases n - j,
    {
        j = j + 1;
    }
    let ghost sub = s.skip(i as int);
    let ghost t = s.subrange(i as int, j as int);
    proof {
        assert forall|k: int| 0 <= k < j - i implies !is_space_char(sub[k]) by {
            assert(sub[k] == s[i + k]);
        }
        if j - i < sub.len() {
            assert(sub[j - i] == s[j as int]);
        }
        lemma_token_len_is(sub, j - i);
        assert(t[0] == s[i as int]);
    }
    // The word run at the token's start.
    let mut w: usize = i;
    while w < j && word_char(v[w])
        invariant
            i <= w <= j <= n,
            n == s.len(),
            s == v@,
            forall|k: int| i <= k < w ==> is_word_char(s[k]),
        decreases j - w,
    {
        w = w + 1;
    }
    proof {
        assert forall|k: int| 0 <= k < w - i implies is_word_char(t[k]) by {
            assert(t[k] == s[i + k]);
        }
        if w - i < t.len() {
            assert(t[w - i] == s[w as int]);
        }
        lemma_word_run_is(t, w - i);
    }
    let c0 = v[i];
    let mut h: usize = 0;
    if c0 == '@' || c0 == '+' {
        h = i + 1;
        assert(head_len(t) == 1);
    } else if w > i && w < j && v[w] == ':' {
        h = w + 1;
        assert(head_len(t) == w + 1 - i) by {
            assert(t[w - i] == s[w as int]);
        }
    } else {
        assert(head_len(t) == 0) by {
            if w - i < t.len() {
                assert(t[w - i] == s[w as int]);
            }
        }
        return (j, 0, 0);
    }
    // One past the token's last word character.
    let mut e: usize = j;
    while e > i && !word_char(v[e - 1])
        invariant
            i <= e <= j <= n,
            n == s.len(),
            s == v@,
            forall|m: int| e <= m < j ==> !is_word_char(s[m]),
        decreases e,
    {
        e = e - 1;
    }
    proof {
        assert forall|m: int| e - i <= m < t.len() implies !is_word_char(t[m]) by {
            assert(t[m] == s[i + m]);
        }
        if e > i {
            assert(t[e - i - 1] == s[e - 1]);
        }
        lemma_last_word_end_is(t, e - i);
    }
    (j, h, e)
}

/// Extracts all metadata tags of the text, left to right.
#[verifier::rlimit(100)]
pub fn scan_tags(v: &Vec<char>) -> (r: Vec<DescriptionPart>)
    ensures
        part_views(r@) == find_tags(v@),
{
    let ghost s = v@;
    let mut r: Vec<DescriptionPart> = Vec::new();
    proof {
        assert(part_views(r@) =~= Seq::<PartView>::empty());
        assert(s.skip(0) =~= s);
    }
    let mut i: usize = 0;
    while i < v.len()
        invariant
            0 <= i <= s.len(),
            s == v@,
            find_tags(s) == part_views(r@) + find_tags(s.skip(i as int)),
        decreases s.len() - i,
    {
        let ghost sub = s.skip(i as int);
        if space_char(v[i]) {
            proof {
                assert(sub[0] == s[i as int]);
                assert(sub.skip(1) =~= s.skip(i + 1));
            }
            i = i + 1;
        } else {
            proof {
                assert(sub[0] == s[i as int]);
            }
            let (j, h, e) = analyze_token(v, i);
            let ghost t = s.subrange(i as int, j as int);
            proof {
                assert(sub.take(j - i) =~= t);
                assert(sub.skip(j - i) =~= s.skip(j as int));
            }
            if h > 0 && e > h {
                assert(tag_end(t) == e - i);
                let c0 = v[i];
                let part: DescriptionPart = if c0 == '@' {
                    DescriptionPart::Context(string_range(v, i + 1, e))
                } else if c0 == '+' {
                    DescriptionPart::Project(string_range(v, i + 1, e))
                } else {
                    DescriptionPart::Data(string_range(v, i, h - 1), string_range(v, h, e))
                };
                proof {
                    assert(t.subrange(1, e - i) =~= s.subrange(i + 1, e as int));
                    assert(t.subrange(0, h - 1 - i) =~= s.subrange(i as int, h - 1));
                    assert(t.subrange(h - i, e - i) =~= s.subrange(h as int, e as int));
                    assert(part@ == token_part(t));
                    assert(part_views(r@.push(part)) =~= part_views(r@).push(part@));
                }
                r.push(part);
            } else {
                assert(tag_end(t) == 0);
            }
            i = j;
        }
    }
    proof {
        assert(s.skip(i as int) =~= Seq::<char>::empty());
        assert(part_views(r@) + find_tags(s.skip(i as int)) =~= part_views(r@));
    }
    r
}

/// Writes out one token, its tag neutralized if it has one.  `h` and `e`
/// are the head end and last-word end that `analyze_token` found.
fn emit_escaped_token(out: &mut Vec<char>, v: &Vec<char>, i: usize, j: usize, h: usize, e: usize)
    requires
        i < j <= v@.len(),
        ({
            let t = v@.subrange(i as int, j as int);
            if h == 0 {
                tag_end(t) == 0
            } else {
                &&& i < h <= j
                &&& i <= e <= j
                &&& head_len(t) == h - i
                &&& tag_end(t) == (if e > h {
                    e - i
                } else {
                    0
                })
            }
        }),
    ensures
        final(out)@ == old(out)@ + escape_token(v@.subrange(i as int, j as int)),
{
    let ghost t = v@.subrange(i as int, j as int);
    let ghost base = out@;
    if h > 0 && e > h {
        assert(tag_end(t) == e - i);
        push_range(out, v, i, h - 1);
        out.push('\\');
        push_range(out, v, h - 1, j);
        proof {
            assert(t.take(h - 1 - i) =~= v@.subrange(i as int, h - 1));
            assert(t.skip(h - 1 - i) =~= v@.subrange(h - 1, j as int));
            assert(out@ =~= base + escape_token(t));
        }
    } else {
        assert(tag_end(t) == 0);
        push_range(out, v, i, j);
        proof {
            assert(out@ =~= base + escape_token(t));
        }
    }
}

/// Escapes every extractable tag of the text.
#[verifier::rlimit(100)]
pub fn escape_chars(v: &Vec<char>) -> (r: Vec<char>)
    ensures
        r@ == escape_tags(v@),
{
    let ghost s = v@;
    let mut out: Vec<char> = Vec::new();
    proof {
        assert(s.skip(0) =~= s);
        assert(out@ + escape_tags(s) =~= escape_tags(s));
    }
    let mut i: usize = 0;
    while i < v.len()
        invariant
            0 <= i <= s.len(),
            s == v@,
            escape_tags(s) == out@ + escape_tags(s.skip(i as int)),
        decreases s.len() - i,
    {
        let ghost sub = s.skip(i as int);
        if space_char(v[i]) {
            proof {
                assert(sub[0] == s[i as int]);
                assert(sub.skip(1) =~= s.skip(i + 1));
                assert(out@.push(s[i as int]) + escape_tags(s.skip(i + 1)) =~= out@ + (seq![
                    sub[0],
                ] + escape_tags(sub.skip(1))));
            }
            out.push(v[i]);
            i = i + 1;
        } else {
            proof {
                assert(sub[0] == s[i as int]);
            }
            let (j, h, e) = analyze_token(v, i);
            let ghost t = s.subrange(i as int, j as int);
            proof {
                assert(sub.take(j - i) =~= t);
                assert(sub.skip(j - i) =~= s.skip(j as int));
            }
            let ghost base = out@;
            emit_escaped_token(&mut out, v, i, j, h, e);
            proof {
                assert(out@ + escape_tags(s.skip(j as int)) =~= base + (escape_token(sub.take(j
                    - i)) + escape_tags(sub.skip(j - i))));
            }
            i = j;
        }
    }
    proof {
        assert(s.skip(i as int) =~= Seq::<char>::empty());
        assert(out@ + escape_tags(s.skip(i as int)) =~= out@);
    }
    out
}

/// What `DescriptionPart::parse` accepts: `@name`, `+name`, or text with a
/// colon splitting it into key and value.
pub open spec fn spec_parse_part(s: Seq<char>) -> Option<PartView> {
    if s.len() > 0 && s[0] == '@' {
        Some(PartView::Context(s.skip(1)))
    } else if s.len() > 0 && s[0] == '+' {
        Some(PartView::Project(s.skip(1)))
    } else {
        let c = first_idx(s, ':') as int;
        if c < s.len() {
            Some(PartView::Data(s.take(c), s.skip(c + 1)))
        } else {
            None
        }
    }
}

impl DescriptionPart {
    /// Reads one rendered tag back: `@...` is a context, `+...` a project,
    /// and otherwise the first colon splits key from value.
    pub fn parse(s: &str) -> (r: Result<DescriptionPart, Error>)
        ensures
            spec_parse_part(s@) matches Some(p) ==> r matches Ok(rp) && rp@ == p,
            spec_parse_part(s@) is None ==> r is Err,
    {
        let v = chars_of(s);
        let n = v.len();
        if n > 0 && v[0] == '@' {
            proof {
                assert(v@.subrange(1, n as int) =~= s@.skip(1));
            }
            return Ok(DescriptionPart::Context(string_range(&v, 1, n)));
        }
        if n > 0 && v[0] == '+' {
            proof {
                assert(v@.subrange(1, n as int) =~= s@.skip(1));
            }
            return Ok(DescriptionPart::Project(string_range(&v, 1, n)));
        }
        let mut c: usize = 0;
        while c < n && v[c] != ':'
            invariant
                0 <= c <= n,
                n == v@.len(),
                forall|k: int| 0 <= k < c ==> v@[k] != ':',
            decreases n - c,
        {
            c = c + 1;
        }
        proof {
            lemma_first_idx_is(s@, ':', c as int);
        }
        if c < n {
            proof {
                assert(v@.subrange(0, c as int) =~= s@.take(c as int));
                assert(v@.subrange(c + 1, n as int) =~= s@.skip(c + 1));
            }
            Ok(
                DescriptionPart::Data(
                    string_range(&v, 0, c),
                    string_range(&v, c + 1, n),
                ),
            )
        } else {
            Err(Error::new("Couldn't parse description part"))
        }
    }

    /// Renders the tag as it stands in a description.
    pub fn render(&self) -> (r: String)
        ensures
            r@ == part_chars(self@),
    {
        match self {
            DescriptionPart::Project(n) => {
                let mut r = String::new();
                r.push('+');
                r.append(n.as_str());
                proof {
                    assert(r@ =~= part_chars(self@));
                }
                r
            },
            DescriptionPart::Context(n) => {
                let mut r = String::new();
                r.push('@');
                r.append(n.as_str());
                proof {
                    assert(r@ =~= part_chars(self@));
                }
                r
            },
            DescriptionPart::Data(k, val) => {
                let mut r = String::new();
                r.append(k.as_str());
                r.push(':');
                r.append(val.as_str());
                proof {
                    assert(r@ =~= part_chars(self@));
                }
                r
            },
        }
    }
}

impl PartialEq for DescriptionPart {
    /// Structural equality: same variant, same text.
    fn eq(&self, other: &Self) -> (r: bool) {
        match (self, other) {
            (DescriptionPart::Project(a), DescriptionPart::Project(b)) => *a == *b,
            (DescriptionPart::Context(a), DescriptionPart::Context(b)) => *a == *b,
            (DescriptionPart::Data(k1, v1), DescriptionPart::Data(k2, v2)) => *k1 == *k2 && *v1
                == *v2,
            _ => false,
        }
    }
}

impl vstd::std_specs::cmp::PartialEqSpecImpl for DescriptionPart {
    open spec fn obeys_eq_spec() -> bool {
        true
    }

    open spec fn eq_spec(&self, other: &Self) -> bool {
        self@ == other@
    }
}

} // verus!
