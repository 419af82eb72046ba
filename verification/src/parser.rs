//! A single todo.txt record.
//!
//! [`Todo::parse`] turns one line into a [`Todo`]: completion flag, priority,
//! the first and second bare date (read as creation and completion date),
//! first project, first context, all `key:value` tags, and the title, which
//! is what remains of the line once every recognized token is removed.  Each
//! field also has its own extractor, usable without a full parse.
//! [`Todo::render`] writes a record back in canonical field order.

use vstd::prelude::*;
use vstd::string::{StrSliceExecFns, StringExecFns};
use crate::chars::is_space_char;
use crate::scan::{
    word_end, find_plus_from, find_ctx_from, find_prio_from, find_due_from, scan_tags_from,
    scan_dates_from, scan_hashtags_from, strip_tokens_from, trim_spaces, plus_at, ctx_at, prio_at,
    date_at, due_at, lemma_word_end_bounds, lemma_find_plus_from, lemma_find_ctx_from,
    lemma_find_prio_from, lemma_find_due_from, find_plus_x, find_ctx_x,
    find_prio_x, find_due_x, scan_tags_x, scan_dates_x, scan_hashtags_x, strip_tokens_x, trim_x,
    word_end_x, strings_view,
};
use crate::date::{Date, spec_date_token, read_date_at, date_string, date_chars};
use crate::tags::{TagMap, fold_pairs, distinct_keys};

verus! {

/// What can go wrong while reading a record.
#[derive(Clone, Copy, Debug, PartialEq, Eq, Structural)]
pub enum TodoErr {
    /// Nothing remains of the line once every recognized token is removed.
    NoTitle,
    /// A date-shaped token does not name a real calendar day.
    InvalidDate,
    /// A search pattern could not be compiled or matched.
    RegexParseErr,
}

/// The mathematical content of a record: every field as a plain sequence
/// value.
#[verifier::ext_equal]
pub struct TodoModel {
    pub title: Seq<char>,
    pub completed: bool,
    pub priority: Option<Seq<char>>,
    pub completion: Option<Date>,
    pub creation: Option<Date>,
    pub project: Option<Seq<char>>,
    pub context: Option<Seq<char>>,
    pub others: Seq<(Seq<char>, Seq<char>)>,
    pub content: Seq<char>,
}

/// The view of an optional string.
pub open spec fn os_view(o: Option<String>) -> Option<Seq<char>> {
    match o {
        Some(s) => Some(s@),
        None => None,
    }
}

// ---------------------------------------------------------------------------
// The parse, as a mathematical function of the line
// ---------------------------------------------------------------------------

/// The line opens with the completion marker: a literal `x` followed by
/// whitespace.
pub open spec fn has_marker(s: Seq<char>) -> bool {
    s.len() >= 2 && s[0] == 'x' && is_space_char(s[1])
}

/// The line with its completion marker (if any) stripped and the remainder
/// trimmed.
pub open spec fn marker_stripped(s: Seq<char>) -> Seq<char> {
    if has_marker(s) {
        trim_spaces(s.drop_first())
    } else {
        s
    }
}

/// The first `+word` token's word, if any.
pub open spec fn spec_project(s: Seq<char>) -> Option<Seq<char>> {
    match find_plus_from(s, 0) {
        Some(i) => Some(s.subrange(i + 1, word_end(s, i + 1))),
        None => None,
    }
}

/// The first `@word` token's word, if any.
pub open spec fn spec_context(s: Seq<char>) -> Option<Seq<char>> {
    match find_ctx_from(s, 0) {
        Some(i) => Some(s.subrange(i + 1, word_end(s, i + 1))),
        None => None,
    }
}

/// The first `(word)` token's word, if any.
pub open spec fn spec_priority(s: Seq<char>) -> Option<Seq<char>> {
    match find_prio_from(s, 0) {
        Some(i) => Some(s.subrange(i + 1, word_end(s, i + 1))),
        None => None,
    }
}

/// The tag map of the line: all `key:value` tokens, keys in first-occurrence
/// order, a later value under the same key replacing the earlier one.
pub open spec fn spec_tags(s: Seq<char>) -> Seq<(Seq<char>, Seq<char>)> {
    fold_pairs(scan_tags_from(s, 0))
}

/// All `#word` tokens, kept with their `#` prefix, in order.
pub open spec fn spec_hashtags(s: Seq<char>) -> Seq<Seq<char>> {
    scan_hashtags_from(s, 0)
}

/// The title of a content string: the marker (if still present) is stripped,
/// every recognized token is removed, and the residual is trimmed.
pub open spec fn spec_title(s: Seq<char>) -> Seq<char> {
    trim_spaces(strip_tokens_from(marker_stripped(s), 0))
}

/// The first and second bare date of the line, read as creation and
/// completion date; a date-shaped token among the first two that does not
/// name a real day is an error.
pub open spec fn spec_dates(s: Seq<char>) -> Result<(Option<Date>, Option<Date>), TodoErr> {
    let ds = scan_dates_from(s, 0);
    if ds.len() == 0 {
        Ok((None, None))
    } else {
        match spec_date_token(s, ds[0]) {
            None => Err(TodoErr::InvalidDate),
            Some(d1) => if ds.len() == 1 {
                Ok((Some(d1), None))
            } else {
                match spec_date_token(s, ds[1]) {
                    None => Err(TodoErr::InvalidDate),
                    Some(d2) => Ok((Some(d1), Some(d2))),
                }
            },
        }
    }
}

/// The date of the first `due:YYYY-MM-DD` token; a due token whose date is
/// not a real day is an error.
pub open spec fn spec_due(s: Seq<char>) -> Result<Option<Date>, TodoErr> {
    match find_due_from(s, 0) {
        None => Ok(None),
        Some(i) => match spec_date_token(s, i + 4) {
            None => Err(TodoErr::InvalidDate),
            Some(d) => Ok(Some(d)),
        },
    }
}

/// The full parse of a raw line.  An empty title is reported before an
/// invalid date, mirroring the order in which the fields are extracted.
pub open spec fn spec_parse(raw: Seq<char>) -> Result<TodoModel, TodoErr> {
    let c = marker_stripped(raw);
    let title = spec_title(c);
    if title.len() == 0 {
        Err(TodoErr::NoTitle)
    } else {
        match spec_dates(c) {
            Err(e) => Err(e),
            Ok((creation, completion)) => Ok(
                TodoModel {
                    title,
                    completed: has_marker(raw),
                    priority: spec_priority(c),
                    completion,
                    creation,
                    project: spec_project(c),
                    context: spec_context(c),
                    others: spec_tags(c),
                    content: c,
                },
            ),
        }
    }
}

/// The record with its completion flag flipped; no other field changes.
pub open spec fn spec_toggled(m: TodoModel) -> TodoModel {
    TodoModel { completed: !m.completed, ..m }
}

/// The record with an absent creation date replaced by `today` and an absent
/// priority replaced by the low priority `D`.
pub open spec fn spec_smart(m: TodoModel, today: Date) -> TodoModel {
    TodoModel {
        creation: if m.creation is Some {
            m.creation
        } else {
            Some(today)
        },
        priority: if m.priority is Some {
            m.priority
        } else {
            Some("D"@)
        },
        ..m
    }
}

// ---------------------------------------------------------------------------
// Rendering
// ---------------------------------------------------------------------------

/// Appends a token: a single space separates it from what is already there.
pub open spec fn add_tok(acc: Seq<char>, t: Seq<char>) -> Seq<char> {
    if acc.len() > 0 {
        acc + seq![' '] + t
    } else {
        t
    }
}

/// Appends every `key:value` tag as a token.
pub open spec fn render_tags(acc: Seq<char>, ps: Seq<(Seq<char>, Seq<char>)>) -> Seq<char>
    decreases ps.len(),
{
    if ps.len() == 0 {
        acc
    } else {
        render_tags(add_tok(acc, ps[0].0 + seq![':'] + ps[0].1), ps.drop_first())
    }
}

/// The canonical line of a record: completion marker, priority, completion
/// date, creation date, title, project, context, tags, joined by single
/// spaces.  The completion date stands before the creation date, the
/// conventional order of the format, which is the reverse of the order in
/// which the two are read.
pub open spec fn spec_render(m: TodoModel) -> Seq<char> {
    let a0: Seq<char> = if m.completed {
        "x"@
    } else {
        Seq::empty()
    };
    let a1 = match m.priority {
        Some(p) => add_tok(a0, seq!['('] + p + seq![')']),
        None => a0,
    };
    let a2 = match m.completion {
        Some(d) => add_tok(a1, date_chars(d)),
        None => a1,
    };
    let a3 = match m.creation {
        Some(d) => add_tok(a2, date_chars(d)),
        None => a2,
    };
    let a4 = add_tok(a3, m.title);
    let a5 = match m.project {
        Some(p) => add_tok(a4, seq!['+'] + p),
        None => a4,
    };
    let a6 = match m.context {
        Some(c) => add_tok(a5, seq!['@'] + c),
        None => a5,
    };
    render_tags(a6, m.others)
}

/// One `Label: value` line of a record description, or nothing when the
/// field is absent.
pub open spec fn opt_line(label: Seq<char>, o: Option<Seq<char>>) -> Seq<char> {
    match o {
        Some(t) => label + t + "\n"@,
        None => Seq::empty(),
    }
}

/// One `key: value` line per tag.
pub open spec fn summary_tags(acc: Seq<char>, ps: Seq<(Seq<char>, Seq<char>)>) -> Seq<char>
    decreases ps.len(),
{
    if ps.len() == 0 {
        acc
    } else {
        summary_tags(acc + ps[0].0 + ": "@ + ps[0].1 + "\n"@, ps.drop_first())
    }
}

/// The labelled lines of every field but the tags.
pub open spec fn spec_summary_head(m: TodoModel) -> Seq<char> {
    "Title: "@ + m.title + "\n"@ + (if m.completed {
        "Completed: Yes\n"@
    } else {
        "Completed: No\n"@
    }) + opt_line("Priority: "@, m.priority) + opt_line("Project: "@, m.project) + opt_line(
        "Context: "@,
        m.context,
    ) + (match m.creation {
        Some(d) => "Creation: "@ + date_chars(d) + "\n"@,
        None => Seq::empty(),
    }) + (match m.completion {
        Some(d) => "Completion: "@ + date_chars(d) + "\n"@,
        None => Seq::empty(),
    })
}

/// A multi-line description of a record, one labelled line per present
/// field.
pub open spec fn spec_summary(m: TodoModel) -> Seq<char> {
    summary_tags(spec_summary_head(m), m.others)
}

// ---------------------------------------------------------------------------
// The record
// ---------------------------------------------------------------------------

/// One todo.txt record.
#[derive(Debug)]
pub struct Todo {
    /// The title: the line with every recognized token removed.
    pub title: String,
    /// Whether the line opened with the completion marker.
    pub completed: bool,
    /// The word of the first `(word)` token.
    pub priority: Option<String>,
    /// The second bare date of the line.
    pub completion: Option<Date>,
    /// The first bare date of the line.
    pub creation: Option<Date>,
    /// The word of the first `+word` token.
    pub project: Option<String>,
    /// The word of the first `@word` token.
    pub context: Option<String>,
    /// All `key:value` tags of the line.
    pub others: TagMap,
    /// The line itself, marker stripped.
    pub content: String,
}

impl View for Todo {
    type V = TodoModel;

    open spec fn view(&self) -> TodoModel {
        TodoModel {
            title: self.title@,
            completed: self.completed,
            priority: os_view(self.priority),
            completion: self.completion,
            creation: self.creation,
            project: os_view(self.project),
            context: os_view(self.context),
            others: self.others@,
            content: self.content@,
        }
    }
}

impl Todo {
    /// The record's tag map has distinct keys and its dates name real days.
    pub open spec fn wf(self) -> bool {
        &&& distinct_keys(self.others@)
        &&& (self.creation matches Some(d) ==> d.wf())
        &&& (self.completion matches Some(d) ==> d.wf())
    }

    /// A record holding only the given content; every other field is empty.
    pub fn new(s: &str) -> (r: Todo)
        ensures
            r@ == (TodoModel {
                title: Seq::<char>::empty(),
                completed: false,
                priority: None,
                completion: None,
                creation: None,
                project: None,
                context: None,
                others: Seq::<(Seq<char>, Seq<char>)>::empty(),
                content: s@,
            }),
            r.wf(),
    {
        let r = Todo {
            title: String::new(),
            completed: false,
            priority: None,
            completion: None,
            creation: None,
            project: None,
            context: None,
            others: TagMap::new(),
            content: s.to_owned(),
        };
        proof {
            assert(r@ =~= (TodoModel {
                title: Seq::<char>::empty(),
                completed: false,
                priority: None,
                completion: None,
                creation: None,
                project: None,
                context: None,
                others: Seq::<(Seq<char>, Seq<char>)>::empty(),
                content: s@,
            }));
        }
        r
    }

    /// The word of the first `+word` token of the content.
    pub fn parse_project(&self) -> (r: Result<Option<String>, TodoErr>)
        ensures
            r matches Ok(o) && os_view(o) == spec_project(self.content@),
    {
        let s = self.content.as_str();
        proof {
            lemma_find_plus_from(s@, 0);
        }
        match find_plus_x(s) {
            None => Ok(None),
            Some(i) => {
                let l = s.unicode_len();
                let e = word_end_x(s, l, i + 1);
                Ok(Some(s.substring_char(i + 1, e).to_owned()))
            },
        }
    }

    /// The word of the first `@word` token of the content.
    pub fn parse_context(&self) -> (r: Result<Option<String>, TodoErr>)
        ensures
            r matches Ok(o) && os_view(o) == spec_context(self.content@),
    {
        let s = self.content.as_str();
        proof {
            lemma_find_ctx_from(s@, 0);
        }
        match find_ctx_x(s) {
            None => Ok(None),
            Some(i) => {
                let l = s.unicode_len();
                let e = word_end_x(s, l, i + 1);
                Ok(Some(s.substring_char(i + 1, e).to_owned()))
            },
        }
    }

    /// The word of the first `(word)` token of the content.
    pub fn parse_priority(&self) -> (r: Result<Option<String>, TodoErr>)
        ensures
            r matches Ok(o) && os_view(o) == spec_priority(self.content@),
    {
        let s = self.content.as_str();
        proof {
            lemma_find_prio_from(s@, 0);
        }
        match find_prio_x(s) {
            None => Ok(None),
            Some(i) => {
                let l = s.unicode_len();
                proof {
                    lemma_word_end_bounds(s@, i as int + 1);
                }
                let e = word_end_x(s, l, i + 1);
                Ok(Some(s.substring_char(i + 1, e).to_owned()))
            },
        }
    }

    /// The tag map of the content.
    pub fn parse_tags(&self) -> (r: Result<TagMap, TodoErr>)
        ensures
            r matches Ok(t) && t@ == spec_tags(self.content@) && t.wf(),
    {
        Ok(TagMap::from_pairs(scan_tags_x(self.content.as_str())))
    }

    /// All `#word` tokens of the content, with their `#` prefix, in order.
    pub fn parse_hashtags(&self) -> (r: Result<Vec<String>, TodoErr>)
        ensures
            r matches Ok(v) && strings_view(v@) == spec_hashtags(self.content@),
    {
        Ok(scan_hashtags_x(self.content.as_str()))
    }

    /// The title of the content: marker stripped, every recognized token
    /// removed, residual trimmed.  Fails when nothing remains.
    pub fn parse_title(&self) -> (r: Result<String, TodoErr>)
        ensures
            match r {
                Ok(t) => t@ == spec_title(self.content@) && t@.len() > 0,
                Err(e) => e == TodoErr::NoTitle && spec_title(self.content@).len() == 0,
            },
    {
        let c = marker_stripped_x(self.content.as_str());
        let stripped = strip_tokens_x(c.as_str());
        let t = trim_x(stripped.as_str());
        if t.as_str().is_empty() {
            Err(TodoErr::NoTitle)
        } else {
            Ok(t)
        }
    }

    /// The first and second bare date of the content.
    pub fn parse_dates(&self) -> (r: Result<(Option<Date>, Option<Date>), TodoErr>)
        ensures
            r == spec_dates(self.content@),
            r matches Ok(p) ==> (p.0 matches Some(d) ==> d.wf()) && (p.1 matches Some(d)
                ==> d.wf()),
    {
        let s = self.content.as_str();
        let l = s.unicode_len();
        let ds = scan_dates_x(s);
        proof {
            lemma_scan_dates_matches(s@, 0);
            assert(forall|w: int| 0 <= w < ds@.len() ==> ds@.map_values(|u: usize| u as int)[w]
                == ds@[w] as int);
        }
        if ds.len() == 0 {
            Ok((None, None))
        } else {
            match read_date_at(s, l, ds[0]) {
                None => Err(TodoErr::InvalidDate),
                Some(d1) => {
                    if ds.len() == 1 {
                        Ok((Some(d1), None))
                    } else {
                        match read_date_at(s, l, ds[1]) {
                            None => Err(TodoErr::InvalidDate),
                            Some(d2) => Ok((Some(d1), Some(d2))),
                        }
                    }
                },
            }
        }
    }

    /// The date of the first `due:YYYY-MM-DD` token of the content.
    pub fn parse_due(&self) -> (r: Result<Option<Date>, TodoErr>)
        ensures
            r == spec_due(self.content@),
            r matches Ok(o) ==> (o matches Some(d) ==> d.wf()),
    {
        let s = self.content.as_str();
        proof {
            lemma_find_due_from(s@, 0);
        }
        match find_due_x(s) {
            None => Ok(None),
            Some(i) => {
                let l = s.unicode_len();
                match read_date_at(s, l, i + 4) {
                    None => Err(TodoErr::InvalidDate),
                    Some(d) => Ok(Some(d)),
                }
            },
        }
    }

    /// Parses a full record out of one line.  Fails with `NoTitle` when
    /// nothing remains of the line once every token is removed, and with
    /// `InvalidDate` when the first or second bare date token does not name a
    /// real day.
    pub fn parse(s: &str) -> (r: Result<Todo, TodoErr>)
        ensures
            match r {
                Ok(t) => spec_parse(s@) == Ok::<TodoModel, TodoErr>(t@) && t.wf(),
                Err(e) => spec_parse(s@) == Err::<TodoModel, TodoErr>(e),
            },
    {
        let completed = has_marker_x(s);
        let content = marker_stripped_x(s);
        let mut t = Todo::new(content.as_str());
        t.completed = completed;
        t.title = match t.parse_title() {
            Ok(x) => x,
            Err(e) => {
                return Err(e);
            },
        };
        t.project = match t.parse_project() {
            Ok(o) => o,
            Err(e) => {
                return Err(e);
            },
        };
        t.context = match t.parse_context() {
            Ok(o) => o,
            Err(e) => {
                return Err(e);
            },
        };
        t.others = match t.parse_tags() {
            Ok(o) => o,
            Err(e) => {
                return Err(e);
            },
        };
        t.priority = match t.parse_priority() {
            Ok(o) => o,
            Err(e) => {
                return Err(e);
            },
        };
        let dates = match t.parse_dates() {
            Ok(d) => d,
            Err(e) => {
                return Err(e);
            },
        };
        t.creation = dates.0;
        t.completion = dates.1;
        proof {
            assert(t@ =~= spec_parse(s@)->Ok_0);
        }
        Ok(t)
    }

    /// Re-parses the record's own content and replaces every field with the
    /// outcome; on failure the record is left as it was.
    pub fn fill(&mut self) -> (r: Result<(), TodoErr>)
        ensures
            match r {
                Ok(()) => spec_parse(old(self).content@) == Ok::<TodoModel, TodoErr>(
                    final(self)@) && final(self).wf(),
                Err(e) => spec_parse(old(self).content@) == Err::<TodoModel, TodoErr>(e)
                    && final(self)@ == old(self)@,
            },
    {
        let parsed = Todo::parse(self.content.as_str());
        match parsed {
            Ok(t) => {
                *self = t;
                Ok(())
            },
            Err(e) => Err(e),
        }
    }

    /// Parses a line and fills an absent creation date with the given
    /// default date, and an absent priority with the low priority `D`.
    pub fn smart_parse_on(s: &str, today: Date) -> (r: Result<Todo, TodoErr>)
        requires
            today.wf(),
        ensures
            match r {
                Ok(t) => spec_parse(s@) matches Ok(m) && t@ == spec_smart(m, today) && t.wf(),
                Err(e) => spec_parse(s@) == Err::<TodoModel, TodoErr>(e),
            },
    {
        let mut t = match Todo::parse(s) {
            Ok(t) => t,
            Err(e) => {
                return Err(e);
            },
        };
        if t.creation.is_none() {
            t.creation = Some(today);
        }
        if t.priority.is_none() {
            t.priority = Some("D".to_owned());
        }
        proof {
            assert(t@ =~= spec_smart(spec_parse(s@)->Ok_0, today));
        }
        Ok(t)
    }

    /// Parses a line and fills an absent creation date with the current
    /// local date, and an absent priority with the low priority `D`.
    pub fn smart_parse(s: &str) -> (r: Result<Todo, TodoErr>)
        ensures
            match r {
                Ok(t) => spec_parse(s@) matches Ok(m) && exists|d: Date| d.wf() && t@
                    == spec_smart(m, d) && t.wf(),
                Err(e) => spec_parse(s@) == Err::<TodoModel, TodoErr>(e),
            },
    {
        let (y, mo, da) = crate::date::today_ymd();
        let today = if 0 <= y && y <= 9999 {
            match Date::from_ymd_opt(y as u16, mo as u8, da as u8) {
                Some(d) => d,
                None => Date { year: 2000, month: 1, day: 1 },
            }
        } else {
            Date { year: 2000, month: 1, day: 1 }
        };
        Todo::smart_parse_on(s, today)
    }

    /// Flips the completion flag; no other field changes.
    pub fn toggle_status(&mut self)
        ensures
            final(self)@ == spec_toggled(old(self)@),
    {
        self.completed = !self.completed;
        proof {
            assert(self@ =~= spec_toggled(old(self)@));
        }
    }
}

/// Every position that the date scan returns carries a bare date token.
pub proof fn lemma_scan_dates_matches(s: Seq<char>, i: int)
    requires
        0 <= i,
    ensures
        forall|w: int| 0 <= w < scan_dates_from(s, i).len() ==> date_at(
            s, #[trigger] scan_dates_from(s, i)[w]),
    decreases s.len() - i,
{
    if i >= s.len() {
    } else if date_at(s, i) {
        lemma_scan_dates_matches(s, i + 10);
        assert(scan_dates_from(s, i) == seq![i] + scan_dates_from(s, i + 10));
        assert forall|w: int| 0 <= w < scan_dates_from(s, i).len() implies date_at(
            s, #[trigger] scan_dates_from(s, i)[w]) by {
            if w > 0 {
                assert(scan_dates_from(s, i)[w] == scan_dates_from(s, i + 10)[w - 1]);
                assert(date_at(s, scan_dates_from(s, i + 10)[w - 1]));
            } else {
                assert(scan_dates_from(s, i)[0] == i);
            }
        }
    } else {
        lemma_scan_dates_matches(s, i + 1);
        assert(scan_dates_from(s, i) == scan_dates_from(s, i + 1));
    }
}

impl Todo {
    /// Writes the record as its canonical line.
    pub fn render(&self) -> (r: String)
        requires
            self.wf(),
        ensures
            r@ == spec_render(self@),
    {
        let ghost m = self@;
        let mut out = String::new();
        if self.completed {
            out.append("x");
        }
        let ghost a0 = out@;
        proof {
            assert(a0 =~= if m.completed { "x"@ } else { Seq::<char>::empty() });
        }
        match &self.priority {
            Some(p) => {
                push_sep(&mut out);
                out.append("(");
                out.append(p.as_str());
                out.append(")");
                proof {
                    reveal_strlit("(");
                    reveal_strlit(")");
                    assert(out@ =~= add_tok(a0, seq!['('] + p@ + seq![')']));
                }
            },
            None => {},
        }
        let ghost a1 = out@;
        match &self.completion {
            Some(d) => {
                push_sep(&mut out);
                let ds = date_string(d);
                out.append(ds.as_str());
                proof {
                    assert(out@ =~= add_tok(a1, date_chars(*d)));
                }
            },
            None => {},
        }
        let ghost a2 = out@;
        match &self.creation {
            Some(d) => {
                push_sep(&mut out);
                let ds = date_string(d);
                out.append(ds.as_str());
                proof {
                    assert(out@ =~= add_tok(a2, date_chars(*d)));
                }
            },
            None => {},
        }
        let ghost a3 = out@;
        push_sep(&mut out);
        out.append(self.title.as_str());
        proof {
            assert(out@ =~= add_tok(a3, m.title));
        }
        let ghost a4 = out@;
        match &self.project {
            Some(p) => {
                push_sep(&mut out);
                out.append("+");
                out.append(p.as_str());
                proof {
                    reveal_strlit("+");
                    assert(out@ =~= add_tok(a4, seq!['+'] + p@));
                }
            },
            None => {},
        }
        let ghost a5 = out@;
        match &self.context {
            Some(c) => {
                push_sep(&mut out);
                out.append("@");
                out.append(c.as_str());
                proof {
                    reveal_strlit("@");
                    assert(out@ =~= add_tok(a5, seq!['@'] + c@));
                }
            },
            None => {},
        }
        let ghost a6 = out@;
        let n = self.others.len();
        let mut i: usize = 0;
        proof {
            assert(self.others@.skip(0) =~= self.others@);
        }
        while i < n
            invariant
                0 <= i <= n,
                n == self.others@.len(),
                render_tags(out@, self.others@.skip(i as int)) == render_tags(a6, self.others@),
            decreases n - i,
        {
            let ghost before = out@;
            push_sep(&mut out);
            out.append(self.others.key_at(i).as_str());
            out.append(":");
            out.append(self.others.val_at(i).as_str());
            proof {
                reveal_strlit(":");
                let ps = self.others@.skip(i as int);
                assert(ps[0] == self.others@[i as int]);
                assert(out@ =~= add_tok(before, ps[0].0 + seq![':'] + ps[0].1));
                assert(ps.drop_first() =~= self.others@.skip(i as int + 1));
            }
            i = i + 1;
        }
        proof {
            assert(self.others@.skip(n as int) =~= Seq::<(Seq<char>, Seq<char>)>::empty());
            assert(out@ == spec_render(m));
        }
        out
    }
}

impl Todo {
    /// Describes the record as labelled lines, one per present field.
    pub fn summary(&self) -> (r: String)
        requires
            self.wf(),
        ensures
            r@ == spec_summary(self@),
    {
        let ghost m = self@;
        let mut out = self.summary_head();
        let n = self.others.len();
        let mut i: usize = 0;
        proof {
            assert(self.others@.skip(0) =~= self.others@);
        }
        while i < n
            invariant
                0 <= i <= n,
                n == self.others@.len(),
                summary_tags(out@, self.others@.skip(i as int)) == summary_tags(
                    spec_summary_head(m), self.others@),
                m.others == self.others@,
            decreases n - i,
        {
            let ghost before = out@;
            out.append(self.others.key_at(i).as_str());
            out.append(": ");
            out.append(self.others.val_at(i).as_str());
            out.append("\n");
            proof {
                let ps = self.others@.skip(i as int);
                assert(ps[0] == self.others@[i as int]);
                assert(out@ =~= before + ps[0].0 + ": "@ + ps[0].1 + "\n"@);
                assert(ps.drop_first() =~= self.others@.skip(i as int + 1));
            }
            i = i + 1;
        }
        proof {
            assert(self.others@.skip(n as int) =~= Seq::<(Seq<char>, Seq<char>)>::empty());
        }
        out
    }

    /// The labelled lines of every field but the tags.
    #[verifier::rlimit(100)]
    fn summary_head(&self) -> (r: String)
        requires
            self.wf(),
        ensures
            r@ == spec_summary_head(self@),
    {
        let ghost m = self@;
        let mut out = String::new();
        push_line(&mut out, "Title: ", self.title.as_str());
        let ghost g1 = out@;
        proof {
            assert(g1 =~= "Title: "@ + m.title + "\n"@);
        }
        if self.completed {
            out.append("Completed: Yes\n");
        } else {
            out.append("Completed: No\n");
        }
        let ghost g2 = out@;
        proof {
            assert(g2 == g1 + (if m.completed {
                "Completed: Yes\n"@
            } else {
                "Completed: No\n"@
            }));
        }
        match &self.priority {
            Some(p) => {
                push_line(&mut out, "Priority: ", p.as_str());
            },
            None => {},
        }
        let ghost g3 = out@;
        proof {
            assert(g3 == g2 + opt_line("Priority: "@, m.priority));
        }
        match &self.project {
            Some(p) => {
                push_line(&mut out, "Project: ", p.as_str());
            },
            None => {},
        }
        let ghost g4 = out@;
        proof {
            assert(g4 == g3 + opt_line("Project: "@, m.project));
        }
        match &self.context {
            Some(c) => {
                push_line(&mut out, "Context: ", c.as_str());
            },
            None => {},
        }
        let ghost g5 = out@;
        proof {
            assert(g5 == g4 + opt_line("Context: "@, m.context));
        }
        match &self.creation {
            Some(d) => {
                let ds = date_string(d);
                push_line(&mut out, "Creation: ", ds.as_str());
            },
            None => {},
        }
        let ghost g6 = out@;
        proof {
            assert(g6 == g5 + (match m.creation {
                Some(d) => "Creation: "@ + date_chars(d) + "\n"@,
                None => Seq::empty(),
            }));
        }
        match &self.completion {
            Some(d) => {
                let ds = date_string(d);
                push_line(&mut out, "Completion: ", ds.as_str());
            },
            None => {},
        }
        proof {
            assert(out@ == g6 + (match m.completion {
                Some(d) => "Completion: "@ + date_chars(d) + "\n"@,
                None => Seq::empty(),
            }));
        }
        out
    }
}

impl Clone for Todo {
    /// A clone holds the same field values.
    fn clone(&self) -> (r: Self)
        ensures
            r@ == self@,
    {
        let r = Todo {
            title: self.title.clone(),
            completed: self.completed,
            priority: clone_opt_string(&self.priority),
            completion: self.completion,
            creation: self.creation,
            project: clone_opt_string(&self.project),
            context: clone_opt_string(&self.context),
            others: self.others.clone(),
            content: self.content.clone(),
        };
        proof {
            assert(r@ =~= self@);
        }
        r
    }
}

/// Copies an optional string.
fn clone_opt_string(o: &Option<String>) -> (r: Option<String>)
    ensures
        os_view(r) == os_view(*o),
{
    match o {
        Some(s) => Some(s.clone()),
        None => None,
    }
}

impl core::str::FromStr for Todo {
    type Err = TodoErr;

    /// Parses a record out of one line; see [`Todo::parse`] for the
    /// contract.
    fn from_str(s: &str) -> Result<Todo, TodoErr> {
        Todo::parse(s)
    }
}

impl Default for Todo {
    /// The default record: every field empty.
    fn default() -> (r: Self)
        ensures
            r@ == (TodoModel {
                title: Seq::<char>::empty(),
                completed: false,
                priority: None,
                completion: None,
                creation: None,
                project: None,
                context: None,
                others: Seq::<(Seq<char>, Seq<char>)>::empty(),
                content: Seq::<char>::empty(),
            }),
            r.wf(),
    {
        proof {
            reveal_strlit("");
        }
        let r = Todo::new("");
        proof {
            assert(r@.content =~= Seq::<char>::empty());
            assert(r@ =~= (TodoModel {
                title: Seq::<char>::empty(),
                completed: false,
                priority: None,
                completion: None,
                creation: None,
                project: None,
                context: None,
                others: Seq::<(Seq<char>, Seq<char>)>::empty(),
                content: Seq::<char>::empty(),
            }));
        }
        r
    }
}

/// Appends one `Label: value` line.
fn push_line(out: &mut String, label: &str, v: &str)
    ensures
        final(out)@ == old(out)@ + (label@ + v@ + "\n"@),
{
    out.append(label);
    out.append(v);
    out.append("\n");
    proof {
        assert(out@ =~= old(out)@ + (label@ + v@ + "\n"@));
    }
}

/// Appends a single separating space, unless nothing has been written yet.
fn push_sep(out: &mut String)
    ensures
        old(out)@.len() > 0 ==> final(out)@ == old(out)@ + seq![' '],
        old(out)@.len() == 0 ==> final(out)@ == old(out)@,
{
    if !out.as_str().is_empty() {
        out.append(" ");
        proof {
            reveal_strlit(" ");
            assert(out@ =~= old(out)@ + seq![' ']);
        }
    }
}

/// Whether the line opens with the completion marker.
pub fn has_marker_x(s: &str) -> (r: bool)
    ensures
        r == has_marker(s@),
{
    let l = s.unicode_len();
    l >= 2 && s.get_char(0) == 'x' && crate::chars::space_char(s.get_char(1))
}

/// The content with its completion marker (if any) stripped and trimmed.
pub fn marker_stripped_x(s: &str) -> (r: String)
    ensures
        r@ == marker_stripped(s@),
{
    let l = s.unicode_len();
    if l >= 2 && s.get_char(0) == 'x' && crate::chars::space_char(s.get_char(1)) {
        let rest = s.substring_char(1, l);
        proof {
            assert(rest@ =~= s@.drop_first());
        }
        trim_x(rest)
    } else {
        s.to_owned()
    }
}

} // verus!
