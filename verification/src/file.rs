//! An ordered collection of records.
//!
//! A [`TodoFile`] holds the records parsed out of one todo.txt text, one
//! record per line, lines that fail to parse silently skipped.  It offers the
//! operations of a todo list: toggling, adding, removing, searching,
//! filtering, sorting into the conventional order, and derived listings of
//! the distinct projects, contexts, tags and hashtags.  Reading the text from
//! disk and writing it back is the caller's business; the collection itself
//! is pure.

use vstd::prelude::*;
use vstd::string::{StrSliceExecFns, StringExecFns};
use crate::parser::{
    Todo, TodoModel, TodoErr, spec_parse, spec_render, spec_project, spec_context, spec_tags,
    spec_hashtags, spec_due,
};
use crate::scan::{seq_contains, str_contains_x, strings_view};
use crate::date::Date;
use crate::order::{
    has_str, sorted_strs, distinct_strs, sort_strings, dedup_sorted_strings,
    lemma_has_str_concat, lemma_has_str_single, sort_todos, sort_todos_x,
};
use crate::tags::str_eq;

verus! {

/// The models of a sequence of records.
pub open spec fn todo_views(ts: Seq<Todo>) -> Seq<TodoModel> {
    ts.map_values(|t: Todo| t@)
}

// ---------------------------------------------------------------------------
// Splitting a text into lines
// ---------------------------------------------------------------------------

/// Position of the first newline at or after `i`.
pub open spec fn find_nl_from(s: Seq<char>, i: int) -> Option<int>
    decreases s.len() - i,
    when 0 <= i
{
    if i >= s.len() {
        None
    } else if s[i] == '\n' {
        Some(i)
    } else {
        find_nl_from(s, i + 1)
    }
}

/// The first newline at or after `i` is one, and none stands before it.
pub proof fn lemma_find_nl_from(s: Seq<char>, i: int)
    requires
        0 <= i,
    ensures
        match find_nl_from(s, i) {
            Some(j) => i <= j < s.len() && s[j] == '\n',
            None => true,
        },
    decreases s.len() - i,
{
    if i < s.len() && s[i] != '\n' {
        lemma_find_nl_from(s, i + 1);
    }
}

/// A line with a trailing carriage return dropped.
pub open spec fn strip_cr(l: Seq<char>) -> Seq<char> {
    if l.len() > 0 && l.last() == '\r' {
        l.drop_last()
    } else {
        l
    }
}

/// The lines of the text from `i` on: split at newlines, each line's
/// trailing carriage return dropped, a trailing final newline producing no
/// empty last line.
pub open spec fn spec_lines_from(s: Seq<char>, i: int) -> Seq<Seq<char>>
    decreases s.len() - i,
    when 0 <= i
    via spec_lines_from_dec
{
    if i >= s.len() {
        Seq::empty()
    } else {
        match find_nl_from(s, i) {
            Some(j) => seq![strip_cr(s.subrange(i, j))] + spec_lines_from(s, j + 1),
            None => seq![strip_cr(s.subrange(i, s.len() as int))],
        }
    }
}

#[via_fn]
proof fn spec_lines_from_dec(s: Seq<char>, i: int) {
    if 0 <= i && i < s.len() {
        lemma_find_nl_from(s, i);
    }
}

/// The lines of the text.
pub open spec fn spec_lines(s: Seq<char>) -> Seq<Seq<char>> {
    spec_lines_from(s, 0)
}

/// A line with a trailing carriage return dropped.
fn strip_cr_x(l: &str) -> (r: String)
    ensures
        r@ == strip_cr(l@),
{
    let n = l.unicode_len();
    if n > 0 && l.get_char(n - 1) == '\r' {
        let r = l.substring_char(0, n - 1).to_owned();
        proof {
            assert(r@ =~= l@.drop_last());
        }
        r
    } else {
        l.to_owned()
    }
}

/// The lines of the text.
fn lines_x(s: &str) -> (r: Vec<String>)
    ensures
        strings_view(r@) == spec_lines(s@),
{
    let l = s.unicode_len();
    let mut out: Vec<String> = Vec::new();
    let mut pos: usize = 0;
    while pos < l
        invariant
            0 <= pos <= l,
            l == s@.len(),
            spec_lines(s@) == strings_view(out@) + spec_lines_from(s@, pos as int),
        decreases l - pos,
    {
        let mut j = pos;
        while j < l && s.get_char(j) != '\n'
            invariant
                pos <= j <= l,
                l == s@.len(),
                find_nl_from(s@, pos as int) == find_nl_from(s@, j as int),
            decreases l - j,
        {
            j = j + 1;
        }
        if j < l {
            out.push(strip_cr_x(s.substring_char(pos, j)));
            proof {
                assert(strings_view(out@) =~= strings_view(out@.drop_last()) + seq![strip_cr(
                    s@.subrange(pos as int, j as int))]);
            }
            pos = j + 1;
        } else {
            out.push(strip_cr_x(s.substring_char(pos, l)));
            proof {
                assert(strings_view(out@) =~= strings_view(out@.drop_last()) + seq![strip_cr(
                    s@.subrange(pos as int, l as int))]);
                assert(spec_lines_from(s@, l as int) =~= Seq::<Seq<char>>::empty());
            }
            pos = l;
        }
    }
    proof {
        assert(strings_view(out@) + spec_lines_from(s@, pos as int) =~= strings_view(out@));
    }
    out
}

/// The records of the given lines, in order, lines that fail to parse
/// skipped.
pub open spec fn spec_load(ls: Seq<Seq<char>>) -> Seq<TodoModel>
    decreases ls.len(),
{
    if ls.len() == 0 {
        Seq::empty()
    } else {
        (match spec_parse(ls[0]) {
            Ok(m) => seq![m],
            Err(_) => Seq::empty(),
        }) + spec_load(ls.drop_first())
    }
}

// ---------------------------------------------------------------------------
// The collection
// ---------------------------------------------------------------------------

/// An ordered collection of records, with the text it was parsed from.
#[derive(Debug)]
pub struct TodoFile {
    /// The records, one per parsed line.
    pub todos: Vec<Todo>,
    /// The text the records were parsed from.
    pub content: String,
}

impl TodoFile {
    /// The models of the held records.
    pub open spec fn models(self) -> Seq<TodoModel> {
        todo_views(self.todos@)
    }

    /// Every held record is well formed.
    pub open spec fn all_wf(self) -> bool {
        forall|i: int| 0 <= i < self.todos@.len() ==> (#[trigger] self.todos@[i]).wf()
    }

    /// Parses a whole text, one record per line, skipping lines that fail.
    pub fn from_string(content: &str) -> (r: TodoFile)
        ensures
            r.content@ == content@,
            r.models() == spec_load(spec_lines(content@)),
            r.all_wf(),
    {
        let mut r = TodoFile { todos: Vec::new(), content: content.to_owned() };
        r.load();
        r
    }

    /// Re-parses the held text, one record per line, skipping lines that
    /// fail; the records are replaced by the outcome.
    pub fn load(&mut self)
        ensures
            final(self).content@ == old(self).content@,
            final(self).models() == spec_load(spec_lines(old(self).content@)),
            final(self).all_wf(),
    {
        let lines = lines_x(self.content.as_str());
        let ghost ls = strings_view(lines@);
        let mut todos: Vec<Todo> = Vec::new();
        let n = lines.len();
        let mut i: usize = 0;
        proof {
            assert(ls.skip(0) =~= ls);
            assert(todo_views(todos@) =~= Seq::<TodoModel>::empty());
        }
        while i < n
            invariant
                0 <= i <= n,
                n == lines@.len(),
                ls == strings_view(lines@),
                spec_load(ls) == todo_views(todos@) + spec_load(ls.skip(i as int)),
                forall|w: int| 0 <= w < todos@.len() ==> (#[trigger] todos@[w]).wf(),
            decreases n - i,
        {
            proof {
                assert(ls.skip(i as int)[0] == ls[i as int]);
                assert(ls.skip(i as int).drop_first() =~= ls.skip(i as int + 1));
            }
            match Todo::parse(lines[i].as_str()) {
                Ok(t) => {
                    todos.push(t);
                    proof {
                        assert(todo_views(todos@) =~= todo_views(todos@.drop_last()) + seq![
                            todos@.last()@]);
                    }
                },
                Err(_) => {},
            }
            i = i + 1;
        }
        proof {
            assert(spec_load(ls.skip(n as int)) =~= Seq::<TodoModel>::empty());
            assert(todo_views(todos@) + spec_load(ls.skip(n as int)) =~= todo_views(todos@));
        }
        self.todos = todos;
    }

    /// Toggles the completion flag of the record at `index`.
    pub fn change_status(&mut self, index: usize)
        requires
            index < old(self).todos@.len(),
        ensures
            final(self).content@ == old(self).content@,
            final(self).models() == old(self).models().update(
                index as int,
                TodoModel { completed: !old(self).models()[index as int].completed, ..old(
                    self).models()[index as int] },
            ),
    {
        self.todos[index].toggle_status();
        proof {
            assert(self.models() =~= old(self).models().update(
                index as int,
                TodoModel { completed: !old(self).models()[index as int].completed, ..old(
                    self).models()[index as int] },
            ));
        }
    }

    /// Removes the record at `index`.
    pub fn remove(&mut self, index: usize)
        requires
            index < old(self).todos@.len(),
        ensures
            final(self).content@ == old(self).content@,
            final(self).models() == old(self).models().remove(index as int),
    {
        self.todos.remove(index);
        proof {
            assert(self.models() =~= old(self).models().remove(index as int));
        }
    }

    /// Appends a record.
    pub fn add(&mut self, todo: Todo)
        ensures
            final(self).content@ == old(self).content@,
            final(self).models() == old(self).models().push(todo@),
    {
        self.todos.push(todo);
        proof {
            assert(self.models() =~= old(self).models().push(self.todos@.last()@));
        }
    }

    /// Replaces the record at `index`; out of bounds, nothing happens.
    pub fn update(&mut self, index: usize, todo: Todo)
        ensures
            final(self).content@ == old(self).content@,
            index < old(self).todos@.len() ==> final(self).models() == old(self).models().update(
                index as int, todo@),
            index >= old(self).todos@.len() ==> final(self).models() == old(self).models(),
    {
        if index >= self.todos.len() {
            return;
        }
        let ghost m = todo@;
        self.todos[index] = todo;
        proof {
            assert(self.models() =~= old(self).models().update(index as int, m));
        }
    }

    /// A copy of the record at `index`, or nothing when out of bounds.
    pub fn get(&self, index: usize) -> (r: Option<Todo>)
        ensures
            match r {
                Some(t) => index < self.todos@.len() && t@ == self.models()[index as int],
                None => index >= self.todos@.len(),
            },
    {
        if index >= self.todos.len() {
            return None;
        }
        Some(self.todos[index].clone())
    }

    /// Number of records.
    pub fn len(&self) -> (r: usize)
        ensures
            r == self.todos@.len(),
    {
        self.todos.len()
    }

    /// Whether the collection holds no record.
    pub fn is_empty(&self) -> (r: bool)
        ensures
            r == (self.todos@.len() == 0),
    {
        self.todos.len() == 0
    }

    /// Copies of the completed records, in order.
    pub fn completed(&self) -> (r: Vec<Todo>)
        ensures
            todo_views(r@) == only_completed(self.models()),
    {
        let n = self.todos.len();
        let mut r: Vec<Todo> = Vec::new();
        let mut i: usize = 0;
        proof {
            reveal(Seq::filter);
            assert(todo_views(r@) =~= only_completed(self.models().take(0)));
        }
        while i < n
            invariant
                0 <= i <= n,
                n == self.todos@.len(),
                todo_views(r@) == only_completed(self.models().take(i as int)),
            decreases n - i,
        {
            proof {
                reveal(Seq::filter);
                assert(self.models().take(i as int + 1).drop_last() =~= self.models().take(
                    i as int));
                assert(self.models().take(i as int + 1).last() == self.models()[i as int]);
            }
            if self.todos[i].completed {
                r.push(self.todos[i].clone());
                proof {
                    assert(todo_views(r@) =~= todo_views(r@.drop_last()).push(r@.last()@));
                }
            }
            i = i + 1;
        }
        proof {
            assert(self.models().take(n as int) =~= self.models());
        }
        r
    }

    /// Copies of the records not yet completed, in order.
    pub fn not_completed(&self) -> (r: Vec<Todo>)
        ensures
            todo_views(r@) == only_active(self.models()),
    {
        let n = self.todos.len();
        let mut r: Vec<Todo> = Vec::new();
        let mut i: usize = 0;
        proof {
            reveal(Seq::filter);
            assert(todo_views(r@) =~= only_active(self.models().take(0)));
        }
        while i < n
            invariant
                0 <= i <= n,
                n == self.todos@.len(),
                todo_views(r@) == only_active(self.models().take(i as int)),
            decreases n - i,
        {
            proof {
                reveal(Seq::filter);
                assert(self.models().take(i as int + 1).drop_last() =~= self.models().take(
                    i as int));
                assert(self.models().take(i as int + 1).last() == self.models()[i as int]);
            }
            if !self.todos[i].completed {
                r.push(self.todos[i].clone());
                proof {
                    assert(todo_views(r@) =~= todo_views(r@.drop_last()).push(r@.last()@));
                }
            }
            i = i + 1;
        }
        proof {
            assert(self.models().take(n as int) =~= self.models());
        }
        r
    }

    /// Copies of the records whose content holds the query, in order.  The
    /// search is case sensitive.
    pub fn search(&self, query: &str) -> (r: Vec<Todo>)
        ensures
            todo_views(r@) == matching_search(self.models(), query@),
    {
        let n = self.todos.len();
        let mut r: Vec<Todo> = Vec::new();
        let mut i: usize = 0;
        proof {
            reveal(Seq::filter);
            assert(todo_views(r@) =~= matching_search(self.models().take(0), query@));
        }
        while i < n
            invariant
                0 <= i <= n,
                n == self.todos@.len(),
                todo_views(r@) == matching_search(self.models().take(i as int), query@),
            decreases n - i,
        {
            proof {
                reveal(Seq::filter);
                assert(self.models().take(i as int + 1).drop_last() =~= self.models().take(
                    i as int));
                assert(self.models().take(i as int + 1).last() == self.models()[i as int]);
            }
            if str_contains_x(self.todos[i].content.as_str(), query) {
                r.push(self.todos[i].clone());
                proof {
                    assert(todo_views(r@) =~= todo_views(r@.drop_last()).push(r@.last()@));
                }
            }
            i = i + 1;
        }
        proof {
            assert(self.models().take(n as int) =~= self.models());
        }
        r
    }
}

impl TodoFile {
    /// The records rearranged into the conventional order: first the records
    /// not yet completed, sorted by creation date, then the completed ones,
    /// sorted by completion date; the collection itself is left as it is.
    pub fn rearrange(&mut self) -> (r: Vec<Todo>)
        ensures
            final(self).todos == old(self).todos,
            final(self).content == old(self).content,
            todo_views(r@) == rearranged(old(self).models()),
    {
        let not_done = self.not_completed();
        let done = self.completed();
        let mut r = sort_todos_x(not_done, false);
        let mut second = sort_todos_x(done, true);
        let ghost first_views = todo_views(r@);
        let ghost second_views = todo_views(second@);
        r.append(&mut second);
        proof {
            assert(todo_views(r@) =~= first_views + second_views);
        }
        r
    }

    /// The records as one text: each record's canonical line, a newline
    /// after each.
    pub fn render_all(&self) -> (r: String)
        requires
            self.all_wf(),
        ensures
            r@ == spec_render_all(self.models()),
    {
        let ghost ms = self.models();
        let mut out = String::new();
        let n = self.todos.len();
        let mut i: usize = 0;
        proof {
            assert(ms.skip(0) =~= ms);
        }
        while i < n
            invariant
                0 <= i <= n,
                n == self.todos@.len(),
                ms == self.models(),
                self.all_wf(),
                spec_render_all(ms) == out@ + spec_render_all(ms.skip(i as int)),
            decreases n - i,
        {
            let ghost before = out@;
            let line = self.todos[i].render();
            out.append(line.as_str());
            out.append("\n");
            proof {
                assert(ms.skip(i as int)[0] == ms[i as int]);
                assert(ms.skip(i as int).drop_first() =~= ms.skip(i as int + 1));
                assert(out@ =~= before + (spec_render(ms[i as int]) + "\n"@));
                assert(before + (spec_render(ms[i as int]) + "\n"@) =~= before + spec_render(
                    ms[i as int]) + "\n"@);
            }
            i = i + 1;
        }
        proof {
            assert(spec_render_all(ms.skip(n as int)) =~= Seq::<char>::empty());
            assert(out@ + spec_render_all(ms.skip(n as int)) =~= out@);
        }
        out
    }

    /// Copies of the records whose `due:` date is the given one, in order.
    pub fn due_on(&self, date: Date) -> (r: Vec<Todo>)
        ensures
            todo_views(r@) == matching_due(self.models(), date),
    {
        let n = self.todos.len();
        let mut r: Vec<Todo> = Vec::new();
        let mut i: usize = 0;
        proof {
            reveal(Seq::filter);
            assert(todo_views(r@) =~= matching_due(self.models().take(0), date));
        }
        while i < n
            invariant
                0 <= i <= n,
                n == self.todos@.len(),
                todo_views(r@) == matching_due(self.models().take(i as int), date),
            decreases n - i,
        {
            proof {
                reveal(Seq::filter);
                assert(self.models().take(i as int + 1).drop_last() =~= self.models().take(
                    i as int));
                assert(self.models().take(i as int + 1).last() == self.models()[i as int]);
            }
            let hit = match self.todos[i].parse_due() {
                Ok(Some(d)) => d == date,
                _ => false,
            };
            if hit {
                r.push(self.todos[i].clone());
                proof {
                    assert(todo_views(r@) =~= todo_views(r@.drop_last()).push(r@.last()@));
                }
            }
            i = i + 1;
        }
        proof {
            assert(self.models().take(n as int) =~= self.models());
        }
        r
    }

    /// Copies of the records whose `due:` date is the current local date.
    pub fn due_today(&self) -> (r: Vec<Todo>)
        ensures
            exists|d: Date| d.wf() && todo_views(r@) == #[trigger] matching_due(self.models(), d),
    {
        let (y, mo, da) = crate::date::today_ymd();
        let today = if 0 <= y && y <= 9999 {
            match Date::from_ymd_opt(y as u16, mo as u8, da as u8) {
                Some(d) => d,
                None => Date { year: 2000, month: 1, day: 1 },
            }
        } else {
            Date { year: 2000, month: 1, day: 1 }
        };
        let r = self.due_on(today);
        proof {
            assert(today.wf() && todo_views(r@) == matching_due(self.models(), today));
        }
        r
    }

    /// Copies of the records whose first `+word` token carries the given
    /// project, in order.
    pub fn get_project(&self, project: &str) -> (r: Vec<Todo>)
        ensures
            todo_views(r@) == matching_project(self.models(), project@),
    {
        let n = self.todos.len();
        let mut r: Vec<Todo> = Vec::new();
        let mut i: usize = 0;
        proof {
            reveal(Seq::filter);
            assert(todo_views(r@) =~= matching_project(self.models().take(0), project@));
        }
        while i < n
            invariant
                0 <= i <= n,
                n == self.todos@.len(),
                todo_views(r@) == matching_project(self.models().take(i as int), project@),
            decreases n - i,
        {
            proof {
                reveal(Seq::filter);
                assert(self.models().take(i as int + 1).drop_last() =~= self.models().take(
                    i as int));
                assert(self.models().take(i as int + 1).last() == self.models()[i as int]);
            }
            let hit = match self.todos[i].parse_project() {
                Ok(Some(p)) => str_eq(p.as_str(), project),
                _ => false,
            };
            if hit {
                r.push(self.todos[i].clone());
                proof {
                    assert(todo_views(r@) =~= todo_views(r@.drop_last()).push(r@.last()@));
                }
            }
            i = i + 1;
        }
        proof {
            assert(self.models().take(n as int) =~= self.models());
        }
        r
    }

    /// Copies of the records whose first `@word` token carries the given
    /// context, in order.
    pub fn get_context(&self, context: &str) -> (r: Vec<Todo>)
        ensures
            todo_views(r@) == matching_context(self.models(), context@),
    {
        let n = self.todos.len();
        let mut r: Vec<Todo> = Vec::new();
        let mut i: usize = 0;
        proof {
            reveal(Seq::filter);
            assert(todo_views(r@) =~= matching_context(self.models().take(0), context@));
        }
        while i < n
            invariant
                0 <= i <= n,
                n == self.todos@.len(),
                todo_views(r@) == matching_context(self.models().take(i as int), context@),
            decreases n - i,
        {
            proof {
                reveal(Seq::filter);
                assert(self.models().take(i as int + 1).drop_last() =~= self.models().take(
                    i as int));
                assert(self.models().take(i as int + 1).last() == self.models()[i as int]);
            }
            let hit = match self.todos[i].parse_context() {
                Ok(Some(c)) => str_eq(c.as_str(), context),
                _ => false,
            };
            if hit {
                r.push(self.todos[i].clone());
                proof {
                    assert(todo_views(r@) =~= todo_views(r@.drop_last()).push(r@.last()@));
                }
            }
            i = i + 1;
        }
        proof {
            assert(self.models().take(n as int) =~= self.models());
        }
        r
    }

    /// Copies of the records whose content the given pattern matches, in
    /// order.  Succeeds exactly when the engine answers for every record's
    /// content; it fails only on a pattern it cannot compile, or a run it
    /// gives up on.
    pub fn regex(&self, query: &str) -> (r: Result<Vec<Todo>, TodoErr>)
        ensures
            match r {
                Ok(v) => todo_views(v@) == matching_regex(self.models(), query@) && forall|k: int|
                    0 <= k < self.models().len() ==> (#[trigger] regex_answer(
                        query@,
                        self.models()[k].content,
                    )) is Some,
                Err(e) => e == TodoErr::RegexParseErr && exists|k: int| 0 <= k
                    < self.models().len() && (#[trigger] regex_answer(
                        query@,
                        self.models()[k].content,
                    )) is None,
            },
    {
        let n = self.todos.len();
        let mut r: Vec<Todo> = Vec::new();
        let mut i: usize = 0;
        proof {
            reveal(Seq::filter);
            assert(todo_views(r@) =~= matching_regex(self.models().take(0), query@));
        }
        while i < n
            invariant
                0 <= i <= n,
                n == self.todos@.len(),
                todo_views(r@) == matching_regex(self.models().take(i as int), query@),
                forall|k: int| 0 <= k < i ==> (#[trigger] regex_answer(
                    query@,
                    self.models()[k].content,
                )) is Some,
            decreases n - i,
        {
            proof {
                reveal(Seq::filter);
                assert(self.models().take(i as int + 1).drop_last() =~= self.models().take(
                    i as int));
                assert(self.models().take(i as int + 1).last() == self.models()[i as int]);
            }
            let hit = match regex_is_match(query, self.todos[i].content.as_str()) {
                Some(b) => b,
                None => {
                    proof {
                        assert(regex_answer(query@, self.models()[i as int].content) is None);
                    }
                    return Err(TodoErr::RegexParseErr);
                },
            };
            if hit {
                r.push(self.todos[i].clone());
                proof {
                    assert(todo_views(r@) =~= todo_views(r@.drop_last()).push(r@.last()@));
                }
            }
            i = i + 1;
        }
        proof {
            assert(self.models().take(n as int) =~= self.models());
        }
        Ok(r)
    }
}

impl TodoFile {
    /// The distinct projects of the records, sorted.
    pub fn list_projects(&self) -> (r: Vec<String>)
        ensures
            sorted_strs(r@),
            distinct_strs(r@),
            forall|w: Seq<char>| has_str(r@, w) <==> project_listed(self.models(), w),
    {
        let ghost ms = self.models();
        let n = self.todos.len();
        let mut c: Vec<String> = Vec::new();
        let mut i: usize = 0;
        while i < n
            invariant
                0 <= i <= n,
                n == self.todos@.len(),
                ms == self.models(),
                forall|w: Seq<char>| has_str(c@, w) <==> project_listed(ms.take(i as int), w),
            decreases n - i,
        {
            let ghost cold = c@;
            let got = match self.todos[i].parse_project() {
                Ok(o) => o,
                Err(_) => None,
            };
            let ghost pv = spec_project(ms[i as int].content);
            match got {
                Some(p) => {
                    c.push(p);
                },
                None => {},
            }
            proof {
                assert(ms.take(i as int + 1)[i as int] == ms[i as int]);
                assert forall|w: Seq<char>| has_str(c@, w) <==> project_listed(
                    ms.take(i as int + 1), w) by {
                    if pv is Some {
                        lemma_has_str_concat(cold, seq![c@.last()], w);
                        lemma_has_str_single(c@.last(), w);
                        assert(c@ =~= cold + seq![c@.last()]);
                    }
                    if has_str(c@, w) {
                        if pv == Some(w) {
                            assert(spec_project((ms.take(i as int + 1)[i as int]).content)
                                == Some(w));
                        } else {
                            assert(has_str(cold, w));
                            let t = choose|t: int| 0 <= t < ms.take(i as int).len()
                                && spec_project((#[trigger] ms.take(i as int)[t]).content)
                                == Some(w);
                            assert(spec_project((ms.take(i as int + 1)[t]).content) == Some(w));
                        }
                    }
                    if project_listed(ms.take(i as int + 1), w) {
                        let t = choose|t: int| 0 <= t < ms.take(i as int + 1).len()
                            && spec_project((#[trigger] ms.take(i as int + 1)[t]).content)
                            == Some(w);
                        if t == i as int {
                            assert(pv == Some(w));
                            assert(has_str(c@, w));
                        } else {
                            assert(spec_project((ms.take(i as int)[t]).content) == Some(w));
                            assert(has_str(cold, w));
                            let q = choose|q: int| 0 <= q < cold.len() && (#[trigger] cold[q])@
                                == w;
                            assert(c@[q]@ == w);
                        }
                    }
                }
            }
            i = i + 1;
        }
        proof {
            assert(ms.take(n as int) =~= ms);
        }
        dedup_sorted_strings(sort_strings(c))
    }

    /// The distinct contexts of the records, sorted.
    pub fn list_contexts(&self) -> (r: Vec<String>)
        ensures
            sorted_strs(r@),
            distinct_strs(r@),
            forall|w: Seq<char>| has_str(r@, w) <==> context_listed(self.models(), w),
    {
        let ghost ms = self.models();
        let n = self.todos.len();
        let mut c: Vec<String> = Vec::new();
        let mut i: usize = 0;
        while i < n
            invariant
                0 <= i <= n,
                n == self.todos@.len(),
                ms == self.models(),
                forall|w: Seq<char>| has_str(c@, w) <==> context_listed(ms.take(i as int), w),
            decreases n - i,
        {
            let ghost cold = c@;
            let got = match self.todos[i].parse_context() {
                Ok(o) => o,
                Err(_) => None,
            };
            let ghost pv = spec_context(ms[i as int].content);
            match got {
                Some(p) => {
                    c.push(p);
                },
                None => {},
            }
            proof {
                assert(ms.take(i as int + 1)[i as int] == ms[i as int]);
                assert forall|w: Seq<char>| has_str(c@, w) <==> context_listed(
                    ms.take(i as int + 1), w) by {
                    if pv is Some {
                        lemma_has_str_concat(cold, seq![c@.last()], w);
                        lemma_has_str_single(c@.last(), w);
                        assert(c@ =~= cold + seq![c@.last()]);
                    }
                    if has_str(c@, w) {
                        if pv == Some(w) {
                            assert(spec_context((ms.take(i as int + 1)[i as int]).content)
                                == Some(w));
                        } else {
                            assert(has_str(cold, w));
                            let t = choose|t: int| 0 <= t < ms.take(i as int).len()
                                && spec_context((#[trigger] ms.take(i as int)[t]).content)
                                == Some(w);
                            assert(spec_context((ms.take(i as int + 1)[t]).content) == Some(w));
                        }
                    }
                    if context_listed(ms.take(i as int + 1), w) {
                        let t = choose|t: int| 0 <= t < ms.take(i as int + 1).len()
                            && spec_context((#[trigger] ms.take(i as int + 1)[t]).content)
                            == Some(w);
                        if t == i as int {
                            assert(pv == Some(w));
                            assert(has_str(c@, w));
                        } else {
                            assert(spec_context((ms.take(i as int)[t]).content) == Some(w));
                            assert(has_str(cold, w));
                            let q = choose|q: int| 0 <= q < cold.len() && (#[trigger] cold[q])@
                                == w;
                            assert(c@[q]@ == w);
                        }
                    }
                }
            }
            i = i + 1;
        }
        proof {
            assert(ms.take(n as int) =~= ms);
        }
        dedup_sorted_strings(sort_strings(c))
    }

    /// The distinct tag keys of the records, sorted.
    pub fn list_tags(&self) -> (r: Vec<String>)
        ensures
            sorted_strs(r@),
            distinct_strs(r@),
            forall|w: Seq<char>| has_str(r@, w) <==> tag_listed(self.models(), w),
    {
        let ghost ms = self.models();
        let n = self.todos.len();
        let mut c: Vec<String> = Vec::new();
        let mut i: usize = 0;
        while i < n
            invariant
                0 <= i <= n,
                n == self.todos@.len(),
                ms == self.models(),
                forall|w: Seq<char>| has_str(c@, w) <==> tag_listed(ms.take(i as int), w),
            decreases n - i,
        {
            let map = match self.todos[i].parse_tags() {
                Ok(m) => m,
                Err(_) => crate::tags::TagMap::new(),
            };
            let ghost tags = spec_tags(ms[i as int].content);
            let nk = map.len();
            let mut k: usize = 0;
            while k < nk
                invariant
                    0 <= k <= nk,
                    nk == map@.len(),
                    map@ == tags,
                    ms == self.models(),
                    0 <= i < ms.len(),
                    forall|w: Seq<char>| has_str(c@, w) <==> (tag_listed(ms.take(i as int), w)
                        || key_in(tags.take(k as int), w)),
                decreases nk - k,
            {
                let ghost cold = c@;
                c.push(map.key_at(k).clone());
                proof {
                    assert forall|w: Seq<char>| has_str(c@, w) <==> (tag_listed(
                        ms.take(i as int), w) || key_in(tags.take(k as int + 1), w)) by {
                        lemma_has_str_concat(cold, seq![c@.last()], w);
                        lemma_has_str_single(c@.last(), w);
                        assert(c@ =~= cold + seq![c@.last()]);
                        assert(c@.last()@ == tags[k as int].0);
                        if key_in(tags.take(k as int + 1), w) {
                            let j = choose|j: int| 0 <= j < tags.take(k as int + 1).len() && (
                            #[trigger] tags.take(k as int + 1)[j]).0 == w;
                            if j == k as int {
                                assert(tags[k as int].0 == w);
                            } else {
                                assert(tags.take(k as int)[j].0 == w);
                            }
                        }
                        if w == tags[k as int].0 {
                            assert(tags.take(k as int + 1)[k as int].0 == w);
                        }
                        if key_in(tags.take(k as int), w) {
                            let j = choose|j: int| 0 <= j < tags.take(k as int).len() && (
                            #[trigger] tags.take(k as int)[j]).0 == w;
                            assert(tags.take(k as int + 1)[j].0 == w);
                        }
                    }
                }
                k = k + 1;
            }
            proof {
                assert(tags.take(nk as int) =~= tags);
                assert(ms.take(i as int + 1)[i as int] == ms[i as int]);
                assert forall|w: Seq<char>| (tag_listed(ms.take(i as int), w) || key_in(tags, w))
                    <==> tag_listed(ms.take(i as int + 1), w) by {
                    if tag_listed(ms.take(i as int), w) {
                        let t = choose|t: int| 0 <= t < ms.take(i as int).len() && key_in(
                            spec_tags((#[trigger] ms.take(i as int)[t]).content), w);
                        assert(key_in(spec_tags((ms.take(i as int + 1)[t]).content), w));
                    }
                    if key_in(tags, w) {
                        assert(key_in(spec_tags((ms.take(i as int + 1)[i as int]).content), w));
                    }
                    if tag_listed(ms.take(i as int + 1), w) {
                        let t = choose|t: int| 0 <= t < ms.take(i as int + 1).len() && key_in(
                            spec_tags((#[trigger] ms.take(i as int + 1)[t]).content), w);
                        if t < i as int {
                            assert(key_in(spec_tags((ms.take(i as int)[t]).content), w));
                        }
                    }
                }
            }
            i = i + 1;
        }
        proof {
            assert(ms.take(n as int) =~= ms);
        }
        dedup_sorted_strings(sort_strings(c))
    }

    /// The distinct hashtags of the records, with their `#` prefix, sorted.
    pub fn list_hashtags(&self) -> (r: Vec<String>)
        ensures
            sorted_strs(r@),
            distinct_strs(r@),
            forall|w: Seq<char>| has_str(r@, w) <==> hashtag_listed(self.models(), w),
    {
        let ghost ms = self.models();
        let n = self.todos.len();
        let mut c: Vec<String> = Vec::new();
        let mut i: usize = 0;
        while i < n
            invariant
                0 <= i <= n,
                n == self.todos@.len(),
                ms == self.models(),
                forall|w: Seq<char>| has_str(c@, w) <==> hashtag_listed(ms.take(i as int), w),
            decreases n - i,
        {
            let hs = match self.todos[i].parse_hashtags() {
                Ok(v) => v,
                Err(_) => Vec::new(),
            };
            let ghost tags = spec_hashtags(ms[i as int].content);
            let nk = hs.len();
            let mut k: usize = 0;
            while k < nk
                invariant
                    0 <= k <= nk,
                    nk == hs@.len(),
                    strings_view(hs@) == tags,
                    ms == self.models(),
                    0 <= i < ms.len(),
                    forall|w: Seq<char>| has_str(c@, w) <==> (hashtag_listed(
                        ms.take(i as int), w) || word_in(tags.take(k as int), w)),
                decreases nk - k,
            {
                let ghost cold = c@;
                c.push(hs[k].clone());
                proof {
                    assert forall|w: Seq<char>| has_str(c@, w) <==> (hashtag_listed(
                        ms.take(i as int), w) || word_in(tags.take(k as int + 1), w)) by {
                        lemma_has_str_concat(cold, seq![c@.last()], w);
                        lemma_has_str_single(c@.last(), w);
                        assert(c@ =~= cold + seq![c@.last()]);
                        assert(c@.last()@ == tags[k as int]);
                        if word_in(tags.take(k as int + 1), w) {
                            let j = choose|j: int| 0 <= j < tags.take(k as int + 1).len() && (
                            #[trigger] tags.take(k as int + 1)[j]) == w;
                            if j == k as int {
                                assert(tags[k as int] == w);
                            } else {
                                assert(tags.take(k as int)[j] == w);
                            }
                        }
                        if w == tags[k as int] {
                            assert(tags.take(k as int + 1)[k as int] == w);
                        }
                        if word_in(tags.take(k as int), w) {
                            let j = choose|j: int| 0 <= j < tags.take(k as int).len() && (
                            #[trigger] tags.take(k as int)[j]) == w;
                            assert(tags.take(k as int + 1)[j] == w);
                        }
                    }
                }
                k = k + 1;
            }
            proof {
                assert(tags.take(nk as int) =~= tags);
                assert(ms.take(i as int + 1)[i as int] == ms[i as int]);
                assert forall|w: Seq<char>| (hashtag_listed(ms.take(i as int), w) || word_in(
                    tags, w)) <==> hashtag_listed(ms.take(i as int + 1), w) by {
                    if hashtag_listed(ms.take(i as int), w) {
                        let t = choose|t: int| 0 <= t < ms.take(i as int).len() && word_in(
                            spec_hashtags((#[trigger] ms.take(i as int)[t]).content), w);
                        assert(word_in(spec_hashtags((ms.take(i as int + 1)[t]).content), w));
                    }
                    if word_in(tags, w) {
                        assert(word_in(spec_hashtags(
                            (ms.take(i as int + 1)[i as int]).content), w));
                    }
                    if hashtag_listed(ms.take(i as int + 1), w) {
                        let t = choose|t: int| 0 <= t < ms.take(i as int + 1).len() && word_in(
                            spec_hashtags((#[trigger] ms.take(i as int + 1)[t]).content), w);
                        if t < i as int {
                            assert(word_in(spec_hashtags((ms.take(i as int)[t]).content), w));
                        }
                    }
                }
            }
            i = i + 1;
        }
        proof {
            assert(ms.take(n as int) =~= ms);
        }
        dedup_sorted_strings(sort_strings(c))
    }
}

/// Some record's first project is `w`.
pub open spec fn project_listed(ms: Seq<TodoModel>, w: Seq<char>) -> bool {
    exists|t: int| 0 <= t < ms.len() && spec_project((#[trigger] ms[t]).content) == Some(w)
}

/// Some record's first context is `w`.
pub open spec fn context_listed(ms: Seq<TodoModel>, w: Seq<char>) -> bool {
    exists|t: int| 0 <= t < ms.len() && spec_context((#[trigger] ms[t]).content) == Some(w)
}

/// `w` is a key of the pair sequence.
pub open spec fn key_in(ps: Seq<(Seq<char>, Seq<char>)>, w: Seq<char>) -> bool {
    exists|j: int| 0 <= j < ps.len() && (#[trigger] ps[j]).0 == w
}

/// Some record's tags hold the key `w`.
pub open spec fn tag_listed(ms: Seq<TodoModel>, w: Seq<char>) -> bool {
    exists|t: int| 0 <= t < ms.len() && key_in(spec_tags((#[trigger] ms[t]).content), w)
}

/// `w` is one of the words of the sequence.
pub open spec fn word_in(ws: Seq<Seq<char>>, w: Seq<char>) -> bool {
    exists|j: int| 0 <= j < ws.len() && (#[trigger] ws[j]) == w
}

/// Some record's hashtags hold `w`.
pub open spec fn hashtag_listed(ms: Seq<TodoModel>, w: Seq<char>) -> bool {
    exists|t: int| 0 <= t < ms.len() && word_in(spec_hashtags((#[trigger] ms[t]).content), w)
}

/// The regex engine's whole answer for a pattern and a text: whether the
/// pattern matches, or nothing when the pattern cannot be compiled or the
/// engine gives its run up.  Compilation depends on the pattern alone and
/// the engine's run limit is a fixed constant, so the answer is a function
/// of the two arguments.
pub uninterp spec fn regex_answer(pattern: Seq<char>, text: Seq<char>) -> Option<bool>;

/// Relies on `fancy_regex::Regex::new` and `fancy_regex::Regex::is_match`:
/// the engine's answer depends on the pattern and the text alone.
#[verifier::external_body]
fn regex_is_match(pattern: &str, text: &str) -> (r: Option<bool>)
    ensures
        r == regex_answer(pattern@, text@),
{
    match fancy_regex::Regex::new(pattern) {
        Ok(re) => re.is_match(text).ok(),
        Err(_) => None,
    }
}

/// The records rearranged into the conventional order.
pub open spec fn rearranged(ms: Seq<TodoModel>) -> Seq<TodoModel> {
    sort_todos(only_active(ms), false) + sort_todos(only_completed(ms), true)
}

/// The text of a record sequence: one canonical line per record, a newline
/// after each.
pub open spec fn spec_render_all(ms: Seq<TodoModel>) -> Seq<char>
    decreases ms.len(),
{
    if ms.len() == 0 {
        Seq::empty()
    } else {
        spec_render(ms[0]) + "\n"@ + spec_render_all(ms.drop_first())
    }
}

/// The records whose `due:` date is the given one.
pub open spec fn matching_due(ms: Seq<TodoModel>, d: Date) -> Seq<TodoModel> {
    ms.filter(|m: TodoModel| spec_due(m.content) == Ok::<Option<Date>, TodoErr>(Some(d)))
}

/// The records whose first project is the given one.
pub open spec fn matching_project(ms: Seq<TodoModel>, p: Seq<char>) -> Seq<TodoModel> {
    ms.filter(|m: TodoModel| spec_project(m.content) == Some(p))
}

/// The records whose first context is the given one.
pub open spec fn matching_context(ms: Seq<TodoModel>, c: Seq<char>) -> Seq<TodoModel> {
    ms.filter(|m: TodoModel| spec_context(m.content) == Some(c))
}

/// The records whose content the pattern matches.
pub open spec fn matching_regex(ms: Seq<TodoModel>, pat: Seq<char>) -> Seq<TodoModel> {
    ms.filter(|m: TodoModel| regex_answer(pat, m.content) == Some(true))
}

/// The completed records.
pub open spec fn only_completed(ms: Seq<TodoModel>) -> Seq<TodoModel> {
    ms.filter(|m: TodoModel| m.completed)
}

/// The records not yet completed.
pub open spec fn only_active(ms: Seq<TodoModel>) -> Seq<TodoModel> {
    ms.filter(|m: TodoModel| !m.completed)
}

/// The records whose content holds the query.
pub open spec fn matching_search(ms: Seq<TodoModel>, q: Seq<char>) -> Seq<TodoModel> {
    ms.filter(|m: TodoModel| seq_contains(m.content, q))
}

} // verus!
