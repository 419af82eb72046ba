//! Laws of the parser.
//!
//! What the contracts of the single functions promise one call at a time,
//! this module states across calls: toggling twice restores a record, the
//! completion marker decides the flag and never reaches the title, the first
//! project token wins, and rendering a record and parsing it back returns
//! the record.  The round trip is proved for records made of the completion
//! flag, the priority, the title, the project and the context; the date
//! fields break it for every record holding two distinct dates, since the
//! two are rendered in the reverse of the order in which they are read, and
//! a tag whose value embeds a further token shape can change a reparse too.

use vstd::prelude::*;
use vstd::string::StrSliceExecFns;
use crate::chars::{is_space_char, is_word_char, is_digit_char};
use crate::scan::{
    word_end, plus_at, ctx_at, prio_at, tag_at, date_at, date_shape_at, token_len_at,
    strip_tokens_from, trim_spaces, ltrim_idx, rtrim_idx, lemma_ltrim_idx_bounds,
    lemma_rtrim_idx_bounds, find_plus_from, find_ctx_from, find_prio_from, scan_tags_from,
    scan_dates_from, lemma_find_plus_from, lemma_find_ctx_from, lemma_find_prio_from,
    lemma_word_end_bounds, lemma_word_end_chars, lemma_word_end_determined, nonspace_end,
    lemma_nonspace_end_bounds, lemma_nonspace_end_chars, lemma_nonspace_end_determined,
    lemma_token_len_at,
};
use crate::parser::{
    TodoModel, TodoErr, spec_parse, spec_render, spec_title, spec_toggled, spec_project,
    spec_context, spec_priority, spec_tags, spec_dates, has_marker, marker_stripped, add_tok,
};
use crate::tags::fold_pairs;

verus! {

// ---------------------------------------------------------------------------
// Toggling is its own inverse
// ---------------------------------------------------------------------------

/// Toggling a record's completion twice restores the record whole: the flag
/// comes back and no other field ever changes.
pub proof fn lemma_toggle_involutive(m: TodoModel)
    ensures
        spec_toggled(spec_toggled(m)) == m,
{
    assert(spec_toggled(spec_toggled(m)) =~= m);
}

// ---------------------------------------------------------------------------
// The completion marker
// ---------------------------------------------------------------------------

/// A line that opens with the completion marker parses to a completed
/// record, and its title is drawn from the content behind the marker alone:
/// the stripped marker never reaches the title.
pub proof fn lemma_marker_sets_completed(raw: Seq<char>)
    requires
        has_marker(raw),
        spec_parse(raw) is Ok,
    ensures
        spec_parse(raw)->Ok_0.completed,
        spec_parse(raw)->Ok_0.title == spec_title(trim_spaces(raw.drop_first())),
{
}

/// A line without the marker parses to a record that is not completed.
pub proof fn lemma_no_marker_not_completed(raw: Seq<char>)
    requires
        !has_marker(raw),
        spec_parse(raw) is Ok,
    ensures
        !spec_parse(raw)->Ok_0.completed,
{
}

// ---------------------------------------------------------------------------
// The first project token wins
// ---------------------------------------------------------------------------

/// For a line whose content holds a project token at `i` and none before it,
/// the parsed project is that token's word — with two or more project
/// tokens, the first occurrence alone decides.
pub proof fn lemma_first_project_wins(raw: Seq<char>, i: int)
    requires
        spec_parse(raw) is Ok,
        plus_at(marker_stripped(raw), i),
        forall|k: int| 0 <= k < i ==> !plus_at(marker_stripped(raw), k),
    ensures
        spec_parse(raw)->Ok_0.project == Some(
            marker_stripped(raw).subrange(i + 1, word_end(marker_stripped(raw), i + 1)),
        ),
{
    let c = marker_stripped(raw);
    lemma_find_plus_from(c, 0);
    match find_plus_from(c, 0) {
        Some(j) => {
            if j < i {
                assert(!plus_at(c, j));
            }
            if j > i {
                assert(!plus_at(c, i));
            }
            assert(j == i);
        },
        None => {
            assert(!plus_at(c, i));
        },
    }
}

/// For a line whose content holds exactly one project token, the parsed
/// project is that token's word.
pub proof fn lemma_single_project(raw: Seq<char>, i: int)
    requires
        spec_parse(raw) is Ok,
        plus_at(marker_stripped(raw), i),
        forall|k: int| k != i ==> !plus_at(marker_stripped(raw), k),
    ensures
        spec_parse(raw)->Ok_0.project == Some(
            marker_stripped(raw).subrange(i + 1, word_end(marker_stripped(raw), i + 1)),
        ),
{
    lemma_first_project_wins(raw, i);
}

// ---------------------------------------------------------------------------
// The round trip
// ---------------------------------------------------------------------------

/// No token of any kind starts anywhere in `s`.
pub open spec fn token_free(s: Seq<char>) -> bool {
    forall|i: int| 0 <= i < s.len() ==> token_len_at(s, i) is None
}

/// A trimmed, non-empty string neither starts nor ends with whitespace.
proof fn lemma_trimmed_ends(t: Seq<char>)
    requires
        t.len() > 0,
        t == trim_spaces(t),
    ensures
        !is_space_char(t[0]),
        !is_space_char(t[t.len() - 1]),
{
    lemma_ltrim_idx_bounds(t, 0);
    lemma_rtrim_idx_bounds(t, t.len() as int);
    let a = ltrim_idx(t, 0);
    let b = rtrim_idx(t, t.len() as int);
    if is_space_char(t[0]) {
        lemma_ltrim_idx_bounds(t, 1);
        assert(a >= 1);
        assert(trim_spaces(t).len() < t.len());
    }
    if is_space_char(t[t.len() - 1]) {
        lemma_rtrim_idx_bounds(t, t.len() - 1);
        assert(b <= t.len() - 1);
        assert(trim_spaces(t).len() < t.len());
    }
}

/// Trimming does not see a single leading space before a trimmed string.
proof fn lemma_trim_space_prefix(t: Seq<char>)
    requires
        t.len() > 0,
        t == trim_spaces(t),
    ensures
        trim_spaces(seq![' '] + t) == t,
{
    let s = seq![' '] + t;
    lemma_trimmed_ends(t);
    assert(s[0] == ' ' && is_space_char(s[0]));
    assert(s[1] == t[0] && !is_space_char(s[1]));
    assert(ltrim_idx(s, 0) == ltrim_idx(s, 1));
    assert(ltrim_idx(s, 1) == 1);
    assert(s[s.len() - 1] == t[t.len() - 1]);
    assert(rtrim_idx(s, s.len() as int) == s.len() as int);
    assert(s.subrange(1, s.len() as int) =~= t);
}

/// The left trim runs exactly to the first non-space position.
proof fn lemma_ltrim_to(u: Seq<char>, i: int, a: int)
    requires
        0 <= i <= a <= u.len(),
        forall|k: int| i <= k < a ==> is_space_char(#[trigger] u[k]),
        a < u.len() ==> !is_space_char(u[a]),
    ensures
        ltrim_idx(u, i) == a,
    decreases a - i,
{
    if i < a {
        lemma_ltrim_to(u, i + 1, a);
    }
}

/// The right trim runs exactly down to the last non-space position.
proof fn lemma_rtrim_to(u: Seq<char>, i: int, b: int)
    requires
        0 <= b <= i <= u.len(),
        forall|k: int| b <= k < i ==> is_space_char(#[trigger] u[k]),
        b > 0 ==> !is_space_char(u[b - 1]),
    ensures
        rtrim_idx(u, i) == b,
    decreases i - b,
{
    if b < i {
        lemma_rtrim_to(u, i - 1, b);
    }
}

/// Trimming a string that is a clean core surrounded by whitespace leaves
/// the core.
proof fn lemma_trim_spaces_around(u: Seq<char>, t: Seq<char>, a: int, b: int)
    requires
        t.len() > 0,
        !is_space_char(t[0]),
        !is_space_char(t[t.len() - 1]),
        0 <= a,
        0 <= b,
        u.len() == a + t.len() + b,
        forall|k: int| 0 <= k < a ==> is_space_char(#[trigger] u[k]),
        forall|k: int| a <= k < a + t.len() ==> #[trigger] u[k] == t[k - a],
        forall|k: int| a + t.len() <= k < u.len() ==> is_space_char(#[trigger] u[k]),
    ensures
        trim_spaces(u) == t,
{
    lemma_ltrim_to(u, 0, a);
    lemma_rtrim_to(u, u.len() as int, a + t.len());
    assert(u.subrange(a, a + t.len()) =~= t);
}

/// A string that neither starts nor ends with whitespace is its own trim.
proof fn lemma_trim_of_clean(s: Seq<char>)
    requires
        s.len() > 0,
        !is_space_char(s[0]),
        !is_space_char(s[s.len() - 1]),
    ensures
        trim_spaces(s) == s,
{
    assert(ltrim_idx(s, 0) == 0);
    assert(rtrim_idx(s, s.len() as int) == s.len() as int);
    assert(s.subrange(0, s.len() as int) =~= s);
}

/// The content that renders a record of completion flag, priority, title,
/// project and context: the priority token, the title, the project token and
/// the context token, space-separated.
spec fn rt_content(m: TodoModel) -> Seq<char> {
    let c1 = match m.priority {
        Some(p) => seq!['('] + p + seq![')'] + seq![' '] + m.title,
        None => m.title,
    };
    let c2 = match m.project {
        Some(pr) => c1 + seq![' ', '+'] + pr,
        None => c1,
    };
    match m.context {
        Some(cx) => c2 + seq![' ', '@'] + cx,
        None => c2,
    }
}

/// The round trip, for a record whose content is the completion flag, an
/// optional priority, the title, an optional project and an optional
/// context: rendering it as a line and parsing that line back returns the
/// record, field for field.  The title must be trimmed, free of tokens and
/// not itself open with the completion marker (a one-letter title `x` only
/// stands alone), and priority, project and context must be non-empty words
/// — which is how a parse leaves those fields for such a line.  Records with
/// dates are excluded: rendering emits the completion date before the
/// creation date, so a reparse of a two-date record swaps the two.
#[verifier::rlimit(100)]
pub proof fn lemma_render_parse_round_trip(m: TodoModel)
    requires
        m.creation is None,
        m.completion is None,
        m.others == Seq::<(Seq<char>, Seq<char>)>::empty(),
        m.title.len() > 0,
        m.title == trim_spaces(m.title),
        token_free(m.title),
        !has_marker(m.title),
        m.title == seq!['x'] && m.priority is None ==> m.project is None && m.context is None,
        m.priority matches Some(p) ==> p.len() > 0 && forall|i: int| 0 <= i < p.len()
            ==> is_word_char(#[trigger] p[i]),
        m.project matches Some(p) ==> p.len() > 0 && forall|i: int| 0 <= i < p.len()
            ==> is_word_char(#[trigger] p[i]),
        m.context matches Some(p) ==> p.len() > 0 && forall|i: int| 0 <= i < p.len()
            ==> is_word_char(#[trigger] p[i]),
    ensures
        spec_parse(spec_render(m)) matches Ok(m2) && m2.title == m.title && m2.completed
            == m.completed && m2.priority == m.priority && m2.creation == m.creation
            && m2.completion == m.completion && m2.project == m.project && m2.context == m.context
            && m2.others == m.others,
{
    let t = m.title;
    let r = spec_render(m);
    let c = rt_content(m);
    reveal_strlit("x");
    lemma_trimmed_ends(t);
    lemma_evaluate_content(m);
    lemma_render_shape(m);
    if m.completed {
        assert(r =~= "x"@ + seq![' '] + c);
        assert(r[0] == 'x' && r[1] == ' ');
        assert(has_marker(r));
        assert(r.drop_first() =~= seq![' '] + c);
        lemma_trim_space_prefix(c);
        assert(marker_stripped(r) == c);
    } else {
        assert(r == c);
        assert(!has_marker(r));
        assert(marker_stripped(r) == c);
    }
    assert(spec_title(c).len() > 0);
    assert(spec_parse(r) is Ok);
    assert(spec_parse(r)->Ok_0.completed == m.completed);
}

/// The rendered line of a dateless, tagless record is its content, with the
/// marker in front when the record is completed.
#[verifier::rlimit(100)]
proof fn lemma_render_shape(m: TodoModel)
    requires
        m.creation is None,
        m.completion is None,
        m.others == Seq::<(Seq<char>, Seq<char>)>::empty(),
        m.title.len() > 0,
    ensures
        m.completed ==> spec_render(m) == "x"@ + seq![' '] + rt_content(m),
        !m.completed ==> spec_render(m) == rt_content(m),
{
    let t = m.title;
    reveal_strlit("x");
    let a0: Seq<char> = if m.completed { "x"@ } else { Seq::empty() };
    let a1 = match m.priority {
        Some(p) => add_tok(a0, seq!['('] + p + seq![')']),
        None => a0,
    };
    let a4 = add_tok(a1, t);
    let a5 = match m.project {
        Some(pr) => add_tok(a4, seq!['+'] + pr),
        None => a4,
    };
    let a6 = match m.context {
        Some(cx) => add_tok(a5, seq!['@'] + cx),
        None => a5,
    };
    assert(spec_render(m) == a6);
    let c1 = match m.priority {
        Some(p) => seq!['('] + p + seq![')'] + seq![' '] + t,
        None => t,
    };
    let c2 = match m.project {
        Some(pr) => c1 + seq![' ', '+'] + pr,
        None => c1,
    };
    if m.completed {
        assert(a4 =~= "x"@ + seq![' '] + c1);
        assert(a5 =~= "x"@ + seq![' '] + c2);
        assert(a6 =~= "x"@ + seq![' '] + rt_content(m));
    } else {
        assert(a4 =~= c1);
        assert(a5 =~= c2);
        assert(a6 =~= rt_content(m));
    }
}

/// On the content of a record of priority, title, project and context, each
/// extractor answers exactly its own field, and the title extractor answers
/// the title.
#[verifier::rlimit(100)]
proof fn lemma_evaluate_content(m: TodoModel)
    requires
        m.title.len() > 0,
        m.title == trim_spaces(m.title),
        token_free(m.title),
        !has_marker(m.title),
        m.title == seq!['x'] && m.priority is None ==> m.project is None && m.context is None,
        m.priority matches Some(p) ==> p.len() > 0 && forall|i: int| 0 <= i < p.len()
            ==> is_word_char(#[trigger] p[i]),
        m.project matches Some(p) ==> p.len() > 0 && forall|i: int| 0 <= i < p.len()
            ==> is_word_char(#[trigger] p[i]),
        m.context matches Some(p) ==> p.len() > 0 && forall|i: int| 0 <= i < p.len()
            ==> is_word_char(#[trigger] p[i]),
    ensures
        ({
            let c = rt_content(m);
            &&& !has_marker(c)
            &&& trim_spaces(c) == c
            &&& c.len() > 0
            &&& spec_priority(c) == m.priority
            &&& spec_project(c) == m.project
            &&& spec_context(c) == m.context
            &&& spec_tags(c) == Seq::<(Seq<char>, Seq<char>)>::empty()
            &&& spec_dates(c) == Ok::<
                (Option<crate::date::Date>, Option<crate::date::Date>),
                TodoErr,
            >((None, None))
            &&& spec_title(c) == m.title
        }),
{
    let t = m.title;
    let c1 = match m.priority {
        Some(p) => seq!['('] + p + seq![')'] + seq![' '] + t,
        None => t,
    };
    let c2 = match m.project {
        Some(pr) => c1 + seq![' ', '+'] + pr,
        None => c1,
    };
    let c = rt_content(m);
    let n1 = c1.len() as int;
    let n2 = c2.len() as int;
    let n = c.len() as int;
    lemma_trimmed_ends(t);
    // facts of the base: no token but the priority token at its head
    match m.priority {
        Some(p) => {
            lemma_evaluate_on_prio_title(p, t);
        },
        None => {
            assert forall|k: int| 0 <= k < n1 implies !plus_at(c1, k) && !ctx_at(c1, k)
                && !prio_at(c1, k) && !tag_at(c1, k) && !date_at(c1, k) by {
                if plus_at(c1, k) || ctx_at(c1, k) || prio_at(c1, k) || tag_at(c1, k) || date_at(
                    c1, k) {
                    assert(token_len_at(c1, k) is Some);
                }
            }
            lemma_strip_none_range(c1, 0);
            assert(c1.skip(0) =~= c1);
        },
    }
    let strip1 = strip_tokens_from(c1, 0);
    assert(m.priority is Some ==> strip1 == seq![' '] + t);
    assert(m.priority is None ==> strip1 == t);
    assert(c1.len() > 0 && !is_space_char(c1[0]) && !is_space_char(c1[n1 - 1]));
    // extend with the project token
    if m.project is Some {
        let pr = m.project->0;
        lemma_extend_sign_token(c1, '+', pr);
        assert(forall|k: int| 0 <= k < n1 ==> #[trigger] c2[k] == c1[k]);
        assert(c2[n1] == ' ');
        lemma_extend_preserves_tokens(c1, c2);
        lemma_strip_concat(c1, c2, 0);
        assert(!is_space_char(c2[n2 - 1]));
    }
    let strip2 = strip_tokens_from(c2, 0);
    assert(m.project is Some ==> strip2 == strip1 + seq![' ']);
    assert(m.project is None ==> strip2 == strip1);
    assert(c2.len() > 0 && !is_space_char(c2[0]) && !is_space_char(c2[n2 - 1]));
    // extend with the context token
    if m.context is Some {
        let cx = m.context->0;
        lemma_extend_sign_token(c2, '@', cx);
        assert(forall|k: int| 0 <= k < n2 ==> #[trigger] c[k] == c2[k]);
        assert(c[n2] == ' ');
        lemma_extend_preserves_tokens(c2, c);
        lemma_strip_concat(c2, c, 0);
        assert(!is_space_char(c[n - 1]));
    }
    let strip_all = strip_tokens_from(c, 0);
    assert(m.context is Some ==> strip_all == strip2 + seq![' ']);
    assert(m.context is None ==> strip_all == strip2);
    assert(c.len() > 0 && !is_space_char(c[0]) && !is_space_char(c[n - 1]));
    lemma_trim_of_clean(c);
    // where each token kind may stand in the whole content
    assert forall|k: int| 0 <= k < n implies (plus_at(c, k) <==> m.project is Some && k == n1
        + 1) by {
        if m.context is Some && k >= n2 {
        } else if m.project is Some && k >= n1 {
        } else {
        }
    }
    assert forall|k: int| 0 <= k < n implies (ctx_at(c, k) <==> m.context is Some && k == n2
        + 1) by {
        if m.context is Some && k >= n2 {
        } else if m.project is Some && k >= n1 {
        } else {
        }
    }
    assert forall|k: int| 0 <= k < n implies !tag_at(c, k) by {
        if m.context is Some && k >= n2 {
        } else if m.project is Some && k >= n1 {
        } else {
        }
    }
    assert forall|k: int| 0 <= k < n implies !date_at(c, k) by {
        if m.context is Some && k >= n2 {
        } else if m.project is Some && k >= n1 {
        } else {
        }
    }
    assert forall|k: int| 0 <= k < n && !(m.priority is Some && k == 0) implies !prio_at(
        c, k) by {
        if m.context is Some && k >= n2 {
        } else if m.project is Some && k >= n1 {
        } else {
        }
    }
    // the project extractor answers the project
    lemma_find_plus_from(c, 0);
    match m.project {
        Some(pr) => {
            assert(plus_at(c, n1 + 1));
            match find_plus_from(c, 0) {
                Some(j) => {
                    if j < n1 + 1 {
                        assert(!plus_at(c, j));
                    }
                    if j > n1 + 1 {
                        assert(!plus_at(c, n1 + 1));
                    }
                    assert(j == n1 + 1);
                },
                None => {
                    assert(!plus_at(c, n1 + 1));
                },
            }
            assert(word_end(c, n1 + 2) == n2);
            assert(c.subrange(n1 + 2, n2) =~= pr);
            assert(spec_project(c) == Some(pr));
        },
        None => {
            if find_plus_from(c, 0) is Some {
                assert(plus_at(c, find_plus_from(c, 0)->0));
            }
            assert(spec_project(c) is None);
        },
    }
    // the context extractor answers the context
    lemma_find_ctx_from(c, 0);
    match m.context {
        Some(cx) => {
            assert(ctx_at(c, n2 + 1));
            match find_ctx_from(c, 0) {
                Some(j) => {
                    if j < n2 + 1 {
                        assert(!ctx_at(c, j));
                    }
                    if j > n2 + 1 {
                        assert(!ctx_at(c, n2 + 1));
                    }
                    assert(j == n2 + 1);
                },
                None => {
                    assert(!ctx_at(c, n2 + 1));
                },
            }
            assert(word_end(c, n2 + 2) == n);
            assert(c.subrange(n2 + 2, n as int) =~= cx);
            assert(spec_context(c) == Some(cx));
        },
        None => {
            if find_ctx_from(c, 0) is Some {
                assert(ctx_at(c, find_ctx_from(c, 0)->0));
            }
            assert(spec_context(c) is None);
        },
    }
    // the priority extractor answers the priority
    match m.priority {
        Some(p) => {
            assert(prio_at(c1, 0) && word_end(c1, 1) == p.len() as int + 1);
            assert(prio_at(c, 0) && word_end(c, 1) == p.len() as int + 1);
            assert(find_prio_from(c, 0) == Some(0int));
            assert(c.subrange(1, p.len() as int + 1) =~= p);
            assert(spec_priority(c) == Some(p));
        },
        None => {
            lemma_find_prio_from(c, 0);
            if find_prio_from(c, 0) is Some {
                assert(prio_at(c, find_prio_from(c, 0)->0));
            }
            assert(spec_priority(c) is None);
        },
    }
    // no tags and no dates anywhere
    lemma_no_tag_scan(c, 0);
    assert(fold_pairs(scan_tags_from(c, 0)) =~= Seq::<(Seq<char>, Seq<char>)>::empty());
    lemma_no_date_scan(c, 0);
    // no marker: the title neither opens with one nor is a lone `x` ahead of
    // further tokens
    if c.len() >= 2 && c[0] == 'x' && is_space_char(c[1]) {
        assert(m.priority is None);
        assert(c[0] == t[0]);
        if t.len() >= 2 {
            assert(c[1] == t[1]);
            assert(has_marker(t));
        } else {
            assert(t =~= seq!['x']);
            assert(m.project is None && m.context is None);
            assert(c == t);
        }
    }
    assert(!has_marker(c));
    assert(marker_stripped(c) == c);
    // the residual is the title amid separating spaces
    let a: int = if m.priority is Some { 1 } else { 0 };
    let b: int = (if m.project is Some { 1int } else { 0int }) + (if m.context is Some { 1int } else { 0int });
    assert(strip_all.len() == a + t.len() + b);
    assert forall|k: int| 0 <= k < a implies is_space_char(#[trigger] strip_all[k]) by {
        assert(strip_all[k] == strip1[k]);
    }
    assert forall|k: int| a <= k < a + t.len() implies #[trigger] strip_all[k] == t[k - a] by {
        assert(strip_all[k] == strip1[k]);
    }
    assert forall|k: int| a + t.len() <= k < strip_all.len() implies is_space_char(
        #[trigger] strip_all[k]) by {
        assert(strip_all[k] == ' ');
    }
    lemma_trim_spaces_around(strip_all, t, a, b);
    assert(spec_title(c) == t);
}

/// On the content `(p) title`, the priority extractor answers `p`, the title
/// extractor answers the title, and every other extractor is empty.
#[verifier::rlimit(100)]
proof fn lemma_evaluate_on_prio_title(p: Seq<char>, t: Seq<char>)
    requires
        p.len() > 0,
        forall|i: int| 0 <= i < p.len() ==> is_word_char(#[trigger] p[i]),
        t.len() > 0,
        t == trim_spaces(t),
        token_free(t),
    ensures
        ({
            let pt = seq!['('] + p + seq![')'] + seq![' '] + t;
            &&& !has_marker(pt)
            &&& trim_spaces(pt) == pt
            &&& spec_priority(pt) == Some(p)
            &&& spec_project(pt) is None
            &&& spec_context(pt) is None
            &&& spec_tags(pt) == Seq::<(Seq<char>, Seq<char>)>::empty()
            &&& spec_dates(pt) == Ok::<
                (Option<crate::date::Date>, Option<crate::date::Date>),
                TodoErr,
            >((None, None))
            &&& spec_title(pt) == t
            &&& forall|k: int| 0 <= k < pt.len() ==> !plus_at(pt, k)
            &&& forall|k: int| 0 <= k < pt.len() ==> !ctx_at(pt, k)
            &&& forall|k: int| 0 <= k < pt.len() ==> !tag_at(pt, k)
            &&& forall|k: int| 0 <= k < pt.len() ==> !date_at(pt, k)
            &&& prio_at(pt, 0)
            &&& forall|k: int| 1 <= k < pt.len() ==> !prio_at(pt, k)
            &&& word_end(pt, 1) == p.len() + 1
            &&& strip_tokens_from(pt, 0) == seq![' '] + t
        }),
{
    let pt = seq!['('] + p + seq![')'] + seq![' '] + t;
    let plen = p.len() as int;
    let off = plen + 3;
    let n = pt.len() as int;
    assert(n == off + t.len());
    // where each character of the content comes from
    assert(pt[0] == '(');
    assert(forall|k: int| 1 <= k <= plen ==> #[trigger] pt[k] == p[k - 1]);
    assert(forall|k: int| 1 <= k <= plen ==> is_word_char(#[trigger] pt[k]));
    assert(pt[plen + 1] == ')');
    assert(pt[plen + 2] == ' ');
    assert(forall|k: int| off <= k < n ==> #[trigger] pt[k] == t[k - off]);
    lemma_trimmed_ends(t);
    // the content is trimmed and carries no marker
    assert(!has_marker(pt));
    assert(pt[n - 1] == t[t.len() - 1]);
    lemma_trim_of_clean(pt);
    // the priority token stands first and is found at once
    lemma_word_end_determined(pt, 1, plen + 1);
    assert(prio_at(pt, 0));
    assert(pt.subrange(1, plen + 1) =~= p);
    assert(spec_priority(pt) == Some(p));
    // where each word run of the content ends
    assert(word_end(pt, 0) == 0);
    assert forall|k: int| 1 <= k <= plen implies word_end(pt, k) == plen + 1 by {
        lemma_word_end_determined(pt, k, plen + 1);
    }
    assert(word_end(pt, plen + 1) == plen + 1);
    assert(word_end(pt, plen + 2) == plen + 2);
    assert forall|k: int| off <= k < n implies word_end(pt, k) == off + word_end(
        t, k - off) by {
        let j = k - off;
        lemma_word_end_chars(t, j);
        lemma_word_end_bounds(t, j);
        lemma_word_end_determined(pt, k, off + word_end(t, j));
    }
    // a token in the title part would be a token of the title
    assert forall|k: int| 0 <= k < n implies !plus_at(pt, k) by {
        if plus_at(pt, k) {
            assert(pt[k] == '+');
            assert(!is_word_char('+'));
            assert(k >= off);
            let j = k - off;
            assert(k + 1 < n);
            assert(plus_at(t, j));
            assert(token_len_at(t, j) is Some);
        }
    }
    assert forall|k: int| 0 <= k < n implies !ctx_at(pt, k) by {
        if ctx_at(pt, k) {
            assert(pt[k] == '@');
            assert(!is_word_char('@'));
            assert(k >= off);
            let j = k - off;
            assert(ctx_at(t, j));
            assert(token_len_at(t, j) is Some);
        }
    }
    lemma_find_plus_from(pt, 0);
    if find_plus_from(pt, 0) is Some {
        assert(plus_at(pt, find_plus_from(pt, 0)->0));
    }
    lemma_find_ctx_from(pt, 0);
    if find_ctx_from(pt, 0) is Some {
        assert(ctx_at(pt, find_ctx_from(pt, 0)->0));
    }
    assert forall|k: int| off <= k < n implies !prio_at(pt, k) by {
        if prio_at(pt, k) {
            let j = k - off;
            let e = word_end(pt, k + 1);
            if k + 1 == n {
                assert(e == n);
            } else {
                assert(e == off + word_end(t, j + 1));
                lemma_word_end_bounds(t, j + 1);
                assert(e < n);
                assert(t[e - off] == ')');
                assert(prio_at(t, j));
                assert(token_len_at(t, j) is Some);
            }
        }
    }
    assert forall|k: int| 1 <= k < n implies !prio_at(pt, k) by {
        if prio_at(pt, k) && k < off {
            assert(pt[k] == '(');
            if 1 <= k <= plen {
                assert(is_word_char(pt[k]));
            }
        }
    }
    assert forall|k: int| 0 <= k < n implies !tag_at(pt, k) by {
        if tag_at(pt, k) {
            let e = word_end(pt, k);
            if k == 0 {
            } else if 1 <= k <= plen {
                assert(pt[e] == ')');
            } else if k == plen + 1 || k == plen + 2 {
            } else {
                let j = k - off;
                let et = word_end(t, j);
                assert(e == off + et);
                lemma_word_end_bounds(t, j);
                assert(et < t.len());
                assert(t[et] == ':');
                assert(et + 1 < t.len());
                assert(!is_space_char(t[et + 1]));
                assert(tag_at(t, j));
                assert(token_len_at(t, j) is Some);
            }
        }
    }
    lemma_no_tag_scan(pt, 0);
    assert(fold_pairs(scan_tags_from(pt, 0)) =~= Seq::<(Seq<char>, Seq<char>)>::empty());
    assert forall|k: int| 0 <= k < n implies !date_at(pt, k) by {
        if date_at(pt, k) {
            if k >= off {
                let j = k - off;
                assert(date_shape_at(t, j));
                assert(date_at(t, j));
                assert(token_len_at(t, j) is Some);
            } else {
                assert(is_digit_char(pt[k]));
                assert(k != 0 && k != plen + 1 && k != plen + 2);
                if k + 4 <= plen {
                    assert(pt[k + 4] == '-');
                    assert(!is_word_char('-'));
                } else if k + 4 == plen + 1 || k + 4 == plen + 2 {
                    assert(pt[k + 4] == '-');
                } else {
                    assert(plen - 1 <= k <= plen);
                    assert(is_digit_char(pt[plen + 1]));
                }
            }
        }
    }
    lemma_no_date_scan(pt, 0);
    // the residual is the separating space and the title, and trimming
    // leaves the title
    assert(token_len_at(pt, 0) == Some(plen + 2));
    assert(strip_tokens_from(pt, 0) == strip_tokens_from(pt, plen + 2));
    assert(token_len_at(pt, plen + 2) is None);
    assert(strip_tokens_from(pt, plen + 2) == seq![pt[plen + 2]] + strip_tokens_from(pt, off));
    assert forall|k: int| off <= k < n implies token_len_at(pt, k) is None by {
        if k + 1 < n && is_word_char(pt[k + 1]) {
        }
    }
    lemma_strip_none_range(pt, off);
    assert(pt.skip(off) =~= t);
    assert(seq![pt[plen + 2]] + t =~= seq![' '] + t);
    assert(marker_stripped(pt) == pt);
    lemma_trim_space_prefix(t);
    assert(spec_title(pt) == t);
}

/// A string with no tag token has an empty tag scan.
proof fn lemma_no_tag_scan(s: Seq<char>, i: int)
    requires
        0 <= i,
        forall|k: int| 0 <= k < s.len() ==> !tag_at(s, k),
    ensures
        scan_tags_from(s, i) == Seq::<(Seq<char>, Seq<char>)>::empty(),
    decreases s.len() - i,
{
    if i < s.len() {
        lemma_no_tag_scan(s, i + 1);
    }
}

/// A string with no bare date token has an empty date scan.
proof fn lemma_no_date_scan(s: Seq<char>, i: int)
    requires
        0 <= i,
        forall|k: int| 0 <= k < s.len() ==> !date_at(s, k),
    ensures
        scan_dates_from(s, i) == Seq::<int>::empty(),
    decreases s.len() - i,
{
    if i < s.len() {
        lemma_no_date_scan(s, i + 1);
    }
}

/// A suffix with no token at any of its positions is stripped to itself.
proof fn lemma_strip_none_range(s: Seq<char>, i: int)
    requires
        0 <= i <= s.len(),
        forall|k: int| i <= k < s.len() ==> token_len_at(s, k) is None,
    ensures
        strip_tokens_from(s, i) == s.skip(i),
    decreases s.len() - i,
{
    if i == s.len() {
        assert(strip_tokens_from(s, i) =~= s.skip(i));
    } else {
        lemma_strip_none_range(s, i + 1);
        assert(seq![s[i]] + s.skip(i + 1) =~= s.skip(i));
    }
}


// ---------------------------------------------------------------------------
// Growing a line token by token
// ---------------------------------------------------------------------------

/// Extending a line after a space boundary moves no token start of the old
/// part: a space stops every character run, so what any position up to the
/// boundary sees is unchanged.
proof fn lemma_extend_preserves_tokens(c1: Seq<char>, c2: Seq<char>)
    requires
        c1.len() < c2.len(),
        forall|k: int| 0 <= k < c1.len() ==> c2[k] == c1[k],
        c2[c1.len() as int] == ' ',
    ensures
        forall|k: int| 0 <= k <= c1.len() ==> word_end(c2, k) == word_end(c1, k),
        forall|k: int| 0 <= k < c1.len() ==> plus_at(c2, k) == plus_at(c1, k),
        forall|k: int| 0 <= k < c1.len() ==> ctx_at(c2, k) == ctx_at(c1, k),
        forall|k: int| 0 <= k < c1.len() ==> prio_at(c2, k) == prio_at(c1, k),
        forall|k: int| 0 <= k < c1.len() ==> tag_at(c2, k) == tag_at(c1, k),
        forall|k: int| 0 <= k < c1.len() ==> date_at(c2, k) == date_at(c1, k),
        forall|k: int| 0 <= k < c1.len() ==> token_len_at(c2, k) == token_len_at(c1, k),
{
    let n1 = c1.len() as int;
    assert forall|k: int| 0 <= k <= n1 implies word_end(c2, k) == word_end(c1, k) by {
        lemma_word_end_chars(c1, k);
        lemma_word_end_bounds(c1, k);
        lemma_word_end_determined(c2, k, word_end(c1, k));
    }
    assert forall|k: int| 0 <= k <= n1 implies nonspace_end(c2, k) == nonspace_end(c1, k) by {
        lemma_nonspace_end_chars(c1, k);
        lemma_nonspace_end_bounds(c1, k);
        lemma_nonspace_end_determined(c2, k, nonspace_end(c1, k));
    }
    assert forall|k: int| 0 <= k < n1 implies plus_at(c2, k) == plus_at(c1, k) by {
        if k + 1 < n1 {
        } else {
            assert(k + 1 == n1 && c2[k + 1] == ' ' && !is_word_char(' '));
        }
    }
    assert forall|k: int| 0 <= k < n1 implies ctx_at(c2, k) == ctx_at(c1, k) by {
        if k + 1 < n1 {
        } else {
            assert(k + 1 == n1 && c2[k + 1] == ' ' && !is_word_char(' '));
        }
    }
    assert forall|k: int| 0 <= k < n1 implies prio_at(c2, k) == prio_at(c1, k) by {
        let e = word_end(c1, k + 1);
        lemma_word_end_bounds(c1, k + 1);
        if e < n1 {
        } else {
            assert(e == n1 && c2[e] == ' ');
        }
    }
    assert forall|k: int| 0 <= k < n1 implies tag_at(c2, k) == tag_at(c1, k) by {
        let e = word_end(c1, k);
        lemma_word_end_bounds(c1, k);
        if e < n1 {
            if c1[e] == ':' && e + 1 == n1 {
                assert(c2[e + 1] == ' ' && is_space_char(' '));
            }
        } else {
            assert(e == n1 && c2[e] == ' ');
        }
    }
    assert forall|k: int| 0 <= k < n1 implies date_at(c2, k) == date_at(c1, k) by {
        if k + 10 <= n1 {
        } else {
            // a shape would have to read the space at the boundary as a
            // digit or a dash
            if date_shape_at(c2, k) {
                assert(c2[n1] == ' ');
                assert(n1 - k < 10);
                if n1 - k == 4 || n1 - k == 7 {
                    assert(c2[k + (n1 - k)] == '-');
                } else {
                    assert(is_digit_char(c2[n1]) || c2[n1] == '-');
                }
            }
        }
    }
}

/// What extending a line with a space, a sign and a word adds: the one sign
/// token of the tail, and nothing else — no tag, no date, no priority, and
/// no token of the other sign.
proof fn lemma_extend_sign_token(c1: Seq<char>, sign: char, w: Seq<char>)
    requires
        sign == '+' || sign == '@',
        w.len() > 0,
        forall|i: int| 0 <= i < w.len() ==> is_word_char(#[trigger] w[i]),
    ensures
        ({
            let c2 = c1 + seq![' ', sign] + w;
            let n1 = c1.len() as int;
            let n2 = c2.len() as int;
            &&& forall|k: int| n1 <= k < n2 ==> (plus_at(c2, k) <==> k == n1 + 1 && sign == '+')
            &&& forall|k: int| n1 <= k < n2 ==> (ctx_at(c2, k) <==> k == n1 + 1 && sign == '@')
            &&& forall|k: int| n1 <= k < n2 ==> !prio_at(c2, k)
            &&& forall|k: int| n1 <= k < n2 ==> !tag_at(c2, k)
            &&& forall|k: int| n1 <= k < n2 ==> !date_at(c2, k)
            &&& word_end(c2, n1 + 2) == n2
            &&& c2.subrange(n1 + 2, n2) == w
            &&& strip_tokens_from(c2, n1) == seq![' ']
        }),
{
    let c2 = c1 + seq![' ', sign] + w;
    let n1 = c1.len() as int;
    let n2 = c2.len() as int;
    assert(c2[n1] == ' ');
    assert(c2[n1 + 1] == sign);
    assert(forall|k: int| n1 + 2 <= k < n2 ==> #[trigger] c2[k] == w[k - n1 - 2]);
    assert(!is_word_char(' ') && !is_word_char('+') && !is_word_char('@'));
    lemma_word_end_determined(c2, n1 + 2, n2);
    assert(c2.subrange(n1 + 2, n2) =~= w);
    assert(word_end(c2, n1) == n1);
    assert(word_end(c2, n1 + 1) == n1 + 1);
    assert forall|k: int| n1 <= k < n2 implies word_end(c2, k) == (if k <= n1 + 1 { k } else {
        n2
    }) by {
        if k >= n1 + 2 {
            lemma_word_end_determined(c2, k, n2);
        }
    }
    assert forall|k: int| n1 <= k < n2 implies !tag_at(c2, k) by {
        if tag_at(c2, k) {
            let e = word_end(c2, k);
            if k <= n1 + 1 {
            } else {
                assert(e == n2);
            }
        }
    }
    assert forall|k: int| n1 <= k < n2 implies !prio_at(c2, k) by {
        if prio_at(c2, k) {
            assert(c2[k] == '(');
            assert(k >= n1 + 2 && is_word_char(c2[k]));
        }
    }
    assert forall|k: int| n1 <= k < n2 implies !date_at(c2, k) by {
        if date_at(c2, k) {
            assert(k + 10 <= n2);
            assert(c2[k + 4] == '-');
            assert(n1 <= k + 4 < n2);
            assert(k + 4 >= n1 + 2 ==> is_word_char(c2[k + 4]));
            assert(!is_word_char('-'));
        }
    }
    // the one token of the tail is the sign token, and stripping keeps only
    // the separating space
    assert(plus_at(c2, n1 + 1) <==> sign == '+');
    assert(ctx_at(c2, n1 + 1) <==> sign == '@');
    assert(token_len_at(c2, n1) is None);
    assert(token_len_at(c2, n1 + 1) == Some(n2 - n1 - 1));
    assert(strip_tokens_from(c2, n2) =~= Seq::<char>::empty());
    assert(strip_tokens_from(c2, n1 + 1) == strip_tokens_from(c2, n2));
    assert(strip_tokens_from(c2, n1) =~= seq![' ']);
}

/// Stripping an extended line is stripping the old part and then the rest:
/// up to the boundary every decision is the same, and no token crosses it.
proof fn lemma_strip_concat(c1: Seq<char>, c2: Seq<char>, i: int)
    requires
        c1.len() <= c2.len(),
        forall|k: int| 0 <= k < c1.len() ==> c2[k] == c1[k],
        forall|k: int| 0 <= k < c1.len() ==> token_len_at(c2, k) == token_len_at(c1, k),
        0 <= i <= c1.len(),
    ensures
        strip_tokens_from(c2, i) == strip_tokens_from(c1, i) + strip_tokens_from(
            c2, c1.len() as int),
    decreases c1.len() - i,
{
    let n1 = c1.len() as int;
    if i == n1 {
        assert(strip_tokens_from(c1, i) + strip_tokens_from(c2, n1) =~= strip_tokens_from(c2, n1));
    } else {
        match token_len_at(c1, i) {
            Some(l) => {
                lemma_token_len_at(c1, i);
                lemma_strip_concat(c1, c2, i + l);
            },
            None => {
                lemma_strip_concat(c1, c2, i + 1);
                assert(seq![c2[i]] + (strip_tokens_from(c1, i + 1) + strip_tokens_from(c2, n1))
                    =~= (seq![c1[i]] + strip_tokens_from(c1, i + 1)) + strip_tokens_from(c2, n1));
            },
        }
    }
}

} // verus!

