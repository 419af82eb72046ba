//! Ordering of strings and records.
//!
//! The derived listings of a collection are sorted and deduplicated, and the
//! conventional record order sorts by a date.  This module defines the
//! lexicographic order on character sequences, a stable insertion sort for
//! strings and for records, and deduplication of a sorted string vector.

use vstd::prelude::*;
use vstd::string::StrSliceExecFns;
use vstd::utf8::char_u32_cast;
use crate::date::opt_date_key;
use crate::parser::{Todo, TodoModel};
use crate::file::todo_views;

verus! {

// ---------------------------------------------------------------------------
// Lexicographic order on character sequences
// ---------------------------------------------------------------------------

/// `a` comes at or before `b` in lexicographic order of the character
/// codes.
pub open spec fn lex_le(a: Seq<char>, b: Seq<char>) -> bool
    decreases a.len(),
{
    if a.len() == 0 {
        true
    } else if b.len() == 0 {
        false
    } else if a[0] == b[0] {
        lex_le(a.drop_first(), b.drop_first())
    } else {
        (a[0] as u32) < (b[0] as u32)
    }
}

/// The order is total.
pub proof fn lemma_lex_total(a: Seq<char>, b: Seq<char>)
    ensures
        lex_le(a, b) || lex_le(b, a),
    decreases a.len(),
{
    if a.len() > 0 && b.len() > 0 {
        if a[0] == b[0] {
            lemma_lex_total(a.drop_first(), b.drop_first());
        } else {
            char_u32_cast(a[0], a[0] as u32);
            char_u32_cast(b[0], b[0] as u32);
        }
    }
}

/// The order is transitive.
pub proof fn lemma_lex_trans(a: Seq<char>, b: Seq<char>, c: Seq<char>)
    requires
        lex_le(a, b),
        lex_le(b, c),
    ensures
        lex_le(a, c),
    decreases a.len(),
{
    if a.len() == 0 || b.len() == 0 || c.len() == 0 {
    } else if a[0] == b[0] && b[0] == c[0] {
        lemma_lex_trans(a.drop_first(), b.drop_first(), c.drop_first());
    }
}

/// The order is antisymmetric.
pub proof fn lemma_lex_antisym(a: Seq<char>, b: Seq<char>)
    requires
        lex_le(a, b),
        lex_le(b, a),
    ensures
        a == b,
    decreases a.len(),
{
    if a.len() == 0 {
        assert(b.len() == 0);
        assert(a =~= b);
    } else {
        assert(b.len() > 0);
        if a[0] != b[0] {
            assert((a[0] as u32) < (b[0] as u32));
            assert((b[0] as u32) < (a[0] as u32));
        }
        lemma_lex_antisym(a.drop_first(), b.drop_first());
        assert(a.len() == b.len());
        assert forall|i: int| 0 <= i < a.len() implies a[i] == b[i] by {
            if i > 0 {
                assert(a[i] == a.drop_first()[i - 1]);
                assert(b[i] == b.drop_first()[i - 1]);
            }
        }
        assert(a =~= b);
    }
}

/// Compares two strings in lexicographic order.
pub fn str_le(a: &str, b: &str) -> (r: bool)
    ensures
        r == lex_le(a@, b@),
{
    let la = a.unicode_len();
    let lb = b.unicode_len();
    let mut i: usize = 0;
    proof {
        assert(a@.skip(0) =~= a@);
        assert(b@.skip(0) =~= b@);
    }
    while i < la && i < lb
        invariant
            0 <= i,
            i <= la,
            i <= lb,
            la == a@.len(),
            lb == b@.len(),
            lex_le(a@, b@) == lex_le(a@.skip(i as int), b@.skip(i as int)),
        decreases la - i,
    {
        let ca = a.get_char(i);
        let cb = b.get_char(i);
        if ca != cb {
            proof {
                assert(a@.skip(i as int)[0] == a@[i as int]);
                assert(b@.skip(i as int)[0] == b@[i as int]);
            }
            return (ca as u32) < (cb as u32);
        }
        proof {
            assert(a@.skip(i as int)[0] == a@[i as int]);
            assert(b@.skip(i as int)[0] == b@[i as int]);
            assert(a@.skip(i as int).drop_first() =~= a@.skip(i as int + 1));
            assert(b@.skip(i as int).drop_first() =~= b@.skip(i as int + 1));
        }
        i = i + 1;
    }
    proof {
        if i >= la {
            assert(a@.skip(i as int) =~= Seq::<char>::empty());
        } else {
            assert(b@.skip(i as int) =~= Seq::<char>::empty());
            assert(a@.skip(i as int).len() > 0);
        }
    }
    la <= lb
}

// ---------------------------------------------------------------------------
// Sorted, deduplicated string listings
// ---------------------------------------------------------------------------

/// `w` is one of the strings of `v`.
pub open spec fn has_str(v: Seq<String>, w: Seq<char>) -> bool {
    exists|i: int| 0 <= i < v.len() && (#[trigger] v[i])@ == w
}

/// The strings of a concatenation are those of the two parts.
pub proof fn lemma_has_str_concat(a: Seq<String>, b: Seq<String>, w: Seq<char>)
    ensures
        has_str(a + b, w) <==> (has_str(a, w) || has_str(b, w)),
{
    if has_str(a + b, w) {
        let i = choose|i: int| 0 <= i < (a + b).len() && (#[trigger] (a + b)[i])@ == w;
        if i < a.len() {
            assert(a[i]@ == w);
        } else {
            assert(b[i - a.len()]@ == w);
        }
    }
    if has_str(a, w) {
        let i = choose|i: int| 0 <= i < a.len() && (#[trigger] a[i])@ == w;
        assert((a + b)[i]@ == w);
    }
    if has_str(b, w) {
        let i = choose|i: int| 0 <= i < b.len() && (#[trigger] b[i])@ == w;
        assert((a + b)[a.len() + i]@ == w);
    }
}

/// The strings of a singleton.
pub proof fn lemma_has_str_single(x: String, w: Seq<char>)
    ensures
        has_str(seq![x], w) <==> x@ == w,
{
    if x@ == w {
        assert(seq![x][0]@ == w);
    }
}

/// The strings of `v` are pairwise sorted.
pub open spec fn sorted_strs(v: Seq<String>) -> bool {
    forall|i: int, j: int| 0 <= i < j < v.len() ==> lex_le((#[trigger] v[i])@, (#[trigger] v[j])@)
}

/// The strings of `v` are pairwise distinct.
pub open spec fn distinct_strs(v: Seq<String>) -> bool {
    forall|i: int, j: int| 0 <= i < j < v.len() ==> (#[trigger] v[i])@ != (#[trigger] v[j])@
}

/// Sorts a string vector; the outcome holds exactly the same strings.
pub fn sort_strings(v: Vec<String>) -> (r: Vec<String>)
    ensures
        sorted_strs(r@),
        forall|w: Seq<char>| has_str(r@, w) <==> has_str(v@, w),
        r@.len() == v@.len(),
{
    let n = v.len();
    let mut r: Vec<String> = Vec::new();
    let mut i: usize = 0;
    while i < n
        invariant
            0 <= i <= n,
            n == v@.len(),
            r@.len() == i,
            sorted_strs(r@),
            forall|w: Seq<char>| has_str(r@, w) <==> has_str(v@.take(i as int), w),
        decreases n - i,
    {
        let ghost rold = r@;
        let x = v[i].clone();
        let ghost xv = x@;
        let mut pos: usize = 0;
        while pos < r.len() && str_le(r[pos].as_str(), x.as_str())
            invariant
                0 <= pos <= r@.len(),
                r@ == rold,
                x@ == xv,
                forall|w: int| 0 <= w < pos ==> lex_le((#[trigger] r@[w])@, xv),
            decreases r@.len() - pos,
        {
            pos = pos + 1;
        }
        proof {
            if pos < r@.len() {
                lemma_lex_total(rold[pos as int]@, xv);
            }
        }
        r.insert(pos, x);
        proof {
            let rv = r@;
            assert(rv =~= rold.take(pos as int) + seq![x] + rold.skip(pos as int));
            assert forall|a: int, b: int| 0 <= a < b < rv.len() implies lex_le(
                (#[trigger] rv[a])@, (#[trigger] rv[b])@) by {
                if a < pos && b == pos {
                    assert(rv[a]@ == rold[a]@);
                } else if a == pos && b > pos {
                    assert(rv[b]@ == rold[b - 1]@);
                    if b - 1 == pos {
                    } else {
                        lemma_lex_trans(xv, rold[pos as int]@, rold[b - 1]@);
                    }
                } else if a < pos && b > pos {
                    assert(rv[a]@ == rold[a]@ && rv[b]@ == rold[b - 1]@);
                } else if b < pos {
                    assert(rv[a]@ == rold[a]@ && rv[b]@ == rold[b]@);
                } else if a > pos {
                    assert(rv[a]@ == rold[a - 1]@ && rv[b]@ == rold[b - 1]@);
                }
            }
            let ghost tv = v@.take(i as int + 1);
            assert(tv =~= v@.take(i as int) + seq![v@[i as int]]);
            assert(rold =~= rold.take(pos as int) + rold.skip(pos as int));
            assert forall|w: Seq<char>| has_str(rv, w) <==> has_str(tv, w) by {
                lemma_has_str_concat(rold.take(pos as int) + seq![x], rold.skip(pos as int), w);
                lemma_has_str_concat(rold.take(pos as int), seq![x], w);
                lemma_has_str_concat(rold.take(pos as int), rold.skip(pos as int), w);
                lemma_has_str_single(x, w);
                lemma_has_str_concat(v@.take(i as int), seq![v@[i as int]], w);
                lemma_has_str_single(v@[i as int], w);
                assert(rv == (rold.take(pos as int) + seq![x]) + rold.skip(pos as int));
            }
        }
        i = i + 1;
    }
    proof {
        assert(v@.take(n as int) =~= v@);
    }
    r
}

/// Drops repeated strings out of a sorted vector; the outcome is strictly
/// sorted and holds exactly the same strings.
pub fn dedup_sorted_strings(v: Vec<String>) -> (r: Vec<String>)
    requires
        sorted_strs(v@),
    ensures
        sorted_strs(r@),
        distinct_strs(r@),
        forall|w: Seq<char>| has_str(r@, w) <==> has_str(v@, w),
{
    let n = v.len();
    let mut r: Vec<String> = Vec::new();
    let mut i: usize = 0;
    while i < n
        invariant
            0 <= i <= n,
            n == v@.len(),
            sorted_strs(v@),
            sorted_strs(r@),
            distinct_strs(r@),
            forall|w: Seq<char>| has_str(r@, w) <==> has_str(v@.take(i as int), w),
            r@.len() > 0 ==> i > 0 && r@.last()@ == v@[i - 1]@,
            r@.len() == 0 ==> i == 0,
        decreases n - i,
    {
        let keep = if r.len() == 0 {
            true
        } else {
            !crate::tags::str_eq(r[r.len() - 1].as_str(), v[i].as_str())
        };
        let ghost rold = r@;
        if keep {
            r.push(v[i].clone());
            proof {
                let rv = r@;
                assert(rv =~= rold + seq![v@[i as int]]);
                assert forall|a: int, b: int| 0 <= a < b < rv.len() implies lex_le(
                    (#[trigger] rv[a])@, (#[trigger] rv[b])@) by {
                    if b == rv.len() - 1 {
                        assert(rv[a]@ == rold[a]@);
                        assert(has_str(rold, rold[a]@));
                        assert(has_str(v@.take(i as int), rold[a]@));
                        let t = choose|t: int| 0 <= t < v@.take(i as int).len() && (
                        #[trigger] v@.take(i as int)[t])@ == rold[a]@;
                        assert(v@[t]@ == rold[a]@);
                        assert(lex_le(v@[t]@, v@[i as int]@));
                    } else {
                        assert(rv[a]@ == rold[a]@ && rv[b]@ == rold[b]@);
                    }
                }
                assert forall|a: int, b: int| 0 <= a < b < rv.len() implies (#[trigger] rv[a])@
                    != (#[trigger] rv[b])@ by {
                    if b == rv.len() - 1 {
                        assert(rv[a]@ == rold[a]@);
                        if rold.len() > 0 && a < rold.len() - 1 {
                            if rold[a]@ == rv[b]@ {
                                // an earlier kept string equal to the new one
                                // would have to equal the last kept string too
                                assert(lex_le(rold[a]@, rold[rold.len() - 1]@));
                                assert(lex_le(v@[i - 1]@, v@[i as int]@));
                                lemma_lex_trans(v@[i - 1]@, v@[i as int]@, rold[
                                    rold.len() - 1]@);
                                lemma_lex_antisym(rold[a]@, rold[rold.len() - 1]@);
                            }
                        }
                    } else {
                        assert(rv[a]@ == rold[a]@ && rv[b]@ == rold[b]@);
                    }
                }
            }
        }
        proof {
            let ghost tv = v@.take(i as int + 1);
            assert(tv =~= v@.take(i as int) + seq![v@[i as int]]);
            assert forall|w: Seq<char>| has_str(r@, w) <==> has_str(tv, w) by {
                lemma_has_str_concat(v@.take(i as int), seq![v@[i as int]], w);
                lemma_has_str_single(v@[i as int], w);
                if keep {
                    lemma_has_str_concat(rold, seq![v@[i as int]], w);
                    assert(r@ == rold + seq![v@[i as int]]);
                } else {
                    assert(rold.last()@ == v@[i as int]@);
                    if w == v@[i as int]@ {
                        assert(rold[rold.len() - 1]@ == w);
                    }
                }
            }
        }
        i = i + 1;
    }
    proof {
        assert(v@.take(n as int) =~= v@);
    }
    r
}

// ---------------------------------------------------------------------------
// Sorting records by a date
// ---------------------------------------------------------------------------

/// The sort key of a record: its creation date, or its completion date.
pub open spec fn key_of(m: TodoModel, by_completion: bool) -> int {
    if by_completion {
        opt_date_key(m.completion)
    } else {
        opt_date_key(m.creation)
    }
}

/// Inserts a record after every leading record whose key is at most its own:
/// the position that keeps a sorted sequence sorted and equal keys in
/// arrival order.
pub open spec fn insert_sorted(s: Seq<TodoModel>, x: TodoModel, bc: bool) -> Seq<TodoModel>
    decreases s.len(),
{
    if s.len() == 0 {
        seq![x]
    } else if key_of(s[0], bc) <= key_of(x, bc) {
        seq![s[0]] + insert_sorted(s.drop_first(), x, bc)
    } else {
        seq![x] + s
    }
}

/// Sorts records by their key, stably: equal keys keep their order.
pub open spec fn sort_todos(s: Seq<TodoModel>, bc: bool) -> Seq<TodoModel>
    decreases s.len(),
{
    if s.len() == 0 {
        s
    } else {
        insert_sorted(sort_todos(s.drop_last(), bc), s.last(), bc)
    }
}

/// Inserting past a prefix of keys at most the new key only touches the
/// rest.
proof fn lemma_insert_sorted_split(s: Seq<TodoModel>, x: TodoModel, bc: bool, p: int)
    requires
        0 <= p <= s.len(),
        forall|w: int| 0 <= w < p ==> key_of(#[trigger] s[w], bc) <= key_of(x, bc),
        p < s.len() ==> key_of(s[p], bc) > key_of(x, bc),
    ensures
        insert_sorted(s, x, bc) == s.take(p) + seq![x] + s.skip(p),
    decreases p,
{
    if p == 0 {
        assert(s.skip(0) =~= s);
        assert(insert_sorted(s, x, bc) =~= s.take(0) + seq![x] + s.skip(0));
    } else {
        assert(key_of(s[0], bc) <= key_of(x, bc));
        lemma_insert_sorted_split(s.drop_first(), x, bc, p - 1);
        assert(s.drop_first().take(p - 1) =~= s.take(p).drop_first());
        assert(s.drop_first().skip(p - 1) =~= s.skip(p));
        assert(seq![s[0]] + (s.take(p).drop_first() + seq![x] + s.skip(p)) =~= s.take(p) + seq![x]
            + s.skip(p));
    }
}

/// Compares two records by their sort key.
fn key_le(a: &Todo, b: &Todo, by_completion: bool) -> (r: bool)
    ensures
        r == (key_of(a@, by_completion) <= key_of(b@, by_completion)),
{
    if by_completion {
        crate::date::opt_date_le(&a.completion, &b.completion)
    } else {
        crate::date::opt_date_le(&a.creation, &b.creation)
    }
}

/// Sorts records by their creation date, or by their completion date,
/// stably.
pub fn sort_todos_x(v: Vec<Todo>, by_completion: bool) -> (r: Vec<Todo>)
    ensures
        todo_views(r@) == sort_todos(todo_views(v@), by_completion),
{
    let n = v.len();
    let mut r: Vec<Todo> = Vec::new();
    let mut i: usize = 0;
    proof {
        assert(todo_views(v@.take(0)) =~= Seq::<TodoModel>::empty());
        assert(todo_views(r@) =~= sort_todos(todo_views(v@.take(0)), by_completion));
    }
    while i < n
        invariant
            0 <= i <= n,
            n == v@.len(),
            todo_views(r@) == sort_todos(todo_views(v@.take(i as int)), by_completion),
        decreases n - i,
    {
        let ghost rold = todo_views(r@);
        let x = v[i].clone();
        let ghost xv = x@;
        let mut pos: usize = 0;
        while pos < r.len() && key_le(&r[pos], &x, by_completion)
            invariant
                0 <= pos <= r@.len(),
                todo_views(r@) == rold,
                x@ == xv,
                forall|w: int| 0 <= w < pos ==> key_of(#[trigger] rold[w], by_completion)
                    <= key_of(xv, by_completion),
            decreases r@.len() - pos,
        {
            proof {
                assert(rold[pos as int] == r@[pos as int]@);
            }
            pos = pos + 1;
        }
        proof {
            if pos < r@.len() {
                assert(rold[pos as int] == r@[pos as int]@);
                assert(key_of(rold[pos as int], by_completion) > key_of(xv, by_completion));
            }
            lemma_insert_sorted_split(rold, xv, by_completion, pos as int);
        }
        r.insert(pos, x);
        proof {
            assert(todo_views(r@) =~= rold.take(pos as int) + seq![xv] + rold.skip(pos as int));
            let tv = todo_views(v@.take(i as int + 1));
            assert(tv.drop_last() =~= todo_views(v@.take(i as int)));
            assert(tv.last() == v@[i as int]@);
            assert(sort_todos(tv, by_completion) == insert_sorted(rold, xv, by_completion));
        }
        i = i + 1;
    }
    proof {
        assert(v@.take(n as int) =~= v@);
    }
    r
}

} // verus!
