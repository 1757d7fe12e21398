//! The allocation engine.
//!
//! One store instance keeps the three tables of a numeric domain — spaces,
//! pools, assignments — as rows over a common shape: an inclusive numeric
//! interval `[lo, hi]` (the reading of the domain's byte key), the raw
//! address bytes and specificity they came from, and the entity metadata.
//! The engine is domain-agnostic: all domain arithmetic happens in the
//! codecs before a row reaches it.
//!
//! Its operations maintain, and its contracts expose, the allocation
//! invariants: every child row's interval lies inside its parent's, and
//! rows under the same parent never overlap. Each table is kept sorted by
//! the interval's lower bound, so listings come out in ascending range
//! order. An operation validates and mutates in one exclusive borrow, so
//! a failed validation leaves no partial effect.

use vstd::prelude::*;

use crate::types::ObjectVisibility;

verus! {

/// One stored entity of any level: metadata plus the half of the range
/// encoding the engine reasons about (`lo`/`hi`) and the half it merely
/// carries (`addr`/`len`, the domain's original form of the range).
pub struct Row {
    /// Store-generated identifier, unique within its table.
    pub id: i32,
    /// Identifier of the parent row; 0 for top-level rows.
    pub parent_id: i32,
    /// Entity name.
    pub name: String,
    /// Entity description.
    pub description: String,
    /// Entity visibility; recorded, never interpreted.
    pub visibility: ObjectVisibility,
    /// Inclusive lower bound of the range, as a numeric key value.
    pub lo: u128,
    /// Inclusive upper bound of the range, as a numeric key value.
    pub hi: u128,
    /// The address bytes the range came from, left-aligned, zero-padded.
    pub addr: [u8; 16],
    /// The domain's specificity (prefix length), where it has one.
    pub len: i32,
}

/// A row's interval is well-formed.
pub open spec fn row_wf(r: Row) -> bool {
    r.lo <= r.hi
}

/// Two rows' intervals share at least one value.
pub open spec fn overlaps(a: Row, b: Row) -> bool {
    a.lo <= b.hi && b.lo <= a.hi
}

/// The child row's interval lies entirely inside the parent row's,
/// touching bounds included.
pub open spec fn contained(c: Row, p: Row) -> bool {
    p.lo <= c.lo && c.hi <= p.hi
}

/// Some row of the table carries this identifier.
pub open spec fn has_id(s: Seq<Row>, id: i32) -> bool {
    exists|i: int| 0 <= i < s.len() && s[i].id == id
}

/// Identifiers are unique within the table.
pub open spec fn ids_unique(s: Seq<Row>) -> bool {
    forall|i: int, j: int| 0 <= i < j < s.len() ==> s[i].id != s[j].id
}

/// Every identifier is at least 1 and below the next free one.
pub open spec fn ids_bounded(s: Seq<Row>, next: i32) -> bool {
    forall|i: int| 0 <= i < s.len() ==> 1 <= #[trigger] s[i].id < next
}

/// The table is sorted by lower bound ascending.
pub open spec fn sorted_by_lo(s: Seq<Row>) -> bool {
    forall|i: int, j: int| 0 <= i <= j < s.len() ==> s[i].lo <= s[j].lo
}

/// Distinct rows under the same parent never overlap.
pub open spec fn siblings_disjoint(s: Seq<Row>) -> bool {
    forall|i: int, j: int|
        0 <= i < s.len() && 0 <= j < s.len() && i != j && s[i].parent_id == s[j].parent_id
            ==> !overlaps(s[i], s[j])
}

/// Some row of the table overlaps `[lo, hi]` under the given parent.
pub open spec fn exists_overlap(s: Seq<Row>, parent_id: i32, lo: u128, hi: u128) -> bool {
    exists|i: int|
        0 <= i < s.len() && #[trigger] s[i].parent_id == parent_id && s[i].lo <= hi && lo
            <= s[i].hi
}

/// The child has a parent row in `ps` and lies inside it.
pub open spec fn parent_ok(c: Row, ps: Seq<Row>) -> bool {
    exists|j: int| 0 <= j < ps.len() && #[trigger] ps[j].id == c.parent_id && contained(c, ps[j])
}

/// Every child row has a containing parent row.
pub open spec fn children_ok(cs: Seq<Row>, ps: Seq<Row>) -> bool {
    forall|i: int| 0 <= i < cs.len() ==> parent_ok(#[trigger] cs[i], ps)
}

/// Well-formedness of one table.
pub open spec fn level_wf(s: Seq<Row>) -> bool {
    ids_unique(s) && sorted_by_lo(s) && siblings_disjoint(s) && forall|i: int|
        0 <= i < s.len() ==> row_wf(#[trigger] s[i])
}

/// The pool with this identifier exists and belongs to the given space.
pub open spec fn pool_under_space(ps: Seq<Row>, space_id: i32, pool_id: i32) -> bool {
    exists|j: int|
        0 <= j < ps.len() && #[trigger] ps[j].id == pool_id && ps[j].parent_id == space_id
}

/// Why a create operation was refused.
#[derive(Debug, Clone, Copy, PartialEq, Eq, Structural)]
pub enum CreateFailure {
    /// The named parent row does not exist.
    ParentMissing,
    /// The candidate range is not contained in the parent's range.
    NotContained,
    /// The candidate range overlaps a sibling's range.
    Overlap,
    /// No identifier is left to assign.
    IdsExhausted,
}

/// How `insert` at an index rearranges a table.
pub proof fn lemma_insert_index(s: Seq<Row>, k: int, v: Row)
    requires
        0 <= k <= s.len(),
    ensures
        s.insert(k, v).len() == s.len() + 1,
        forall|j: int| 0 <= j < k ==> s.insert(k, v)[j] == s[j],
        s.insert(k, v)[k] == v,
        forall|j: int| k < j <= s.len() ==> s.insert(k, v)[j] == s[j - 1],
{
}

/// Copy a row; the copy equals the original.
fn clone_row(r: &Row) -> (res: Row)
    ensures
        res == *r,
{
    let res = Row {
        id: r.id,
        parent_id: r.parent_id,
        name: r.name.clone(),
        description: r.description.clone(),
        visibility: r.visibility,
        lo: r.lo,
        hi: r.hi,
        addr: r.addr,
        len: r.len,
    };
    res
}

/// Linear search of a table by identifier.
fn find_row(rows: &Vec<Row>, id: i32) -> (r: Option<usize>)
    ensures
        match r {
            Some(i) => 0 <= i < rows@.len() && rows@[i as int].id == id,
            None => !has_id(rows@, id),
        },
{
    let n: usize = rows.len();
    let mut i: usize = 0;
    while i < n
        invariant
            i <= n,
            n == rows@.len(),
            forall|k: int| 0 <= k < i ==> rows@[k].id != id,
        decreases n - i,
    {
        if rows[i].id == id {
            return Some(i);
        }
        i = i + 1;
    }
    None
}

/// Does any row under this parent overlap `[lo, hi]`?
fn overlap_exists(rows: &Vec<Row>, parent_id: i32, lo: u128, hi: u128) -> (r: bool)
    ensures
        r == exists_overlap(rows@, parent_id, lo, hi),
{
    let n: usize = rows.len();
    let mut i: usize = 0;
    while i < n
        invariant
            i <= n,
            n == rows@.len(),
            forall|k: int|
                0 <= k < i ==> !(#[trigger] rows@[k].parent_id == parent_id && rows@[k].lo <= hi
                    && lo <= rows@[k].hi),
        decreases n - i,
    {
        if rows[i].parent_id == parent_id && rows[i].lo <= hi && lo <= rows[i].hi {
            return true;
        }
        i = i + 1;
    }
    false
}

/// Insert a row into a sorted table, keeping it sorted; returns the
/// position the row took.
fn insert_sorted(rows: &mut Vec<Row>, row: Row) -> (k: usize)
    requires
        sorted_by_lo(old(rows)@),
    ensures
        k <= old(rows)@.len(),
        final(rows)@ =~= old(rows)@.insert(k as int, row),
        sorted_by_lo(final(rows)@),
{
    let n: usize = rows.len();
    let mut i: usize = 0;
    while i < n && rows[i].lo <= row.lo
        invariant
            i <= n,
            n == rows@.len(),
            rows@ == old(rows)@,
            forall|j: int| 0 <= j < i ==> rows@[j].lo <= row.lo,
        decreases n - i,
    {
        i = i + 1;
    }
    let ghost s = rows@;
    let ghost ki = i as int;
    rows.insert(i, row);
    proof {
        lemma_insert_index(s, ki, row);
        let t = s.insert(ki, row);
        assert forall|p: int, q: int| 0 <= p <= q < t.len() implies t[p].lo <= t[q].lo by {
            if q < ki {
            } else if p > ki {
                assert(t[p] == s[p - 1] && t[q] == s[q - 1]);
            } else if p < ki && q == ki {
                assert(t[p] == s[p] && t[q] == row);
            } else if p == ki && q > ki {
                assert(t[p] == row && t[q] == s[q - 1]);
                assert(ki < s.len() ==> s[ki].lo > row.lo);
                assert(ki <= q - 1 < s.len());
                assert(s[ki].lo <= s[q - 1].lo);
            } else if p < ki && q > ki {
                assert(t[p] == s[p] && t[q] == s[q - 1]);
            }
        };
    }
    i
}

/// Remove every row carrying the identifier.
fn retain_id_ne(rows: &mut Vec<Row>, id: i32)
    ensures
        final(rows)@ =~= old(rows)@.filter(|x: Row| x.id != id),
{
    let ghost all = rows@;
    let n: usize = rows.len();
    let mut out: Vec<Row> = Vec::new();
    let mut i: usize = 0;
    proof {
        assert(all.subrange(0, 0) =~= Seq::<Row>::empty());
        reveal(Seq::filter);
    }
    while i < n
        invariant
            i <= n,
            n == rows@.len(),
            rows@ == all,
            out@ =~= all.subrange(0, i as int).filter(|x: Row| x.id != id),
        decreases n - i,
    {
        proof {
            assert(all.subrange(0, i + 1).drop_last() =~= all.subrange(0, i as int));
            reveal(Seq::filter);
        }
        if rows[i].id != id {
            let kept = clone_row(&rows[i]);
            out.push(kept);
        }
        i = i + 1;
    }
    proof {
        assert(all.subrange(0, n as int) =~= all);
    }
    *rows = out;
}

/// Remove every row under the given parent.
fn retain_parent_ne(rows: &mut Vec<Row>, parent_id: i32)
    ensures
        final(rows)@ =~= old(rows)@.filter(|x: Row| x.parent_id != parent_id),
{
    let ghost all = rows@;
    let n: usize = rows.len();
    let mut out: Vec<Row> = Vec::new();
    let mut i: usize = 0;
    proof {
        assert(all.subrange(0, 0) =~= Seq::<Row>::empty());
        reveal(Seq::filter);
    }
    while i < n
        invariant
            i <= n,
            n == rows@.len(),
            rows@ == all,
            out@ =~= all.subrange(0, i as int).filter(|x: Row| x.parent_id != parent_id),
        decreases n - i,
    {
        proof {
            assert(all.subrange(0, i + 1).drop_last() =~= all.subrange(0, i as int));
            reveal(Seq::filter);
        }
        if rows[i].parent_id != parent_id {
            let kept = clone_row(&rows[i]);
            out.push(kept);
        }
        i = i + 1;
    }
    proof {
        assert(all.subrange(0, n as int) =~= all);
    }
    *rows = out;
}

/// Remove every row whose parent is a row of `parents` under grandparent
/// `gp`. `parents` must have unique identifiers.
fn retain_not_under(rows: &mut Vec<Row>, parents: &Vec<Row>, gp: i32)
    requires
        ids_unique(parents@),
    ensures
        final(rows)@ =~= old(rows)@.filter(
            |x: Row| !pool_under_space(parents@, gp, x.parent_id),
        ),
{
    let ghost all = rows@;
    let n: usize = rows.len();
    let mut out: Vec<Row> = Vec::new();
    let mut i: usize = 0;
    proof {
        assert(all.subrange(0, 0) =~= Seq::<Row>::empty());
        reveal(Seq::filter);
    }
    while i < n
        invariant
            i <= n,
            n == rows@.len(),
            rows@ == all,
            ids_unique(parents@),
            out@ =~= all.subrange(0, i as int).filter(
                |x: Row| !pool_under_space(parents@, gp, x.parent_id),
            ),
        decreases n - i,
    {
        proof {
            assert(all.subrange(0, i + 1).drop_last() =~= all.subrange(0, i as int));
            reveal(Seq::filter);
        }
        let gone = match find_row(parents, rows[i].parent_id) {
            Some(j) => parents[j].parent_id == gp,
            None => false,
        };
        proof {
            assert(gone == pool_under_space(parents@, gp, all[i as int].parent_id));
        }
        if !gone {
            let kept = clone_row(&rows[i]);
            out.push(kept);
        }
        i = i + 1;
    }
    proof {
        assert(all.subrange(0, n as int) =~= all);
    }
    *rows = out;
}

/// The rows under the given parent, in table order.
fn rows_with_parent(rows: &Vec<Row>, parent_id: i32) -> (out: Vec<Row>)
    ensures
        out@ =~= rows@.filter(|x: Row| x.parent_id == parent_id),
{
    let ghost all = rows@;
    let n: usize = rows.len();
    let mut out: Vec<Row> = Vec::new();
    let mut i: usize = 0;
    proof {
        assert(all.subrange(0, 0) =~= Seq::<Row>::empty());
        reveal(Seq::filter);
    }
    while i < n
        invariant
            i <= n,
            n == rows@.len(),
            rows@ == all,
            out@ =~= all.subrange(0, i as int).filter(|x: Row| x.parent_id == parent_id),
        decreases n - i,
    {
        proof {
            assert(all.subrange(0, i + 1).drop_last() =~= all.subrange(0, i as int));
            reveal(Seq::filter);
        }
        if rows[i].parent_id == parent_id {
            let kept = clone_row(&rows[i]);
            out.push(kept);
        }
        i = i + 1;
    }
    proof {
        assert(all.subrange(0, n as int) =~= all);
    }
    out
}

/// Inserting a row adds its identifier to the table and keeps the others.
pub proof fn lemma_has_id_insert(s: Seq<Row>, k: int, v: Row)
    requires
        0 <= k <= s.len(),
    ensures
        forall|x: i32| has_id(s.insert(k, v), x) <==> (has_id(s, x) || x == v.id),
{
    lemma_insert_index(s, k, v);
    let t = s.insert(k, v);
    assert forall|x: i32| has_id(t, x) <==> (has_id(s, x) || x == v.id) by {
        if has_id(t, x) {
            let i = choose|i: int| 0 <= i < t.len() && t[i].id == x;
            if i < k {
                assert(s[i].id == x);
            } else if i == k {
            } else {
                assert(s[i - 1].id == x);
            }
        }
        if has_id(s, x) {
            let i = choose|i: int| 0 <= i < s.len() && s[i].id == x;
            if i < k {
                assert(t[i].id == x);
            } else {
                assert(t[i + 1].id == x);
            }
        }
        if x == v.id {
            assert(t[k].id == x);
        }
    };
}

/// Inserting a row keeps every row and adds the new one.
pub proof fn lemma_insert_contains(s: Seq<Row>, k: int, v: Row)
    requires
        0 <= k <= s.len(),
    ensures
        forall|r: Row| s.insert(k, v).contains(r) <==> (s.contains(r) || r == v),
{
    lemma_insert_index(s, k, v);
    let t = s.insert(k, v);
    assert forall|r: Row| t.contains(r) <==> (s.contains(r) || r == v) by {
        if t.contains(r) {
            let i = choose|i: int| 0 <= i < t.len() && t[i] == r;
            if i < k {
                assert(s[i] == r);
            } else if i > k {
                assert(s[i - 1] == r);
            }
        }
        if s.contains(r) {
            let i = choose|i: int| 0 <= i < s.len() && s[i] == r;
            if i < k {
                assert(t[i] == r);
            } else {
                assert(t[i + 1] == r);
            }
        }
        if r == v {
            assert(t[k] == r);
        }
    };
}

/// Inserting a fresh, well-formed, non-overlapping row preserves the
/// table's well-formedness.
pub proof fn lemma_level_insert(s: Seq<Row>, k: int, v: Row, next: i32)
    requires
        level_wf(s),
        ids_bounded(s, next),
        0 <= k <= s.len(),
        row_wf(v),
        v.id == next,
        1 <= next < i32::MAX,
        !exists_overlap(s, v.parent_id, v.lo, v.hi),
        sorted_by_lo(s.insert(k, v)),
    ensures
        level_wf(s.insert(k, v)),
        ids_bounded(s.insert(k, v), (next + 1) as i32),
{
    lemma_insert_index(s, k, v);
    let t = s.insert(k, v);
    assert forall|i: int, j: int| 0 <= i < j < t.len() implies t[i].id != t[j].id by {
        if i == k {
            assert(t[j] == s[j - 1] && 1 <= s[j - 1].id < next);
        } else if j == k {
            if i < k {
                assert(t[i] == s[i] && 1 <= s[i].id < next);
            }
        } else {
            let oi: int = if i < k { i } else { i - 1 };
            let oj: int = if j < k { j } else { j - 1 };
            assert(t[i] == s[oi] && t[j] == s[oj] && oi < oj);
        }
    };
    assert forall|i: int, j: int|
        0 <= i < t.len() && 0 <= j < t.len() && i != j && t[i].parent_id
            == t[j].parent_id implies !overlaps(t[i], t[j]) by {
        if i == k || j == k {
            let o: int = if i == k { j } else { i };
            let oo: int = if o < k { o } else { o - 1 };
            assert(t[o] == s[oo]);
            assert(!(s[oo].parent_id == v.parent_id && s[oo].lo <= v.hi && v.lo <= s[oo].hi));
        } else {
            let oi: int = if i < k { i } else { i - 1 };
            let oj: int = if j < k { j } else { j - 1 };
            assert(t[i] == s[oi] && t[j] == s[oj] && oi != oj);
        }
    };
    assert forall|i: int| 0 <= i < t.len() implies row_wf(#[trigger] t[i]) && 1 <= t[i].id < next
        + 1 by {
        if i < k {
            assert(t[i] == s[i]);
        } else if i > k {
            assert(t[i] == s[i - 1]);
        }
    };
}

/// A child table stays linked when a row is inserted into the parent table.
pub proof fn lemma_children_ok_insert_parent(cs: Seq<Row>, ps: Seq<Row>, k: int, v: Row)
    requires
        children_ok(cs, ps),
        0 <= k <= ps.len(),
    ensures
        children_ok(cs, ps.insert(k, v)),
{
    lemma_insert_index(ps, k, v);
    let t = ps.insert(k, v);
    assert forall|i: int| 0 <= i < cs.len() implies parent_ok(#[trigger] cs[i], t) by {
        let j = choose|j: int|
            0 <= j < ps.len() && #[trigger] ps[j].id == cs[i].parent_id && contained(cs[i], ps[j]);
        if j < k {
            assert(t[j].id == cs[i].parent_id && contained(cs[i], t[j]));
        } else {
            assert(t[j + 1].id == cs[i].parent_id && contained(cs[i], t[j + 1]));
        }
    };
}

/// A child table stays linked when a linked row is inserted into it.
pub proof fn lemma_children_ok_insert_child(cs: Seq<Row>, ps: Seq<Row>, k: int, c: Row)
    requires
        children_ok(cs, ps),
        parent_ok(c, ps),
        0 <= k <= cs.len(),
    ensures
        children_ok(cs.insert(k, c), ps),
{
    lemma_insert_index(cs, k, c);
    let t = cs.insert(k, c);
    assert forall|i: int| 0 <= i < t.len() implies parent_ok(#[trigger] t[i], ps) by {
        if i < k {
            assert(t[i] == cs[i]);
        } else if i > k {
            assert(t[i] == cs[i - 1]);
        }
    };
}

/// Filtering a table keeps exactly the rows the predicate keeps, and
/// preserves the table's well-formedness and identifier bounds.
pub proof fn lemma_filter_level(s: Seq<Row>, pred: spec_fn(Row) -> bool, next: i32)
    ensures
        forall|r: Row| #[trigger] s.filter(pred).contains(r) <==> (s.contains(r) && pred(r)),
        level_wf(s) ==> level_wf(s.filter(pred)),
        ids_bounded(s, next) ==> ids_bounded(s.filter(pred), next),
    decreases s.len(),
{
    reveal(Seq::filter);
    let f = s.filter(pred);
    if s.len() == 0 {
        assert(forall|r: Row| !s.contains(r));
    } else {
        let d = s.drop_last();
        let last = s.last();
        lemma_filter_level(d, pred, next);
        let fd = d.filter(pred);
        assert forall|r: Row| #[trigger] s.contains(r) <==> (d.contains(r) || r == last) by {
            if s.contains(r) {
                let i = choose|i: int| 0 <= i < s.len() && s[i] == r;
                if i < s.len() - 1 {
                    assert(d[i] == r);
                }
            }
            if d.contains(r) {
                let i = choose|i: int| 0 <= i < d.len() && d[i] == r;
                assert(s[i] == r);
            }
            if r == last {
                assert(s[s.len() - 1] == r);
            }
        };
        if pred(last) {
            assert(f =~= fd.push(last));
            assert forall|r: Row| #[trigger] f.contains(r) <==> (fd.contains(r) || r == last) by {
                if f.contains(r) {
                    let i = choose|i: int| 0 <= i < f.len() && f[i] == r;
                    if i < f.len() - 1 {
                        assert(fd[i] == r);
                    }
                }
                if fd.contains(r) {
                    let i = choose|i: int| 0 <= i < fd.len() && fd[i] == r;
                    assert(f[i] == r);
                }
                if r == last {
                    assert(f[f.len() - 1] == r);
                }
            };
        } else {
            assert(f =~= fd);
        }
        if level_wf(s) {
            assert(level_wf(d)) by {
                assert(forall|i: int| 0 <= i < d.len() ==> d[i] == s[i]);
            };
            assert(level_wf(fd));
            if pred(last) {
                // pair a kept element of the shorter table with the last row
                assert forall|r: Row| #[trigger] fd.contains(r) implies r.id != last.id && (
                r.parent_id == last.parent_id ==> !overlaps(r, last) && !overlaps(last, r))
                    && r.lo <= last.lo by {
                    let i = choose|i: int| 0 <= i < d.len() && d[i] == r;
                    assert(s[i] == r && i < s.len() - 1);
                    assert(s[i].id != s[s.len() - 1].id);
                    assert(s[i].lo <= s[s.len() - 1].lo);
                };
                assert forall|i: int, j: int| 0 <= i < j < f.len() implies f[i].id != f[j].id by {
                    if j == f.len() - 1 {
                        assert(fd.contains(f[i]));
                    } else {
                        assert(f[i] == fd[i] && f[j] == fd[j]);
                    }
                };
                assert forall|i: int, j: int| 0 <= i <= j < f.len() implies f[i].lo <= f[j].lo by {
                    if j == f.len() - 1 {
                        if i < j {
                            assert(fd.contains(f[i]));
                        }
                    } else {
                        assert(f[i] == fd[i] && f[j] == fd[j]);
                    }
                };
                assert forall|i: int, j: int|
                    0 <= i < f.len() && 0 <= j < f.len() && i != j && f[i].parent_id
                        == f[j].parent_id implies !overlaps(f[i], f[j]) by {
                    if i == f.len() - 1 {
                        assert(fd.contains(f[j]));
                    } else if j == f.len() - 1 {
                        assert(fd.contains(f[i]));
                    } else {
                        assert(f[i] == fd[i] && f[j] == fd[j]);
                    }
                };
                assert forall|i: int| 0 <= i < f.len() implies row_wf(#[trigger] f[i]) by {
                    if i < f.len() - 1 {
                        assert(f[i] == fd[i]);
                    }
                };
            }
        }
        if ids_bounded(s, next) {
            assert(ids_bounded(d, next)) by {
                assert(forall|i: int| 0 <= i < d.len() ==> d[i] == s[i]);
            };
            if pred(last) {
                assert forall|i: int| 0 <= i < f.len() implies 1 <= #[trigger] f[i].id < next by {
                    if i < f.len() - 1 {
                        assert(f[i] == fd[i]);
                    }
                };
            }
        }
    }
}

/// A table's row with a given identifier; meaningful when the identifier
/// is present and identifiers are unique.
pub open spec fn row_at_id(s: Seq<Row>, id: i32) -> Row {
    s[choose|i: int| 0 <= i < s.len() && s[i].id == id]
}

/// Under unique identifiers, any row of the table is the row its
/// identifier looks up.
pub proof fn lemma_row_at_id(s: Seq<Row>, i: int)
    requires
        ids_unique(s),
        0 <= i < s.len(),
    ensures
        row_at_id(s, s[i].id) == s[i],
{
    let id = s[i].id;
    assert(has_id(s, id));
    let j = choose|j: int| 0 <= j < s.len() && s[j].id == id;
}

/// The new row keeps everything of the old one but the name and
/// description, which take the given texts.
pub open spec fn meta_updated(n: Row, o: Row, nm: Seq<char>, ds: Seq<char>) -> bool {
    &&& n.id == o.id
    &&& n.parent_id == o.parent_id
    &&& n.visibility == o.visibility
    &&& n.lo == o.lo
    &&& n.hi == o.hi
    &&& n.addr == o.addr
    &&& n.len == o.len
    &&& n.name@ == nm
    &&& n.description@ == ds
}

/// Removing a row and inserting another at its position is a pointwise
/// update.
pub proof fn lemma_remove_insert_is_update(s: Seq<Row>, i: int, v: Row)
    requires
        0 <= i < s.len(),
    ensures
        s.remove(i).insert(i, v) =~= s.update(i, v),
{
    let d = s.remove(i);
    lemma_insert_index(d, i, v);
    assert forall|j: int| 0 <= j < s.len() implies d.insert(i, v)[j] == s.update(i, v)[j] by {
        if j < i {
            assert(d[j] == s[j]);
        } else if j > i {
            assert(d.insert(i, v)[j] == d[j - 1] && d[j - 1] == s[j]);
        }
    };
}

/// Replacing a row by one with the same identifier, position and interval
/// preserves the table's well-formedness.
pub proof fn lemma_level_update_same_range(s: Seq<Row>, i: int, v: Row)
    requires
        level_wf(s),
        0 <= i < s.len(),
        v.id == s[i].id,
        v.parent_id == s[i].parent_id,
        v.lo == s[i].lo,
        v.hi == s[i].hi,
    ensures
        level_wf(s.update(i, v)),
        forall|next: i32| ids_bounded(s, next) ==> ids_bounded(s.update(i, v), next),
{
    let u = s.update(i, v);
    assert forall|p: int, q: int| 0 <= p < q < u.len() implies u[p].id != u[q].id by {
        assert(s[p].id != s[q].id);
    };
    assert forall|p: int, q: int| 0 <= p <= q < u.len() implies u[p].lo <= u[q].lo by {
        assert(s[p].lo <= s[q].lo);
    };
    assert forall|p: int, q: int|
        0 <= p < u.len() && 0 <= q < u.len() && p != q && u[p].parent_id
            == u[q].parent_id implies !overlaps(u[p], u[q]) by {
        assert(!overlaps(s[p], s[q]));
    };
    assert forall|p: int| 0 <= p < u.len() implies row_wf(#[trigger] u[p]) by {
        assert(row_wf(s[p]));
    };
    assert forall|next: i32| ids_bounded(s, next) implies ids_bounded(u, next) by {
        assert forall|p: int| 0 <= p < u.len() implies 1 <= #[trigger] u[p].id < next by {
            assert(1 <= s[p].id < next);
        };
    };
}

/// The three tables of one numeric domain, with their next free
/// identifiers.
pub struct Engine {
    spaces: Vec<Row>,
    pools: Vec<Row>,
    assignments: Vec<Row>,
    next_space_id: i32,
    next_pool_id: i32,
    next_assignment_id: i32,
}

/// Builds the row a create operation stores.
pub open spec fn made_row(
    id: i32,
    parent_id: i32,
    name: String,
    description: String,
    visibility: ObjectVisibility,
    lo: u128,
    hi: u128,
    addr: [u8; 16],
    len: i32,
) -> Row {
    Row { id, parent_id, name, description, visibility, lo, hi, addr, len }
}

impl Engine {
    /// The space table.
    pub closed spec fn space_rows(self) -> Seq<Row> {
        self.spaces@
    }

    /// The pool table.
    pub closed spec fn pool_rows(self) -> Seq<Row> {
        self.pools@
    }

    /// The assignment table.
    pub closed spec fn assignment_rows(self) -> Seq<Row> {
        self.assignments@
    }

    /// The identifier the next created space will get.
    pub closed spec fn next_space(self) -> i32 {
        self.next_space_id
    }

    /// The identifier the next created pool will get.
    pub closed spec fn next_pool(self) -> i32 {
        self.next_pool_id
    }

    /// The identifier the next created assignment will get.
    pub closed spec fn next_assignment(self) -> i32 {
        self.next_assignment_id
    }

    /// The allocation invariants: each table is well-formed (unique
    /// identifiers, sorted by lower bound, sibling ranges disjoint,
    /// well-formed intervals), identifiers stay below the next free one,
    /// spaces are top-level, and every pool lies inside its space and
    /// every assignment inside its pool.
    pub open spec fn wf(self) -> bool {
        &&& level_wf(self.space_rows())
        &&& level_wf(self.pool_rows())
        &&& level_wf(self.assignment_rows())
        &&& ids_bounded(self.space_rows(), self.next_space())
        &&& ids_bounded(self.pool_rows(), self.next_pool())
        &&& ids_bounded(self.assignment_rows(), self.next_assignment())
        &&& 1 <= self.next_space()
        &&& 1 <= self.next_pool()
        &&& 1 <= self.next_assignment()
        &&& forall|i: int|
            0 <= i < self.space_rows().len() ==> #[trigger] self.space_rows()[i].parent_id == 0
        &&& children_ok(self.pool_rows(), self.space_rows())
        &&& children_ok(self.assignment_rows(), self.pool_rows())
    }

    /// An empty store.
    pub fn new() -> (r: Engine)
        ensures
            r.wf(),
            r.space_rows() =~= Seq::<Row>::empty(),
            r.pool_rows() =~= Seq::<Row>::empty(),
            r.assignment_rows() =~= Seq::<Row>::empty(),
            r.next_space() == 1,
            r.next_pool() == 1,
            r.next_assignment() == 1,
    {
        Engine {
            spaces: Vec::new(),
            pools: Vec::new(),
            assignments: Vec::new(),
            next_space_id: 1,
            next_pool_id: 1,
            next_assignment_id: 1,
        }
    }

    /// Number of spaces.
    pub fn space_count(&self) -> (r: usize)
        ensures
            r == self.space_rows().len(),
    {
        self.spaces.len()
    }

    /// The space row at a position (ascending range order).
    pub fn space_at(&self, i: usize) -> (r: &Row)
        requires
            i < self.space_rows().len(),
        ensures
            *r == self.space_rows()[i as int],
    {
        &self.spaces[i]
    }

    /// Number of pools, over all spaces.
    pub fn pool_count(&self) -> (r: usize)
        ensures
            r == self.pool_rows().len(),
    {
        self.pools.len()
    }

    /// The pool row at a position (ascending range order).
    pub fn pool_at(&self, i: usize) -> (r: &Row)
        requires
            i < self.pool_rows().len(),
        ensures
            *r == self.pool_rows()[i as int],
    {
        &self.pools[i]
    }

    /// Number of assignments, over all pools.
    pub fn assignment_count(&self) -> (r: usize)
        ensures
            r == self.assignment_rows().len(),
    {
        self.assignments.len()
    }

    /// The assignment row at a position (ascending range order).
    pub fn assignment_at(&self, i: usize) -> (r: &Row)
        requires
            i < self.assignment_rows().len(),
        ensures
            *r == self.assignment_rows()[i as int],
    {
        &self.assignments[i]
    }

    /// The pools of one space, in ascending range order.
    pub fn pools_of(&self, parent_id: i32) -> (out: Vec<Row>)
        ensures
            out@ =~= self.pool_rows().filter(|x: Row| x.parent_id == parent_id),
    {
        rows_with_parent(&self.pools, parent_id)
    }

    /// The assignments of one pool, in ascending range order.
    pub fn assignments_of(&self, parent_id: i32) -> (out: Vec<Row>)
        ensures
            out@ =~= self.assignment_rows().filter(|x: Row| x.parent_id == parent_id),
    {
        rows_with_parent(&self.assignments, parent_id)
    }

    /// Look a space up by identifier.
    pub fn get_space(&self, id: i32) -> (r: Option<&Row>)
        requires
            self.wf(),
        ensures
            match r {
                Some(row) => has_id(self.space_rows(), id) && *row == row_at_id(
                    self.space_rows(),
                    id,
                ) && row.id == id,
                None => !has_id(self.space_rows(), id),
            },
    {
        match find_row(&self.spaces, id) {
            Some(i) => {
                proof {
                    lemma_row_at_id(self.space_rows(), i as int);
                }
                Some(&self.spaces[i])
            },
            None => None,
        }
    }

    /// Look a pool up by identifier.
    pub fn get_pool(&self, id: i32) -> (r: Option<&Row>)
        requires
            self.wf(),
        ensures
            match r {
                Some(row) => has_id(self.pool_rows(), id) && *row == row_at_id(
                    self.pool_rows(),
                    id,
                ) && row.id == id,
                None => !has_id(self.pool_rows(), id),
            },
    {
        match find_row(&self.pools, id) {
            Some(i) => {
                proof {
                    lemma_row_at_id(self.pool_rows(), i as int);
                }
                Some(&self.pools[i])
            },
            None => None,
        }
    }

    /// Look an assignment up by identifier.
    pub fn get_assignment(&self, id: i32) -> (r: Option<&Row>)
        requires
            self.wf(),
        ensures
            match r {
                Some(row) => has_id(self.assignment_rows(), id) && *row == row_at_id(
                    self.assignment_rows(),
                    id,
                ) && row.id == id,
                None => !has_id(self.assignment_rows(), id),
            },
    {
        match find_row(&self.assignments, id) {
            Some(i) => {
                proof {
                    lemma_row_at_id(self.assignment_rows(), i as int);
                }
                Some(&self.assignments[i])
            },
            None => None,
        }
    }

    /// Create a space: a top-level range. Succeeds exactly when the range
    /// overlaps no existing space's range and an identifier is free; on
    /// success the new row, carrying the fresh identifier, joins the
    /// space table and nothing else changes. On failure the store is
    /// unchanged.
    pub fn create_space(
        &mut self,
        name: String,
        description: String,
        visibility: ObjectVisibility,
        lo: u128,
        hi: u128,
        addr: [u8; 16],
        len: i32,
    ) -> (r: Result<i32, CreateFailure>)
        requires
            old(self).wf(),
            lo <= hi,
        ensures
            final(self).wf(),
            final(self).pool_rows() == old(self).pool_rows(),
            final(self).assignment_rows() == old(self).assignment_rows(),
            final(self).next_pool() == old(self).next_pool(),
            final(self).next_assignment() == old(self).next_assignment(),
            r is Ok <==> !exists_overlap(old(self).space_rows(), 0, lo, hi) && old(self).next_space()
                < i32::MAX,
            match r {
                Ok(id) => {
                    &&& id == old(self).next_space()
                    &&& final(self).next_space() == old(self).next_space() + 1
                    &&& !has_id(old(self).space_rows(), id)
                    &&& exists|k: int|
                        0 <= k <= old(self).space_rows().len() && final(self).space_rows()
                            =~= old(self).space_rows().insert(
                            k,
                            made_row(id, 0, name, description, visibility, lo, hi, addr, len),
                        )
                    &&& has_id(final(self).space_rows(), id)
                    &&& row_at_id(final(self).space_rows(), id) == made_row(
                        id,
                        0,
                        name,
                        description,
                        visibility,
                        lo,
                        hi,
                        addr,
                        len,
                    )
                },
                Err(f) => {
                    &&& *final(self) == *old(self)
                    &&& (f == CreateFailure::Overlap <==> exists_overlap(
                        old(self).space_rows(),
                        0,
                        lo,
                        hi,
                    ))
                    &&& (f == CreateFailure::Overlap || f == CreateFailure::IdsExhausted)
                },
            },
    {
        if overlap_exists(&self.spaces, 0, lo, hi) {
            return Err(CreateFailure::Overlap);
        }
        if self.next_space_id == i32::MAX {
            return Err(CreateFailure::IdsExhausted);
        }
        let id: i32 = self.next_space_id;
        let row = Row { id, parent_id: 0, name, description, visibility, lo, hi, addr, len };
        let ghost grow = row;
        let ghost s = self.spaces@;
        let k = insert_sorted(&mut self.spaces, row);
        self.next_space_id = id + 1;
        proof {
            lemma_insert_index(s, k as int, grow);
            lemma_level_insert(s, k as int, grow, id);
            lemma_has_id_insert(s, k as int, grow);
            lemma_children_ok_insert_parent(self.pools@, s, k as int, grow);
            assert(ids_bounded(s, id) ==> !has_id(s, id));
            let t = s.insert(k as int, grow);
            assert(t[k as int] == grow);
            lemma_row_at_id(t, k as int);
        }
        Ok(id)
    }

    /// Create a pool under a space. The parent is resolved first, then the
    /// range must lie inside the parent's range and overlap no pool of the
    /// same space; the checks and the insert happen in one exclusive
    /// borrow, and any failure leaves the store unchanged.
    pub fn create_pool(
        &mut self,
        parent_id: i32,
        name: String,
        description: String,
        visibility: ObjectVisibility,
        lo: u128,
        hi: u128,
        addr: [u8; 16],
        len: i32,
    ) -> (r: Result<i32, CreateFailure>)
        requires
            old(self).wf(),
            lo <= hi,
        ensures
            final(self).wf(),
            final(self).space_rows() == old(self).space_rows(),
            final(self).assignment_rows() == old(self).assignment_rows(),
            final(self).next_space() == old(self).next_space(),
            final(self).next_assignment() == old(self).next_assignment(),
            ({
                let pok = has_id(old(self).space_rows(), parent_id);
                let parent = row_at_id(old(self).space_rows(), parent_id);
                let inside = parent.lo <= lo && hi <= parent.hi;
                let clash = exists_overlap(old(self).pool_rows(), parent_id, lo, hi);
                &&& (r is Ok <==> pok && inside && !clash && old(self).next_pool() < i32::MAX)
                &&& match r {
                    Ok(id) => {
                        &&& id == old(self).next_pool()
                        &&& final(self).next_pool() == old(self).next_pool() + 1
                        &&& !has_id(old(self).pool_rows(), id)
                        &&& exists|k: int|
                            0 <= k <= old(self).pool_rows().len() && final(self).pool_rows()
                                =~= old(self).pool_rows().insert(
                                k,
                                made_row(
                                    id,
                                    parent_id,
                                    name,
                                    description,
                                    visibility,
                                    lo,
                                    hi,
                                    addr,
                                    len,
                                ),
                            )
                        &&& has_id(final(self).pool_rows(), id)
                        &&& row_at_id(final(self).pool_rows(), id) == made_row(
                            id,
                            parent_id,
                            name,
                            description,
                            visibility,
                            lo,
                            hi,
                            addr,
                            len,
                        )
                    },
                    Err(f) => {
                        &&& *final(self) == *old(self)
                        &&& (f == CreateFailure::ParentMissing <==> !pok)
                        &&& (f == CreateFailure::NotContained <==> pok && !inside)
                        &&& (f == CreateFailure::Overlap <==> pok && inside && clash)
                        &&& (f == CreateFailure::IdsExhausted <==> pok && inside && !clash
                            && old(self).next_pool() == i32::MAX)
                    },
                }
            }),
    {
        let parent_idx = match find_row(&self.spaces, parent_id) {
            Some(j) => j,
            None => {
                return Err(CreateFailure::ParentMissing);
            },
        };
        proof {
            lemma_row_at_id(self.space_rows(), parent_idx as int);
        }
        let plo: u128 = self.spaces[parent_idx].lo;
        let phi: u128 = self.spaces[parent_idx].hi;
        if !(plo <= lo && hi <= phi) {
            return Err(CreateFailure::NotContained);
        }
        if overlap_exists(&self.pools, parent_id, lo, hi) {
            return Err(CreateFailure::Overlap);
        }
        if self.next_pool_id == i32::MAX {
            return Err(CreateFailure::IdsExhausted);
        }
        let id: i32 = self.next_pool_id;
        let row = Row { id, parent_id, name, description, visibility, lo, hi, addr, len };
        let ghost grow = row;
        let ghost s = self.pools@;
        proof {
            assert(self.spaces@[parent_idx as int].id == grow.parent_id && contained(
                grow,
                self.spaces@[parent_idx as int],
            ));
        }
        let k = insert_sorted(&mut self.pools, row);
        self.next_pool_id = id + 1;
        proof {
            lemma_insert_index(s, k as int, grow);
            lemma_level_insert(s, k as int, grow, id);
            lemma_has_id_insert(s, k as int, grow);
            lemma_children_ok_insert_child(s, self.spaces@, k as int, grow);
            lemma_children_ok_insert_parent(self.assignments@, s, k as int, grow);
            assert(ids_bounded(s, id) ==> !has_id(s, id));
            let t = s.insert(k as int, grow);
            assert(t[k as int] == grow);
            lemma_row_at_id(t, k as int);
        }
        Ok(id)
    }

    /// Create an assignment under a pool, in the same way a pool is
    /// created under a space. A scalar value is a one-point range.
    pub fn create_assignment(
        &mut self,
        parent_id: i32,
        name: String,
        description: String,
        visibility: ObjectVisibility,
        lo: u128,
        hi: u128,
        addr: [u8; 16],
        len: i32,
    ) -> (r: Result<i32, CreateFailure>)
        requires
            old(self).wf(),
            lo <= hi,
        ensures
            final(self).wf(),
            final(self).space_rows() == old(self).space_rows(),
            final(self).pool_rows() == old(self).pool_rows(),
            final(self).next_space() == old(self).next_space(),
            final(self).next_pool() == old(self).next_pool(),
            ({
                let pok = has_id(old(self).pool_rows(), parent_id);
                let parent = row_at_id(old(self).pool_rows(), parent_id);
                let inside = parent.lo <= lo && hi <= parent.hi;
                let clash = exists_overlap(old(self).assignment_rows(), parent_id, lo, hi);
                &&& (r is Ok <==> pok && inside && !clash && old(self).next_assignment()
                    < i32::MAX)
                &&& match r {
                    Ok(id) => {
                        &&& id == old(self).next_assignment()
                        &&& final(self).next_assignment() == old(self).next_assignment() + 1
                        &&& !has_id(old(self).assignment_rows(), id)
                        &&& exists|k: int|
                            0 <= k <= old(self).assignment_rows().len() && final(
                                self).assignment_rows() =~= old(self).assignment_rows().insert(
                                k,
                                made_row(
                                    id,
                                    parent_id,
                                    name,
                                    description,
                                    visibility,
                                    lo,
                                    hi,
                                    addr,
                                    len,
                                ),
                            )
                        &&& has_id(final(self).assignment_rows(), id)
                        &&& row_at_id(final(self).assignment_rows(), id) == made_row(
                            id,
                            parent_id,
                            name,
                            description,
                            visibility,
                            lo,
                            hi,
                            addr,
                            len,
                        )
                    },
                    Err(f) => {
                        &&& *final(self) == *old(self)
                        &&& (f == CreateFailure::ParentMissing <==> !pok)
                        &&& (f == CreateFailure::NotContained <==> pok && !inside)
                        &&& (f == CreateFailure::Overlap <==> pok && inside && clash)
                        &&& (f == CreateFailure::IdsExhausted <==> pok && inside && !clash
                            && old(self).next_assignment() == i32::MAX)
                    },
                }
            }),
    {
        let parent_idx = match find_row(&self.pools, parent_id) {
            Some(j) => j,
            None => {
                return Err(CreateFailure::ParentMissing);
            },
        };
        proof {
            lemma_row_at_id(self.pool_rows(), parent_idx as int);
        }
        let plo: u128 = self.pools[parent_idx].lo;
        let phi: u128 = self.pools[parent_idx].hi;
        if !(plo <= lo && hi <= phi) {
            return Err(CreateFailure::NotContained);
        }
        if overlap_exists(&self.assignments, parent_id, lo, hi) {
            return Err(CreateFailure::Overlap);
        }
        if self.next_assignment_id == i32::MAX {
            return Err(CreateFailure::IdsExhausted);
        }
        let id: i32 = self.next_assignment_id;
        let row = Row { id, parent_id, name, description, visibility, lo, hi, addr, len };
        let ghost grow = row;
        let ghost s = self.assignments@;
        proof {
            assert(self.pools@[parent_idx as int].id == grow.parent_id && contained(
                grow,
                self.pools@[parent_idx as int],
            ));
        }
        let k = insert_sorted(&mut self.assignments, row);
        self.next_assignment_id = id + 1;
        proof {
            lemma_insert_index(s, k as int, grow);
            lemma_level_insert(s, k as int, grow, id);
            lemma_has_id_insert(s, k as int, grow);
            lemma_children_ok_insert_child(s, self.pools@, k as int, grow);
            assert(ids_bounded(s, id) ==> !has_id(s, id));
            let t = s.insert(k as int, grow);
            assert(t[k as int] == grow);
            lemma_row_at_id(t, k as int);
        }
        Ok(id)
    }

    /// Delete an assignment. Deleting an absent identifier is a no-op.
    pub fn delete_assignment(&mut self, id: i32)
        requires
            old(self).wf(),
        ensures
            final(self).wf(),
            final(self).space_rows() == old(self).space_rows(),
            final(self).pool_rows() == old(self).pool_rows(),
            final(self).next_space() == old(self).next_space(),
            final(self).next_pool() == old(self).next_pool(),
            final(self).next_assignment() == old(self).next_assignment(),
            forall|r: Row|
                final(self).assignment_rows().contains(r) <==> (
                old(self).assignment_rows().contains(r) && r.id != id),
            !has_id(final(self).assignment_rows(), id),
    {
        let ghost olda = self.assignments@;
        retain_id_ne(&mut self.assignments, id);
        proof {
            lemma_filter_level(olda, |x: Row| x.id != id, self.next_assignment_id);
            let f = self.assignments@;
            assert forall|j: int| 0 <= j < f.len() implies f[j].id != id by {
                assert(f.contains(f[j]));
            };
            assert(!has_id(f, id));
            assert(children_ok(f, self.pools@)) by {
                assert forall|i: int| 0 <= i < f.len() implies parent_ok(#[trigger] f[i],
                    self.pools@) by {
                    assert(f.contains(f[i]));
                    let oi = choose|oi: int| 0 <= oi < olda.len() && olda[oi] == f[i];
                    assert(parent_ok(olda[oi], self.pools@));
                };
            };
            assert forall|i: int| 0 <= i < f.len() implies 1 <= #[trigger] f[i].id
                < self.next_assignment_id by {
                assert(f.contains(f[i]));
                let oi = choose|oi: int| 0 <= oi < olda.len() && olda[oi] == f[i];
            };
        }
    }

    /// Delete a pool and, with it, all of its assignments. Deleting an
    /// absent identifier is a no-op.
    pub fn delete_pool(&mut self, id: i32)
        requires
            old(self).wf(),
        ensures
            final(self).wf(),
            final(self).space_rows() == old(self).space_rows(),
            final(self).next_space() == old(self).next_space(),
            final(self).next_pool() == old(self).next_pool(),
            final(self).next_assignment() == old(self).next_assignment(),
            forall|r: Row|
                final(self).pool_rows().contains(r) <==> (old(self).pool_rows().contains(r)
                    && r.id != id),
            forall|r: Row|
                final(self).assignment_rows().contains(r) <==> (
                old(self).assignment_rows().contains(r) && r.parent_id != id),
            !has_id(final(self).pool_rows(), id),
    {
        let ghost oldp = self.pools@;
        let ghost olda = self.assignments@;
        retain_parent_ne(&mut self.assignments, id);
        retain_id_ne(&mut self.pools, id);
        proof {
            lemma_filter_level(olda, |x: Row| x.parent_id != id, self.next_assignment_id);
            lemma_filter_level(oldp, |x: Row| x.id != id, self.next_pool_id);
            let fa = self.assignments@;
            let fp = self.pools@;
            assert forall|j: int| 0 <= j < fp.len() implies #[trigger] fp[j].id != id && 1
                <= fp[j].id < self.next_pool_id by {
                assert(fp.contains(fp[j]));
                let oi = choose|oi: int| 0 <= oi < oldp.len() && oldp[oi] == fp[j];
            };
            assert(!has_id(fp, id));
            assert(children_ok(fp, self.spaces@)) by {
                assert forall|i: int| 0 <= i < fp.len() implies parent_ok(#[trigger] fp[i],
                    self.spaces@) by {
                    assert(fp.contains(fp[i]));
                    let oi = choose|oi: int| 0 <= oi < oldp.len() && oldp[oi] == fp[i];
                    assert(parent_ok(oldp[oi], self.spaces@));
                };
            };
            assert(children_ok(fa, fp)) by {
                assert forall|i: int| 0 <= i < fa.len() implies parent_ok(#[trigger] fa[i], fp) by {
                    assert(fa.contains(fa[i]));
                    let a = fa[i];
                    assert(olda.contains(a) && a.parent_id != id);
                    let j = choose|j: int|
                        0 <= j < oldp.len() && #[trigger] oldp[j].id == a.parent_id && contained(
                            a,
                            oldp[j],
                        );
                    assert(oldp.contains(oldp[j]));
                    assert(fp.contains(oldp[j]));
                    let j2 = choose|j2: int| 0 <= j2 < fp.len() && fp[j2] == oldp[j];
                    assert(fp[j2].id == a.parent_id && contained(a, fp[j2]));
                };
            };
            assert forall|i: int| 0 <= i < fa.len() implies 1 <= #[trigger] fa[i].id
                < self.next_assignment_id by {
                assert(fa.contains(fa[i]));
                let oi = choose|oi: int| 0 <= oi < olda.len() && olda[oi] == fa[i];
            };
        }
    }

    /// Delete a space and, with it, all of its pools and their
    /// assignments. Deleting an absent identifier is a no-op.
    pub fn delete_space(&mut self, id: i32)
        requires
            old(self).wf(),
        ensures
            final(self).wf(),
            final(self).next_space() == old(self).next_space(),
            final(self).next_pool() == old(self).next_pool(),
            final(self).next_assignment() == old(self).next_assignment(),
            forall|r: Row|
                final(self).space_rows().contains(r) <==> (old(self).space_rows().contains(r)
                    && r.id != id),
            forall|r: Row|
                final(self).pool_rows().contains(r) <==> (old(self).pool_rows().contains(r)
                    && r.parent_id != id),
            forall|r: Row|
                final(self).assignment_rows().contains(r) <==> (
                old(self).assignment_rows().contains(r) && !pool_under_space(
                    old(self).pool_rows(),
                    id,
                    r.parent_id,
                )),
            !has_id(final(self).space_rows(), id),
    {
        let ghost olds = self.spaces@;
        let ghost oldp = self.pools@;
        let ghost olda = self.assignments@;
        retain_not_under(&mut self.assignments, &self.pools, id);
        retain_parent_ne(&mut self.pools, id);
        retain_id_ne(&mut self.spaces, id);
        proof {
            lemma_filter_level(
                olda,
                |x: Row| !pool_under_space(oldp, id, x.parent_id),
                self.next_assignment_id,
            );
            lemma_filter_level(oldp, |x: Row| x.parent_id != id, self.next_pool_id);
            lemma_filter_level(olds, |x: Row| x.id != id, self.next_space_id);
            let fa = self.assignments@;
            let fp = self.pools@;
            let fs = self.spaces@;
            assert forall|j: int| 0 <= j < fs.len() implies #[trigger] fs[j].id != id && 1
                <= fs[j].id < self.next_space_id && fs[j].parent_id == 0 by {
                assert(fs.contains(fs[j]));
                let oi = choose|oi: int| 0 <= oi < olds.len() && olds[oi] == fs[j];
            };
            assert(!has_id(fs, id));
            assert forall|j: int| 0 <= j < fp.len() implies 1 <= #[trigger] fp[j].id
                < self.next_pool_id by {
                assert(fp.contains(fp[j]));
                let oi = choose|oi: int| 0 <= oi < oldp.len() && oldp[oi] == fp[j];
            };
            assert forall|j: int| 0 <= j < fa.len() implies 1 <= #[trigger] fa[j].id
                < self.next_assignment_id by {
                assert(fa.contains(fa[j]));
                let oi = choose|oi: int| 0 <= oi < olda.len() && olda[oi] == fa[j];
            };
            assert(children_ok(fp, fs)) by {
                assert forall|i: int| 0 <= i < fp.len() implies parent_ok(#[trigger] fp[i], fs) by {
                    assert(fp.contains(fp[i]));
                    let p = fp[i];
                    assert(oldp.contains(p) && p.parent_id != id);
                    let j = choose|j: int|
                        0 <= j < olds.len() && #[trigger] olds[j].id == p.parent_id && contained(
                            p,
                            olds[j],
                        );
                    assert(olds.contains(olds[j]));
                    assert(fs.contains(olds[j]));
                    let j2 = choose|j2: int| 0 <= j2 < fs.len() && fs[j2] == olds[j];
                    assert(fs[j2].id == p.parent_id && contained(p, fs[j2]));
                };
            };
            assert(children_ok(fa, fp)) by {
                assert forall|i: int| 0 <= i < fa.len() implies parent_ok(#[trigger] fa[i], fp) by {
                    assert(fa.contains(fa[i]));
                    let a = fa[i];
                    assert(olda.contains(a) && !pool_under_space(oldp, id, a.parent_id));
                    let j = choose|j: int|
                        0 <= j < oldp.len() && #[trigger] oldp[j].id == a.parent_id && contained(
                            a,
                            oldp[j],
                        );
                    assert(oldp[j].parent_id != id);
                    assert(oldp.contains(oldp[j]));
                    assert(fp.contains(oldp[j]));
                    let j2 = choose|j2: int| 0 <= j2 < fp.len() && fp[j2] == oldp[j];
                    assert(fp[j2].id == a.parent_id && contained(a, fp[j2]));
                };
            };
        }
    }

    /// Update a space's name and description; the range, hierarchy
    /// position and visibility stay as they are. Updating an absent
    /// identifier is a no-op.
    pub fn update_space_meta(&mut self, id: i32, name: &str, description: &str)
        requires
            old(self).wf(),
        ensures
            final(self).wf(),
            final(self).pool_rows() == old(self).pool_rows(),
            final(self).assignment_rows() == old(self).assignment_rows(),
            final(self).next_space() == old(self).next_space(),
            final(self).next_pool() == old(self).next_pool(),
            final(self).next_assignment() == old(self).next_assignment(),
            final(self).space_rows().len() == old(self).space_rows().len(),
            forall|j: int|
                0 <= j < old(self).space_rows().len() && old(self).space_rows()[j].id != id
                    ==> final(self).space_rows()[j] == old(self).space_rows()[j],
            forall|j: int|
                0 <= j < old(self).space_rows().len() && old(self).space_rows()[j].id == id
                    ==> meta_updated(
                    final(self).space_rows()[j],
                    old(self).space_rows()[j],
                    name@,
                    description@,
                ),
    {
        let i = match find_row(&self.spaces, id) {
            Some(i) => i,
            None => {
                return ;
            },
        };
        let ghost s = self.spaces@;
        let mut row = self.spaces.remove(i);
        row.name = name.to_owned();
        row.description = description.to_owned();
        let ghost v = row;
        self.spaces.insert(i, row);
        proof {
            lemma_remove_insert_is_update(s, i as int, v);
            lemma_level_update_same_range(s, i as int, v);
            let u = s.update(i as int, v);
            assert(self.spaces@ =~= u);
            assert forall|j: int| 0 <= j < u.len() implies #[trigger] u[j].parent_id == 0 by {
                assert(s[j].parent_id == 0);
            };
            assert forall|j: int|
                0 <= j < s.len() && s[j].id == id implies meta_updated(u[j], s[j], name@,
                description@) by {
                if j != i as int {
                    assert(s[j].id != s[i as int].id);
                }
            };
            assert(children_ok(self.pools@, u)) by {
                assert forall|c: int| 0 <= c < self.pools@.len() implies parent_ok(
                    #[trigger] self.pools@[c], u) by {
                    let j = choose|j: int|
                        0 <= j < s.len() && #[trigger] s[j].id == self.pools@[c].parent_id
                            && contained(self.pools@[c], s[j]);
                    assert(u[j].id == self.pools@[c].parent_id && contained(
                        self.pools@[c],
                        u[j],
                    ));
                };
            };
        }
    }

    /// Update a pool's name and description; the range, hierarchy
    /// position and visibility stay as they are. Updating an absent
    /// identifier is a no-op.
    pub fn update_pool_meta(&mut self, id: i32, name: &str, description: &str)
        requires
            old(self).wf(),
        ensures
            final(self).wf(),
            final(self).space_rows() == old(self).space_rows(),
            final(self).assignment_rows() == old(self).assignment_rows(),
            final(self).next_space() == old(self).next_space(),
            final(self).next_pool() == old(self).next_pool(),
            final(self).next_assignment() == old(self).next_assignment(),
            final(self).pool_rows().len() == old(self).pool_rows().len(),
            forall|j: int|
                0 <= j < old(self).pool_rows().len() && old(self).pool_rows()[j].id != id
                    ==> final(self).pool_rows()[j] == old(self).pool_rows()[j],
            forall|j: int|
                0 <= j < old(self).pool_rows().len() && old(self).pool_rows()[j].id == id
                    ==> meta_updated(
                    final(self).pool_rows()[j],
                    old(self).pool_rows()[j],
                    name@,
                    description@,
                ),
    {
        let i = match find_row(&self.pools, id) {
            Some(i) => i,
            None => {
                return ;
            },
        };
        let ghost s = self.pools@;
        let mut row = self.pools.remove(i);
        row.name = name.to_owned();
        row.description = description.to_owned();
        let ghost v = row;
        self.pools.insert(i, row);
        proof {
            lemma_remove_insert_is_update(s, i as int, v);
            lemma_level_update_same_range(s, i as int, v);
            let u = s.update(i as int, v);
            assert(self.pools@ =~= u);
            assert forall|j: int|
                0 <= j < s.len() && s[j].id == id implies meta_updated(u[j], s[j], name@,
                description@) by {
                if j != i as int {
                    assert(s[j].id != s[i as int].id);
                }
            };
            assert(children_ok(u, self.spaces@)) by {
                assert forall|c: int| 0 <= c < u.len() implies parent_ok(#[trigger] u[c],
                    self.spaces@) by {
                    assert(parent_ok(s[c], self.spaces@));
                    let j = choose|j: int|
                        0 <= j < self.spaces@.len() && #[trigger] self.spaces@[j].id
                            == s[c].parent_id && contained(s[c], self.spaces@[j]);
                    assert(self.spaces@[j].id == u[c].parent_id && contained(
                        u[c],
                        self.spaces@[j],
                    ));
                };
            };
            assert(children_ok(self.assignments@, u)) by {
                assert forall|c: int| 0 <= c < self.assignments@.len() implies parent_ok(
                    #[trigger] self.assignments@[c], u) by {
                    let j = choose|j: int|
                        0 <= j < s.len() && #[trigger] s[j].id == self.assignments@[c].parent_id
                            && contained(self.assignments@[c], s[j]);
                    assert(u[j].id == self.assignments@[c].parent_id && contained(
                        self.assignments@[c],
                        u[j],
                    ));
                };
            };
        }
    }

    /// Update an assignment's name and description; the range, hierarchy
    /// position and visibility stay as they are. Updating an absent
    /// identifier is a no-op.
    pub fn update_assignment_meta(&mut self, id: i32, name: &str, description: &str)
        requires
            old(self).wf(),
        ensures
            final(self).wf(),
            final(self).space_rows() == old(self).space_rows(),
            final(self).pool_rows() == old(self).pool_rows(),
            final(self).next_space() == old(self).next_space(),
            final(self).next_pool() == old(self).next_pool(),
            final(self).next_assignment() == old(self).next_assignment(),
            final(self).assignment_rows().len() == old(self).assignment_rows().len(),
            forall|j: int|
                0 <= j < old(self).assignment_rows().len() && old(self).assignment_rows()[j].id
                    != id ==> final(self).assignment_rows()[j] == old(self).assignment_rows()[j],
            forall|j: int|
                0 <= j < old(self).assignment_rows().len() && old(self).assignment_rows()[j].id
                    == id ==> meta_updated(
                    final(self).assignment_rows()[j],
                    old(self).assignment_rows()[j],
                    name@,
                    description@,
                ),
    {
        let i = match find_row(&self.assignments, id) {
            Some(i) => i,
            None => {
                return ;
            },
        };
        let ghost s = self.assignments@;
        let mut row = self.assignments.remove(i);
        row.name = name.to_owned();
        row.description = description.to_owned();
        let ghost v = row;
        self.assignments.insert(i, row);
        proof {
            lemma_remove_insert_is_update(s, i as int, v);
            lemma_level_update_same_range(s, i as int, v);
            let u = s.update(i as int, v);
            assert(self.assignments@ =~= u);
            assert forall|j: int|
                0 <= j < s.len() && s[j].id == id implies meta_updated(u[j], s[j], name@,
                description@) by {
                if j != i as int {
                    assert(s[j].id != s[i as int].id);
                }
            };
            assert(children_ok(u, self.pools@)) by {
                assert forall|c: int| 0 <= c < u.len() implies parent_ok(#[trigger] u[c],
                    self.pools@) by {
                    assert(parent_ok(s[c], self.pools@));
                    let j = choose|j: int|
                        0 <= j < self.pools@.len() && #[trigger] self.pools@[j].id
                            == s[c].parent_id && contained(s[c], self.pools@[j]);
                    assert(self.pools@[j].id == u[c].parent_id && contained(
                        u[c],
                        self.pools@[j],
                    ));
                };
            };
        }
    }
}

} // verus!
