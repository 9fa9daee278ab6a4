//! The chain the reducer assumes, `r_i = q1 + ... + q_{i-1}`, over integer offsets.
//!
//! An offset is a row of integer coefficients over the externals `q1, q2, ...`. Two rows are
//! one chain step apart when they differ by exactly one external, with coefficient `+1` or
//! `-1`. Rows may have different lengths; a step compares them over their common length.

use vstd::prelude::*;
use vstd::string::StringExecFns;

use crate::text::{
    bracketed, bracketed_rows, decimal, decimal_string, push_bracketed, push_bracketed_rows,
    push_signed, signed_decimal,
};

verus! {

/// The rows of a slice of offsets, as sequences of integers.
pub open spec fn rows_of(dirs: Seq<Vec<i32>>) -> Seq<Seq<i32>> {
    dirs.map_values(|r: Vec<i32>| r@)
}

/// The number of externals two rows are compared over.
pub open spec fn common_len(to: Seq<i32>, from: Seq<i32>) -> int {
    if to.len() <= from.len() {
        to.len() as int
    } else {
        from.len() as int
    }
}

/// The coefficient of external `k` in `to - from`.
pub open spec fn row_diff(to: Seq<i32>, from: Seq<i32>, k: int) -> int {
    to[k] - from[k]
}

/// `to - from` is exactly `+q_k` or `-q_k`.
pub open spec fn is_unit_diff(to: Seq<i32>, from: Seq<i32>, k: int) -> bool {
    &&& 0 <= k < common_len(to, from)
    &&& (row_diff(to, from, k) == 1 || row_diff(to, from, k) == -1)
    &&& forall|k2: int|
        0 <= k2 < common_len(to, from) && k2 != k ==> #[trigger] row_diff(to, from, k2) == 0
}

/// `to - from` is a single signed external.
pub open spec fn has_unit_diff(to: Seq<i32>, from: Seq<i32>) -> bool {
    exists|k: int| is_unit_diff(to, from, k)
}

/// The external that a single step `from -> to` moves along.
pub open spec fn unit_dir(to: Seq<i32>, from: Seq<i32>) -> int {
    choose|k: int| is_unit_diff(to, from, k)
}

/// The direction of the step into position `a` of the walk `w`.
pub open spec fn walk_dir(d: Seq<Seq<i32>>, w: Seq<usize>, a: int) -> int {
    unit_dir(d[w[a] as int], d[w[a - 1] as int])
}

/// The step into position `a` of `w` is a single signed external.
pub open spec fn walk_step(d: Seq<Seq<i32>>, w: Seq<usize>, a: int) -> bool {
    has_unit_diff(d[w[a] as int], d[w[a - 1] as int])
}

/// `w` visits distinct rows of `d`, one single external at a time, never reusing an external.
pub open spec fn is_chain_walk(d: Seq<Seq<i32>>, w: Seq<usize>) -> bool {
    &&& forall|a: int| 0 <= a < w.len() ==> (#[trigger] w[a] as int) < d.len()
    &&& forall|a: int, b: int| 0 <= a < b < w.len() ==> #[trigger] w[a] != #[trigger] w[b]
    &&& forall|a: int| 0 < a < w.len() ==> #[trigger] walk_step(d, w, a)
    &&& forall|a: int, b: int|
        0 < a < b < w.len() ==> #[trigger] walk_dir(d, w, a) != #[trigger] walk_dir(d, w, b)
}

/// A walk through every row of `d`.
pub open spec fn is_full_chain(d: Seq<Seq<i32>>, w: Seq<usize>) -> bool {
    is_chain_walk(d, w) && w.len() == d.len()
}

/// `p` is a prefix of `w`.
pub open spec fn is_prefix(p: Seq<usize>, w: Seq<usize>) -> bool {
    p.len() <= w.len() && forall|a: int| 0 <= a < p.len() ==> #[trigger] p[a] == w[a]
}

/// `v` comes before `w` in lexicographic order.
pub open spec fn lex_less(v: Seq<usize>, w: Seq<usize>) -> bool {
    exists|p: int|
        0 <= p < v.len() && p < w.len() && v[p] < w[p] && forall|a: int|
            0 <= a < p ==> #[trigger] v[a] == w[a]
}

/// A row with every coefficient zero.
pub open spec fn is_zero_row(r: Seq<i32>) -> bool {
    forall|k: int| 0 <= k < r.len() ==> #[trigger] r[k] == 0
}

/// The externals used by the steps of `w`, in order, are the entries of `u`.
pub open spec fn dirs_match(d: Seq<Seq<i32>>, w: Seq<usize>, u: Seq<usize>) -> bool {
    &&& u.len() + 1 == w.len()
    &&& forall|a: int| 0 <= a < u.len() ==> #[trigger] u[a] as int == walk_dir(d, w, a + 1)
}

proof fn lemma_unit_dir(to: Seq<i32>, from: Seq<i32>, k: int)
    requires
        is_unit_diff(to, from, k),
    ensures
        has_unit_diff(to, from),
        unit_dir(to, from) == k,
{
    let c = unit_dir(to, from);
    assert(is_unit_diff(to, from, c));
    if c != k {
        assert(row_diff(to, from, c) == 0);
    }
}

/// A step is symmetric: `to - from` is `+q_k` exactly when `from - to` is `-q_k`; and no row
/// is one step from itself.
pub proof fn lemma_unit_diff_symmetric(to: Seq<i32>, from: Seq<i32>, k: int)
    ensures
        is_unit_diff(to, from, k) <==> is_unit_diff(from, to, k),
        is_unit_diff(to, from, k) ==> row_diff(from, to, k) == -row_diff(to, from, k),
        has_unit_diff(to, from) <==> has_unit_diff(from, to),
        !has_unit_diff(to, to),
{
    assert(common_len(to, from) == common_len(from, to));
    assert forall|k2: int| 0 <= k2 < common_len(to, from) implies #[trigger] row_diff(from, to, k2)
        == -row_diff(to, from, k2) by {}
    assert forall|k2: int| 0 <= k2 < common_len(to, from) implies #[trigger] row_diff(to, from, k2)
        == -row_diff(from, to, k2) by {}
    if has_unit_diff(to, from) {
        let c = choose|c: int| is_unit_diff(to, from, c);
        assert(is_unit_diff(from, to, c));
    }
    if has_unit_diff(from, to) {
        let c = choose|c: int| is_unit_diff(from, to, c);
        assert(row_diff(to, from, c) == -row_diff(from, to, c));
        assert(is_unit_diff(to, from, c));
    }
    if has_unit_diff(to, to) {
        let c = choose|c: int| is_unit_diff(to, to, c);
        assert(row_diff(to, to, c) == 0);
    }
}

/// `r_j - r_i` as a single signed external, or `None` if it is not one.
fn single_step(dirs: &[Vec<i32>], i: usize, j: usize) -> (res: Option<(usize, i32)>)
    requires
        i < dirs.len(),
        j < dirs.len(),
    ensures
        match res {
            Some((k, s)) => {
                &&& is_unit_diff(rows_of(dirs@)[j as int], rows_of(dirs@)[i as int], k as int)
                &&& s == row_diff(rows_of(dirs@)[j as int], rows_of(dirs@)[i as int], k as int)
            },
            None => !has_unit_diff(rows_of(dirs@)[j as int], rows_of(dirs@)[i as int]),
        },
{
    let ghost to = rows_of(dirs@)[j as int];
    let ghost from = rows_of(dirs@)[i as int];
    let to_row = &dirs[j];
    let from_row = &dirs[i];
    let m = if to_row.len() <= from_row.len() {
        to_row.len()
    } else {
        from_row.len()
    };
    let mut found: Option<(usize, i32)> = None;
    let mut k: usize = 0;
    while k < m
        invariant
            to == to_row@,
            from == from_row@,
            to == rows_of(dirs@)[j as int],
            from == rows_of(dirs@)[i as int],
            m == common_len(to, from),
            k <= m,
            match found {
                Some((f, s)) => {
                    &&& f < k
                    &&& (s == 1 || s == -1)
                    &&& s == row_diff(to, from, f as int)
                    &&& forall|k2: int| 0 <= k2 < k && k2 != f ==> #[trigger] row_diff(to, from, k2) == 0
                },
                None => forall|k2: int| 0 <= k2 < k ==> #[trigger] row_diff(to, from, k2) == 0,
            },
        decreases m - k,
    {
        let d: i64 = to_row[k] as i64 - from_row[k] as i64;
        assert(d == row_diff(to, from, k as int));
        if d != 0 {
            if (d != 1 && d != -1) || found.is_some() {
                proof {
                    if has_unit_diff(to, from) {
                        let c = choose|c: int| is_unit_diff(to, from, c);
                        assert(is_unit_diff(to, from, c));
                        if c != k {
                            assert(row_diff(to, from, k as int) == 0);
                            assert(false);
                        } else {
                            match found {
                                Some((f, s)) => {
                                    assert(row_diff(to, from, f as int) == 0);
                                    assert(false);
                                },
                                None => {
                                    assert(false);
                                },
                            }
                        }
                    }
                }
                return None;
            }
            found = Some((k, d as i32));
        }
        k += 1;
    }
    proof {
        match found {
            Some((f, s)) => {},
            None => {
                if has_unit_diff(to, from) {
                    let c = choose|c: int| is_unit_diff(to, from, c);
                    assert(row_diff(to, from, c) == 0);
                }
            },
        }
    }
    found
}


/// No walk through every row of `d` begins with `p`.
pub open spec fn no_full_extension(d: Seq<Seq<i32>>, p: Seq<usize>) -> bool {
    forall|w: Seq<usize>| #[trigger] is_prefix(p, w) ==> !is_full_chain(d, w)
}

/// `f` is the lexicographically first walk through every row of `d` that begins with `p`.
pub open spec fn is_least_full_extension(d: Seq<Seq<i32>>, p: Seq<usize>, f: Seq<usize>) -> bool {
    &&& is_full_chain(d, f)
    &&& is_prefix(p, f)
    &&& forall|w: Seq<usize>| #[trigger] is_prefix(p, w) && is_full_chain(d, w) ==> !lex_less(w, f)
}

proof fn lemma_walk_push(d: Seq<Seq<i32>>, w: Seq<usize>, j: usize)
    requires
        is_chain_walk(d, w),
        w.len() >= 1,
        (j as int) < d.len(),
        !w.contains(j),
        has_unit_diff(d[j as int], d[w.last() as int]),
        forall|a: int| 0 < a < w.len() ==> #[trigger] walk_dir(d, w, a) != unit_dir(d[j as int], d[w.last() as int]),
    ensures
        is_chain_walk(d, w.push(j)),
{
    let v = w.push(j);
    assert forall|a: int| 0 < a < w.len() implies #[trigger] walk_dir(d, v, a) == walk_dir(d, w, a) && walk_step(d, v, a) == walk_step(d, w, a) by {
        assert(v[a] == w[a] && v[a - 1] == w[a - 1]);
    }
    assert(walk_dir(d, v, w.len() as int) == unit_dir(d[j as int], d[w.last() as int]));
    assert(walk_step(d, v, w.len() as int));
    assert forall|a: int, b: int| 0 <= a < b < v.len() implies #[trigger] v[a] != #[trigger] v[b] by {
        if b == w.len() {
            assert(w[a] == v[a]);
        }
    }
    assert forall|a: int, b: int| 0 < a < b < v.len() implies #[trigger] walk_dir(d, v, a) != #[trigger] walk_dir(d, v, b) by {
        if b < w.len() {
            assert(walk_dir(d, w, a) != walk_dir(d, w, b));
        } else {
            assert(walk_dir(d, v, a) == walk_dir(d, w, a));
        }
    }
    assert forall|a: int| 0 < a < v.len() implies #[trigger] walk_step(d, v, a) by {
        if a < w.len() {
            assert(walk_step(d, v, a) == walk_step(d, w, a));
        }
    }
    assert forall|a: int| 0 <= a < v.len() implies (#[trigger] v[a] as int) < d.len() by {
        if a < w.len() {
            assert(v[a] == w[a]);
        }
    }
}

/// `w` begins with `p`, and so with every prefix of `p`.
proof fn lemma_prefix_push(p: Seq<usize>, j: usize, w: Seq<usize>)
    requires
        is_prefix(p.push(j), w),
    ensures
        is_prefix(p, w),
        w[p.len() as int] == j,
{
    assert forall|a: int| 0 <= a < p.len() implies #[trigger] p[a] == w[a] by {
        assert(p.push(j)[a] == p[a]);
    }
    assert(p.push(j)[p.len() as int] == j);
}

/// A walk that begins with `p` and takes `j` next begins with `p.push(j)`.
proof fn lemma_prefix_of_push(p: Seq<usize>, j: usize, w: Seq<usize>)
    requires
        is_prefix(p, w),
        p.len() < w.len(),
        w[p.len() as int] == j,
    ensures
        is_prefix(p.push(j), w),
{
    assert forall|a: int| 0 <= a < p.push(j).len() implies #[trigger] p.push(j)[a] == w[a] by {
        if a < p.len() {
            assert(p[a] == w[a]);
        }
    }
}

/// Two walks that agree before position `n`, where `f` is smaller, are not ordered `w < f`.
proof fn lemma_not_lex_less(w: Seq<usize>, f: Seq<usize>, n: int)
    requires
        0 <= n < w.len(),
        n < f.len(),
        f[n] < w[n],
        forall|a: int| 0 <= a < n ==> #[trigger] w[a] == f[a],
    ensures
        !lex_less(w, f),
{
    if lex_less(w, f) {
        let p = choose|p: int|
            0 <= p < w.len() && p < f.len() && w[p] < f[p] && forall|a: int|
                0 <= a < p ==> #[trigger] w[a] == f[a];
        if p < n {
            assert(w[p] == f[p]);
        } else if p > n {
            assert(w[n] == f[n]);
        }
    }
}

/// Whether `k` is among the entries of `u`.
fn contains_dir(u: &Vec<usize>, k: usize) -> (res: bool)
    ensures
        res == u@.contains(k),
{
    let mut a: usize = 0;
    while a < u.len()
        invariant
            a <= u.len(),
            forall|b: int| 0 <= b < a ==> u@[b] != k,
        decreases u.len() - a,
    {
        if u[a] == k {
            assert(u@[a as int] == k);
            return true;
        }
        a += 1;
    }
    false
}

/// Depth-first extension of a chain, neighbours in index order so the result is deterministic.
///
/// On success `order` is the lexicographically first walk through every row that begins with
/// the walk it held on entry; on failure there is no such walk and nothing has changed.
fn extend_chain(
    dirs: &[Vec<i32>],
    order: &mut Vec<usize>,
    visited: &mut Vec<bool>,
    used_ext: &mut Vec<usize>,
) -> (found: bool)
    requires
        is_chain_walk(rows_of(dirs@), old(order)@),
        1 <= old(order)@.len() <= dirs.len(),
        old(visited)@.len() == dirs.len(),
        forall|j: int| 0 <= j < dirs.len() ==> (old(visited)@[j] <==> old(order)@.contains(j as usize)),
        dirs_match(rows_of(dirs@), old(order)@, old(used_ext)@),
    ensures
        found ==> is_least_full_extension(rows_of(dirs@), old(order)@, final(order)@),
        found ==> final(visited)@ == Seq::new(dirs.len() as nat, |j: int| true),
        found ==> dirs_match(rows_of(dirs@), final(order)@, final(used_ext)@),
        !found ==> {
            &&& no_full_extension(rows_of(dirs@), old(order)@)
            &&& final(order)@ == old(order)@
            &&& final(visited)@ == old(visited)@
            &&& final(used_ext)@ == old(used_ext)@
        },
    decreases dirs.len() - old(order)@.len(),
{
    let ghost d = rows_of(dirs@);
    let ghost p = order@;
    let n = dirs.len();
    if order.len() == n {
        proof {
            assert forall|w: Seq<usize>| #[trigger] is_prefix(p, w) && is_full_chain(d, w) implies !lex_less(w, p) by {
                if lex_less(w, p) {
                    let q = choose|q: int|
                        0 <= q < w.len() && q < p.len() && w[q] < p[q] && forall|a: int|
                            0 <= a < q ==> #[trigger] w[a] == p[a];
                    assert(p[q] == w[q]);
                }
            }
            assert(is_prefix(p, p));
            lemma_full_chain_is_permutation(d, p);
            assert forall|j: int| 0 <= j < n implies visited@[j] by {
                assert(p.contains(j as usize));
            }
            assert(visited@ =~= Seq::new(dirs.len() as nat, |j: int| true));
        }
        return true;
    }
    let last = order[order.len() - 1];
    let len = order.len();
    let mut j: usize = 0;
    while j < n
        invariant
            d == rows_of(dirs@),
            n == dirs.len(),
            len == p.len(),
            1 <= len < n,
            last == p.last(),
            order@ == p,
            old(visited)@ == visited@,
            old(used_ext)@ == used_ext@,
            p == old(order)@,
            is_chain_walk(d, p),
            visited@.len() == n,
            forall|i: int| 0 <= i < n ==> (visited@[i] <==> p.contains(i as usize)),
            dirs_match(d, p, used_ext@),
            j <= n,
            forall|w: Seq<usize>| #[trigger] is_prefix(p, w) && is_full_chain(d, w) ==> w[len as int] >= j,
        decreases n - j,
    {
        let ghost jj = j;
        let mut next_ok = false;
        let mut dir: usize = 0;
        if !visited[j] {
            match single_step(dirs, last, j) {
                Some((k, _)) => {
                    if !contains_dir(used_ext, k) {
                        next_ok = true;
                        dir = k;
                    } else {
                        proof {
                            lemma_unit_dir(d[j as int], d[last as int], k as int);
                            let b = choose|b: int| 0 <= b < used_ext@.len() && used_ext@[b] == k;
                            assert(used_ext@[b] as int == walk_dir(d, p, b + 1));
                            assert forall|w: Seq<usize>| #[trigger] is_prefix(p, w) && is_full_chain(d, w) implies w[len as int] != jj by {
                                if w[len as int] == jj {
                                    assert(w[b + 1] == p[b + 1] && w[b] == p[b]);
                                    assert(walk_dir(d, w, b + 1) == walk_dir(d, p, b + 1));
                                    assert(w[len - 1] == p[len - 1]);
                                    assert(walk_dir(d, w, len as int) == k);
                                    assert(walk_dir(d, w, b + 1) != walk_dir(d, w, len as int));
                                }
                            }
                        }
                    }
                },
                None => {
                    proof {
                        assert forall|w: Seq<usize>| #[trigger] is_prefix(p, w) && is_full_chain(d, w) implies w[len as int] != jj by {
                            if w[len as int] == jj {
                                assert(w[len - 1] == p[len - 1]);
                                assert(walk_step(d, w, len as int));
                            }
                        }
                    }
                },
            }
        } else {
            proof {
                let idx = choose|idx: int| 0 <= idx < p.len() && p[idx] == jj;
                assert forall|w: Seq<usize>| #[trigger] is_prefix(p, w) && is_full_chain(d, w) implies w[len as int] != jj by {
                    if w[len as int] == jj {
                        assert(w[idx] == p[idx]);
                    }
                }
            }
        }
        if next_ok {
            proof {
                lemma_unit_dir(d[j as int], d[last as int], dir as int);
                assert(!p.contains(j));
                assert forall|a: int| 0 < a < p.len() implies #[trigger] walk_dir(d, p, a) != unit_dir(d[j as int], d[p.last() as int]) by {
                    assert(used_ext@[a - 1] as int == walk_dir(d, p, a));
                    if walk_dir(d, p, a) == dir {
                        assert(used_ext@.contains(dir));
                    }
                }
                lemma_walk_push(d, p, j);
            }
            visited.set(j, true);
            order.push(j);
            used_ext.push(dir);
            proof {
                let q = p.push(j);
                assert(order@ == q);
                assert forall|i: int| 0 <= i < n implies (visited@[i] <==> q.contains(i as usize)) by {
                    if i == j {
                        assert(q[len as int] == j);
                    } else if visited@[i] {
                        let idx = choose|idx: int| 0 <= idx < p.len() && p[idx] == i as usize;
                        assert(q[idx] == p[idx]);
                    } else if q.contains(i as usize) {
                        let idx = choose|idx: int| 0 <= idx < q.len() && q[idx] == i as usize;
                        assert(p[idx] == q[idx]);
                    }
                }
                assert forall|a: int| 0 <= a < used_ext@.len() implies #[trigger] used_ext@[a] as int == walk_dir(d, q, a + 1) by {
                    if a + 1 < q.len() - 1 {
                        assert(q[a + 1] == p[a + 1] && q[a] == p[a]);
                        assert(used_ext@[a] == old(used_ext)@[a]);
                    } else {
                        assert(q[a + 1] == j && q[a] == last);
                    }
                }
            }
            if extend_chain(dirs, order, visited, used_ext) {
                proof {
                    let f = order@;
                    let q = p.push(j);
                    assert forall|a: int| 0 <= a < p.len() implies #[trigger] p[a] == f[a] by {
                        assert(q[a] == p[a]);
                        assert(q[a] == f[a]);
                    }
                    assert(f[len as int] == j) by {
                        assert(q[len as int] == j);
                    }
                    assert forall|w: Seq<usize>| #[trigger] is_prefix(p, w) && is_full_chain(d, w) implies !lex_less(w, f) by {
                        if w[len as int] == jj {
                            lemma_prefix_of_push(p, j, w);
                        } else {
                            assert forall|a: int| 0 <= a < len implies #[trigger] w[a] == f[a] by {
                                assert(w[a] == p[a]);
                            }
                            lemma_not_lex_less(w, f, len as int);
                        }
                    }
                }
                return true;
            }
            used_ext.pop();
            order.pop();
            visited.set(j, false);
            proof {
                let q = p.push(j);
                assert(order@ =~= p);
                assert(used_ext@ =~= old(used_ext)@);
                assert(visited@ =~= old(visited)@);
                assert forall|w: Seq<usize>| #[trigger] is_prefix(p, w) && is_full_chain(d, w) implies w[len as int] != jj by {
                    if w[len as int] == jj {
                        lemma_prefix_of_push(p, j, w);
                        assert(is_prefix(q, w));
                    }
                }
            }
        }
        j += 1;
    }
    proof {
        assert forall|w: Seq<usize>| #[trigger] is_prefix(p, w) implies !is_full_chain(d, w) by {
            if is_full_chain(d, w) {
                assert((w[len as int] as int) < d.len());
            }
        }
    }
    false
}


/// Some row of `d` is all zeros.
pub open spec fn has_zero_row(d: Seq<Seq<i32>>) -> bool {
    exists|i: int| 0 <= i < d.len() && is_zero_row(#[trigger] d[i])
}

/// `i` is the first row of `d` that is all zeros.
pub open spec fn is_first_zero_row(d: Seq<Seq<i32>>, i: int) -> bool {
    &&& 0 <= i < d.len()
    &&& is_zero_row(d[i])
    &&& forall|i2: int| 0 <= i2 < i ==> !is_zero_row(#[trigger] d[i2])
}

/// The first row of `d` that is all zeros, where there is one.
pub open spec fn first_zero_row(d: Seq<Seq<i32>>) -> int {
    choose|i: int| is_first_zero_row(d, i)
}

/// The refusal when no propagator has a zero offset.
pub open spec fn no_zero_row_message(d: Seq<Seq<i32>>) -> Seq<char> {
    "no loop propagator carries a zero external offset, so the reducer's r_1 = 0 cannot be reached without shifting the loop momentum; offsets are "@
        + bracketed_rows(d)
}

/// The refusal when no walk from the zero-offset propagator visits every propagator.
pub open spec fn no_chain_message(d: Seq<Seq<i32>>) -> Seq<char> {
    "the loop propagators do not form the reducer's chain r_i = q1 + ... + q_{i-1} under any ordering: no walk from the zero-offset propagator visits all "@
        + decimal(d.len()) + " of them one distinct external at a time; offsets are "@
        + bracketed_rows(d)
}

/// Whether every coefficient of `r` is zero.
fn row_is_zero(r: &Vec<i32>) -> (res: bool)
    ensures
        res == is_zero_row(r@),
{
    let mut k: usize = 0;
    while k < r.len()
        invariant
            k <= r.len(),
            forall|k2: int| 0 <= k2 < k ==> r@[k2] == 0,
        decreases r.len() - k,
    {
        if r[k] != 0 {
            return false;
        }
        k += 1;
    }
    true
}

proof fn lemma_first_zero_row(d: Seq<Seq<i32>>, i: int)
    requires
        is_first_zero_row(d, i),
    ensures
        first_zero_row(d) == i,
        has_zero_row(d),
{
    let f = first_zero_row(d);
    assert(is_first_zero_row(d, f));
    if f < i {
        assert(!is_zero_row(d[f]));
    } else if f > i {
        assert(!is_zero_row(d[i]));
    }
}

/// Put the loop propagators into the order the reducer's chain `r_i = q1 + ... + q_{i-1}`
/// assumes, returning the permutation to apply to the edges and their offsets.
///
/// The walk starts at the first propagator with a zero offset and steps, one distinct
/// external at a time, through every propagator; of all such walks it is the first in
/// lexicographic order.
pub fn chain_order(dirs: &[Vec<i32>]) -> (res: Result<Vec<usize>, String>)
    ensures
        !has_zero_row(rows_of(dirs@)) ==> (res matches Err(e) && e@ == no_zero_row_message(
            rows_of(dirs@),
        )),
        has_zero_row(rows_of(dirs@)) ==> match res {
            Ok(order) => is_least_full_extension(
                rows_of(dirs@),
                seq![first_zero_row(rows_of(dirs@)) as usize],
                order@,
            ),
            Err(e) => {
                &&& no_full_extension(rows_of(dirs@), seq![first_zero_row(rows_of(dirs@)) as usize])
                &&& e@ == no_chain_message(rows_of(dirs@))
            },
        },
{
    let ghost d = rows_of(dirs@);
    let n = dirs.len();
    let mut start: usize = 0;
    while start < n
        invariant
            d == rows_of(dirs@),
            n == dirs.len(),
            start <= n,
            forall|i2: int| 0 <= i2 < start ==> !is_zero_row(#[trigger] d[i2]),
        ensures
            start <= n,
            forall|i2: int| 0 <= i2 < start ==> !is_zero_row(#[trigger] d[i2]),
            start < n ==> is_zero_row(d[start as int]),
        decreases n - start,
    {
        if row_is_zero(&dirs[start]) {
            break;
        }
        start += 1;
    }
    if start == n {
        let mut e = String::new();
        e.append(
            "no loop propagator carries a zero external offset, so the reducer's r_1 = 0 cannot be reached without shifting the loop momentum; offsets are ",
        );
        push_bracketed_rows(&mut e, dirs);
        proof {
            assert forall|i: int| 0 <= i < d.len() implies !is_zero_row(#[trigger] d[i]) by {}
            assert(e@ =~= no_zero_row_message(d));
        }
        return Err(e);
    }
    proof {
        lemma_first_zero_row(d, start as int);
    }
    let mut order: Vec<usize> = Vec::new();
    order.push(start);
    let mut visited: Vec<bool> = Vec::new();
    let mut i: usize = 0;
    while i < n
        invariant
            i <= n,
            n == dirs.len(),
            start < n,
            visited@.len() == i,
            forall|i2: int| 0 <= i2 < i ==> visited@[i2] == (i2 == start),
        decreases n - i,
    {
        visited.push(i == start);
        i += 1;
    }
    let mut used_ext: Vec<usize> = Vec::new();
    proof {
        let p = seq![start];
        assert(order@ =~= p);
        assert forall|j: int| 0 <= j < dirs.len() implies (visited@[j] <==> order@.contains(j as usize)) by {
            if j == start {
                assert(order@[0] == start);
            }
        }
        assert(dirs_match(d, p, used_ext@));
    }
    if !extend_chain(dirs, &mut order, &mut visited, &mut used_ext) {
        let mut e = String::new();
        e.append(
            "the loop propagators do not form the reducer's chain r_i = q1 + ... + q_{i-1} under any ordering: no walk from the zero-offset propagator visits all ",
        );
        let count = decimal_string(n as u64);
        e.append(count.as_str());
        e.append(" of them one distinct external at a time; offsets are ");
        push_bracketed_rows(&mut e, dirs);
        proof {
            assert(e@ =~= no_chain_message(d));
        }
        return Err(e);
    }
    Ok(order)
}


/// How many of the externals below `m` have a non-zero coefficient in `to - from`.
pub open spec fn nonzero_count_upto(to: Seq<i32>, from: Seq<i32>, m: int) -> nat
    decreases m,
{
    if m <= 0 {
        0
    } else {
        nonzero_count_upto(to, from, m - 1) + if row_diff(to, from, m - 1) != 0 {
            1nat
        } else {
            0nat
        }
    }
}

/// How many externals `to - from` runs over.
pub open spec fn nonzero_count(to: Seq<i32>, from: Seq<i32>) -> nat {
    nonzero_count_upto(to, from, common_len(to, from))
}

/// An external with a non-zero coefficient in `to - from`; the only one when the count is one.
pub open spec fn nonzero_dir(to: Seq<i32>, from: Seq<i32>) -> int {
    choose|k: int| 0 <= k < common_len(to, from) && row_diff(to, from, k) != 0
}

/// Step `a` of the chain, `d[a - 1] -> d[a]`, is a single signed external.
pub open spec fn step_unit(d: Seq<Seq<i32>>, a: int) -> bool {
    has_unit_diff(d[a], d[a - 1])
}

/// The external that step `a` of the chain moves along.
pub open spec fn step_dir(d: Seq<Seq<i32>>, a: int) -> int {
    unit_dir(d[a], d[a - 1])
}

/// Steps `1 .. a` of `d`, taken in the given order, are single signed externals, all different.
pub open spec fn is_chain_prefix(d: Seq<Seq<i32>>, a: int) -> bool {
    &&& forall|x: int| 1 <= x < a ==> #[trigger] step_unit(d, x)
    &&& forall|x: int, y: int| 1 <= x < y < a ==> #[trigger] step_dir(d, x) != #[trigger] step_dir(d, y)
}

/// The offsets, in the given order, are the reducer's chain: the first is zero and each step
/// adds one signed external not used before.
pub open spec fn is_reducer_chain(d: Seq<Seq<i32>>) -> bool {
    &&& d.len() > 0
    &&& is_zero_row(d[0])
    &&& is_chain_prefix(d, d.len() as int)
}

/// Step `a` is the first step of `d` that breaks the chain.
pub open spec fn is_first_bad_step(d: Seq<Seq<i32>>, a: int) -> bool {
    &&& 1 <= a < d.len()
    &&& is_chain_prefix(d, a)
    &&& !is_chain_prefix(d, a + 1)
}

/// The slot of each step: the external it moves along and its sign.
pub open spec fn chain_slots_of(d: Seq<Seq<i32>>) -> Seq<(usize, i32)> {
    Seq::new(
        (d.len() - 1) as nat,
        |a: int| (step_dir(d, a + 1) as usize, row_diff(d[a + 1], d[a], step_dir(d, a + 1)) as i32),
    )
}

/// The refusal of a first offset that is not zero.
pub open spec fn nonzero_start_message(r: Seq<i32>) -> Seq<char> {
    "the first loop propagator must carry no external offset (the reducer's r_1 = 0), got coefficients "@
        + bracketed(r)
}

/// The refusal of step `a`, the first step that breaks the chain.
pub open spec fn bad_step_message(d: Seq<Seq<i32>>, a: int) -> Seq<char> {
    let to = d[a];
    let from = d[a - 1];
    if nonzero_count(to, from) != 1 {
        "propagator "@ + decimal((a + 1) as nat) + " does not differ from propagator "@ + decimal(
            a as nat,
        ) + " by a single external momentum (the reducer's chain r_i = q1 + ... + q_{i-1}); difference is over "@
            + decimal(nonzero_count(to, from)) + " externals"@
    } else if !has_unit_diff(to, from) {
        "propagator "@ + decimal((a + 1) as nat) + " differs from propagator "@ + decimal(a as nat)
            + " by "@ + signed_decimal(row_diff(to, from, nonzero_dir(to, from))) + "*q"@ + decimal(
            (nonzero_dir(to, from) + 1) as nat,
        ) + ", not a single external"@
    } else {
        "external q"@ + decimal((unit_dir(to, from) + 1) as nat)
            + " appears in more than one chain slot; the reducer's chain directions must be independent"@
    }
}

proof fn lemma_count_of_unit(to: Seq<i32>, from: Seq<i32>, c: int, m: int)
    requires
        is_unit_diff(to, from, c),
        0 <= m <= common_len(to, from),
    ensures
        nonzero_count_upto(to, from, m) == if c < m {
            1nat
        } else {
            0nat
        },
    decreases m,
{
    if m > 0 {
        lemma_count_of_unit(to, from, c, m - 1);
        if m - 1 != c {
            assert(row_diff(to, from, m - 1) == 0);
        }
    }
}

proof fn lemma_step_dir_fits(offsets: Seq<Vec<i32>>, x: int)
    requires
        1 <= x < offsets.len(),
        step_unit(rows_of(offsets), x),
    ensures
        is_unit_diff(rows_of(offsets)[x], rows_of(offsets)[x - 1], step_dir(rows_of(offsets), x)),
        0 <= step_dir(rows_of(offsets), x) < usize::MAX,
{
    let d = rows_of(offsets);
    assert(d[x] == offsets[x]@);
    assert(offsets[x]@.len() == offsets[x].len());
}

/// Validate that the edge offsets form the chain the reducer assumes, and return, for each
/// reducer slot `a`, the caller's external it corresponds to and its sign.
///
/// This runs on propagators already put in chain order by [`chain_order`].
pub fn chain_slots(offsets: &[Vec<i32>]) -> (res: Result<Vec<(usize, i32)>, String>)
    requires
        offsets.len() > 0,
    ensures
        res is Ok <==> is_reducer_chain(rows_of(offsets@)),
        !is_zero_row(rows_of(offsets@)[0]) ==> (res matches Err(e) && e@ == nonzero_start_message(
            rows_of(offsets@)[0],
        )),
        match res {
            Ok(slots) => slots@ == chain_slots_of(rows_of(offsets@)),
            Err(e) => !is_zero_row(rows_of(offsets@)[0]) || exists|a: int|
                is_first_bad_step(rows_of(offsets@), a) && e@ == bad_step_message(
                    rows_of(offsets@),
                    a,
                ),
        },
{
    let ghost d = rows_of(offsets@);
    let n = offsets.len();
    if !row_is_zero(&offsets[0]) {
        let mut e = String::new();
        e.append(
            "the first loop propagator must carry no external offset (the reducer's r_1 = 0), got coefficients ",
        );
        push_bracketed(&mut e, &offsets[0]);
        proof {
            assert(e@ =~= nonzero_start_message(d[0]));
        }
        return Err(e);
    }
    let mut slots: Vec<(usize, i32)> = Vec::new();
    let mut a: usize = 1;
    while a < n
        invariant
            d == rows_of(offsets@),
            n == offsets.len(),
            1 <= a <= n,
            is_zero_row(d[0]),
            is_chain_prefix(d, a as int),
            slots@ == chain_slots_of(d).subrange(0, a - 1),
        decreases n - a,
    {
        let ghost to = d[a as int];
        let ghost from = d[a - 1];
        let to_row = &offsets[a];
        let from_row = &offsets[a - 1];
        let m = if to_row.len() <= from_row.len() {
            to_row.len()
        } else {
            from_row.len()
        };
        let mut count: usize = 0;
        let mut nz: usize = 0;
        let mut w: i64 = 0;
        let mut k: usize = 0;
        while k < m
            invariant
                to == to_row@,
                from == from_row@,
                m == common_len(to, from),
                k <= m,
                count == nonzero_count_upto(to, from, k as int),
                count <= k,
                count == 0 ==> forall|k2: int| 0 <= k2 < k ==> #[trigger] row_diff(to, from, k2) == 0,
                count == 1 ==> {
                    &&& nz < k
                    &&& w == row_diff(to, from, nz as int)
                    &&& w != 0
                    &&& forall|k2: int| 0 <= k2 < k && k2 != nz ==> #[trigger] row_diff(to, from, k2) == 0
                },
            decreases m - k,
        {
            let dk: i64 = to_row[k] as i64 - from_row[k] as i64;
            assert(dk == row_diff(to, from, k as int));
            if dk != 0 {
                if count == 0 {
                    nz = k;
                    w = dk;
                }
                count += 1;
            }
            k += 1;
        }
        proof {
            if has_unit_diff(to, from) {
                let c = choose|c: int| is_unit_diff(to, from, c);
                lemma_count_of_unit(to, from, c, m as int);
            }
        }
        if count != 1 {
            let mut e = String::new();
            e.append("propagator ");
            let s1 = decimal_string((a + 1) as u64);
            e.append(s1.as_str());
            e.append(" does not differ from propagator ");
            let s2 = decimal_string(a as u64);
            e.append(s2.as_str());
            e.append(
                " by a single external momentum (the reducer's chain r_i = q1 + ... + q_{i-1}); difference is over ",
            );
            let s3 = decimal_string(count as u64);
            e.append(s3.as_str());
            e.append(" externals");
            proof {
                assert(!step_unit(d, a as int));
                assert(is_first_bad_step(d, a as int));
                assert(e@ =~= bad_step_message(d, a as int));
            }
            return Err(e);
        }
        proof {
            assert(0 <= nz < common_len(to, from) && row_diff(to, from, nz as int) != 0);
            let c = nonzero_dir(to, from);
            if c != nz {
                assert(row_diff(to, from, c) == 0);
            }
            assert(c == nz);
        }
        if w != 1 && w != -1 {
            let mut e = String::new();
            e.append("propagator ");
            let s1 = decimal_string((a + 1) as u64);
            e.append(s1.as_str());
            e.append(" differs from propagator ");
            let s2 = decimal_string(a as u64);
            e.append(s2.as_str());
            e.append(" by ");
            push_signed(&mut e, w);
            e.append("*q");
            let s3 = decimal_string((nz + 1) as u64);
            e.append(s3.as_str());
            e.append(", not a single external");
            proof {
                if has_unit_diff(to, from) {
                    let c = choose|c: int| is_unit_diff(to, from, c);
                    if c != nz {
                        assert(row_diff(to, from, nz as int) == 0);
                    }
                }
                assert(!step_unit(d, a as int));
                assert(is_first_bad_step(d, a as int));
                assert(e@ =~= bad_step_message(d, a as int));
            }
            return Err(e);
        }
        proof {
            assert(is_unit_diff(to, from, nz as int));
            lemma_unit_dir(to, from, nz as int);
            assert(step_unit(d, a as int));
            assert(step_dir(d, a as int) == nz);
        }
        let mut b: usize = 0;
        while b < slots.len()
            invariant
                b <= slots.len(),
                slots@ == chain_slots_of(d).subrange(0, a - 1),
                1 <= a < n,
                d == rows_of(offsets@),
                n == offsets.len(),
                forall|b2: int| 0 <= b2 < b ==> (#[trigger] slots@[b2]).0 != nz,
                is_chain_prefix(d, a as int),
                step_unit(d, a as int),
                step_dir(d, a as int) == nz,
                nz < m,
                m <= offsets@[a as int].len(),
                to == d[a as int],
                from == d[a - 1],
                nonzero_count(to, from) == 1,
                is_zero_row(d[0]),
            decreases slots.len() - b,
        {
            if slots[b].0 == nz {
                let mut e = String::new();
                e.append("external q");
                let s1 = decimal_string((nz + 1) as u64);
                e.append(s1.as_str());
                e.append(
                    " appears in more than one chain slot; the reducer's chain directions must be independent",
                );
                proof {
                    assert(slots@[b as int] == chain_slots_of(d)[b as int]);
                    assert(step_unit(d, b + 1));
                    lemma_step_dir_fits(offsets@, b + 1);
                    assert(step_dir(d, b + 1) == nz);
                    assert(step_dir(d, b + 1) == step_dir(d, a as int));
                    assert(!is_chain_prefix(d, a + 1));
                    assert(is_first_bad_step(d, a as int));
                    assert(nonzero_count(to, from) == 1);
                    assert(e@ =~= bad_step_message(d, a as int));
                }
                return Err(e);
            }
            b += 1;
        }
        let ghost prev = slots@;
        slots.push((nz, w as i32));
        proof {
            assert forall|x: int, y: int| 1 <= x < y < a + 1 implies #[trigger] step_dir(d, x) != #[trigger] step_dir(d, y) by {
                if y == a {
                    assert(prev[x - 1] == chain_slots_of(d)[x - 1]);
                    assert(prev[x - 1].0 != nz);
                    assert(step_unit(d, x));
                    lemma_step_dir_fits(offsets@, x);
                }
            }
            assert(slots@ =~= chain_slots_of(d).subrange(0, a as int));
        }
        a += 1;
    }
    proof {
        assert(slots@ =~= chain_slots_of(d));
    }
    Ok(slots)
}


/// The rows of `d` in the order `order`.
pub open spec fn permute_rows(d: Seq<Seq<i32>>, order: Seq<usize>) -> Seq<Seq<i32>> {
    order.map_values(|i: usize| d[i as int])
}

/// A walk from the first zero-offset propagator through every propagator, with its offsets
/// put in walk order, is the reducer's chain, so `chain_slots` accepts it; its slots are the
/// externals the walk steps along, with their signs.
pub proof fn lemma_chain_order_feeds_chain_slots(d: Seq<Seq<i32>>, order: Seq<usize>)
    requires
        has_zero_row(d),
        is_full_chain(d, order),
        order.len() > 0,
        order[0] as int == first_zero_row(d),
    ensures
        is_reducer_chain(permute_rows(d, order)),
        forall|a: int| 1 <= a < order.len() ==> #[trigger] step_dir(permute_rows(d, order), a) == walk_dir(d, order, a),
{
    let p = permute_rows(d, order);
    let z = choose|i: int| 0 <= i < d.len() && is_zero_row(#[trigger] d[i]);
    let f = first_zero_row(d);
    // the first zero row exists: walk down from any zero row to the first one
    lemma_first_zero_exists(d, z);
    assert(is_first_zero_row(d, f));
    assert(p[0] == d[f]);
    assert forall|a: int| 1 <= a < order.len() implies #[trigger] step_dir(p, a) == walk_dir(d, order, a) && step_unit(p, a) by {
        assert(p[a] == d[order[a] as int] && p[a - 1] == d[order[a - 1] as int]);
        assert(walk_step(d, order, a));
    }
    assert forall|a: int| 1 <= a < p.len() implies #[trigger] step_unit(p, a) by {
        assert(p[a] == d[order[a] as int] && p[a - 1] == d[order[a - 1] as int]);
        assert(walk_step(d, order, a));
    }
    assert forall|x: int, y: int| 1 <= x < y < p.len() implies #[trigger] step_dir(p, x) != #[trigger] step_dir(p, y) by {
        assert(walk_dir(d, order, x) != walk_dir(d, order, y));
    }
    assert(is_zero_row(p[0]));
    assert(is_chain_prefix(p, p.len() as int));
}

/// A walk through every row visits each propagator exactly once: it is a permutation.
pub proof fn lemma_full_chain_is_permutation(d: Seq<Seq<i32>>, w: Seq<usize>)
    requires
        is_full_chain(d, w),
    ensures
        forall|i: int| 0 <= i < d.len() ==> #[trigger] w.contains(i as usize),
{
    let ws = w.map_values(|x: usize| x as int);
    assert forall|a: int, b: int| 0 <= a < ws.len() && 0 <= b < ws.len() && a != b implies ws[a] != ws[b] by {
        if a < b {
            assert(w[a] != w[b]);
        } else {
            assert(w[b] != w[a]);
        }
    }
    ws.unique_seq_to_set();
    let t = ws.to_set();
    let r = vstd::set_lib::set_int_range(0, d.len() as int);
    vstd::set_lib::lemma_int_range(0, d.len() as int);
    assert forall|x: int| t.contains(x) implies r.contains(x) by {
        let a = choose|a: int| 0 <= a < ws.len() && ws[a] == x;
        assert((w[a] as int) < d.len());
    }
    vstd::set_lib::lemma_len_subset(t, r);
    vstd::set_lib::lemma_subset_equality(t, r);
    assert forall|i: int| 0 <= i < d.len() implies #[trigger] w.contains(i as usize) by {
        assert(r.contains(i));
        assert(t.contains(i));
        let a = choose|a: int| 0 <= a < ws.len() && ws[a] == i;
        assert(w[a] == i as usize);
    }
}

/// Some zero row is the first zero row, when there is a zero row at `z`.
proof fn lemma_first_zero_exists(d: Seq<Seq<i32>>, z: int)
    requires
        0 <= z < d.len(),
        is_zero_row(d[z]),
    ensures
        is_first_zero_row(d, first_zero_row(d)),
    decreases z,
{
    if forall|i2: int| 0 <= i2 < z ==> !is_zero_row(#[trigger] d[i2]) {
        assert(is_first_zero_row(d, z));
    } else {
        let z2 = choose|i2: int| 0 <= i2 < z && is_zero_row(#[trigger] d[i2]);
        lemma_first_zero_exists(d, z2);
    }
}


/// Every row of `d` has `len` entries, as the offsets read off expressions do.
pub open spec fn rows_have_len(d: Seq<Seq<i32>>, len: int) -> bool {
    forall|i: int| 0 <= i < d.len() ==> (#[trigger] d[i]).len() == len
}

/// Some step `1 ..= a` of the walk `w` moves along external `c`.
pub open spec fn walk_uses(d: Seq<Seq<i32>>, w: Seq<usize>, a: int, c: int) -> bool {
    exists|x: int| 1 <= x <= a && #[trigger] walk_dir(d, w, x) == c
}

/// Along a walk from a zero row over rows of one length, the row reached after `a` steps is
/// non-zero exactly at the externals the steps so far moved along.
proof fn lemma_walk_support(d: Seq<Seq<i32>>, w: Seq<usize>, len: int, a: int)
    requires
        rows_have_len(d, len),
        is_chain_walk(d, w),
        w.len() > 0,
        is_zero_row(d[w[0] as int]),
        0 <= a < w.len(),
    ensures
        forall|c: int| 0 <= c < len ==> (d[w[a] as int][c] != 0 <==> walk_uses(d, w, a, c)),
    decreases a,
{
    assert((w[a] as int) < d.len());
    if a == 0 {
        assert forall|c: int| 0 <= c < len implies (d[w[a] as int][c] != 0 <==> walk_uses(d, w, a, c)) by {
            assert(w[0] < d.len());
        }
    } else {
        lemma_walk_support(d, w, len, a - 1);
        let to = d[w[a] as int];
        let from = d[w[a - 1] as int];
        assert((w[a - 1] as int) < d.len());
        assert(walk_step(d, w, a));
        let k = walk_dir(d, w, a);
        assert(is_unit_diff(to, from, k));
        assert(common_len(to, from) == len);
        assert forall|c: int| 0 <= c < len implies (d[w[a] as int][c] != 0 <==> walk_uses(d, w, a, c)) by {
            assert(to[c] == from[c] + row_diff(to, from, c));
            if c == k {
                if walk_uses(d, w, a - 1, c) {
                    let x = choose|x: int| 1 <= x <= a - 1 && #[trigger] walk_dir(d, w, x) == c;
                    assert(walk_dir(d, w, x) != walk_dir(d, w, a));
                }
                assert(walk_dir(d, w, a) == c);
            } else {
                assert(row_diff(to, from, c) == 0);
                if walk_uses(d, w, a, c) {
                    let x = choose|x: int| 1 <= x <= a && #[trigger] walk_dir(d, w, x) == c;
                    assert(x != a);
                    assert(walk_uses(d, w, a - 1, c));
                }
                if walk_uses(d, w, a - 1, c) {
                    let x = choose|x: int| 1 <= x <= a - 1 && #[trigger] walk_dir(d, w, x) == c;
                    assert(walk_uses(d, w, a, c));
                }
            }
        }
    }
}

/// The external a step moves along is one of the row's entries.
proof fn lemma_walk_dir_in_range(d: Seq<Seq<i32>>, w: Seq<usize>, len: int, a: int)
    requires
        rows_have_len(d, len),
        is_chain_walk(d, w),
        0 < a < w.len(),
    ensures
        0 <= walk_dir(d, w, a) < len,
{
    assert((w[a] as int) < d.len() && (w[a - 1] as int) < d.len());
    assert(walk_step(d, w, a));
    assert(is_unit_diff(d[w[a] as int], d[w[a - 1] as int], walk_dir(d, w, a)));
}

/// Over rows of one length, a walk through every row from a given zero row is unique.
pub proof fn lemma_full_chain_unique(d: Seq<Seq<i32>>, len: int, w: Seq<usize>, v: Seq<usize>)
    requires
        rows_have_len(d, len),
        is_full_chain(d, w),
        is_full_chain(d, v),
        w.len() > 0,
        w[0] == v[0],
        is_zero_row(d[w[0] as int]),
    ensures
        w == v,
{
    if w != v {
        assert(!(w =~= v));
        let a = choose|a: int| 0 <= a < w.len() && w[a] != v[a];
        lemma_first_difference(w, v, a);
        let f = choose|f: int| 0 <= f < w.len() && w[f] != v[f] && forall|x: int| 0 <= x < f ==> #[trigger] w[x] == v[x];
        assert(f > 0);
        // v[f] sits somewhere in w, and not before f
        lemma_full_chain_is_permutation(d, w);
        assert((v[f] as int) < d.len());
        assert(w.contains((v[f] as int) as usize));
        let b = choose|b: int| 0 <= b < w.len() && w[b] == v[f];
        if b < f {
            assert(v[b] == w[b]);
        }
        assert(b > f);
        lemma_walk_support(d, w, len, b);
        lemma_walk_support(d, v, len, f);
        lemma_walk_dir_in_range(d, w, len, f);
        lemma_walk_dir_in_range(d, w, len, b);
        let kf = walk_dir(d, w, f);
        let kb = walk_dir(d, w, b);
        assert(kf != kb);
        // both of w's steps f and b are among the externals of row w[b] == v[f]
        assert(walk_uses(d, w, b, kf));
        assert(walk_uses(d, w, b, kb));
        assert(d[v[f] as int][kf] != 0 && d[v[f] as int][kb] != 0);
        assert(walk_uses(d, v, f, kf) && walk_uses(d, v, f, kb));
        // but v's steps before f are w's, which use neither
        assert forall|x: int| 1 <= x < f implies #[trigger] walk_dir(d, v, x) == walk_dir(d, w, x) by {
            assert(v[x] == w[x] && v[x - 1] == w[x - 1]);
        }
        let xf = choose|x: int| 1 <= x <= f && #[trigger] walk_dir(d, v, x) == kf;
        let xb = choose|x: int| 1 <= x <= f && #[trigger] walk_dir(d, v, x) == kb;
        if xf < f {
            assert(walk_dir(d, w, xf) == kf);
            assert(walk_dir(d, w, xf) != walk_dir(d, w, f));
        }
        if xb < f {
            assert(walk_dir(d, w, xb) == kb);
            assert(walk_dir(d, w, xb) != walk_dir(d, w, b));
        }
        assert(xf == f && xb == f);
    }
}

/// There is a first position where two different walks of one length differ.
proof fn lemma_first_difference(w: Seq<usize>, v: Seq<usize>, a: int)
    requires
        w.len() == v.len(),
        0 <= a < w.len(),
        w[a] != v[a],
    ensures
        exists|f: int| 0 <= f < w.len() && w[f] != v[f] && forall|x: int| 0 <= x < f ==> #[trigger] w[x] == v[x],
    decreases a,
{
    if forall|x: int| 0 <= x < a ==> #[trigger] w[x] == v[x] {
    } else {
        let b = choose|b: int| 0 <= b < a && #[trigger] w[b] != v[b];
        lemma_first_difference(w, v, b);
    }
}

/// A permutation of the rows that is the reducer's chain, read as a walk, is a walk through
/// every row from a zero row.
proof fn lemma_reducer_chain_is_walk(d: Seq<Seq<i32>>, p: Seq<usize>)
    requires
        p.len() == d.len(),
        forall|a: int| 0 <= a < p.len() ==> (#[trigger] p[a] as int) < d.len(),
        forall|a: int, b: int| 0 <= a < b < p.len() ==> #[trigger] p[a] != #[trigger] p[b],
        is_reducer_chain(permute_rows(d, p)),
    ensures
        is_full_chain(d, p),
        is_zero_row(d[p[0] as int]),
{
    let r = permute_rows(d, p);
    assert forall|a: int| 1 <= a < p.len() implies #[trigger] walk_dir(d, p, a) == step_dir(r, a) && walk_step(d, p, a) == step_unit(r, a) by {
        assert(r[a] == d[p[a] as int] && r[a - 1] == d[p[a - 1] as int]);
    }
    assert forall|a: int| 0 < a < p.len() implies #[trigger] walk_step(d, p, a) by {
        assert(step_unit(r, a));
    }
    assert forall|a: int, b: int| 0 < a < b < p.len() implies #[trigger] walk_dir(d, p, a) != #[trigger] walk_dir(d, p, b) by {
        assert(step_dir(r, a) != step_dir(r, b));
    }
    assert(r[0] == d[p[0] as int]);
}

/// Over rows of one length, when `chain_slots` accepts some permutation of the offsets,
/// `chain_order` succeeds: such an order starts at the only zero row, so it is a walk from the
/// first one. (The other direction is [`lemma_chain_order_feeds_chain_slots`].)
pub proof fn lemma_some_order_passes_gives_chain(d: Seq<Seq<i32>>, len: int, p: Seq<usize>)
    requires
        rows_have_len(d, len),
        p.len() == d.len(),
        forall|a: int| 0 <= a < p.len() ==> (#[trigger] p[a] as int) < d.len(),
        forall|a: int, b: int| 0 <= a < b < p.len() ==> #[trigger] p[a] != #[trigger] p[b],
        is_reducer_chain(permute_rows(d, p)),
    ensures
        has_zero_row(d),
        p[0] as int == first_zero_row(d),
        !no_full_extension(d, seq![first_zero_row(d) as usize]),
{
    lemma_reducer_chain_is_walk(d, p);
    lemma_full_chain_is_permutation(d, p);
    assert(is_zero_row(d[p[0] as int]));
    // no other row is zero: row p[b], b > 0, is non-zero at the external of step b
    assert forall|i2: int| 0 <= i2 < p[0] implies !is_zero_row(#[trigger] d[i2]) by {
        assert(p.contains(i2 as usize));
        let b = choose|b: int| 0 <= b < p.len() && p[b] == i2 as usize;
        if b == 0 {
            assert(false);
        }
        lemma_walk_support(d, p, len, b);
        lemma_walk_dir_in_range(d, p, len, b);
        assert(walk_uses(d, p, b, walk_dir(d, p, b)));
        assert(d[i2][walk_dir(d, p, b)] != 0);
    }
    assert(is_first_zero_row(d, p[0] as int));
    lemma_first_zero_row(d, p[0] as int);
    let s = seq![first_zero_row(d) as usize];
    assert(is_prefix(s, p));
}

/// Over rows of one length, offsets already in the reducer's chain order come back in that
/// order: the walk from the first zero row is the identity.
pub proof fn lemma_chain_order_of_a_chain(d: Seq<Seq<i32>>, len: int, f: Seq<usize>)
    requires
        rows_have_len(d, len),
        d.len() <= usize::MAX,
        is_reducer_chain(d),
        is_full_chain(d, f),
        f[0] as int == first_zero_row(d),
    ensures
        f == Seq::new(d.len(), |i: int| i as usize),
{
    let id = Seq::new(d.len(), |i: int| i as usize);
    assert forall|i: int| 0 <= i < d.len() implies #[trigger] permute_rows(d, id)[i] == d[i] by {
        assert(id[i] as int == i);
    }
    assert(permute_rows(d, id) =~= d);
    assert forall|a: int, b: int| 0 <= a < b < id.len() implies #[trigger] id[a] != #[trigger] id[b] by {
        assert(id[a] as int == a && id[b] as int == b);
    }
    assert forall|a: int| 0 <= a < id.len() implies (#[trigger] id[a] as int) < d.len() by {
        assert(id[a] as int == a);
    }
    lemma_some_order_passes_gives_chain(d, len, id);
    lemma_reducer_chain_is_walk(d, id);
    lemma_full_chain_unique(d, len, f, id);
}

} // verus!
