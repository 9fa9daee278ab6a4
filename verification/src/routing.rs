//! Momentum routing on expressions: reading integer offsets off propagator momenta, the
//! numerator's labels, and the pairwise invariants.
//!
//! The externals are `q1 .. q{MAX_MOMENTUM_ID}`. The combinatorics over their integer
//! coefficients is in [`crate::chain`] and [`crate::directions`]; here the expressions are
//! taken apart and put together with Symbolica.

use vstd::prelude::*;
use vstd::string::StringExecFns;

use symbolica::atom::Atom;

use crate::directions::{check_directions, directions_verdict};
use crate::expr::{
    apply, copy_of, derivative, expand, is_plain_ident, lemma_decimal_digits, minus, named_symbol,
    num, own_namespace, replace, same, text_of, times, var, zero, NamedSymbol,
};
use crate::family::pair_count;
use crate::symbols::{external_name, own_name, OneLoopSymbols};
use crate::text::{decimal, decimal_string};

verus! {

/// How many external momentum ids the routing recognizes (`q1 .. q{MAX_MOMENTUM_ID}`).
pub const MAX_MOMENTUM_ID: i64 = 8;

/// `prefix` followed by `j + 1` in decimal.
fn indexed_local(prefix: &str, j: usize) -> (s: String)
    requires
        is_plain_ident(prefix@),
        j < usize::MAX,
    ensures
        s@ == prefix@ + decimal((j + 1) as nat),
        is_plain_ident(s@),
{
    let mut s = String::new();
    s.append(prefix);
    let digits = decimal_string((j as u64) + 1);
    s.append(digits.as_str());
    proof {
        lemma_decimal_digits((j + 1) as nat);
        let d = decimal((j + 1) as nat);
        assert(s@ =~= prefix@ + d);
        assert(s@[0] == prefix@[0]);
        assert(s@.last() == d.last());
        assert forall|i: int| 0 <= i < s@.len() implies crate::expr::is_name_char(#[trigger] s@[i]) by {
            if i < prefix@.len() {
                assert(s@[i] == prefix@[i]);
            } else {
                assert(s@[i] == d[i - prefix@.len()]);
            }
        }
    }
    s
}

/// The symbol `oneloopreduce::<prefix><j + 1>`.
fn indexed_symbol(prefix: &str, j: usize) -> (s: NamedSymbol)
    requires
        is_plain_ident(prefix@),
        j < usize::MAX,
    ensures
        s.name() == own_namespace() + seq![':', ':'] + prefix@ + decimal((j + 1) as nat),
{
    let local = indexed_local(prefix, j);
    let name = own_name(local.as_str());
    proof {
        assert(name@ =~= own_namespace() + seq![':', ':'] + prefix@ + decimal((j + 1) as nat));
    }
    named_symbol(name.as_str())
}

/// The symbol of the 0-based `j`-th external momentum, looked up under
/// `oneloopreduce::q{j+1}`: for `j` = 0, 1, 2 the name of the reducer's own `q1`, `q2`, `q3`.
fn q_sym(j: usize) -> (s: NamedSymbol)
    requires
        j < usize::MAX,
    ensures
        s.name() == external_name(j as nat),
{
    proof {
        reveal_strlit("q");
        assert(own_namespace() + seq![':', ':'] + "q"@ + decimal((j + 1) as nat) =~= external_name(j as nat));
    }
    indexed_symbol("q", j)
}

/// The 0-based `j`-th external momentum, `q{j+1}`. Both the caller's labels and the reducer's
/// chain slots are drawn from this one set.
pub fn q(j: usize) -> (a: Atom)
    requires
        j < usize::MAX,
{
    var(q_sym(j).symbol())
}

/// Every external the routing recognizes, `q1 .. q{MAX_MOMENTUM_ID}` in order.
pub(crate) fn external_syms() -> (v: Vec<Atom>)
    ensures
        v@.len() == MAX_MOMENTUM_ID,
{
    let mut v: Vec<Atom> = Vec::new();
    let mut j: usize = 0;
    while j < MAX_MOMENTUM_ID as usize
        invariant
            j <= MAX_MOMENTUM_ID,
            v@.len() == j,
        decreases MAX_MOMENTUM_ID - j,
    {
        v.push(q(j));
        j += 1;
    }
    v
}

/// `dot(a, b)`.
fn dot_of(syms: &OneLoopSymbols, a: &Atom, b: &Atom) -> (r: Atom) {
    let mut args: Vec<&Atom> = Vec::new();
    args.push(a);
    args.push(b);
    apply(syms.dot(), &args)
}

/// `dot(k, qa)`.
fn dot_kq(syms: &OneLoopSymbols, qa: &Atom) -> (r: Atom) {
    let k = var(syms.k());
    dot_of(syms, &k, qa)
}

/// `0`, `+1` or `-1`; anything else (including a non-numeric coefficient) is rejected, because
/// a one-loop propagator offset is always a signed sum of *distinct* external momenta.
fn unit_int(a: &Atom) -> (r: Option<i32>)
    ensures
        r matches Some(c) ==> -1 <= c <= 1,
{
    if same(a, &zero()) {
        Some(0)
    } else if same(a, &num(1)) {
        Some(1)
    } else if same(a, &num(-1)) {
        Some(-1)
    } else {
        None
    }
}

/// Does the numerator actually depend on `dot(k, q_{j+1})`?
fn depends_on_dot_kq(syms: &OneLoopSymbols, numerator: &Atom, j: usize) -> (r: bool)
    requires
        j < usize::MAX,
{
    proof {
        reveal_strlit("routing_probe");
    }
    let probe_name = own_name("routing_probe");
    let probe = named_symbol(probe_name.as_str()).symbol();
    let pattern = dot_kq(syms, &q(j));
    let replaced = replace(numerator, &pattern, &var(probe));
    let d = derivative(&replaced, probe);
    !same(&d, &zero())
}

/// The refusal of an offset whose coefficient of `q{j+1}` is not `0`, `+1` or `-1`, with the
/// offset and the coefficient as Symbolica prints them.
pub open spec fn non_unit_message(offset: Seq<char>, j: int, coefficient: Seq<char>) -> Seq<char> {
    "propagator offset `"@ + offset
        + "` is not a signed sum of distinct external momenta: the coefficient of q"@ + decimal(
        (j + 1) as nat,
    ) + " is `"@ + coefficient + "`"@
}

/// The refusal of an offset with a part that is not a sum of externals, with the offset and
/// the remainder as Symbolica prints them.
pub open spec fn remainder_message(offset: Seq<char>, remainder: Seq<char>) -> Seq<char> {
    "propagator offset `"@ + offset + "` has an untranslatable remainder `"@ + remainder + "`"@
}

/// Every finding is a unit coefficient.
pub open spec fn all_units(units: Seq<Option<i32>>) -> bool {
    forall|j: int| 0 <= j < units.len() ==> (#[trigger] units[j]) is Some
}

/// External `j` is the first whose coefficient is not `0`, `+1` or `-1`.
pub open spec fn is_first_non_unit(units: Seq<Option<i32>>, j: int) -> bool {
    &&& 0 <= j < units.len()
    &&& units[j] is None
    &&& forall|j2: int| 0 <= j2 < j ==> (#[trigger] units[j2]) is Some
}

/// The coefficients the findings hold.
pub open spec fn unit_values(units: Seq<Option<i32>>) -> Seq<i32> {
    units.map_values(|u: Option<i32>| match u {
        Some(c) => c,
        None => 0,
    })
}

/// The coefficients of an offset, from the finding for each external (`Some(c)` for a unit
/// coefficient `c`, `None` otherwise): all of them, or the first external whose coefficient
/// is not a unit.
pub fn read_units(units: &[Option<i32>]) -> (r: Result<Vec<i32>, usize>)
    ensures
        match r {
            Ok(d) => all_units(units@) && d@ == unit_values(units@),
            Err(j) => is_first_non_unit(units@, j as int),
        },
{
    let mut d: Vec<i32> = Vec::new();
    let mut j: usize = 0;
    while j < units.len()
        invariant
            j <= units@.len(),
            forall|j2: int| 0 <= j2 < j ==> (#[trigger] units@[j2]) is Some,
            d@ == unit_values(units@.subrange(0, j as int)),
        decreases units@.len() - j,
    {
        match units[j] {
            Some(c) => {
                d.push(c);
                j += 1;
                proof {
                    assert(d@ =~= unit_values(units@.subrange(0, j as int)));
                }
            },
            None => {
                return Err(j);
            },
        }
    }
    proof {
        assert(units@.subrange(0, j as int) =~= units@);
    }
    Ok(d)
}

/// What reading an offset gives, for the findings on its coefficients (`units`), whether the
/// rest of the offset expands to zero, and the offset, the first non-unit coefficient and the
/// remainder as Symbolica prints them.
pub open spec fn offset_outcome(
    units: Seq<Option<i32>>,
    remainder_zero: bool,
    offset: Seq<char>,
    coefficient: Seq<char>,
    remainder: Seq<char>,
    res: Result<Vec<i32>, String>,
) -> bool {
    match res {
        Ok(d) => all_units(units) && remainder_zero && d@ == unit_values(units),
        Err(e) => {
            ||| exists|j: int| is_first_non_unit(units, j) && e@ == non_unit_message(offset, j, coefficient)
            ||| all_units(units) && !remainder_zero && e@ == remainder_message(offset, remainder)
        },
    }
}

/// A propagator offset as integer coefficients over the externals `q1..q{MAX_MOMENTUM_ID}`.
///
/// Symbolica finds the coefficient of each external (its derivative in it) and whether it is
/// `0`, `+1` or `-1`, and whether what is left once the externals are taken out expands to
/// zero; [`read_units`] decides on those findings.
pub fn offset_dirs(offset: &Atom) -> (res: Result<Vec<i32>, String>)
    ensures
        res matches Ok(dirs) ==> {
            &&& dirs@.len() == MAX_MOMENTUM_ID
            &&& forall|k: int| 0 <= k < dirs@.len() ==> -1 <= #[trigger] dirs@[k] <= 1
        },
        exists|units: Seq<Option<i32>>, remainder_zero: bool, o: Seq<char>, c: Seq<char>, r: Seq<char>|
            units.len() == MAX_MOMENTUM_ID && #[trigger] offset_outcome(units, remainder_zero, o, c, r, res),
{
    let mut units: Vec<Option<i32>> = Vec::new();
    let mut coefficients: Vec<Atom> = Vec::new();
    let mut j: usize = 0;
    while j < MAX_MOMENTUM_ID as usize
        invariant
            j <= MAX_MOMENTUM_ID,
            units@.len() == j,
            coefficients@.len() == j,
            forall|k: int| 0 <= k < units@.len() ==> (#[trigger] units@[k] matches Some(u) ==> -1 <= u <= 1),
        decreases MAX_MOMENTUM_ID - j,
    {
        let c = derivative(offset, q_sym(j).symbol());
        units.push(unit_int(&c));
        coefficients.push(c);
        j += 1;
    }
    match read_units(units.as_slice()) {
        Err(j) => {
            let mut e = String::new();
            e.append("propagator offset `");
            let o = text_of(offset);
            e.append(o.as_str());
            e.append(
                "` is not a signed sum of distinct external momenta: the coefficient of q",
            );
            let n = decimal_string((j as u64) + 1);
            e.append(n.as_str());
            e.append(" is `");
            let ct = text_of(&coefficients[j]);
            e.append(ct.as_str());
            e.append("`");
            proof {
                assert(e@ =~= non_unit_message(o@, j as int, ct@));
                let res: Result<Vec<i32>, String> = Err(e);
                assert(offset_outcome(units@, false, o@, ct@, ct@, res));
            }
            Err(e)
        },
        Ok(dirs) => {
            let mut residue = copy_of(offset);
            let mut k: usize = 0;
            while k < dirs.len()
                invariant
                    k <= dirs@.len(),
                    dirs@.len() == MAX_MOMENTUM_ID,
                decreases dirs@.len() - k,
            {
                let term = times(&num(dirs[k] as i64), &var(q_sym(k).symbol()));
                residue = minus(&residue, &term);
                k += 1;
            }
            let residue = expand(&residue);
            let o = text_of(offset);
            if !same(&residue, &zero()) {
                let mut e = String::new();
                e.append("propagator offset `");
                e.append(o.as_str());
                e.append("` has an untranslatable remainder `");
                let r = text_of(&residue);
                e.append(r.as_str());
                e.append("`");
                proof {
                    assert(e@ =~= remainder_message(o@, r@));
                    let res: Result<Vec<i32>, String> = Err(e);
                    assert(offset_outcome(units@, false, o@, o@, r@, res));
                }
                return Err(e);
            }
            proof {
                let res: Result<Vec<i32>, String> = Ok(dirs);
                assert(offset_outcome(units@, true, o@, o@, o@, res));
                assert forall|k: int| 0 <= k < dirs@.len() implies -1 <= #[trigger] dirs@[k] <= 1 by {
                    assert(units@[k] matches Some(u) ==> -1 <= u <= 1);
                }
            }
            Ok(dirs)
        },
    }
}

/// The placeholder symbol for chain slot `a` while the numerator is relabelled.
fn tmp_q(a: usize) -> (r: Atom)
    requires
        a < usize::MAX,
{
    proof {
        reveal_strlit("routing_tmp_q");
    }
    var(indexed_symbol("routing_tmp_q", a).symbol())
}

/// A momentum label in a relabelling: the external `q{j+1}`, or the scratch label of chain
/// slot `a`, `oneloopreduce::routing_tmp_q{a+1}`.
#[derive(Clone, Copy, Debug, PartialEq, Eq, Structural)]
pub enum Label {
    External(usize),
    Scratch(usize),
}

/// One step of a relabelling: `dot(k, from)` becomes `sign * dot(k, to)`.
#[derive(Clone, Copy, Debug, PartialEq, Eq, Structural)]
pub struct Substitution {
    pub from: Label,
    pub to: Label,
    pub sign: i32,
}

/// The steps that relabel a numerator into the reducer's chain basis: first each slot's
/// external `q_{j_a}` becomes `eps_a` times slot `a`'s scratch label, then each scratch label
/// `a` becomes `q_a`. Going through the scratch labels keeps a permutation of slots (such as
/// `q2 -> q1` and `q1 -> q2`) from collapsing two labels onto one.
pub open spec fn relabel_steps(slots: Seq<(usize, i32)>) -> Seq<Substitution> {
    Seq::new(
        slots.len(),
        |a: int| Substitution { from: Label::External(slots[a].0), to: Label::Scratch(a as usize), sign: slots[a].1 },
    ) + Seq::new(
        slots.len(),
        |a: int| Substitution { from: Label::Scratch(a as usize), to: Label::External(a as usize), sign: 1 },
    )
}

/// The substitutions [`relabel_numerator`] applies, in order.
pub fn relabel_plan(slots: &[(usize, i32)]) -> (r: Vec<Substitution>)
    ensures
        r@ == relabel_steps(slots@),
{
    let m = slots.len();
    let mut r: Vec<Substitution> = Vec::new();
    let mut a: usize = 0;
    while a < m
        invariant
            m == slots@.len(),
            a <= m,
            r@ == Seq::new(
                a as nat,
                |b: int| Substitution { from: Label::External(slots@[b].0), to: Label::Scratch(b as usize), sign: slots@[b].1 },
            ),
        decreases m - a,
    {
        let (j, eps) = slots[a];
        r.push(Substitution { from: Label::External(j), to: Label::Scratch(a), sign: eps });
        a += 1;
        proof {
            assert(r@ =~= Seq::new(
                a as nat,
                |b: int| Substitution { from: Label::External(slots@[b].0), to: Label::Scratch(b as usize), sign: slots@[b].1 },
            ));
        }
    }
    let ghost first = r@;
    let mut a: usize = 0;
    while a < m
        invariant
            m == slots@.len(),
            a <= m,
            first == Seq::new(
                m as nat,
                |b: int| Substitution { from: Label::External(slots@[b].0), to: Label::Scratch(b as usize), sign: slots@[b].1 },
            ),
            r@ == first + Seq::new(
                a as nat,
                |b: int| Substitution { from: Label::Scratch(b as usize), to: Label::External(b as usize), sign: 1 },
            ),
        decreases m - a,
    {
        r.push(Substitution { from: Label::Scratch(a), to: Label::External(a), sign: 1 });
        a += 1;
        proof {
            assert(r@ =~= first + Seq::new(
                a as nat,
                |b: int| Substitution { from: Label::Scratch(b as usize), to: Label::External(b as usize), sign: 1 },
            ));
        }
    }
    proof {
        assert(r@ =~= relabel_steps(slots@));
    }
    r
}

/// The momentum a label stands for.
fn label_atom(l: Label) -> (r: Atom)
    requires
        match l {
            Label::External(j) => j < usize::MAX,
            Label::Scratch(a) => a < usize::MAX,
        },
{
    match l {
        Label::External(j) => q(j),
        Label::Scratch(a) => tmp_q(a),
    }
}

/// Rewrite `dot(k, q_{j_a}) -> eps_a * dot(k, q_a)` so the numerator speaks the reducer's
/// chain basis: the substitutions of [`relabel_plan`], applied in its order.
pub fn relabel_numerator(syms: &OneLoopSymbols, numerator: &Atom, slots: &[(usize, i32)]) -> (r: Atom)
    requires
        forall|a: int| 0 <= a < slots@.len() ==> (#[trigger] slots@[a]).0 < usize::MAX,
        slots@.len() < usize::MAX,
    ensures
        slots@.len() == 0 ==> r == *numerator,
{
    let plan = relabel_plan(slots);
    let mut out = copy_of(numerator);
    let mut t: usize = 0;
    while t < plan.len()
        invariant
            plan@ == relabel_steps(slots@),
            slots@.len() < usize::MAX,
            forall|a: int| 0 <= a < slots@.len() ==> (#[trigger] slots@[a]).0 < usize::MAX,
            t <= plan@.len(),
            slots@.len() == 0 ==> out == *numerator,
        decreases plan@.len() - t,
    {
        let step = plan[t];
        proof {
            let m = slots@.len() as int;
            if t < m {
                assert(plan@[t as int] == relabel_steps(slots@)[t as int]);
                assert(step.from == Label::External(slots@[t as int].0));
                assert(step.to == Label::Scratch(t as usize));
            } else {
                assert(step.from == Label::Scratch((t - m) as usize));
                assert(step.to == Label::External((t - m) as usize));
            }
        }
        let target = dot_kq(syms, &label_atom(step.to));
        let rhs = if step.sign == 1 {
            target
        } else {
            times(&num(step.sign as i64), &target)
        };
        out = replace(&out, &dot_kq(syms, &label_atom(step.from)), &rhs);
        t += 1;
    }
    out
}

/// Reject any `dot(k, q_j)` the reducer cannot faithfully interpret. For `n >= 2` the only
/// legitimate directions are the `n-1` chain directions: anything else would be projected
/// against a *fabricated* Gram and silently absorbed into a coefficient.
///
/// Whether the numerator depends on each `dot(k, q_j)` is Symbolica's finding; the verdict on
/// those findings is [`check_directions`]'s.
pub fn check_numerator_directions(
    syms: &OneLoopSymbols,
    numerator: &Atom,
    slots: &[(usize, i32)],
    n: usize,
) -> (res: Result<(), String>)
    ensures
        exists|depends: Seq<bool>|
            depends.len() == MAX_MOMENTUM_ID && #[trigger] directions_verdict(
                depends,
                slots@,
                n as nat,
                res,
            ),
{
    let mut depends: Vec<bool> = Vec::new();
    let mut j: usize = 0;
    while j < MAX_MOMENTUM_ID as usize
        invariant
            j <= MAX_MOMENTUM_ID,
            depends@.len() == j,
        decreases MAX_MOMENTUM_ID - j,
    {
        depends.push(depends_on_dot_kq(syms, numerator, j));
        j += 1;
    }
    let res = check_directions(depends.as_slice(), slots, n);
    proof {
        assert(directions_verdict(depends@, slots@, n as nat, res));
    }
    res
}

/// `momentum^2`, expanded, with every product of externals written as their dot product:
/// `q_a^2 -> dot(q_a, q_a)` for each external in order, then `q_a*q_b -> dot(q_a, q_b)` for
/// the pairs `a < b` of [`pair_plan`], in its order.
fn square_external_momentum(syms: &OneLoopSymbols, momentum: &Atom) -> (r: Atom) {
    let qs = external_syms();
    let n = qs.len();
    let mut out = expand(&times(momentum, momentum));
    let mut a: usize = 0;
    while a < n
        invariant
            n == qs@.len(),
            a <= n,
        decreases n - a,
    {
        let qa = &qs[a];
        out = replace(&out, &times(qa, qa), &dot_of(syms, qa, qa));
        a += 1;
    }
    let pairs = pair_plan(n);
    proof {
        lemma_lex_pairs_entries(n as nat);
    }
    let mut t: usize = 0;
    while t < pairs.len()
        invariant
            n == qs@.len(),
            pairs@ == lex_pairs(n as nat),
            forall|k: int| 0 <= k < pairs@.len() ==> (#[trigger] pairs@[k]).0 < pairs@[k].1 && (pairs@[k].1 as int) < n,
            t <= pairs@.len(),
        decreases pairs@.len() - t,
    {
        let (a, b) = pairs[t];
        out = replace(&out, &times(&qs[a], &qs[b]), &dot_of(syms, &qs[a], &qs[b]));
        t += 1;
    }
    out
}

/// The pairs `(i, j)`, `i < j < n`, whose first entry is below `rows`, in lexicographic order.
pub open spec fn lex_pairs_upto(n: nat, rows: nat) -> Seq<(usize, usize)>
    decreases rows,
{
    if rows == 0 {
        Seq::empty()
    } else {
        let i = rows - 1;
        lex_pairs_upto(n, i as nat) + Seq::new(
            if n >= rows {
                (n - rows) as nat
            } else {
                0
            },
            |t: int| (i as usize, (rows + t) as usize),
        )
    }
}

/// The pairs `(i, j)`, `i < j < n`, in lexicographic order:
/// `(0,1), (0,2), ..., (0,n-1), (1,2), ...`.
pub open spec fn lex_pairs(n: nat) -> Seq<(usize, usize)> {
    lex_pairs_upto(n, n)
}

/// The pairs are `(i, j)` with `i < j < n`, each after the one before in lexicographic order,
/// and there are `C(n, 2)` of them.
pub proof fn lemma_lex_pairs_entries(n: nat)
    requires
        n <= usize::MAX,
    ensures
        lex_pairs(n).len() == pair_count(n),
        forall|k: int|
            0 <= k < lex_pairs(n).len() ==> (#[trigger] lex_pairs(n)[k]).0 < lex_pairs(n)[k].1 && (
            lex_pairs(n)[k].1 as int) < n,
        forall|k: int, l: int|
            0 <= k < l < lex_pairs(n).len() ==> {
                let p = #[trigger] lex_pairs(n)[k];
                let q = #[trigger] lex_pairs(n)[l];
                p.0 < q.0 || (p.0 == q.0 && p.1 < q.1)
            },
{
    lemma_lex_pairs_upto(n, n);
    lemma_pairs_before(n as int, n as int);
    assert(n * (n - 1) == n * (2 * n - n - 1));
}

proof fn lemma_lex_pairs_upto(n: nat, rows: nat)
    requires
        rows <= n <= usize::MAX,
    ensures
        lex_pairs_upto(n, rows).len() == pairs_before(n as int, rows as int),
        forall|k: int|
            0 <= k < lex_pairs_upto(n, rows).len() ==> {
                let p = #[trigger] lex_pairs_upto(n, rows)[k];
                &&& p.0 < p.1
                &&& (p.1 as int) < n
                &&& (p.0 as int) < rows
            },
        forall|k: int, l: int|
            0 <= k < l < lex_pairs_upto(n, rows).len() ==> {
                let p = #[trigger] lex_pairs_upto(n, rows)[k];
                let q = #[trigger] lex_pairs_upto(n, rows)[l];
                p.0 < q.0 || (p.0 == q.0 && p.1 < q.1)
            },
    decreases rows,
{
    if rows > 0 {
        let i = (rows - 1) as nat;
        lemma_lex_pairs_upto(n, i);
        let prev = lex_pairs_upto(n, i);
        let row = Seq::new((n - rows) as nat, |t: int| (i as usize, (rows + t) as usize));
        let all = lex_pairs_upto(n, rows);
        assert(all == prev + row);
        assert forall|k: int| 0 <= k < all.len() implies {
            let p = #[trigger] all[k];
            &&& p.0 < p.1
            &&& (p.1 as int) < n
            &&& (p.0 as int) < rows
        } by {
            if k >= prev.len() {
                assert(all[k] == row[k - prev.len()]);
            } else {
                assert(all[k] == prev[k]);
            }
        }
        assert forall|k: int, l: int| 0 <= k < l < all.len() implies {
            let p = #[trigger] all[k];
            let q = #[trigger] all[l];
            p.0 < q.0 || (p.0 == q.0 && p.1 < q.1)
        } by {
            if l < prev.len() {
                assert(all[k] == prev[k] && all[l] == prev[l]);
            } else if k < prev.len() {
                assert(all[k] == prev[k] && all[l] == row[l - prev.len()]);
            } else {
                assert(all[k] == row[k - prev.len()] && all[l] == row[l - prev.len()]);
            }
        }
    }
}

/// The pairs `(i, j)`, `i < j < n`, in lexicographic order: the order in which an integral
/// family takes its pairwise invariants.
pub fn pair_plan(n: usize) -> (r: Vec<(usize, usize)>)
    ensures
        r@ == lex_pairs(n as nat),
{
    let mut r: Vec<(usize, usize)> = Vec::new();
    let mut i: usize = 0;
    while i < n
        invariant
            i <= n,
            r@ == lex_pairs_upto(n as nat, i as nat),
        decreases n - i,
    {
        let ghost before = r@;
        let mut j: usize = i + 1;
        while j < n
            invariant
                i < n,
                i + 1 <= j <= n,
                before == lex_pairs_upto(n as nat, i as nat),
                r@ == before + Seq::new((j - i - 1) as nat, |t: int| (i, (i + 1 + t) as usize)),
            decreases n - j,
        {
            r.push((i, j));
            j += 1;
            proof {
                assert(r@ =~= before + Seq::new((j - i - 1) as nat, |t: int| (i, (i + 1 + t) as usize)));
            }
        }
        i += 1;
        proof {
            assert(r@ =~= lex_pairs_upto(n as nat, i as nat));
        }
    }
    r
}

/// How many pairs `(i, j)`, `i < j < n`, have `i` below `rows`.
pub open spec fn pairs_before(n: int, rows: int) -> int
    decreases rows,
{
    if rows <= 0 {
        0
    } else {
        pairs_before(n, rows - 1) + (n - rows)
    }
}

proof fn lemma_pairs_before(n: int, rows: int)
    requires
        0 <= rows <= n,
    ensures
        2 * pairs_before(n, rows) == rows * (2 * n - rows - 1),
    decreases rows,
{
    if rows == 0 {
        assert(pairs_before(n, 0) == 0);
        assert(rows * (2 * n - rows - 1) == 0) by (nonlinear_arith)
            requires
                rows == 0,
        ;
    } else {
        lemma_pairs_before(n, rows - 1);
        assert(2 * pairs_before(n, rows) == (rows - 1) * (2 * n - rows) + 2 * (n - rows));
        assert((rows - 1) * (2 * n - rows) + 2 * (n - rows) == rows * (2 * n - rows - 1))
            by (nonlinear_arith);
    }
}

/// The `C(n,2)` pairwise invariants `(r_i - r_j)^2`, one for each pair of [`pair_plan`], in
/// its lexicographic `i < j` order.
pub fn invariants_from_offsets(syms: &OneLoopSymbols, offsets: &[Atom]) -> (v: Vec<Atom>)
    ensures
        v@.len() == pair_count(offsets@.len()),
{
    let n = offsets.len();
    let pairs = pair_plan(n);
    proof {
        lemma_lex_pairs_entries(n as nat);
    }
    let mut invariants: Vec<Atom> = Vec::new();
    let mut t: usize = 0;
    while t < pairs.len()
        invariant
            n == offsets@.len(),
            pairs@ == lex_pairs(n as nat),
            forall|k: int| 0 <= k < pairs@.len() ==> (#[trigger] pairs@[k]).0 < pairs@[k].1 && (pairs@[k].1 as int) < n,
            t <= pairs@.len(),
            invariants@.len() == t,
        decreases pairs@.len() - t,
    {
        let (i, j) = pairs[t];
        let difference = minus(&offsets[i], &offsets[j]);
        invariants.push(square_external_momentum(syms, &difference));
        t += 1;
    }
    invariants
}

} // verus!
