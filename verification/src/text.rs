//! The text the library puts into its messages: integers in decimal and lists of them in
//! brackets, `[0, 1, -1]`.

use vstd::prelude::*;
use vstd::string::StringExecFns;

verus! {

/// The character of a decimal digit.
pub open spec fn digit_char(d: int) -> char {
    if d == 0 {
        '0'
    } else if d == 1 {
        '1'
    } else if d == 2 {
        '2'
    } else if d == 3 {
        '3'
    } else if d == 4 {
        '4'
    } else if d == 5 {
        '5'
    } else if d == 6 {
        '6'
    } else if d == 7 {
        '7'
    } else if d == 8 {
        '8'
    } else {
        '9'
    }
}

/// The decimal digits of `n`, most significant first, without leading zeros.
pub open spec fn decimal(n: nat) -> Seq<char>
    decreases n,
{
    if n < 10 {
        seq![digit_char(n as int)]
    } else {
        decimal(n / 10).push(digit_char((n % 10) as int))
    }
}

/// `x` in decimal, with a leading `-` when it is negative.
pub open spec fn signed_decimal(x: int) -> Seq<char> {
    if x < 0 {
        seq!['-'] + decimal((-x) as nat)
    } else {
        decimal(x as nat)
    }
}

/// The entries of `s` in decimal, separated by `", "`.
pub open spec fn join_decimals(s: Seq<i32>) -> Seq<char>
    decreases s.len(),
{
    if s.len() == 0 {
        Seq::empty()
    } else if s.len() == 1 {
        signed_decimal(s[0] as int)
    } else {
        join_decimals(s.drop_last()) + seq![',', ' '] + signed_decimal(s.last() as int)
    }
}

/// A list of integers as `[a, b, c]`.
pub open spec fn bracketed(s: Seq<i32>) -> Seq<char> {
    seq!['['] + join_decimals(s) + seq![']']
}

/// The rows of `d`, each bracketed, separated by `", "`.
pub open spec fn join_rows(d: Seq<Seq<i32>>) -> Seq<char>
    decreases d.len(),
{
    if d.len() == 0 {
        Seq::empty()
    } else if d.len() == 1 {
        bracketed(d[0])
    } else {
        join_rows(d.drop_last()) + seq![',', ' '] + bracketed(d.last())
    }
}

/// A list of rows as `[[a, b], [c, d]]`.
pub open spec fn bracketed_rows(d: Seq<Seq<i32>>) -> Seq<char> {
    seq!['['] + join_rows(d) + seq![']']
}

/// `decimal(n)` is never empty.
proof fn lemma_decimal_nonempty(n: nat)
    ensures
        decimal(n).len() >= 1,
        n >= 10 ==> decimal(n).len() >= 2,
    decreases n,
{
    if n >= 10 {
        lemma_decimal_nonempty(n / 10);
    }
}

/// Two numbers with the same decimal digits are equal.
pub proof fn lemma_decimal_injective(a: nat, b: nat)
    requires
        decimal(a) == decimal(b),
    ensures
        a == b,
    decreases a,
{
    lemma_decimal_nonempty(a);
    lemma_decimal_nonempty(b);
    if a >= 10 && b >= 10 {
        let da = decimal(a);
        assert(da.drop_last() =~= decimal(a / 10));
        assert(decimal(b).drop_last() =~= decimal(b / 10));
        assert(da.last() == digit_char((a % 10) as int));
        assert(decimal(b).last() == digit_char((b % 10) as int));
        lemma_decimal_injective(a / 10, b / 10);
    } else if a < 10 && b < 10 {
        assert(decimal(a)[0] == digit_char(a as int));
        assert(decimal(b)[0] == digit_char(b as int));
    }
}

/// The text of one decimal digit.
fn digit_str(d: u64) -> (s: &'static str)
    requires
        d < 10,
    ensures
        s@ == seq![digit_char(d as int)],
{
    proof {
        reveal_strlit("0");
        reveal_strlit("1");
        reveal_strlit("2");
        reveal_strlit("3");
        reveal_strlit("4");
        reveal_strlit("5");
        reveal_strlit("6");
        reveal_strlit("7");
        reveal_strlit("8");
        reveal_strlit("9");
    }
    if d == 0 {
        "0"
    } else if d == 1 {
        "1"
    } else if d == 2 {
        "2"
    } else if d == 3 {
        "3"
    } else if d == 4 {
        "4"
    } else if d == 5 {
        "5"
    } else if d == 6 {
        "6"
    } else if d == 7 {
        "7"
    } else if d == 8 {
        "8"
    } else {
        "9"
    }
}

/// Appends `n` in decimal.
fn push_decimal(out: &mut String, n: u64)
    ensures
        final(out)@ == old(out)@ + decimal(n as nat),
    decreases n,
{
    if n >= 10 {
        push_decimal(out, n / 10);
    }
    out.append(digit_str(n % 10));
    proof {
        if n >= 10 {
            assert(final(out)@ =~= old(out)@ + decimal(n as nat));
        } else {
            assert(final(out)@ =~= old(out)@ + decimal(n as nat));
        }
    }
}

/// `n` in decimal.
pub fn decimal_string(n: u64) -> (s: String)
    ensures
        s@ == decimal(n as nat),
{
    let mut s = String::new();
    push_decimal(&mut s, n);
    proof {
        assert(s@ =~= decimal(n as nat));
    }
    s
}

/// Appends `x` in decimal, with a leading `-` when it is negative.
pub fn push_signed(out: &mut String, x: i64)
    requires
        x > i64::MIN,
    ensures
        final(out)@ == old(out)@ + signed_decimal(x as int),
{
    if x < 0 {
        out.append("-");
        let digits = decimal_string((-x) as u64);
        out.append(digits.as_str());
        proof {
            reveal_strlit("-");
            assert(final(out)@ =~= old(out)@ + signed_decimal(x as int));
        }
    } else {
        let digits = decimal_string(x as u64);
        out.append(digits.as_str());
    }
}

/// Appends the entries of `v` as `[a, b, c]`.
pub fn push_bracketed(out: &mut String, v: &Vec<i32>)
    ensures
        final(out)@ == old(out)@ + bracketed(v@),
{
    let ghost start = out@;
    out.append("[");
    proof {
        reveal_strlit("[");
        assert(v@.subrange(0, 0) =~= Seq::<i32>::empty());
        assert(out@ =~= start + seq!['['] + join_decimals(v@.subrange(0, 0)));
    }
    let mut i: usize = 0;
    while i < v.len()
        invariant
            i <= v.len(),
            out@ == start + seq!['['] + join_decimals(v@.subrange(0, i as int)),
        decreases v.len() - i,
    {
        proof {
            reveal_strlit("[");
            reveal_strlit(", ");
        }
        if i > 0 {
            out.append(", ");
        }
        push_signed(out, v[i] as i64);
        proof {
            let s = v@.subrange(0, i + 1);
            assert(s.drop_last() =~= v@.subrange(0, i as int));
            assert(s.last() == v@[i as int]);
            if i == 0 {
                assert(v@.subrange(0, 0) =~= Seq::<i32>::empty());
            }
        }
        i += 1;
    }
    out.append("]");
    proof {
        reveal_strlit("[");
        reveal_strlit("]");
        assert(v@.subrange(0, v@.len() as int) =~= v@);
        assert(out@ =~= start + bracketed(v@));
    }
}

/// Appends the rows of `d` as `[[a, b], [c, d]]`.
pub fn push_bracketed_rows(out: &mut String, d: &[Vec<i32>])
    ensures
        final(out)@ == old(out)@ + bracketed_rows(d@.map_values(|r: Vec<i32>| r@)),
{
    let ghost start = out@;
    let ghost rows = d@.map_values(|r: Vec<i32>| r@);
    out.append("[");
    proof {
        reveal_strlit("[");
        assert(rows.subrange(0, 0) =~= Seq::<Seq<i32>>::empty());
        assert(out@ =~= start + seq!['['] + join_rows(rows.subrange(0, 0)));
    }
    let mut i: usize = 0;
    while i < d.len()
        invariant
            i <= d.len(),
            rows == d@.map_values(|r: Vec<i32>| r@),
            out@ == start + seq!['['] + join_rows(rows.subrange(0, i as int)),
        decreases d.len() - i,
    {
        proof {
            reveal_strlit("[");
            reveal_strlit(", ");
        }
        if i > 0 {
            out.append(", ");
        }
        push_bracketed(out, &d[i]);
        proof {
            let s = rows.subrange(0, i + 1);
            assert(s.drop_last() =~= rows.subrange(0, i as int));
            assert(s.last() == d@[i as int]@);
            if i == 0 {
                assert(rows.subrange(0, 0) =~= Seq::<Seq<i32>>::empty());
            }
        }
        i += 1;
    }
    out.append("]");
    proof {
        reveal_strlit("[");
        reveal_strlit("]");
        assert(rows.subrange(0, rows.len() as int) =~= rows);
        assert(out@ =~= start + bracketed_rows(rows));
    }
}

} // verus!
