//! Fragment file names: `opt-<id>.py`, the id in decimal with no leading
//! zero.

use vstd::prelude::*;
use crate::extract::chars_of;

verus! {

/// The character of a decimal digit.
pub open spec fn digit_char(d: nat) -> char {
    seq!['0', '1', '2', '3', '4', '5', '6', '7', '8', '9'][d as int]
}

/// The value of a decimal digit character.
pub open spec fn digit_value(c: char) -> nat {
    (c as u32 - '0' as u32) as nat
}

pub open spec fn is_digit(c: char) -> bool {
    '0' <= c <= '9'
}

/// `n` in decimal, with no leading zero.
pub open spec fn decimal(n: nat) -> Seq<char>
    decreases n,
{
    if n < 10 {
        seq![digit_char(n)]
    } else {
        decimal(n / 10).push(digit_char(n % 10))
    }
}

/// The value of a string of decimal digits.
pub open spec fn digits_value(ds: Seq<char>) -> nat
    decreases ds.len(),
{
    if ds.len() == 0 {
        0
    } else {
        digits_value(ds.drop_last()) * 10 + digit_value(ds.last())
    }
}

/// A non-empty string of digits with no leading zero.
pub open spec fn canonical_digits(ds: Seq<char>) -> bool {
    &&& ds.len() > 0
    &&& forall|i: int| 0 <= i < ds.len() ==> is_digit(#[trigger] ds[i])
    &&& (ds.len() == 1 || ds[0] != '0')
}

/// The file name of the fragment with id `id`.
pub open spec fn fragment_name(id: nat) -> Seq<char> {
    seq!['o', 'p', 't', '-'] + decimal(id) + seq!['.', 'p', 'y']
}

proof fn lemma_digit(d: nat)
    requires
        d < 10,
    ensures
        is_digit(digit_char(d)),
        digit_value(digit_char(d)) == d,
        d != 0 ==> digit_char(d) != '0',
{
}

/// `decimal` writes canonical digits that read back as the number.
pub proof fn lemma_decimal(n: nat)
    ensures
        canonical_digits(decimal(n)),
        digits_value(decimal(n)) == n,
        n > 0 ==> decimal(n)[0] != '0',
    decreases n,
{
    let ds = decimal(n);
    if n < 10 {
        lemma_digit(n);
        assert(ds.drop_last() =~= Seq::<char>::empty());
        assert(digits_value(ds.drop_last()) == 0);
    } else {
        lemma_decimal(n / 10);
        lemma_digit(n % 10);
        let init = decimal(n / 10);
        assert(ds.drop_last() =~= init);
        assert(ds[0] == init[0]);
        assert forall|i: int| 0 <= i < ds.len() implies is_digit(#[trigger] ds[i]) by {
            if i < init.len() {
                assert(is_digit(init[i]));
            }
        }
        assert(n == (n / 10) * 10 + n % 10);
    }
}

/// A string of digits is worth at least its first digit times the place of
/// that digit, so at least one when it starts with a non-zero digit.
proof fn lemma_value_positive(ds: Seq<char>)
    requires
        ds.len() > 0,
        forall|i: int| 0 <= i < ds.len() ==> is_digit(#[trigger] ds[i]),
        ds[0] != '0',
    ensures
        digits_value(ds) >= 1,
    decreases ds.len(),
{
    if ds.len() > 1 {
        lemma_value_positive(ds.drop_last());
    }
}

/// Canonical digits are the decimal form of their value.
pub proof fn lemma_canonical_decimal(ds: Seq<char>)
    requires
        canonical_digits(ds),
    ensures
        decimal(digits_value(ds)) == ds,
    decreases ds.len(),
{
    let d = digit_value(ds.last());
    assert(is_digit(ds[ds.len() - 1]));
    assert(d < 10);
    if ds.len() == 1 {
        assert(ds.drop_last() =~= Seq::<char>::empty());
        assert(digits_value(ds) == d);
        assert(decimal(d) =~= ds);
    } else {
        let init = ds.drop_last();
        assert(canonical_digits(init)) by {
            assert forall|i: int| 0 <= i < init.len() implies is_digit(#[trigger] init[i]) by {
                assert(is_digit(ds[i]));
            }
        }
        lemma_canonical_decimal(init);
        lemma_value_positive(init);
        let v = digits_value(init);
        assert(digits_value(ds) == v * 10 + d);
        assert((v * 10 + d) / 10 == v && (v * 10 + d) % 10 == d) by (nonlinear_arith)
            requires
                d < 10,
        ;
        assert(decimal(digits_value(ds)) =~= ds);
    }
}

/// The decimal digit string of `d`.
fn digit_str(d: usize) -> (r: &'static str)
    requires
        d < 10,
    ensures
        r@ == seq![digit_char(d as nat)],
{
    proof {
        reveal_strlit("0");
        reveal_strlit("1");
        reveal_strlit("2");
        reveal_strlit("3");
        reveal_strlit("4");
        reveal_strlit("5");
        reveal_strlit("6");
        reveal_strlit("7");
        reveal_strlit("8");
        reveal_strlit("9");
    }
    let r = if d == 0 {
        "0"
    } else if d == 1 {
        "1"
    } else if d == 2 {
        "2"
    } else if d == 3 {
        "3"
    } else if d == 4 {
        "4"
    } else if d == 5 {
        "5"
    } else if d == 6 {
        "6"
    } else if d == 7 {
        "7"
    } else if d == 8 {
        "8"
    } else {
        "9"
    };
    assert(r@ =~= seq![digit_char(d as nat)]);
    r
}

/// Appends `n` in decimal to `s`.
fn push_decimal(s: &mut String, n: usize)
    ensures
        final(s)@ == old(s)@ + decimal(n as nat),
    decreases n,
{
    if n >= 10 {
        push_decimal(s, n / 10);
    }
    s.append(digit_str(n % 10));
    assert(s@ =~= old(s)@ + decimal(n as nat));
}

/// The file name of the fragment with id `id`.
pub fn fragment_file_name(id: usize) -> (r: String)
    ensures
        r@ == fragment_name(id as nat),
{
    let mut r = "opt-".to_owned();
    push_decimal(&mut r, id);
    r.append(".py");
    proof {
        reveal_strlit("opt-");
        reveal_strlit(".py");
    }
    assert(r@ =~= fragment_name(id as nat));
    r
}

/// The id whose fragment file has the name `name`, if any.
pub fn parse_fragment_name(name: &str) -> (r: Option<usize>)
    ensures
        forall|id: usize| r == Some(id) <==> name@ == fragment_name(id as nat),
{
    let c = chars_of(name);
    let n = c.len();
    if n < 8 || c[0] != 'o' || c[1] != 'p' || c[2] != 't' || c[3] != '-' || c[n - 3] != '.' || c[n
        - 2] != 'p' || c[n - 1] != 'y' {
        proof {
            assert forall|id: usize| name@ != fragment_name(id as nat) by {
                lemma_decimal(id as nat);
                let f = fragment_name(id as nat);
                if name@ == f {
                    assert(f[0] == 'o' && f[1] == 'p' && f[2] == 't' && f[3] == '-');
                    assert(f[f.len() - 3] == '.' && f[f.len() - 2] == 'p' && f[f.len() - 1] == 'y');
                }
            }
        }
        return None;
    }
    let ghost mid = name@.subrange(4, n - 3);
    let ghost outer = seq!['o', 'p', 't', '-'] + mid + seq!['.', 'p', 'y'];
    assert(outer =~= name@);
    // A name of this shape is a fragment's exactly when its middle is the
    // decimal form of the id.
    assert forall|id: usize| name@ == fragment_name(id as nat) <==> mid == decimal(id as nat) by {
        let f = fragment_name(id as nat);
        assert(f.subrange(4, f.len() - 3) =~= decimal(id as nat));
        if name@ == f {
            assert(mid =~= f.subrange(4, f.len() - 3));
        }
        if mid == decimal(id as nat) {
            assert(f =~= outer);
        }
    }
    if c[4] == '0' && n > 8 {
        proof {
            assert forall|id: usize| mid != decimal(id as nat) by {
                lemma_decimal(id as nat);
            }
        }
        return None;
    }
    let mut v: usize = 0;
    let mut i: usize = 4;
    while i < n - 3
        invariant
            n == name@.len(),
            n >= 8,
            c@ == name@,
            mid == name@.subrange(4, n - 3),
            4 <= i <= n - 3,
            forall|k: int| 4 <= k < i ==> is_digit(#[trigger] c@[k]),
            v == digits_value(name@.subrange(4, i as int)),
            forall|id: usize| name@ == fragment_name(id as nat) <==> mid == decimal(id as nat),
        decreases n - 3 - i,
    {
        let ch = c[i];
        if ch < '0' || ch > '9' {
            proof {
                assert forall|id: usize| mid != decimal(id as nat) by {
                    lemma_decimal(id as nat);
                    if mid == decimal(id as nat) {
                        assert(is_digit(mid[i - 4]));
                    }
                }
            }
            return None;
        }
        let d = (ch as u32 - '0' as u32) as usize;
        assert(name@.subrange(4, i + 1).drop_last() =~= name@.subrange(4, i as int));
        if v > (usize::MAX - d) / 10 {
            proof {
                assert(digits_value(name@.subrange(4, i + 1)) > usize::MAX) by (nonlinear_arith)
                    requires
                        digits_value(name@.subrange(4, i + 1)) == v * 10 + d,
                        v > (usize::MAX - d) / 10,
                        d < 10,
                ;
                lemma_prefix_value_bound(mid, (i - 4 + 1) as int);
                assert(name@.subrange(4, i + 1) =~= mid.subrange(0, i - 4 + 1));
                assert forall|id: usize| mid != decimal(id as nat) by {
                    lemma_decimal(id as nat);
                }
            }
            return None;
        }
        assert(v * 10 + d <= usize::MAX) by (nonlinear_arith)
            requires
                v <= (usize::MAX - d) / 10,
                d < 10,
        ;
        v = v * 10 + d;
        i = i + 1;
    }
    assert(name@.subrange(4, n - 3) =~= mid);
    assert(canonical_digits(mid)) by {
        assert forall|k: int| 0 <= k < mid.len() implies is_digit(#[trigger] mid[k]) by {
            assert(is_digit(c@[k + 4]));
        }
    }
    proof {
        lemma_canonical_decimal(mid);
        assert forall|id: usize| mid == decimal(id as nat) implies id == v by {
            lemma_decimal(id as nat);
        }
    }
    Some(v)
}

/// A string of digits is worth at least any of its prefixes.
proof fn lemma_prefix_value_bound(ds: Seq<char>, k: int)
    requires
        0 <= k <= ds.len(),
    ensures
        digits_value(ds) >= digits_value(ds.subrange(0, k)),
    decreases ds.len(),
{
    if k < ds.len() {
        assert(ds.drop_last().subrange(0, k) =~= ds.subrange(0, k));
        lemma_prefix_value_bound(ds.drop_last(), k);
    } else {
        assert(ds.subrange(0, k) =~= ds);
    }
}

} // verus!
