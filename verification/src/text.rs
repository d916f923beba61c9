//! Small string operations of the standard library that the rest of the crate builds on.
use vstd::prelude::*;

verus! {

/// Whether two strings hold the same chars.
pub(crate) fn str_eq(a: &str, b: &str) -> (r: bool)
    ensures
        r == (a@ == b@),
{
    let xs = crate::tokenize::chars_of(a);
    let ys = crate::tokenize::chars_of(b);
    if xs.len() != ys.len() {
        return false;
    }
    let mut i: usize = 0;
    while i < xs.len()
        invariant
            i <= xs.len(),
            xs@ == a@,
            ys@ == b@,
            xs.len() == ys.len(),
            forall|j: int| 0 <= j < i ==> xs@[j] == ys@[j],
        decreases xs.len() - i,
    {
        if xs[i] != ys[i] {
            return false;
        }
        i = i + 1;
    }
    assert(a@ =~= b@);
    true
}

/// `String::push`: appends one char.
#[verifier::external_body]
pub(crate) fn string_push(s: &mut String, c: char)
    ensures
        final(s)@ == old(s)@.push(c),
{
    s.push(c)
}

} // verus!

verus! {

/// The ASCII digit for `d < 10`.
pub open spec fn digit_char(d: nat) -> char {
    if d == 0 {
        '0'
    } else if d == 1 {
        '1'
    } else if d == 2 {
        '2'
    } else if d == 3 {
        '3'
    } else if d == 4 {
        '4'
    } else if d == 5 {
        '5'
    } else if d == 6 {
        '6'
    } else if d == 7 {
        '7'
    } else if d == 8 {
        '8'
    } else {
        '9'
    }
}

/// The decimal rendering of `n`, most significant digit first, without leading zeros.
pub open spec fn decimal(n: nat) -> Seq<char>
    decreases n,
{
    if n < 10 {
        seq![digit_char(n)]
    } else {
        decimal(n / 10) + seq![digit_char(n % 10)]
    }
}

fn digit(d: u64) -> (c: char)
    requires
        d < 10,
    ensures
        c == digit_char(d as nat),
{
    if d == 0 {
        '0'
    } else if d == 1 {
        '1'
    } else if d == 2 {
        '2'
    } else if d == 3 {
        '3'
    } else if d == 4 {
        '4'
    } else if d == 5 {
        '5'
    } else if d == 6 {
        '6'
    } else if d == 7 {
        '7'
    } else if d == 8 {
        '8'
    } else {
        '9'
    }
}

/// The decimal digits of `n`, least significant first.
fn digits_rev(n: u64) -> (v: Vec<char>)
    ensures
        v@.reverse() == decimal(n as nat),
    decreases n,
{
    if n < 10 {
        let mut v: Vec<char> = Vec::new();
        v.push(digit(n));
        assert(v@.reverse() =~= seq![digit_char(n as nat)]);
        v
    } else {
        let mut v: Vec<char> = Vec::new();
        v.push(digit(n % 10));
        let rest = digits_rev(n / 10);
        let ghost first = v@;
        let mut i: usize = 0;
        while i < rest.len()
            invariant
                i <= rest.len(),
                v@ == first + rest@.take(i as int),
            decreases rest.len() - i,
        {
            v.push(rest[i]);
            assert(rest@.take(i + 1) =~= rest@.take(i as int).push(rest@[i as int]));
            assert(v@ =~= first + rest@.take(i + 1));
            i = i + 1;
        }
        assert(rest@.take(rest.len() as int) =~= rest@);
        assert((first + rest@).reverse() =~= rest@.reverse() + first.reverse());
        assert(first.reverse() =~= seq![digit_char((n % 10) as nat)]);
        v
    }
}

/// Append the decimal rendering of `n` to `s`.
pub(crate) fn push_decimal(s: &mut String, n: u64)
    ensures
        final(s)@ == old(s)@ + decimal(n as nat),
{
    let v = digits_rev(n);
    let ghost start = s@;
    let mut i: usize = v.len();
    while i > 0
        invariant
            i <= v.len(),
            s@ == start + v@.reverse().take((v.len() - i) as int),
        decreases i,
    {
        i = i - 1;
        let ghost before = s@;
        string_push(s, v[i]);
        assert(v@.reverse().take((v.len() - i) as int) =~= v@.reverse().take(
            (v.len() - i - 1) as int,
        ).push(v@[i as int]));
    }
    assert(v@.reverse().take(v.len() as int) =~= v@.reverse());
}

} // verus!
