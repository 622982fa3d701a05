//! Small text helpers: appending to a `String` and decimal formatting of
//! integers.

use vstd::prelude::*;
use vstd::string::*;

verus! {

/// Appends `s` to `out`.
pub fn push_str(out: &mut String, s: &str)
    ensures
        final(out)@ == old(out)@ + s@,
{
    out.append(s);
}

pub open spec fn spec_digit(d: int) -> char {
    if d == 0 { '0' }
    else if d == 1 { '1' }
    else if d == 2 { '2' }
    else if d == 3 { '3' }
    else if d == 4 { '4' }
    else if d == 5 { '5' }
    else if d == 6 { '6' }
    else if d == 7 { '7' }
    else if d == 8 { '8' }
    else { '9' }
}

/// Decimal digits of a natural number, most significant first.
pub open spec fn spec_nat_text(n: nat) -> Seq<char>
    decreases n,
{
    if n < 10 {
        seq![spec_digit(n as int)]
    } else {
        spec_nat_text(n / 10).push(spec_digit((n % 10) as int))
    }
}

/// Decimal text of an integer, with a leading `-` when negative (what
/// `format!("{}", v)` prints).
pub open spec fn spec_int_text(v: int) -> Seq<char> {
    if v < 0 {
        seq!['-'] + spec_nat_text((-v) as nat)
    } else {
        spec_nat_text(v as nat)
    }
}

fn digit_str(d: u128) -> (r: &'static str)
    requires
        d < 10,
    ensures
        r@ == seq![spec_digit(d as int)],
{
    proof {
        reveal_strlit("0");
        reveal_strlit("1");
        reveal_strlit("2");
        reveal_strlit("3");
        reveal_strlit("4");
        reveal_strlit("5");
        reveal_strlit("6");
        reveal_strlit("7");
        reveal_strlit("8");
        reveal_strlit("9");
    }
    if d == 0 { "0" }
    else if d == 1 { "1" }
    else if d == 2 { "2" }
    else if d == 3 { "3" }
    else if d == 4 { "4" }
    else if d == 5 { "5" }
    else if d == 6 { "6" }
    else if d == 7 { "7" }
    else if d == 8 { "8" }
    else { "9" }
}

fn nat_text_into(n: u128, out: &mut String)
    ensures
        final(out)@ == old(out)@ + spec_nat_text(n as nat),
    decreases n,
{
    if n >= 10 {
        nat_text_into(n / 10, out);
    }
    let d = digit_str(n % 10);
    push_str(out, d);
    proof {
        if n >= 10 {
            assert(final(out)@ =~= old(out)@ + spec_nat_text(n as nat));
        } else {
            assert(final(out)@ =~= old(out)@ + spec_nat_text(n as nat));
        }
    }
}

/// Appends the decimal text of `v` to `out`.
pub fn int_text_into(v: i128, out: &mut String)
    ensures
        final(out)@ == old(out)@ + spec_int_text(v as int),
{
    if v < 0 {
        proof {
            reveal_strlit("-");
        }
        push_str(out, "-");
        let mag: u128 = ((-(v + 1)) as u128) + 1;
        nat_text_into(mag, out);
        proof {
            assert(final(out)@ =~= old(out)@ + spec_int_text(v as int));
        }
    } else {
        nat_text_into(v as u128, out);
    }
}

/// The decimal text of `v`.
pub fn int_to_text(v: i128) -> (r: String)
    ensures
        r@ == spec_int_text(v as int),
{
    let mut out = String::new();
    int_text_into(v, &mut out);
    proof {
        assert(out@ =~= spec_int_text(v as int));
    }
    out
}

/// Whether two texts are the same.
pub fn same_text(a: &str, b: &str) -> (r: bool)
    ensures
        r == (a@ == b@),
{
    let n = a.unicode_len();
    if n != b.unicode_len() {
        return false;
    }
    let mut k: usize = 0;
    while k < n
        invariant
            k <= n,
            n == a@.len(),
            n == b@.len(),
            forall|j: int| 0 <= j < k ==> a@[j] == b@[j],
        decreases n - k,
    {
        if a.get_char(k) != b.get_char(k) {
            return false;
        }
        k = k + 1;
    }
    assert(a@ =~= b@);
    true
}

} // verus!
