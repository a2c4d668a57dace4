use vstd::prelude::*;
use vstd::string::StringExecFns;

verus! {

/// The character of the decimal digit `d`.
pub open spec fn digit_char(d: int) -> char {
    ((48 + d) as u8) as char
}

/// The decimal digits of `n`, most significant first.
pub open spec fn decimal(n: nat) -> Seq<char>
    decreases n,
{
    if n < 10 {
        seq![digit_char(n as int)]
    } else {
        decimal(n / 10).push(digit_char((n % 10) as int))
    }
}

/// The three digits of `n < 1000`, with leading zeros.
pub open spec fn three_digits(n: nat) -> Seq<char> {
    seq![digit_char((n / 100) as int), digit_char((n / 10 % 10) as int), digit_char((n % 10) as int)]
}

/// The decimal digits of `n` in groups of three from the right, the groups parted by commas.
pub open spec fn grouped_thousands(n: nat) -> Seq<char>
    decreases n,
{
    if n < 1000 {
        decimal(n)
    } else {
        grouped_thousands(n / 1000) + seq![','] + three_digits(n % 1000)
    }
}

/// Relies on num_format's `ToFormattedString::to_formatted_string` with `Locale::en`, whose
/// separator is a comma and whose grouping is by threes: the digits of `n`, grouped.
#[verifier::external_body]
fn to_grouped(n: u64) -> (r: String)
    ensures
        r@ == grouped_thousands(n as nat),
{
    num_format::ToFormattedString::to_formatted_string(&n, &num_format::Locale::en)
}

/// The title of a one-dimensional benchmark over `size` cells.
pub fn benchmark_name(in_place: bool, size: u64) -> (r: String)
    ensures
        r@ == (if in_place {
            "In-place prefix-sum (n = "@
        } else {
            "Prefix-sum (n = "@
        }) + grouped_thousands(size as nat) + ")"@,
{
    let mut s = if in_place {
        String::from_str("In-place prefix-sum (n = ")
    } else {
        String::from_str("Prefix-sum (n = ")
    };
    let g = to_grouped(size);
    s.append(g.as_str());
    s.append(")");
    s
}

} // verus!
