//! Default coordinate and generator labels: a prefix followed by the
//! decimal index, such as `e0`, `x1` or `θ2`.

use vstd::prelude::*;

verus! {

/// The character of the decimal digit `d` (for `d < 10`).
pub open spec fn digit_char(d: nat) -> char {
    (d + 48) as char
}

/// The decimal representation of `n`, most significant digit first.
pub open spec fn decimal(n: nat) -> Seq<char>
    decreases n,
{
    if n < 10 {
        seq![digit_char(n)]
    } else {
        decimal(n / 10).push(digit_char(n % 10))
    }
}

/// The default label of index `i` under `prefix`.
pub open spec fn index_label(prefix: Seq<char>, i: nat) -> Seq<char> {
    prefix + decimal(i)
}

/// Formats `prefix` followed by the decimal digits of `i`
/// (std's `format!` with `"{}{}"`); the contract states the resulting text.
#[verifier::external_body]
fn format_indexed(prefix: &str, i: usize) -> (s: String)
    ensures
        s@ == index_label(prefix@, i as nat),
{
    format!("{}{}", prefix, i)
}

/// The labels `prefix0, prefix1, ..., prefix(n-1)`.
pub fn default_labels(prefix: &str, n: usize) -> (labels: Vec<String>)
    ensures
        labels.len() == n,
        forall|i: int| 0 <= i < n ==> (#[trigger] labels@[i])@ == index_label(prefix@, i as nat),
{
    let mut labels: Vec<String> = Vec::new();
    let mut i: usize = 0;
    while i < n
        invariant
            i <= n,
            labels.len() == i,
            forall|j: int| 0 <= j < i ==> (#[trigger] labels@[j])@ == index_label(prefix@, j as nat),
        decreases n - i,
    {
        labels.push(format_indexed(prefix, i));
        i = i + 1;
    }
    labels
}

/// The given labels when there is exactly one per index, the default
/// labels under `prefix` otherwise.
pub fn labels_or_default(labels: Vec<String>, prefix: &str, n: usize) -> (r: Vec<String>)
    ensures
        labels.len() == n ==> r@ == labels@,
        labels.len() != n ==> r.len() == n && forall|i: int|
            0 <= i < n ==> (#[trigger] r@[i])@ == index_label(prefix@, i as nat),
{
    if labels.len() == n {
        labels
    } else {
        default_labels(prefix, n)
    }
}

} // verus!
