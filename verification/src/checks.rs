//! Checks made one after another: the first that fails decides.
use vstd::prelude::*;

verus! {

/// The complaint of the first of `n` checks that complains.
pub open spec fn first_complaint(n: int, check: spec_fn(int) -> Option<Seq<char>>) -> Option<
    Seq<char>,
>
    decreases n,
{
    if n <= 0 {
        None
    } else {
        match first_complaint(n - 1, check) {
            Some(e) => Some(e),
            None => check(n - 1),
        }
    }
}

/// The first complaint, or else the second.
pub open spec fn either(a: Option<Seq<char>>, b: Option<Seq<char>>) -> Option<Seq<char>> {
    match a {
        Some(e) => Some(e),
        None => b,
    }
}

/// A check that complains makes the whole complain as the first such check does.
pub proof fn complaint_stands(n: int, i: int, check: spec_fn(int) -> Option<Seq<char>>)
    requires
        0 <= i < n,
        first_complaint(i, check) is None,
        check(i) is Some,
    ensures
        first_complaint(n, check) == check(i),
    decreases n,
{
    if i < n - 1 {
        complaint_stands(n - 1, i, check);
    }
}

/// Where nothing complains, no check does.
pub proof fn nothing_complains(n: int, check: spec_fn(int) -> Option<Seq<char>>)
    requires
        first_complaint(n, check) is None,
    ensures
        forall|i: int| 0 <= i < n ==> #[trigger] check(i) is None,
    decreases n,
{
    if n > 0 {
        nothing_complains(n - 1, check);
    }
}

/// Where no check complains, nothing does.
pub proof fn no_complaint(n: int, check: spec_fn(int) -> Option<Seq<char>>)
    requires
        forall|i: int| 0 <= i < n ==> #[trigger] check(i) is None,
    ensures
        first_complaint(n, check) is None,
    decreases n,
{
    if n > 0 {
        no_complaint(n - 1, check);
    }
}

/// Whether a verdict is the one that complaints give.
pub open spec fn settles(r: Result<(), String>, complaint: Option<Seq<char>>) -> bool {
    match r {
        Ok(_) => complaint is None,
        Err(e) => complaint == Some(e@),
    }
}

} // verus!
