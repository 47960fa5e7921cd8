use vstd::prelude::*;

use core::cmp::Ordering;
use vstd::laws_cmp::{obeys_cmp, obeys_cmp_ord};
use vstd::std_specs::cmp::OrdSpec;

verus! {

/// Of the two sides' answers, the one with the greater key; on equal keys,
/// the first side's. A chain answers `lt` and `last` this way.
pub open spec fn greater_of<K: Ord, V>(a: Option<(K, V)>, b: Option<(K, V)>) -> Option<(K, V)> {
    match (a, b) {
        (None, None) => None,
        (Some(x), None) => Some(x),
        (None, Some(y)) => Some(y),
        (Some(x), Some(y)) => if x.0.cmp_spec(&y.0) == Ordering::Less {
            Some(y)
        } else {
            Some(x)
        },
    }
}

/// Of the two sides' answers, the one with the lesser key; on equal keys,
/// the first side's. A chain answers `gt` and `first` this way.
pub open spec fn lesser_of<K: Ord, V>(a: Option<(K, V)>, b: Option<(K, V)>) -> Option<(K, V)> {
    match (a, b) {
        (None, None) => None,
        (Some(x), None) => Some(x),
        (None, Some(y)) => Some(y),
        (Some(x), Some(y)) => if x.0.cmp_spec(&y.0) == Ordering::Greater {
            Some(y)
        } else {
            Some(x)
        },
    }
}

/// Combines the two sides' answers to `lt` or `last` for a chain.
pub fn chain_greater<K: Ord, V>(a: Option<(K, V)>, b: Option<(K, V)>) -> (r: Option<(K, V)>)
    ensures
        obeys_cmp::<K>() ==> r == greater_of(a, b),
{
    proof {
        reveal(obeys_cmp_ord);
    }
    match (a, b) {
        (None, None) => None,
        (Some(x), None) => Some(x),
        (None, Some(y)) => Some(y),
        (Some(x), Some(y)) => {
            let c = x.0.cmp(&y.0);
            match c {
                Ordering::Less => Some(y),
                _ => Some(x),
            }
        },
    }
}

/// Combines the two sides' answers to `gt` or `first` for a chain.
pub fn chain_lesser<K: Ord, V>(a: Option<(K, V)>, b: Option<(K, V)>) -> (r: Option<(K, V)>)
    ensures
        obeys_cmp::<K>() ==> r == lesser_of(a, b),
{
    proof {
        reveal(obeys_cmp_ord);
    }
    match (a, b) {
        (None, None) => None,
        (Some(x), None) => Some(x),
        (None, Some(y)) => Some(y),
        (Some(x), Some(y)) => match x.0.cmp(&y.0) {
            Ordering::Greater => Some(y),
            _ => Some(x),
        },
    }
}

/// What a zip answers with the nearer of the two sides' entries, the lesser
/// key being the nearer where `lesser` holds and the greater one otherwise:
/// both values where the keys are equal, else the nearer side's value alone.
pub open spec fn zip_nearest<K: Ord, A, B>(
    a: Option<(K, A)>,
    b: Option<(K, B)>,
    lesser: bool,
) -> Option<(K, (Option<A>, Option<B>))> {
    match (a, b) {
        (None, None) => None,
        (Some(x), None) => Some((x.0, (Some(x.1), None))),
        (None, Some(y)) => Some((y.0, (None, Some(y.1)))),
        (Some(x), Some(y)) => {
            let c = x.0.cmp_spec(&y.0);
            if c == Ordering::Equal {
                Some((x.0, (Some(x.1), Some(y.1))))
            } else if (c == Ordering::Less) == lesser {
                Some((x.0, (Some(x.1), None)))
            } else {
                Some((y.0, (None, Some(y.1))))
            }
        },
    }
}

fn zip_pick<K: Ord, A, B>(a: Option<(K, A)>, b: Option<(K, B)>, lesser: bool) -> (r: Option<
    (K, (Option<A>, Option<B>)),
>)
    ensures
        obeys_cmp::<K>() ==> r == zip_nearest(a, b, lesser),
{
    proof {
        reveal(obeys_cmp_ord);
    }
    match (a, b) {
        (None, None) => None,
        (Some(x), None) => Some((x.0, (Some(x.1), None))),
        (None, Some(y)) => Some((y.0, (None, Some(y.1)))),
        (Some(x), Some(y)) => {
            let c = x.0.cmp(&y.0);
            match c {
                Ordering::Equal => Some((x.0, (Some(x.1), Some(y.1)))),
                _ => {
                    if matches!(c, Ordering::Less) == lesser {
                        Some((x.0, (Some(x.1), None)))
                    } else {
                        Some((y.0, (None, Some(y.1))))
                    }
                },
            }
        },
    }
}

/// Combines the two sides' answers to `lt` or `last` for a zip: the entry
/// with the greater key.
pub fn zip_greater<K: Ord, A, B>(a: Option<(K, A)>, b: Option<(K, B)>) -> (r: Option<
    (K, (Option<A>, Option<B>)),
>)
    ensures
        obeys_cmp::<K>() ==> r == zip_nearest(a, b, false),
{
    zip_pick(a, b, false)
}

/// Combines the two sides' answers to `gt` or `first` for a zip: the entry
/// with the lesser key.
pub fn zip_lesser<K: Ord, A, B>(a: Option<(K, A)>, b: Option<(K, B)>) -> (r: Option<
    (K, (Option<A>, Option<B>)),
>)
    ensures
        obeys_cmp::<K>() ==> r == zip_nearest(a, b, true),
{
    zip_pick(a, b, true)
}

} // verus!
