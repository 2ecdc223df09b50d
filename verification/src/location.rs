//! Choosing among candidate Teams databases: the one written most recently.

use vstd::prelude::*;

verus! {

/// Candidate `i` is the most recently written one: it has a time, no other
/// candidate has a later one, and none before it has the same one (ties keep
/// the earlier candidate).
pub open spec fn is_newest(ts: Seq<Option<u128>>, i: int) -> bool {
    &&& 0 <= i < ts.len()
    &&& ts[i] is Some
    &&& forall|j: int| 0 <= j < ts.len() && (#[trigger] ts[j]) is Some ==> {
        ||| ts[j]->0 < ts[i]->0
        ||| (ts[j]->0 == ts[i]->0 && i <= j)
    }
}

/// The most recently written candidate (`None` when none has a time); each
/// candidate is given by its last write time, `None` when it does not exist.
pub fn pick_newest(ts: &Vec<Option<u128>>) -> (r: Option<usize>)
    ensures
        match r {
            Some(i) => is_newest(ts@, i as int),
            None => forall|j: int| 0 <= j < ts@.len() ==> (#[trigger] ts@[j]) is None,
        },
{
    let mut best: Option<usize> = None;
    let mut i: usize = 0;
    while i < ts.len()
        invariant
            i <= ts@.len(),
            match best {
                Some(b) => b < i && ts@[b as int] is Some && forall|j: int| 0 <= j < i && (#[trigger] ts@[j]) is Some ==> {
                    ||| ts@[j]->0 < ts@[b as int]->0
                    ||| (ts@[j]->0 == ts@[b as int]->0 && b <= j)
                },
                None => forall|j: int| 0 <= j < i ==> (#[trigger] ts@[j]) is None,
            },
        decreases ts@.len() - i,
    {
        match ts[i] {
            Some(t) => {
                let take = match best {
                    None => true,
                    Some(b) => match ts[b] {
                        Some(bt) => t > bt,
                        None => true,
                    },
                };
                if take {
                    best = Some(i);
                }
            },
            None => {},
        }
        i += 1;
    }
    best
}

/// The latest of some write times (`None` for none).
pub fn latest_time(ts: &Vec<u128>) -> (r: Option<u128>)
    ensures
        match r {
            Some(t) => ts@.contains(t) && forall|j: int| 0 <= j < ts@.len() ==> #[trigger] ts@[j] <= t,
            None => ts@.len() == 0,
        },
{
    if ts.len() == 0 {
        return None;
    }
    let mut m = ts[0];
    let mut i: usize = 1;
    while i < ts.len()
        invariant
            1 <= i <= ts@.len(),
            ts@.contains(m),
            forall|j: int| 0 <= j < i ==> #[trigger] ts@[j] <= m,
        decreases ts@.len() - i,
    {
        if ts[i] > m {
            m = ts[i];
        }
        i += 1;
    }
    Some(m)
}

} // verus!
