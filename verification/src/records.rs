//! Executable scans over vectors of client records and identifiers.

use vstd::prelude::*;

use crate::model::contains_id;
use crate::types::ClientRecord;

verus! {

/// Whether `v` holds the value `x`.
pub(crate) fn contains_value(v: &Vec<u128>, x: u128) -> (r: bool)
    ensures
        r == v@.contains(x),
{
    let n = v.len();
    let mut i: usize = 0;
    while i < n
        invariant
            n == v@.len(),
            i <= n,
            forall|k: int| 0 <= k < i ==> v@[k] != x,
        decreases n - i,
    {
        if v[i] == x {
            return true;
        }
        i = i + 1;
    }
    false
}

/// Whether `v` holds a record carrying `id`.
pub(crate) fn contains_record(v: &Vec<ClientRecord>, id: u128) -> (r: bool)
    ensures
        r == contains_id(v@, id),
{
    let n = v.len();
    let mut i: usize = 0;
    while i < n
        invariant
            n == v@.len(),
            i <= n,
            forall|k: int| 0 <= k < i ==> v@[k].id != id,
        decreases n - i,
    {
        if v[i].id == id {
            return true;
        }
        i = i + 1;
    }
    false
}

/// The index of the first record carrying `id`, if any.
pub(crate) fn find_index(v: &Vec<ClientRecord>, id: u128) -> (r: Option<usize>)
    ensures
        match r {
            Some(k) => k < v@.len() && v@[k as int].id == id && (forall|m: int|
                0 <= m < k ==> v@[m].id != id),
            None => !contains_id(v@, id),
        },
{
    let n = v.len();
    let mut i: usize = 0;
    while i < n
        invariant
            n == v@.len(),
            i <= n,
            forall|k: int| 0 <= k < i ==> v@[k].id != id,
        decreases n - i,
    {
        if v[i].id == id {
            return Some(i);
        }
        i = i + 1;
    }
    None
}

} // verus!
