//! Lists of values and what contracts see of them.
use vstd::prelude::*;

verus! {

/// The items of a list as they are seen in contracts.
pub open spec fn views<T: View>(list: Seq<T>) -> Seq<T::V> {
    list.map_values(|item: T| item@)
}

pub proof fn views_push<T: View>(list: Seq<T>, item: T)
    ensures
        views(list.push(item)) == views(list).push(item@),
{
    assert(views(list.push(item)) =~= views(list).push(item@));
}

/// A value that can be copied item by item.
pub trait Duplicate: View + Sized {
    fn copy(&self) -> (result: Self)
        ensures
            result@ == self@,
    ;
}

/// A copy of a list.
pub fn copy_list<T: Duplicate>(list: &Vec<T>) -> (result: Vec<T>)
    ensures
        views(result@) == views(list@),
{
    let mut result: Vec<T> = Vec::new();
    let mut at: usize = 0;
    while at < list.len()
        invariant
            at <= list@.len(),
            views(result@) == views(list@).take(at as int),
        decreases list.len() - at,
    {
        let item = list[at].copy();
        proof {
            views_push(result@, item);
            assert(views(list@).take(at as int + 1) =~= views(list@).take(at as int).push(item@));
        }
        result.push(item);
        at += 1;
    }
    assert(views(list@).take(at as int) =~= views(list@));
    result
}

/// Appends copies of the items of `more`.
pub fn extend_list<T: Duplicate>(list: &mut Vec<T>, more: &Vec<T>)
    ensures
        views(final(list)@) == views(old(list)@) + views(more@),
{
    let ghost before = views(list@);
    let mut at: usize = 0;
    assert(before + views(more@).take(0) =~= before);
    while at < more.len()
        invariant
            at <= more@.len(),
            views(list@) == before + views(more@).take(at as int),
        decreases more.len() - at,
    {
        let item = more[at].copy();
        proof {
            views_push(list@, item);
            assert(before + views(more@).take(at as int + 1) =~= (before + views(more@).take(
                at as int,
            )).push(item@));
        }
        list.push(item);
        at += 1;
    }
    assert(views(more@).take(at as int) =~= views(more@));
}

/// Copies the bytes of `more` to the end of `bytes`.
pub fn append_bytes(bytes: &mut Vec<u8>, more: &[u8])
    ensures
        final(bytes)@ == old(bytes)@ + more@,
{
    let ghost before = bytes@;
    let mut at: usize = 0;
    while at < more.len()
        invariant
            at <= more@.len(),
            bytes@ == before + more@.take(at as int),
        decreases more.len() - at,
    {
        proof {
            assert(more@.take(at as int + 1) =~= more@.take(at as int).push(more@[at as int]));
        }
        bytes.push(more[at]);
        at += 1;
    }
    assert(more@.take(at as int) =~= more@);
}

} // verus!
