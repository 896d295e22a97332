use crate::position::Position;
use vstd::prelude::*;

verus! {

/// `p` is one of the first `j` cells of `list`.
pub(crate) open spec fn among_first(list: Seq<Position>, j: int, p: Position) -> bool {
    exists|k: int| 0 <= k < j && k < list.len() && list[k] == p
}

/// Taking one cell out of a list without repetitions removes just that cell.
pub(crate) proof fn lemma_list_remove(list: Seq<Position>, i: int)
    requires
        list.no_duplicates(),
        0 <= i < list.len(),
    ensures
        list.remove(i).no_duplicates(),
        forall|q: Position| list.remove(i).contains(q) <==> list.contains(q) && q != list[i],
{
    let rest = list.remove(i);
    assert forall|q: Position| rest.contains(q) <==> list.contains(q) && q != list[i] by {
        if rest.contains(q) {
            let j = choose|j: int| 0 <= j < rest.len() && rest[j] == q;
            if j < i {
                assert(list[j] == q);
            } else {
                assert(list[j + 1] == q);
            }
        }
        if list.contains(q) && q != list[i] {
            let j = choose|j: int| 0 <= j < list.len() && list[j] == q;
            if j < i {
                assert(rest[j] == q);
            } else {
                assert(rest[j - 1] == q);
            }
        }
    }
}

/// Adding a new cell to a list without repetitions adds just that cell.
pub(crate) proof fn lemma_list_push(list: Seq<Position>, p: Position)
    requires
        list.no_duplicates(),
        !list.contains(p),
    ensures
        list.push(p).no_duplicates(),
        forall|q: Position| list.push(p).contains(q) <==> list.contains(q) || q == p,
{
    let more = list.push(p);
    assert forall|q: Position| more.contains(q) <==> list.contains(q) || q == p by {
        if more.contains(q) {
            let j = choose|j: int| 0 <= j < more.len() && more[j] == q;
            if j < list.len() {
                assert(list[j] == q);
            }
        }
        if list.contains(q) {
            let j = choose|j: int| 0 <= j < list.len() && list[j] == q;
            assert(more[j] == q);
        }
        if q == p {
            assert(more[list.len() as int] == q);
        }
    }
}

/// One cell more is among the first cells of a list when one more is counted.
pub(crate) proof fn lemma_among_first_next(list: Seq<Position>, j: int)
    requires
        0 <= j < list.len(),
    ensures
        forall|q: Position|
            #![trigger among_first(list, j + 1, q)]
            among_first(list, j + 1, q) <==> among_first(list, j, q) || q == list[j],
{
    assert forall|q: Position|
        #![trigger among_first(list, j + 1, q)]
        among_first(list, j + 1, q) <==> among_first(list, j, q) || q == list[j] by {
        if among_first(list, j + 1, q) {
            let k = choose|k: int| 0 <= k < j + 1 && k < list.len() && list[k] == q;
            if k < j {
                assert(among_first(list, j, q));
            }
        }
        if among_first(list, j, q) {
            let k = choose|k: int| 0 <= k < j && k < list.len() && list[k] == q;
            assert(0 <= k < j + 1 && k < list.len() && list[k] == q);
        }
        if q == list[j] {
            assert(0 <= j < j + 1 && j < list.len() && list[j] == q);
        }
    }
}

/// The first cells of a list, all counted, are its cells.
pub(crate) proof fn lemma_among_first_all(list: Seq<Position>)
    ensures
        forall|q: Position|
            #![trigger among_first(list, list.len() as int, q)]
            among_first(list, list.len() as int, q) <==> list.contains(q),
{
    assert forall|q: Position|
        #![trigger among_first(list, list.len() as int, q)]
        among_first(list, list.len() as int, q) <==> list.contains(q) by {
        if list.contains(q) {
            let k = choose|k: int| 0 <= k < list.len() && list[k] == q;
            assert(0 <= k < list.len() && k < list.len() && list[k] == q);
        }
    }
}

/// A copy of `list`.
pub(crate) fn copy_of(list: &Vec<Position>) -> (copy: Vec<Position>)
    ensures
        copy@ == list@,
{
    let mut copy: Vec<Position> = Vec::new();
    let mut i: usize = 0;
    while i < list.len()
        invariant
            i <= list@.len(),
            copy@ == list@.subrange(0, i as int),
        decreases list@.len() - i,
    {
        copy.push(list[i]);
        assert(copy@ =~= list@.subrange(0, i + 1));
        i = i + 1;
    }
    assert(list@.subrange(0, i as int) =~= list@);
    copy
}

} // verus!
