//! Run-length encoding.

use vstd::prelude::*;
use vstd::laws_eq::*;

verus! {

/// The list that `runs` stands for: every value as often as its run is long.
pub open spec fn expand<T>(runs: Seq<(T, usize)>) -> Seq<T>
    decreases runs.len(),
{
    if runs.len() == 0 {
        Seq::empty()
    } else {
        expand(runs.drop_last()) + Seq::new(runs.last().1 as nat, |i: int| runs.last().0)
    }
}

/// Whether `runs` is the run-length encoding of `list`: it stands for `list`, no run is
/// empty, and no two neighbouring runs hold one value.
pub open spec fn is_run_length_encoding<T>(runs: Seq<(T, usize)>, list: Seq<T>) -> bool {
    &&& expand(runs) == list
    &&& forall|k: int| 0 <= k < runs.len() ==> (#[trigger] runs[k]).1 >= 1
    &&& forall|k: int| 0 <= k < runs.len() - 1 ==> (#[trigger] runs[k]).0 != runs[k + 1].0
}

/// Returns the run-length encoding of `list`: every maximal run of one value as the value and
/// the length of the run, in order.
pub fn run_length_encoding<T>(list: &Vec<T>) -> (result: Vec<(T, usize)>) where
    T: PartialEq + Copy,

    requires
        obeys_concrete_eq::<T>(),
    ensures
        is_run_length_encoding(result@, list@),
{
    let mut result: Vec<(T, usize)> = Vec::new();
    let mut i: usize = 0;
    proof {
        assert(expand(result@) =~= list@.take(0));
    }
    while i < list.len()
        invariant
            i <= list@.len(),
            obeys_concrete_eq::<T>(),
            is_run_length_encoding(result@, list@.take(i as int)),
        decreases list@.len() - i,
    {
        let value = list[i];
        let ghost before = result@;
        proof {
            reveal(obeys_concrete_eq);
            assert(list@.take(i + 1) =~= list@.take(i as int).push(value));
        }
        match result.pop() {
            Some((next, size)) => {
                proof {
                    assert(before.drop_last() =~= result@);
                    assert(before.last() == (next, size));
                    assert(expand(before).len() >= size);
                }
                if next == value {
                    result.push((next, size + 1));
                    proof {
                        assert(result@.drop_last() =~= before.drop_last());
                        assert(Seq::new((size + 1) as nat, |k: int| next) =~= Seq::new(
                            size as nat,
                            |k: int| next,
                        ).push(value));
                        assert(expand(result@) =~= expand(before).push(value));
                        assert forall|k: int| 0 <= k < result@.len() - 1 implies (
                        #[trigger] result@[k]).0 != result@[k + 1].0 by {
                            assert(before[k].0 != before[k + 1].0);
                        }
                        assert forall|k: int| 0 <= k < result@.len() implies (
                        #[trigger] result@[k]).1 >= 1 by {
                            if k < result@.len() - 1 {
                                assert(before[k].1 >= 1);
                            }
                        }
                    }
                } else {
                    result.push((next, size));
                    result.push((value, 1));
                    proof {
                        assert(result@.drop_last() =~= before);
                        assert(Seq::new(1nat, |k: int| value) =~= seq![value]);
                        assert(expand(result@) =~= expand(before).push(value));
                        assert forall|k: int| 0 <= k < result@.len() - 1 implies (
                        #[trigger] result@[k]).0 != result@[k + 1].0 by {
                            if k < before.len() - 1 {
                                assert(before[k].0 != before[k + 1].0);
                            }
                        }
                        assert forall|k: int| 0 <= k < result@.len() implies (
                        #[trigger] result@[k]).1 >= 1 by {
                            if k < before.len() {
                                assert(before[k].1 >= 1);
                            }
                        }
                    }
                }
            },
            None => {
                result.push((value, 1));
                proof {
                    assert(result@.drop_last() =~= before);
                    assert(Seq::new(1nat, |k: int| value) =~= seq![value]);
                    assert(expand(result@) =~= expand(before).push(value));
                }
            },
        }
        i += 1;
    }
    proof {
        assert(list@.take(i as int) =~= list@);
    }
    result
}

} // verus!
