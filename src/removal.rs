use crate::util::{is_sorted, sort};
use vstd::prelude::*;

verus! {

/// `s` without the items at the positions that `selected` names; the others
/// keep their order.
pub open spec fn without<A>(s: Seq<A>, selected: Seq<usize>) -> Seq<A>
    decreases s.len(),
{
    if s.len() == 0 {
        s
    } else {
        let rest = without(s.drop_last(), selected);
        if selected.contains((s.len() - 1) as usize) {
            rest
        } else {
            rest.push(s.last())
        }
    }
}

/// Removing nothing leaves a sequence as it is; so does a selection whose
/// positions all lie past its end.
pub proof fn lemma_without_none<A>(s: Seq<A>, selected: Seq<usize>)
    requires
        forall|k: int| 0 <= k < selected.len() ==> selected[k] >= s.len(),
    ensures
        without(s, selected) == s,
    decreases s.len(),
{
    if s.len() > 0 {
        lemma_without_none(s.drop_last(), selected);
        if selected.contains((s.len() - 1) as usize) {
            let k = choose|k: int| 0 <= k < selected.len() && selected[k] == (s.len() - 1) as usize;
            assert(selected[k] >= s.len());
        }
        assert(without(s, selected) =~= s);
    }
}

/// Only which positions a selection names matters, not how often or in what order.
pub proof fn lemma_without_same_positions<A>(s: Seq<A>, a: Seq<usize>, b: Seq<usize>)
    requires
        forall|k: usize|
            #![trigger a.contains(k)]
            #![trigger b.contains(k)]
            k < s.len() ==> (a.contains(k) <==> b.contains(k)),
    ensures
        without(s, a) == without(s, b),
    decreases s.len(),
{
    if s.len() > 0 {
        lemma_without_same_positions(s.drop_last(), a, b);
        assert(a.contains((s.len() - 1) as usize) <==> b.contains((s.len() - 1) as usize));
    }
}

proof fn lemma_without_remove<A>(s: Seq<A>, selected: Seq<usize>, x: usize)
    requires
        x < s.len() <= usize::MAX,
        forall|k: int| 0 <= k < selected.len() ==> selected[k] > x,
    ensures
        without(s, selected).len() > x,
        without(s, selected).remove(x as int) == without(s, seq![x] + selected),
    decreases s.len(),
{
    let n = s.len();
    let s2 = s.drop_last();
    let with_x = seq![x] + selected;
    assert forall|k: usize| with_x.contains(k) <==> (k == x || selected.contains(k)) by {
        if with_x.contains(k) {
            let i = choose|i: int| 0 <= i < with_x.len() && with_x[i] == k;
            if i > 0 {
                assert(selected[i - 1] == k);
            }
        }
        if selected.contains(k) {
            let i = choose|i: int| 0 <= i < selected.len() && selected[i] == k;
            assert(with_x[i + 1] == k);
        }
        if k == x {
            assert(with_x[0] == k);
        }
    }
    let last = (n - 1) as usize;
    if selected.contains(last) {
        let i = choose|i: int| 0 <= i < selected.len() && selected[i] == last;
        assert(selected[i] > x);
        lemma_without_remove(s2, selected, x);
    } else if last == x {
        assert forall|k: int| 0 <= k < selected.len() implies selected[k] >= s2.len() by {}
        lemma_without_none(s2, selected);
        assert forall|k: int| 0 <= k < with_x.len() implies with_x[k] >= s2.len() by {
            if k > 0 {
                assert(with_x[k] == selected[k - 1]);
            }
        }
        lemma_without_none(s2, with_x);
        assert(without(s, selected) =~= s);
        assert(s.remove(x as int) =~= s2);
    } else {
        lemma_without_remove(s2, selected, x);
        let w = without(s2, selected);
        assert(w.push(s.last()).remove(x as int) =~= w.remove(x as int).push(s.last()));
    }
}

/// Removes from `v` the items at the positions that `selected` names, taking
/// the positions from the highest down so that each removal leaves the lower
/// positions still to be removed where they were.
pub fn remove_positions<T>(v: &mut Vec<T>, selected: &Vec<usize>)
    requires
        forall|k: int| 0 <= k < selected@.len() ==> selected@[k] < old(v)@.len(),
    ensures
        final(v)@ == without(old(v)@, selected@),
{
    broadcast use vstd::seq_lib::group_to_multiset_ensures;

    let ghost orig = v@;
    proof {
        vstd::std_specs::vec::axiom_spec_len(v);
    }
    let mut order: Vec<usize> = Vec::new();
    let mut c: usize = 0;
    while c < selected.len()
        invariant
            c <= selected@.len(),
            order@ == selected@.subrange(0, c as int),
        decreases selected@.len() - c,
    {
        proof {
            assert(selected@.subrange(0, c + 1) == selected@.subrange(0, c as int).push(
                selected@[c as int],
            ));
        }
        order.push(selected[c]);
        c = c + 1;
    }
    proof {
        assert(selected@.subrange(0, c as int) == selected@);
    }
    sort(&mut order);
    proof {
        assert forall|k: usize| order@.contains(k) <==> selected@.contains(k) by {
            assert(order@.to_multiset().count(k) == selected@.to_multiset().count(k));
        }
        assert forall|k: int| 0 <= k < order@.len() implies order@[k] < orig.len() by {
            assert(order@.contains(order@[k]));
        }
        lemma_without_none(orig, order@.subrange(order@.len() as int, order@.len() as int));
    }
    let n = order.len();
    let mut j = n;
    while j > 0
        invariant
            j <= n,
            n == order@.len(),
            orig.len() <= usize::MAX,
            is_sorted(order@),
            forall|k: int| 0 <= k < order@.len() ==> order@[k] < orig.len(),
            v@ == without(orig, order@.subrange(j as int, n as int)),
        decreases j,
    {
        let x = order[j - 1];
        let ghost done = order@.subrange(j as int, n as int);
        let ghost next = order@.subrange(j - 1, n as int);
        if j < n && order[j] == x {
            proof {
                assert forall|k: usize| next.contains(k) <==> done.contains(k) by {
                    if next.contains(k) {
                        let i = choose|i: int| 0 <= i < next.len() && next[i] == k;
                        if i == 0 {
                            assert(done[0] == k);
                        } else {
                            assert(done[i - 1] == k);
                        }
                    }
                    if done.contains(k) {
                        let i = choose|i: int| 0 <= i < done.len() && done[i] == k;
                        assert(next[i + 1] == k);
                    }
                }
                lemma_without_same_positions(orig, next, done);
            }
        } else {
            proof {
                assert forall|k: int| 0 <= k < done.len() implies done[k] > x by {
                    assert(order@[j as int] <= order@[j + k]);
                    assert(order@[j - 1] <= order@[j as int]);
                }
                lemma_without_remove(orig, done, x);
                assert(next =~= seq![x] + done);
            }
            v.remove(x);
        }
        j = j - 1;
    }
    proof {
        assert(order@.subrange(0, n as int) == order@);
        lemma_without_same_positions(orig, order@, selected@);
    }
}

/// Removing `k` distinct positions, all inside `s`, leaves `k` fewer items.
pub proof fn lemma_without_len<A>(s: Seq<A>, selected: Seq<usize>)
    requires
        s.len() <= usize::MAX,
        selected.no_duplicates(),
        forall|k: int| 0 <= k < selected.len() ==> selected[k] < s.len(),
    ensures
        without(s, selected).len() == s.len() - selected.len(),
    decreases s.len(),
{
    let n = s.len();
    if n == 0 {
        if selected.len() > 0 {
            assert(selected[0] < 0);
        }
    } else {
        let s2 = s.drop_last();
        let last = (n - 1) as usize;
        if selected.contains(last) {
            let i = choose|i: int| 0 <= i < selected.len() && selected[i] == last;
            let rest = selected.remove(i);
            assert forall|k: int| 0 <= k < rest.len() implies rest[k] < s2.len() by {
                let j = if k < i { k } else { k + 1 };
                assert(rest[k] == selected[j]);
                assert(j != i);
            }
            assert(rest.no_duplicates()) by {
                assert forall|a: int, b: int| 0 <= a < rest.len() && 0 <= b < rest.len() && a != b
                    implies rest[a] != rest[b] by {
                    let ja = if a < i { a } else { a + 1 };
                    let jb = if b < i { b } else { b + 1 };
                    assert(rest[a] == selected[ja]);
                    assert(rest[b] == selected[jb]);
                }
            }
            assert forall|k: usize| k < s2.len() implies (selected.contains(k) <==> rest.contains(
                k,
            )) by {
                if selected.contains(k) {
                    let j = choose|j: int| 0 <= j < selected.len() && selected[j] == k;
                    assert(j != i);
                    let r = if j < i { j } else { j - 1 };
                    assert(rest[r] == k);
                }
                if rest.contains(k) {
                    let r = choose|r: int| 0 <= r < rest.len() && rest[r] == k;
                    let j = if r < i { r } else { r + 1 };
                    assert(selected[j] == k);
                }
            }
            lemma_without_same_positions(s2, selected, rest);
            lemma_without_len(s2, rest);
        } else {
            assert forall|k: int| 0 <= k < selected.len() implies selected[k] < s2.len() by {
                if selected[k] == last {
                    assert(selected.contains(last));
                }
            }
            lemma_without_len(s2, selected);
        }
    }
}

} // verus!
