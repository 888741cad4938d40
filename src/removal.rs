use vstd::prelude::*;
use vstd::multiset::Multiset;
use vstd::pervasive::VecAdditionalExecFns;
use vstd::seq_lib::lemma_multiset_commutative;

use crate::data::{agent_views, AgentView, AgtData};

verus! {

/// Each index is below the next one.
pub open spec fn strictly_increasing(s: Seq<usize>) -> bool {
    forall|a: int, b: int| 0 <= a < b < s.len() ==> s[a] < s[b]
}

/// The agents at the positions `idx`, in that order.
pub open spec fn picked(s: Seq<AgentView>, idx: Seq<usize>) -> Seq<AgentView> {
    idx.map_values(|i: usize| s[i as int])
}

/// `s` with position `i` filled by its last agent and the last slot dropped.
pub open spec fn swap_remove_at(s: Seq<AgentView>, i: int) -> Seq<AgentView> {
    s.update(i, s.last()).drop_last()
}

/// `s` after removing the positions `idx` by swap-with-last, the highest
/// position first.
pub open spec fn remove_descending(s: Seq<AgentView>, idx: Seq<usize>) -> Seq<AgentView>
    decreases idx.len(),
{
    if idx.len() == 0 {
        s
    } else {
        remove_descending(swap_remove_at(s, idx.last() as int), idx.drop_last())
    }
}

/// The positions below `n` whose flag is set, in increasing order.
pub open spec fn flagged(flags: Seq<bool>, n: nat) -> Seq<usize>
    decreases n,
{
    if n == 0 {
        Seq::empty()
    } else if flags[n - 1] {
        flagged(flags, (n - 1) as nat).push((n - 1) as usize)
    } else {
        flagged(flags, (n - 1) as nat)
    }
}

/// The positions below `n` that occur in `p`, in increasing order.
pub open spec fn ascending_positions(p: Seq<usize>, n: nat) -> Seq<usize> {
    flagged(Seq::new(n, |t: int| p.contains(t as usize)), n)
}

/// Swap-with-last removal of position `i` keeps every other agent.
proof fn lemma_swap_remove_multiset(s: Seq<AgentView>, i: int)
    requires
        0 <= i < s.len(),
    ensures
        s.update(i, s.last()).drop_last().to_multiset() == s.to_multiset().remove(s[i]),
{
    broadcast use vstd::seq_lib::group_to_multiset_ensures;
    broadcast use vstd::multiset::group_multiset_axioms;

    let r = s.update(i, s.last()).drop_last();
    if i == s.len() - 1 {
        assert(r =~= s.remove(i));
    } else {
        let p = s.subrange(0, i);
        let q = s.subrange(i + 1, s.len() - 1);
        let l = s.last();
        assert(s.remove(i) =~= (p + q).push(l));
        assert(r =~= p.push(l) + q);
        lemma_multiset_commutative(p.push(l), q);
        lemma_multiset_commutative(p, q);
        assert(r.to_multiset() =~= s.remove(i).to_multiset());
    }
}

/// In a strictly increasing list of `m` indices below `n`, entry `j` leaves
/// room for the `m - 1 - j` entries after it.
proof fn lemma_increasing_room(idx: Seq<usize>, n: nat, j: int)
    requires
        strictly_increasing(idx),
        forall|k: int| 0 <= k < idx.len() ==> #[trigger] idx[k] < n,
        0 <= j < idx.len(),
    ensures
        idx[j] + (idx.len() - j) <= n,
    decreases idx.len() - j,
{
    if j < idx.len() - 1 {
        lemma_increasing_room(idx, n, j + 1);
    }
}

/// Removes the agents at the positions `idx`, highest position first, each
/// by moving the last agent into its place.
pub(crate) fn remove_sorted(agents: &mut Vec<AgtData>, idx: &Vec<usize>)
    requires
        strictly_increasing(idx@),
        forall|k: int| 0 <= k < idx@.len() ==> #[trigger] idx@[k] < old(agents)@.len(),
    ensures
        final(agents)@.len() + idx@.len() == old(agents)@.len(),
        agent_views(final(agents)@).to_multiset().add(
            picked(agent_views(old(agents)@), idx@).to_multiset(),
        ) == agent_views(old(agents)@).to_multiset(),
        agent_views(final(agents)@) == remove_descending(agent_views(old(agents)@), idx@),
{
    broadcast use vstd::seq_lib::group_to_multiset_ensures;
    broadcast use vstd::multiset::group_multiset_axioms;

    let ghost s = agent_views(agents@);
    let ghost n = agents@.len();
    let m = idx.len();
    let mut k: usize = m;
    proof {
        assert(idx@.subrange(m as int, m as int) =~= Seq::<usize>::empty());
        assert(idx@.subrange(0, m as int) =~= idx@);
        assert(picked(s, Seq::<usize>::empty()) =~= Seq::<AgentView>::empty());
        assert(s.to_multiset().add(Multiset::empty()) =~= s.to_multiset());
    }
    while k > 0
        invariant
            k <= m == idx@.len(),
            n == s.len(),
            strictly_increasing(idx@),
            forall|j: int| 0 <= j < idx@.len() ==> #[trigger] idx@[j] < n,
            agents@.len() == n - (m - k),
            forall|j: int|
                0 <= j < (if k == m {
                    n as int
                } else {
                    idx@[k as int] as int
                }) ==> #[trigger] agent_views(agents@)[j] == s[j],
            (if k == m {
                n as int
            } else {
                idx@[k as int] as int
            }) <= agents@.len(),
            agent_views(agents@).to_multiset().add(
                picked(s, idx@.subrange(k as int, m as int)).to_multiset(),
            ) == s.to_multiset(),
            remove_descending(agent_views(agents@), idx@.subrange(0, k as int))
                == remove_descending(s, idx@),
        decreases k,
    {
        k = k - 1;
        let i = idx[k];
        proof {
            lemma_increasing_room(idx@, n, k as int);
        }
        let ghost cur = agent_views(agents@);
        let ghost x = s[i as int];
        proof {
            let pre = idx@.subrange(0, k + 1);
            assert(pre.last() == i);
            assert(pre.drop_last() =~= idx@.subrange(0, k as int));
        }
        assert(cur[i as int] == x);
        agents.swap_remove(i);
        proof {
            let nxt = agent_views(agents@);
            assert(nxt =~= cur.update(i as int, cur.last()).drop_last());
            lemma_swap_remove_multiset(cur, i as int);
            let rest = picked(s, idx@.subrange(k + 1, m as int));
            let all = picked(s, idx@.subrange(k as int, m as int));
            assert(all.remove(0) =~= rest);
            assert(all[0] == x);
            assert(all.contains(x));
            assert(cur.contains(x));
            cur.to_multiset_ensures();
            all.to_multiset_ensures();
            assert(cur.to_multiset().count(x) > 0);
            assert(all.to_multiset().count(x) > 0);
            assert(nxt.to_multiset().add(all.to_multiset()) =~= cur.to_multiset().add(
                rest.to_multiset(),
            ));
            assert forall|j: int| 0 <= j < i implies #[trigger] nxt[j] == s[j] by {
                assert(nxt[j] == cur[j]);
            }
        }
    }
    proof {
        assert(idx@.subrange(0, m as int) =~= idx@);
        assert(idx@.subrange(0, 0) =~= Seq::<usize>::empty());
    }
}

/// Picking the same distinct positions in another order picks the same
/// agents.
proof fn lemma_picked_permutation(s: Seq<AgentView>, a: Seq<usize>, b: Seq<usize>)
    requires
        a.no_duplicates(),
        b.no_duplicates(),
        a.to_set() == b.to_set(),
        forall|k: int| 0 <= k < a.len() ==> #[trigger] a[k] < s.len(),
    ensures
        picked(s, a).to_multiset() == picked(s, b).to_multiset(),
    decreases a.len(),
{
    broadcast use vstd::seq_lib::group_to_multiset_ensures;
    broadcast use vstd::multiset::group_multiset_axioms;
    broadcast use vstd::set::group_set_axioms;

    a.unique_seq_to_set();
    b.unique_seq_to_set();
    if a.len() == 0 {
        assert(picked(s, a) =~= Seq::<AgentView>::empty());
        assert(picked(s, b) =~= Seq::<AgentView>::empty());
    } else {
        let x = a.last();
        let a1 = a.drop_last();
        assert(a.contains(x));
        assert(a.to_set().contains(x));
        assert(b.to_set().contains(x));
        let j = choose|j: int| 0 <= j < b.len() && b[j] == x;
        let b1 = b.remove(j);
        assert(a1.no_duplicates());
        assert(b1.no_duplicates()) by {
            assert forall|p: int, q: int| 0 <= p < b1.len() && 0 <= q < b1.len() && p != q implies b1[p]
                != b1[q] by {
                let pp = if p < j { p } else { p + 1 };
                let qq = if q < j { q } else { q + 1 };
                assert(b1[p] == b[pp] && b1[q] == b[qq]);
            }
        }
        assert(a1.to_set() =~= b1.to_set()) by {
            assert forall|y: usize| a1.to_set().contains(y) implies b1.to_set().contains(y) by {
                let p = choose|p: int| 0 <= p < a1.len() && a1[p] == y;
                assert(a[p] == y && p != a.len() - 1);
                assert(y != x);
                assert(a.to_set().contains(y));
                assert(b.to_set().contains(y));
                let q = choose|q: int| 0 <= q < b.len() && b[q] == y;
                assert(q != j);
                if q < j {
                    assert(b1[q] == y);
                } else {
                    assert(b1[q - 1] == y);
                }
            }
            assert forall|y: usize| b1.to_set().contains(y) implies a1.to_set().contains(y) by {
                let q = choose|q: int| 0 <= q < b1.len() && b1[q] == y;
                let qq = if q < j { q } else { q + 1 };
                assert(b[qq] == y && qq != j);
                assert(y != x);
                assert(b.to_set().contains(y));
                assert(a.to_set().contains(y));
                let p = choose|p: int| 0 <= p < a.len() && a[p] == y;
                assert(p != a.len() - 1);
                assert(a1[p] == y);
            }
        }
        assert forall|k: int| 0 <= k < a1.len() implies #[trigger] a1[k] < s.len() by {
            assert(a1[k] == a[k]);
        }
        lemma_picked_permutation(s, a1, b1);
        assert(picked(s, a) =~= picked(s, a1).push(s[x as int]));
        assert(picked(s, b).remove(j) =~= picked(s, b1));
        assert(picked(s, b)[j] == s[x as int]);
        picked(s, b).to_multiset_ensures();
        assert(picked(s, b).contains(s[x as int]));
        assert(picked(s, b).to_multiset() =~= picked(s, b1).to_multiset().insert(s[x as int]));
    }
}

/// Removes the agents at the distinct positions `chosen`, highest position
/// first, each by moving the last agent into its place.
pub(crate) fn remove_at(agents: &mut Vec<AgtData>, chosen: &Vec<usize>)
    requires
        chosen@.no_duplicates(),
        forall|i: int| 0 <= i < chosen@.len() ==> #[trigger] chosen@[i] < old(agents)@.len(),
    ensures
        final(agents)@.len() + chosen@.len() == old(agents)@.len(),
        agent_views(final(agents)@).to_multiset().add(
            picked(agent_views(old(agents)@), chosen@).to_multiset(),
        ) == agent_views(old(agents)@).to_multiset(),
        agent_views(final(agents)@) == remove_descending(
            agent_views(old(agents)@),
            ascending_positions(chosen@, old(agents)@.len()),
        ),
{
    let n = agents.len();
    let mut mask: Vec<bool> = Vec::new();
    let mut j: usize = 0;
    while j < n
        invariant
            j <= n,
            mask@.len() == j,
            forall|t: int| 0 <= t < j ==> !#[trigger] mask@[t],
        decreases n - j,
    {
        mask.push(false);
        j = j + 1;
    }
    let mut k: usize = 0;
    while k < chosen.len()
        invariant
            k <= chosen@.len(),
            mask@.len() == n,
            forall|i: int| 0 <= i < chosen@.len() ==> #[trigger] chosen@[i] < n,
            forall|t: int|
                0 <= t < n ==> (#[trigger] mask@[t] <==> chosen@.subrange(0, k as int).contains(
                    t as usize,
                )),
        decreases chosen@.len() - k,
    {
        let c = chosen[k];
        let ghost prev = mask@;
        mask.set(c, true);
        proof {
            let old_sub = chosen@.subrange(0, k as int);
            let new_sub = chosen@.subrange(0, k + 1);
            assert(new_sub =~= old_sub.push(c));
            assert forall|t: int| 0 <= t < n implies (#[trigger] mask@[t] <==> new_sub.contains(
                t as usize,
            )) by {
                if new_sub.contains(t as usize) && t as usize != c {
                    let i = choose|i: int| 0 <= i < new_sub.len() && new_sub[i] == t as usize;
                    assert(old_sub[i] == t as usize);
                }
                if old_sub.contains(t as usize) {
                    let i = choose|i: int| 0 <= i < old_sub.len() && old_sub[i] == t as usize;
                    assert(new_sub[i] == t as usize);
                }
                if t == c {
                    assert(new_sub[k as int] == c);
                }
                assert(mask@[t] == (t == c || prev[t]));
            }
        }
        k = k + 1;
    }
    let mut idx: Vec<usize> = Vec::new();
    selected_positions(&mask, &mut idx);
    proof {
        assert(chosen@.subrange(0, chosen@.len() as int) =~= chosen@);
        assert(mask@ =~= Seq::new(n as nat, |t: int| chosen@.contains(t as usize)));
        assert(idx@.to_set() =~= chosen@.to_set()) by {
            assert forall|u: usize| idx@.contains(u) implies chosen@.contains(u) by {
                let i = choose|i: int| 0 <= i < idx@.len() && idx@[i] == u;
                assert(mask@[u as int]);
            }
            assert forall|u: usize| chosen@.contains(u) implies idx@.contains(u) by {
                assert(mask@[u as int]);
            }
        }
        assert(idx@.no_duplicates());
        idx@.unique_seq_to_set();
        chosen@.unique_seq_to_set();
    }
    let ghost before = agent_views(agents@);
    remove_sorted(agents, &idx);
    proof {
        lemma_picked_permutation(before, idx@, chosen@);
    }
}

/// The positions whose flag is set, in increasing order, written to `out`
/// after clearing it.
pub fn selected_positions(flags: &Vec<bool>, out: &mut Vec<usize>)
    ensures
        strictly_increasing(final(out)@),
        forall|k: int| 0 <= k < final(out)@.len() ==> #[trigger] final(out)@[k] < flags@.len(),
        forall|i: int| 0 <= i < flags@.len() ==> (#[trigger] flags@[i] <==> final(out)@.contains(i as usize)),
        final(out)@ == flagged(flags@, flags@.len()),
{
    out.clear();
    let n = flags.len();
    let mut t: usize = 0;
    while t < n
        invariant
            t <= n == flags@.len(),
            strictly_increasing(out@),
            forall|k: int| 0 <= k < out@.len() ==> #[trigger] out@[k] < t,
            forall|u: int| 0 <= u < t ==> (#[trigger] flags@[u] <==> out@.contains(u as usize)),
            out@ == flagged(flags@, t as nat),
        decreases n - t,
    {
        let ghost prev = out@;
        if flags[t] {
            out.push(t);
        }
        proof {
            assert forall|u: int| 0 <= u <= t implies (#[trigger] flags@[u] <==> out@.contains(
                u as usize,
            )) by {
                if out@.contains(u as usize) && u < t {
                    let i = choose|i: int| 0 <= i < out@.len() && out@[i] == u as usize;
                    if i < prev.len() {
                        assert(prev[i] == u as usize);
                    }
                }
                if prev.contains(u as usize) {
                    let i = choose|i: int| 0 <= i < prev.len() && prev[i] == u as usize;
                    assert(out@[i] == u as usize);
                }
                if u == t && flags@[u] {
                    assert(out@[out@.len() - 1] == t);
                }
                if u == t && out@.contains(u as usize) {
                    let i = choose|i: int| 0 <= i < out@.len() && out@[i] == u as usize;
                    if i < prev.len() {
                        assert(prev[i] < t);
                    }
                }
            }
        }
        t = t + 1;
    }
}

} // verus!
