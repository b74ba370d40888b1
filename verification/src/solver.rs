//! The search engine: a best-first branch-and-bound exploration of the
//! assignment space. Nodes are held in a min-priority pool ordered by
//! accumulated cost; because extending a node never lowers its cost, the
//! first complete, satisfying node taken from the pool is a global optimum,
//! and an emptied pool proves that no satisfying assignment exists.

use crate::types::{
    cost_of, entry_matches, essential_violated, keys_in_range, lemma_cost_of_le_len,
    respects_essentials, satisfies_all, satisfies_customer, singleton_demands, Finish, Solution,
    Specification,
};
use vstd::prelude::*;

verus! {

/// `p` is an initial segment of `a`.
pub open spec fn prefix_of(p: Seq<Finish>, a: Seq<Finish>) -> bool {
    p.len() <= a.len() && forall|i: int| 0 <= i < p.len() ==> p[i] == a[i]
}

/// The cost of a prefix bounds the cost of the whole assignment from
/// below: extending choices never refunds cost.
pub proof fn lemma_cost_of_prefix(p: Seq<Finish>, a: Seq<Finish>)
    requires
        prefix_of(p, a),
    ensures
        cost_of(p) <= cost_of(a),
    decreases a.len(),
{
    if p.len() == a.len() {
        assert(p =~= a);
    } else {
        assert(prefix_of(p, a.drop_last()));
        lemma_cost_of_prefix(p, a.drop_last());
    }
}

/// Powers of three, used as the termination weight of a search node: a
/// node with `d` undecided items weighs `pow3(d)`, so expanding it into
/// two children of weight `pow3(d - 1)` each strictly shrinks the total.
pub open spec fn pow3(n: nat) -> nat
    decreases n,
{
    if n == 0 {
        1
    } else {
        3 * pow3((n - 1) as nat)
    }
}

pub proof fn lemma_pow3_pos(n: nat)
    ensures
        pow3(n) >= 1,
    decreases n,
{
    if n > 0 {
        lemma_pow3_pos((n - 1) as nat);
    }
}

/// Termination weight of one node: exponential in its undecided items.
pub open spec fn node_weight(s: Solution, num: nat) -> nat {
    pow3((num - s.choices@.len()) as nat)
}

/// Total termination weight of the pool of unexplored nodes.
pub open spec fn measure(q: Seq<Solution>, num: nat) -> nat
    decreases q.len(),
{
    if q.len() == 0 {
        0
    } else {
        measure(q.drop_last(), num) + node_weight(q.last(), num)
    }
}

pub proof fn lemma_measure_concat(a: Seq<Solution>, b: Seq<Solution>, num: nat)
    ensures
        measure(a + b, num) == measure(a, num) + measure(b, num),
    decreases b.len(),
{
    if b.len() == 0 {
        assert(a + b =~= a);
    } else {
        lemma_measure_concat(a, b.drop_last(), num);
        assert((a + b).drop_last() =~= a + b.drop_last());
        assert((a + b).last() == b.last());
    }
}

pub proof fn lemma_measure_remove(q: Seq<Solution>, i: int, num: nat)
    requires
        0 <= i < q.len(),
    ensures
        measure(q, num) == measure(q.remove(i), num) + node_weight(q[i], num),
{
    let left = q.subrange(0, i);
    let mid = seq![q[i]];
    let right = q.subrange(i + 1, q.len() as int);
    assert(q =~= left + mid + right);
    lemma_measure_concat(left + mid, right, num);
    lemma_measure_concat(left, mid, num);
    lemma_measure_concat(left, right, num);
    assert(mid.drop_last() =~= Seq::<Solution>::empty());
    assert(mid.last() == q[i]);
    assert(measure(mid.drop_last(), num) == 0);
    assert(measure(mid, num) == node_weight(q[i], num));
    assert(q.remove(i) == left + right);
}

pub proof fn lemma_measure_push(q: Seq<Solution>, s: Solution, num: nat)
    ensures
        measure(q.push(s), num) == measure(q, num) + node_weight(s, num),
{
    assert(q.push(s).drop_last() =~= q);
    assert(q.push(s).last() == s);
}

/// Law: if two customers each hold a single entry naming the same item but
/// demanding different finishes, no assignment whatsoever satisfies every
/// customer; by the contract of `solve`, the search then reports that no
/// solution exists.
pub proof fn lemma_conflicting_singletons_unsatisfiable(spec: Specification, c1: int, c2: int)
    requires
        0 <= c1 < spec.prefs().len(),
        0 <= c2 < spec.prefs().len(),
        spec.prefs()[c1].len() == 1,
        spec.prefs()[c2].len() == 1,
        spec.prefs()[c1][0].0 == spec.prefs()[c2][0].0,
        spec.prefs()[c1][0].1 != spec.prefs()[c2][0].1,
    ensures
        forall|a: Seq<Finish>| !satisfies_all(a, spec.prefs()),
{
    assert forall|a: Seq<Finish>| !satisfies_all(a, spec.prefs()) by {
        if satisfies_all(a, spec.prefs()) {
            assert(satisfies_customer(a, spec.prefs()[c1]));
            assert(satisfies_customer(a, spec.prefs()[c2]));
            let i1 = choose|i: int|
                0 <= i < spec.prefs()[c1].len() && entry_matches(a, #[trigger] spec.prefs()[c1][i]);
            let i2 = choose|i: int|
                0 <= i < spec.prefs()[c2].len() && entry_matches(a, #[trigger] spec.prefs()[c2][i]);
            assert(entry_matches(a, spec.prefs()[c1][0]));
            assert(entry_matches(a, spec.prefs()[c2][0]));
            assert(false);
        }
    }
}

/// Position of a cheapest node in the pool.
fn min_cost_index(q: &Vec<Solution>) -> (r: usize)
    requires
        q@.len() > 0,
    ensures
        r < q@.len(),
        forall|k: int| 0 <= k < q@.len() ==> q@[r as int].cost <= (#[trigger] q@[k]).cost,
{
    let mut best: usize = 0;
    let mut i: usize = 1;
    while i < q.len()
        invariant
            best < i,
            i <= q@.len(),
            forall|k: int| 0 <= k < i ==> q@[best as int].cost <= (#[trigger] q@[k]).cost,
        decreases q@.len() - i,
    {
        if q[i].cost < q[best].cost {
            best = i;
        }
        i = i + 1;
    }
    best
}

/// Search for a cheapest assignment of finishes to all items that
/// satisfies every customer. Returns `None` exactly when no assignment of
/// the right length satisfies them all; a returned solution is complete,
/// satisfies every customer, respects every mandatory constraint, and no
/// satisfying assignment is strictly cheaper.
pub fn solve(spec: Specification) -> (r: Option<Solution>)
    requires
        spec.wf(),
    ensures
        match r {
            Some(s) => {
                &&& s.choices@.len() == spec.num_colors
                &&& s.cost == cost_of(s.choices@)
                &&& satisfies_all(s.choices@, spec.prefs())
                &&& respects_essentials(s.choices@, spec.essentials@)
                &&& forall|a: Seq<Finish>|
                    a.len() == spec.num_colors && satisfies_all(a, spec.prefs()) ==> cost_of(a)
                        >= s.cost
            },
            None => forall|a: Seq<Finish>|
                a.len() == spec.num_colors ==> !satisfies_all(a, spec.prefs()),
        },
{
    let num = spec.num_colors;
    let mut queue: Vec<Solution> = Vec::new();
    queue.push(Solution::new());
    proof {
        assert forall|a: Seq<Finish>|
            a.len() == num && #[trigger] satisfies_all(a, spec.prefs()) implies exists|k: int|
            0 <= k < queue@.len() && prefix_of((#[trigger] queue@[k]).choices@, a) by {
            assert(prefix_of(queue@[0].choices@, a));
        }
    }
    loop
        invariant
            spec.wf(),
            num == spec.num_colors,
            forall|k: int|
                0 <= k < queue@.len() ==> (#[trigger] queue@[k]).cost == cost_of(
                    queue@[k].choices@,
                ) && queue@[k].choices@.len() <= num,
            forall|a: Seq<Finish>|
                a.len() == num && #[trigger] satisfies_all(a, spec.prefs()) ==> exists|k: int|
                    0 <= k < queue@.len() && prefix_of((#[trigger] queue@[k]).choices@, a),
        decreases measure(queue@, num as nat),
    {
        if queue.len() == 0 {
            proof {
                assert forall|a: Seq<Finish>| a.len() == spec.num_colors implies !satisfies_all(
                    a,
                    spec.prefs(),
                ) by {
                    if satisfies_all(a, spec.prefs()) {
                        let k = choose|k: int|
                            0 <= k < queue@.len() && prefix_of(
                                (#[trigger] queue@[k]).choices@,
                                a,
                            );
                        assert(false);
                    }
                }
            }
            return None;
        }
        let ghost q0 = queue@;
        let idx = min_cost_index(&queue);
        let sol = queue.remove(idx);
        proof {
            lemma_measure_remove(q0, idx as int, num as nat);
            q0.remove_ensures(idx as int);
            lemma_pow3_pos((num - sol.choices@.len()) as nat);
            assert forall|k: int| 0 <= k < queue@.len() implies (#[trigger] queue@[k]).cost
                == cost_of(queue@[k].choices@) && queue@[k].choices@.len() <= num by {
                if k < idx {
                    assert(queue@[k] == q0[k]);
                } else {
                    assert(queue@[k] == q0[k + 1]);
                }
            }
            assert forall|i: int| 0 <= i < spec.essentials@.len() implies 1 <= (
            #[trigger] spec.essentials@[i]).0 && spec.essentials@[i].0 <= num by {
                assert(singleton_demands(spec.prefs(), spec.essentials@[i]));
                let c = choose|c: int|
                    0 <= c < spec.prefs().len() && (#[trigger] spec.prefs()[c]).len() == 1
                        && spec.prefs()[c][0] == spec.essentials@[i];
                assert(keys_in_range(spec.prefs()[c], spec.num_colors as int));
                assert(spec.prefs()[c][0].0 >= 1);
            }
        }
        let viol = sol.violates_contraints(&spec);
        if viol {
            // A node in conflict with a mandatory constraint: no completion
            // of it can satisfy the singleton customer behind that
            // constraint, so the whole subtree is discarded.
            proof {
                assert forall|a: Seq<Finish>|
                    a.len() == num && #[trigger] satisfies_all(a, spec.prefs()) implies exists|
                    k: int,
                |
                    0 <= k < queue@.len() && prefix_of((#[trigger] queue@[k]).choices@, a) by {
                    let k0 = choose|k: int|
                        0 <= k < q0.len() && prefix_of((#[trigger] q0[k]).choices@, a);
                    if k0 == idx {
                        let j = choose|j: int|
                            0 <= j < spec.essentials@.len() && essential_violated(
                                sol.choices@,
                                #[trigger] spec.essentials@[j],
                            );
                        let e = spec.essentials@[j];
                        assert(singleton_demands(spec.prefs(), e));
                        let c = choose|c: int|
                            0 <= c < spec.prefs().len() && (#[trigger] spec.prefs()[c]).len() == 1
                                && spec.prefs()[c][0] == e;
                        assert(satisfies_customer(a, spec.prefs()[c]));
                        let ii = choose|i: int|
                            0 <= i < spec.prefs()[c].len() && entry_matches(
                                a,
                                #[trigger] spec.prefs()[c][i],
                            );
                        assert(entry_matches(a, e));
                        assert(a[e.0 - 1] == sol.choices@[e.0 - 1]);
                        assert(false);
                    } else {
                        let knew = if k0 < idx {
                            k0
                        } else {
                            k0 - 1
                        };
                        assert(queue@[knew] == q0[k0]);
                        assert(prefix_of(queue@[knew].choices@, a));
                    }
                }
            }
        } else if sol.len() == num {
            proof {
                assert forall|c: int| 0 <= c < spec.prefs().len() implies keys_in_range(
                    #[trigger] spec.prefs()[c],
                    sol.choices@.len() as int,
                ) by {
                    assert(keys_in_range(spec.prefs()[c], spec.num_colors as int));
                }
            }
            let comp = sol.complete(&spec);
            if comp {
                // Best-first order makes the first complete, satisfying
                // node a global optimum: every satisfying assignment has a
                // prefix in the pool, costing at least as much as this
                // node, and cost only grows along a path.
                proof {
                    assert forall|i: int| 0 <= i < spec.essentials@.len() implies entry_matches(
                        sol.choices@,
                        #[trigger] spec.essentials@[i],
                    ) by {
                        assert(!essential_violated(sol.choices@, spec.essentials@[i]));
                    }
                    assert forall|a: Seq<Finish>|
                        a.len() == spec.num_colors && satisfies_all(a, spec.prefs()) implies cost_of(
                        a,
                    ) >= sol.cost by {
                        let k0 = choose|k: int|
                            0 <= k < q0.len() && prefix_of((#[trigger] q0[k]).choices@, a);
                        lemma_cost_of_prefix(q0[k0].choices@, a);
                        assert(q0[idx as int].cost <= q0[k0].cost);
                    }
                }
                return Some(sol);
            }
            // A full-length node that leaves some customer unsatisfied is
            // itself the only assignment it could become: discard it.
            proof {
                assert forall|a: Seq<Finish>|
                    a.len() == num && #[trigger] satisfies_all(a, spec.prefs()) implies exists|
                    k: int,
                |
                    0 <= k < queue@.len() && prefix_of((#[trigger] queue@[k]).choices@, a) by {
                    let k0 = choose|k: int|
                        0 <= k < q0.len() && prefix_of((#[trigger] q0[k]).choices@, a);
                    if k0 == idx {
                        assert(sol.choices@ =~= a);
                        assert(false);
                    } else {
                        let knew = if k0 < idx {
                            k0
                        } else {
                            k0 - 1
                        };
                        assert(queue@[knew] == q0[k0]);
                        assert(prefix_of(queue@[knew].choices@, a));
                    }
                }
            }
        } else {
            proof {
                lemma_cost_of_le_len(sol.choices@);
            }
            let child_m = sol.extend(Finish::Matte);
            let child_g = sol.extend(Finish::Gloss);
            let ghost q1 = queue@;
            queue.push(child_m);
            queue.push(child_g);
            proof {
                lemma_measure_push(q1, child_m, num as nat);
                lemma_measure_push(q1.push(child_m), child_g, num as nat);
                lemma_pow3_pos((num - sol.choices@.len() - 1) as nat);
                assert(pow3((num - sol.choices@.len()) as nat) == 3 * pow3(
                    (num - sol.choices@.len() - 1) as nat,
                ));
                assert(node_weight(child_m, num as nat) == pow3(
                    (num - sol.choices@.len() - 1) as nat,
                ));
                assert(node_weight(child_g, num as nat) == pow3(
                    (num - sol.choices@.len() - 1) as nat,
                ));
                assert forall|a: Seq<Finish>|
                    a.len() == num && #[trigger] satisfies_all(a, spec.prefs()) implies exists|
                    k: int,
                |
                    0 <= k < queue@.len() && prefix_of((#[trigger] queue@[k]).choices@, a) by {
                    let k0 = choose|k: int|
                        0 <= k < q0.len() && prefix_of((#[trigger] q0[k]).choices@, a);
                    if k0 == idx {
                        let l = sol.choices@.len() as int;
                        assert(a[l] == Finish::Matte || a[l] == Finish::Gloss);
                        if a[l] == Finish::Matte {
                            assert(prefix_of(child_m.choices@, a));
                            assert(queue@[queue@.len() - 2] == child_m);
                        } else {
                            assert(prefix_of(child_g.choices@, a));
                            assert(queue@[queue@.len() - 1] == child_g);
                        }
                    } else {
                        let knew = if k0 < idx {
                            k0
                        } else {
                            k0 - 1
                        };
                        assert(queue@[knew] == q1[knew]);
                        assert(q1[knew] == q0[k0]);
                        assert(prefix_of(queue@[knew].choices@, a));
                    }
                }
            }
        }
    }
}

} // verus!
