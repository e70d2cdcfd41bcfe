//! Learning the edges of a network from data.

pub mod constraint_based_algorithm;
pub mod hypothesis_test;
pub mod score_based_algorithm;
pub mod score_function;

use crate::process::{cleared, order_fits, NetworkProcess};
use crate::sets::{lemma_members_of_longer, sorted_members};
use crate::tools::Dataset;
use std::collections::BTreeSet;
use vstd::prelude::*;

verus! {

/// Whether `dataset` describes as many variables as `net` has nodes.
pub fn describes<N: NetworkProcess, T>(net: &N, dataset: &Dataset<T>) -> (fit: bool)
    requires
        net.well_formed(),
    ensures
        fit == (net.nodes().len() == dataset.variables()),
{
    let trajectories = dataset.get_trajectories();
    net.get_number_of_nodes() == trajectories[0].get_events().variables()
}

/// Gives `child` the nodes in `parents` as parents, beside those it has. A
/// child that gets a parent has its parameters forgotten.
pub fn add_parents<N: NetworkProcess>(net: &mut N, child: usize, parents: &BTreeSet<usize>)
    requires
        old(net).well_formed(),
        old(net).has_structure(),
        N::supports_structure(),
        order_fits(old(net).nodes().len()),
        child < old(net).nodes().len(),
        forall|p: usize| parents@.contains(p) ==> p < old(net).nodes().len(),
    ensures
        final(net).well_formed(),
        final(net).has_structure(),
        final(net).nodes() == if exists|p: usize| parents@.contains(p) {
            old(net).nodes().update(child as int, cleared(old(net).nodes()[child as int]))
        } else {
            old(net).nodes()
        },
        forall|p: int, c: int|
            #[trigger] final(net).has_edge(p, c) <==> (old(net).has_edge(p, c) || (c == child && 0
                <= p <= usize::MAX && parents@.contains(p as usize))),
{
    let listed = sorted_members(parents);
    let mut k: usize = 0;
    while k < listed.len()
        invariant
            k <= listed@.len(),
            listed@.to_set() == parents@,
            listed@.len() == parents@.len(),
            net.well_formed(),
            net.has_structure(),
            N::supports_structure(),
            net.nodes().len() == old(net).nodes().len(),
            order_fits(net.nodes().len()),
            child < net.nodes().len(),
            forall|p: usize| parents@.contains(p) ==> p < net.nodes().len(),
            net.nodes() == if k > 0 {
                old(net).nodes().update(child as int, cleared(old(net).nodes()[child as int]))
            } else {
                old(net).nodes()
            },
            forall|p: int, c: int|
                #[trigger] net.has_edge(p, c) <==> (old(net).has_edge(p, c) || (c == child && 0 <= p
                    <= usize::MAX && listed@.take(k as int).to_set().contains(p as usize))),
        decreases listed@.len() - k,
    {
        let parent = listed[k];
        proof {
            assert(listed@.to_set().contains(parent));
            lemma_members_of_longer(listed@, k as int);
        }
        let ghost before = *net;
        net.add_edge(parent, child);
        proof {
            assert forall|p: int, c: int| #[trigger]
                net.has_edge(p, c) <==> (old(net).has_edge(p, c) || (c == child && 0 <= p
                    <= usize::MAX && listed@.take(k + 1).to_set().contains(p as usize))) by {
                assert(net.has_edge(p, c) <==> (before.has_edge(p, c) || (p == parent && c
                    == child)));
            }
            assert(net.nodes() =~= old(net).nodes().update(
                child as int,
                cleared(old(net).nodes()[child as int]),
            ));
        }
        k += 1;
    }
    proof {
        assert(listed@.take(k as int) =~= listed@);
        if k > 0 {
            assert(listed@.to_set().contains(listed@[0]));
        } else {
            assert(listed@.to_set() =~= Set::empty());
        }
    }
}

/// The nodes of a network of `count` nodes other than `node`.
pub open spec fn others(count: nat, node: usize) -> Set<usize> {
    Set::new(|x: usize| x < count && x != node)
}

/// Gives every node of `net`, which has no edges, the parents learned for
/// it: `parent_sets` holds them by node.
pub fn commit<N: NetworkProcess>(net: N, parent_sets: &Vec<BTreeSet<usize>>) -> (learned: N)
    requires
        net.well_formed(),
        net.has_structure(),
        N::supports_structure(),
        order_fits(net.nodes().len()),
        forall|p: int, c: int| !net.has_edge(p, c),
        parent_sets@.len() == net.nodes().len(),
        forall|c: int|
            0 <= c < parent_sets@.len() ==> (#[trigger] parent_sets@[c])@.subset_of(
                others(net.nodes().len(), c as usize),
            ),
    ensures
        learned.well_formed(),
        learned.has_structure(),
        learned.nodes().len() == net.nodes().len(),
        forall|p: int, c: int|
            #[trigger] learned.has_edge(p, c) <==> (0 <= c < net.nodes().len() && 0 <= p
                <= usize::MAX && parent_sets@[c]@.contains(p as usize)),
        forall|c: int|
            0 <= c < net.nodes().len() ==> #[trigger] learned.nodes()[c] == if exists|p: int|
                learned.has_edge(p, c) {
                cleared(net.nodes()[c])
            } else {
                net.nodes()[c]
            },
{
    let mut learned = net;
    let count = learned.get_number_of_nodes();
    let mut k: usize = 0;
    while k < count
        invariant
            k <= count,
            count == net.nodes().len(),
            learned.nodes().len() == count,
            learned.well_formed(),
            learned.has_structure(),
            N::supports_structure(),
            order_fits(count as nat),
            parent_sets@.len() == count,
            forall|c: int|
                0 <= c < count ==> (#[trigger] parent_sets@[c])@.subset_of(
                    others(count as nat, c as usize),
                ),
            forall|p: int, c: int|
                #[trigger] learned.has_edge(p, c) <==> (0 <= c < k && 0 <= p <= usize::MAX
                    && parent_sets@[c]@.contains(p as usize)),
            forall|c: int|
                0 <= c < count ==> #[trigger] learned.nodes()[c] == if c < k && exists|p: usize|
                    parent_sets@[c]@.contains(p) {
                    cleared(net.nodes()[c])
                } else {
                    net.nodes()[c]
                },
        decreases count - k,
    {
        let ghost before = learned;
        add_parents(&mut learned, k, &parent_sets[k]);
        proof {
            assert forall|c: int| 0 <= c < count implies #[trigger] learned.nodes()[c] == if c < k
                + 1 && exists|p: usize| parent_sets@[c]@.contains(p) {
                cleared(net.nodes()[c])
            } else {
                net.nodes()[c]
            } by {
                assert(before.nodes()[c] == if c < k && exists|p: usize|
                    parent_sets@[c]@.contains(p) {
                    cleared(net.nodes()[c])
                } else {
                    net.nodes()[c]
                });
            }
        }
        k += 1;
    }
    proof {
        assert forall|c: int| 0 <= c < net.nodes().len() implies #[trigger] learned.nodes()[c]
            == if exists|p: int| learned.has_edge(p, c) {
            cleared(net.nodes()[c])
        } else {
            net.nodes()[c]
        } by {
            let parents = parent_sets@[c]@;
            if exists|p: usize| parents.contains(p) {
                let p = choose|p: usize| parents.contains(p);
                assert(learned.has_edge(p as int, c));
            } else {
                if exists|p: int| learned.has_edge(p, c) {
                    let p = choose|p: int| learned.has_edge(p, c);
                    assert(parents.contains(p as usize));
                }
            }
        }
    }
    learned
}

/// A way to learn the edges of a network from data.
pub trait StructureLearningAlgorithm {
    /// What stands for an instant in the datasets that are read.
    type Time;

    /// The network `net` with its edges learned anew from `dataset`: no
    /// node is its own parent, and the nodes are those of `net`, with the
    /// parameters forgotten of every node that has a parent.
    fn fit_transform<N: NetworkProcess>(
        &self,
        net: N,
        dataset: &Dataset<Self::Time>,
    ) -> (learned: N)
        requires
            net.well_formed(),
            N::supports_structure(),
            order_fits(net.nodes().len()),
            net.nodes().len() == dataset.variables(),
        ensures
            learned.well_formed(),
            learned.has_structure(),
            learned.nodes().len() == net.nodes().len(),
            forall|c: int|
                0 <= c < net.nodes().len() ==> #[trigger] learned.nodes()[c] == if exists|p: int|
                    learned.has_edge(p, c) {
                    cleared(net.nodes()[c])
                } else {
                    net.nodes()[c]
                },
            forall|p: int, c: int|
                #[trigger] learned.has_edge(p, c) ==> 0 <= p < net.nodes().len() && 0 <= c
                    < net.nodes().len() && p != c,
    ;
}

} // verus!
