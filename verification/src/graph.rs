use std::collections::{HashMap, HashSet};
use vstd::prelude::*;
use vstd::std_specs::iter::IteratorSpec;

verus! {

broadcast use vstd::std_specs::hash::group_hash_axioms;

/// The edges of `edges` turned around.
pub open spec fn reversed(edges: Set<(u64, u64)>) -> Set<(u64, u64)> {
    Set::new(|e: (u64, u64)| edges.contains((e.1, e.0)))
}

/// The nodes that some edge starts or ends at.
pub open spec fn endpoints(edges: Set<(u64, u64)>) -> Set<u64> {
    Set::new(|x: u64| exists|y: u64| edges.contains((x, y)) || edges.contains((y, x)))
}

/// `order` lists each node of `nodes` once, and no edge leads from a node to itself
/// or to one listed before it: every edge points forward.
pub open spec fn is_topological_order(
    order: Seq<u64>,
    nodes: Set<u64>,
    edges: Set<(u64, u64)>,
) -> bool {
    &&& order.no_duplicates()
    &&& order.to_set() == nodes
    &&& forall|i: int, j: int|
        0 <= i <= j < order.len() ==> !edges.contains((#[trigger] order[j], #[trigger] order[i]))
}

/// Some order of `nodes` makes every edge point forward.
pub open spec fn has_topological_order(nodes: Set<u64>, edges: Set<(u64, u64)>) -> bool {
    exists|order: Seq<u64>| is_topological_order(order, nodes, edges)
}

/// Some edge leads from a node of `w` to `x`.
#[verifier::opaque]
pub open spec fn has_pred_in(w: Set<u64>, edges: Set<(u64, u64)>, x: u64) -> bool {
    exists|y: u64| w.contains(y) && edges.contains((y, x))
}

/// A non-empty set in which every node has a predecessor inside the set: such a set
/// holds a cycle.
pub open spec fn is_cycle_witness(w: Set<u64>, edges: Set<(u64, u64)>) -> bool {
    &&& exists|x: u64| w.contains(x)
    &&& forall|x: u64| #[trigger] w.contains(x) ==> has_pred_in(w, edges, x)
}

/// `b` is recorded in `inv` as coming after `a`.
spec fn pred(inv: Map<u64, HashSet<u64>>, a: u64, b: u64) -> bool {
    inv.contains_key(b) && inv[b]@.contains(a)
}

/// The edges `(a, b)` still recorded in `m`, where `a` is among the nodes listed for `b`.
spec fn recorded(m: Map<u64, HashSet<u64>>) -> Set<(u64, u64)> {
    Set::new(|e: (u64, u64)| pred(m, e.0, e.1))
}

/// Some node of `s` is listed for `v` in `m`.
#[verifier::opaque]
spec fn listed_in(m: Map<u64, HashSet<u64>>, v: u64, s: Set<u64>) -> bool {
    exists|y: u64| s.contains(y) && m[v]@.contains(y)
}

/// Walks from some node of `max_to_min` to a node listed for it, and on, until it reaches
/// a node that lists nothing: `Ok` with that node and the one it was reached from. Where
/// the walk comes back to a node it passed, `Err` with the nodes it passed, each of which
/// has a node listed for it among them.
fn most_min(max_to_min: &HashMap<u64, HashSet<u64>>) -> (r: Result<(u64, u64), HashSet<u64>>)
    requires
        exists|k: u64| max_to_min@.contains_key(k),
        forall|b: u64| #[trigger]
            max_to_min@.contains_key(b) ==> exists|a: u64| max_to_min@[b]@.contains(a),
    ensures
        match r {
            Ok((min, max)) => pred(max_to_min@, min, max) && !max_to_min@.contains_key(min),
            Err(w) => is_cycle_witness(w@, recorded(max_to_min@)) && w@.subset_of(
                max_to_min@.dom(),
            ),
        },
{
    let ghost m = max_to_min@;
    let mut visited: HashSet<u64> = HashSet::new();
    proof {
        let k = choose|k: u64| m.contains_key(k);
        vstd::set_lib::lemma_set_empty_equivalency_len(m.dom());
        assert(m.dom().len() > 0);
    }
    let mut first: Option<(&u64, &HashSet<u64>)> = None;
    let ghost entries = vstd::std_specs::hash::spec_hash_map_iter(max_to_min).remaining();
    for e in it: max_to_min.iter()
        invariant_except_break
            m == max_to_min@,
            entries == vstd::std_specs::hash::spec_hash_map_iter(max_to_min).remaining(),
            it.seq() == entries,
            first is None,
            it.index() == 0,
            it.seq().len() == m.dom().len(),
            m.dom().len() > 0,
        ensures
            first matches Some(p) && m.contains_key(*p.0) && m[*p.0] == *p.1,
    {
        assert(m.contains_key(*entries[0].0));
        first = Some(e);
        break;
    }
    let (mut max, mut mins) = first.unwrap();
    loop
        invariant
            m == max_to_min@,
            forall|b: u64| #[trigger] m.contains_key(b) ==> exists|a: u64| m[b]@.contains(a),
            m.contains_key(*max),
            m[*max] == *mins,
            visited@.subset_of(m.dom()),
            visited@.finite(),
            forall|v: u64| #[trigger]
                visited@.contains(v) ==> listed_in(m, v, visited@.insert(*max)),
        decreases m.dom().len() - visited@.len(),
    {
        let ghost before = visited@;
        if !visited.insert(*max) {
            proof {
                assert(visited@ =~= before);
                assert(visited@.contains(*max));
                assert forall|x: u64| #[trigger] visited@.contains(x) implies has_pred_in(
                    visited@,
                    recorded(m),
                    x,
                ) by {
                    assert(listed_in(m, x, before.insert(*max)));
                    reveal(listed_in);
                    let y = choose|y: u64| before.insert(*max).contains(y) && m[x]@.contains(y);
                    assert(m.dom().contains(x));
                    assert(pred(m, y, x));
                    assert(recorded(m).contains((y, x)));
                    reveal(has_pred_in);
                }
            }
            return Err(visited);
        }
        proof {
            vstd::set_lib::lemma_len_subset(visited@, m.dom());
        }
        let mut next: Option<&u64> = None;
        let ghost listed_keys = vstd::std_specs::hash::spec_hash_keys_iter(mins).remaining();
        proof {
            let a = choose|a: u64| mins@.contains(a);
            assert(listed_keys.unref().to_set().contains(a));
        }
        for x in listed: mins.iter()
            invariant_except_break
                listed_keys == vstd::std_specs::hash::spec_hash_keys_iter(mins).remaining(),
                listed.seq() == listed_keys,
                listed_keys.unref().to_set() == mins@,
                next is None,
                listed.index() == 0,
                listed.seq().len() > 0,
            ensures
                next matches Some(y) && mins@.contains(*y),
        {
            assert(listed_keys.unref()[0] == *listed_keys[0]);
            assert(listed_keys.unref().to_set().contains(*listed_keys[0]));
            next = Some(x);
            break;
        }
        let min = next.unwrap();
        match max_to_min.get(min) {
            None => {
                return Ok((*min, *max));
            },
            Some(new_mins) => {
                let ghost old_max = *max;
                mins = new_mins;
                max = min;
                proof {
                    assert forall|v: u64| #[trigger] visited@.contains(v) implies listed_in(
                        m,
                        v,
                        visited@.insert(*max),
                    ) by {
                        reveal(listed_in);
                        if v == old_max {
                            assert(visited@.insert(*max).contains(*max) && m[v]@.contains(*max));
                        } else {
                            assert(before.contains(v));
                            assert(listed_in(m, v, before.insert(old_max)));
                            let y = choose|y: u64| before.insert(old_max).contains(y) && m[v]@.contains(y);
                            assert(visited@.insert(*max).contains(y) && m[v]@.contains(y));
                        }
                    }
                }
            },
        }
    }
}

/// The state of the ordering walk over the edges `rel`: `m` lists, for each node, the
/// predecessors not yet dealt with; `ordered` is a prefix of a topological order and
/// `os` its set; an edge dealt with starts at an ordered node, a node reached by an edge
/// is ordered or still listed, every predecessor of an ordered node is ordered, and a
/// self-loop is never dealt with.
spec fn walk_inv(m: Map<u64, HashSet<u64>>, os: Set<u64>, ordered: Seq<u64>, rel: Set<(u64, u64)>) -> bool {
    &&& forall|a: u64, b: u64| #[trigger] pred(m, a, b) ==> rel.contains((a, b))
    &&& forall|b: u64| #[trigger] m.contains_key(b) ==> exists|a: u64| m[b]@.contains(a)
    &&& ordered.no_duplicates()
    &&& os == ordered.to_set()
    &&& forall|a: u64, b: u64|
        #[trigger] rel.contains((a, b)) && !pred(m, a, b) ==> os.contains(a)
    &&& forall|a: u64, b: u64|
        #[trigger] rel.contains((a, b)) && os.contains(b) ==> os.contains(a)
    &&& forall|i: int, j: int|
        0 <= i <= j < ordered.len() ==> !rel.contains((#[trigger] ordered[j], #[trigger] ordered[i]))
    &&& forall|x: u64| #[trigger] rel.contains((x, x)) ==> pred(m, x, x)
    &&& forall|x: u64| #[trigger] os.contains(x) ==> endpoints(rel).contains(x)
}

/// Every node reached by an edge is ordered or still listed.
spec fn walk_covers(m: Map<u64, HashSet<u64>>, os: Set<u64>, rel: Set<(u64, u64)>) -> bool {
    forall|a: u64, b: u64| #[trigger] rel.contains((a, b)) ==> os.contains(b) || m.contains_key(b)
}

/// Appending a node that is not ordered yet, all of whose predecessors are, keeps the
/// walk's state.
proof fn lemma_walk_push(
    m: Map<u64, HashSet<u64>>,
    os: Set<u64>,
    ordered: Seq<u64>,
    rel: Set<(u64, u64)>,
    x: u64,
)
    requires
        walk_inv(m, os, ordered, rel),
        !os.contains(x),
        endpoints(rel).contains(x),
        forall|a: u64| #[trigger] rel.contains((a, x)) ==> os.contains(a),
        !rel.contains((x, x)),
    ensures
        walk_inv(m, os.insert(x), ordered.push(x), rel),
{
    let o2 = ordered.push(x);
    assert(o2.to_set() =~= os.insert(x)) by {
        assert forall|y: u64| o2.to_set().contains(y) <==> os.insert(x).contains(y) by {
            if o2.contains(y) {
                let k = choose|k: int| 0 <= k < o2.len() && o2[k] == y;
                if k < ordered.len() {
                    assert(ordered[k] == y);
                }
            }
            if ordered.contains(y) {
                let k = choose|k: int| 0 <= k < ordered.len() && ordered[k] == y;
                assert(o2[k] == y);
            }
            if y == x {
                assert(o2[ordered.len() as int] == x);
            }
        }
    }
    assert(o2.no_duplicates()) by {
        assert forall|i: int, j: int| 0 <= i < o2.len() && 0 <= j < o2.len() && i != j implies o2[i]
            != o2[j] by {
            if i < ordered.len() && j < ordered.len() {
                assert(o2[i] == ordered[i] && o2[j] == ordered[j]);
            } else if i < ordered.len() {
                assert(ordered.contains(o2[i]));
            } else {
                assert(ordered.contains(o2[j]));
            }
        }
    }
    assert forall|i: int, j: int| 0 <= i <= j < o2.len() implies !rel.contains(
        (#[trigger] o2[j], #[trigger] o2[i]),
    ) by {
        if j < ordered.len() {
            assert(o2[i] == ordered[i] && o2[j] == ordered[j]);
        } else if i < ordered.len() {
            assert(o2[i] == ordered[i]);
            assert(os.contains(ordered[i]));
            if rel.contains((x, ordered[i])) {
                assert(os.contains(x));
            }
        }
    }
    assert forall|a: u64, b: u64| #[trigger]
        rel.contains((a, b)) && os.insert(x).contains(b) implies os.insert(x).contains(a) by {
        if b != x {
            assert(os.contains(a));
        }
    }
}

/// The edge `(min, max)` dealt with: `min` is taken off the list of `max`, and `max`
/// loses its entry where nothing is left on it.
proof fn lemma_walk_remove(
    m: Map<u64, HashSet<u64>>,
    m1: Map<u64, HashSet<u64>>,
    os: Set<u64>,
    ordered: Seq<u64>,
    rel: Set<(u64, u64)>,
    min: u64,
    max: u64,
)
    requires
        walk_inv(m, os, ordered, rel),
        pred(m, min, max),
        !m.contains_key(min),
        os.contains(min),
        m1.dom().subset_of(m.dom()),
        forall|k: u64| #[trigger] m1.contains_key(k) && k != max ==> m1[k] == m[k],
        forall|k: u64| #[trigger] m.contains_key(k) && k != max ==> m1.contains_key(k),
        m1.contains_key(max) <==> !(m[max]@.remove(min) =~= Set::<u64>::empty()),
        m1.contains_key(max) ==> m1[max]@ == m[max]@.remove(min),
    ensures
        walk_inv(m1, os, ordered, rel),
        recorded(m1) == recorded(m).remove((min, max)),
{
    assert(recorded(m1) =~= recorded(m).remove((min, max))) by {
        assert forall|e: (u64, u64)| recorded(m1).contains(e) <==> recorded(m).remove(
            (min, max),
        ).contains(e) by {
            if e.1 != max {
                if m.contains_key(e.1) {
                    assert(m1.contains_key(e.1));
                }
            } else if m1.contains_key(max) {
            } else {
                if pred(m, e.0, max) && e.0 != min {
                    assert(m[max]@.remove(min).contains(e.0));
                }
            }
        }
    }
    assert forall|a: u64, b: u64| #[trigger] pred(m1, a, b) implies rel.contains((a, b)) by {
        assert(recorded(m1).contains((a, b)));
        assert(pred(m, a, b));
    }
    assert forall|b: u64| #[trigger] m1.contains_key(b) implies exists|a: u64| m1[b]@.contains(a) by {
        if b == max {
            assert(!(m1[max]@ =~= Set::<u64>::empty()));
            let a = choose|a: u64| !(m1[max]@.contains(a) == Set::<u64>::empty().contains(a));
            assert(m1[b]@.contains(a));
        } else {
            assert(m.contains_key(b));
        }
    }
    assert forall|a: u64, b: u64| #[trigger] rel.contains((a, b)) && !pred(m1, a, b) implies os.contains(a) by {
        if pred(m, a, b) {
            assert(recorded(m).contains((a, b)));
            if (a, b) != (min, max) {
                assert(recorded(m1).contains((a, b)));
            }
        }
    }
    assert forall|x: u64| #[trigger] rel.contains((x, x)) implies pred(m1, x, x) by {
        assert(pred(m, x, x));
        assert(recorded(m).contains((x, x)));
        assert((x, x) != (min, max));
        assert(recorded(m1).contains((x, x)));
    }
}

/// Deals with the edge `(min, max)`, where `min` has no predecessors left: orders `min`
/// where it is not ordered yet, takes it off the list of `max`, and orders `max` where
/// its list runs empty.
fn take_edge(
    max_to_min: &mut HashMap<u64, HashSet<u64>>,
    ordered_set: &mut HashSet<u64>,
    ordered: &mut Vec<u64>,
    min: u64,
    max: u64,
    Ghost(rel): Ghost<Set<(u64, u64)>>,
)
    requires
        rel.finite(),
        walk_inv(old(max_to_min)@, old(ordered_set)@, old(ordered)@, rel),
        walk_covers(old(max_to_min)@, old(ordered_set)@, rel),
        pred(old(max_to_min)@, min, max),
        !old(max_to_min)@.contains_key(min),
    ensures
        walk_inv(final(max_to_min)@, final(ordered_set)@, final(ordered)@, rel),
        walk_covers(final(max_to_min)@, final(ordered_set)@, rel),
        recorded(final(max_to_min)@) == recorded(old(max_to_min)@).remove((min, max)),
{
    let ghost m = max_to_min@;
    let ghost os0 = ordered_set@;
    let ghost ord0 = ordered@;
    proof {
        assert(rel.contains((min, max)));
        assert(endpoints(rel).contains(min));
        assert forall|a: u64| #[trigger] rel.contains((a, min)) implies os0.contains(a) by {
            assert(!pred(m, a, min));
        }
        if rel.contains((min, min)) {
            assert(pred(m, min, min));
        }
    }
    if ordered_set.insert(min) {
        ordered.push(min);
        proof {
            lemma_walk_push(m, os0, ord0, rel, min);
        }
    } else {
        proof {
            assert(ordered_set@ =~= os0);
        }
    }
    let ghost os1 = ordered_set@;
    let ghost ord1 = ordered@;
    match max_to_min.remove(&max) {
        Some(mut mins) => {
            let ghost listed = mins@;
            mins.remove(&min);
            if mins.is_empty() {
                proof {
                    lemma_walk_remove(m, max_to_min@, os1, ord1, rel, min, max);
                    let m1 = max_to_min@;
                    assert(!m1.contains_key(max));
                    assert(endpoints(rel).contains(max));
                    assert forall|a: u64| #[trigger] rel.contains((a, max)) implies os1.contains(a) by {
                        assert(!pred(m1, a, max));
                    }
                    if rel.contains((max, max)) {
                        assert(pred(m1, max, max));
                    }
                }
                if ordered_set.insert(max) {
                    ordered.push(max);
                    proof {
                        lemma_walk_push(max_to_min@, os1, ord1, rel, max);
                    }
                } else {
                    proof {
                        assert(ordered_set@ =~= os1);
                    }
                }
                proof {
                    assert forall|a: u64, b: u64| #[trigger] rel.contains((a, b)) implies ordered_set@.contains(b)
                        || max_to_min@.contains_key(b) by {
                        if b != max {
                            assert(os0.contains(b) || m.contains_key(b));
                        }
                    }
                }
            } else {
                let ghost left = mins@;
                max_to_min.insert(max, mins);
                proof {
                    lemma_walk_remove(m, max_to_min@, os1, ord1, rel, min, max);
                    assert forall|a: u64, b: u64| #[trigger] rel.contains((a, b)) implies ordered_set@.contains(b)
                        || max_to_min@.contains_key(b) by {
                        assert(os0.contains(b) || m.contains_key(b));
                    }
                }
            }
        },
        None => {
            proof {
                assert(false);
            }
        },
    }
}

/// A walk that came back on itself passed nodes that are ends of edges, each reached
/// from another of them.
proof fn lemma_walk_witness(m: Map<u64, HashSet<u64>>, rel: Set<(u64, u64)>, w: Set<u64>)
    requires
        forall|a: u64, b: u64| #[trigger] pred(m, a, b) ==> rel.contains((a, b)),
        forall|b: u64| #[trigger] m.contains_key(b) ==> exists|a: u64| m[b]@.contains(a),
        is_cycle_witness(w, recorded(m)),
        w.subset_of(m.dom()),
    ensures
        is_cycle_witness(w, rel),
        w.subset_of(endpoints(rel)),
{
    assert forall|x: u64| #[trigger] w.contains(x) implies has_pred_in(w, rel, x) by {
        assert(has_pred_in(w, recorded(m), x));
        reveal(has_pred_in);
        let y = choose|y: u64| w.contains(y) && recorded(m).contains((y, x));
        assert(pred(m, y, x));
    }
    assert forall|x: u64| w.contains(x) implies endpoints(rel).contains(x) by {
        assert(m.contains_key(x));
        let a = choose|a: u64| m[x]@.contains(a);
        assert(pred(m, a, x));
        assert(rel.contains((a, x)));
    }
}

/// The nodes of `nodes` and the ends of `rel`, ordered so that every edge of `rel`
/// points forward: the walk follows listed predecessors from some node until it finds
/// one with none left, orders it, and takes it off the list of the node it came from;
/// a node whose list runs empty is ordered too. `Err` with the nodes of a walk that came
/// back on itself.
fn to_vec_internal(
    inverted: &HashMap<u64, HashSet<u64>>,
    nodes: &HashSet<u64>,
    Ghost(rel): Ghost<Set<(u64, u64)>>,
) -> (r: Result<Vec<u64>, HashSet<u64>>)
    requires
        rel.finite(),
        forall|a: u64, b: u64| #[trigger] pred(inverted@, a, b) <==> rel.contains((a, b)),
        forall|b: u64| #[trigger]
            inverted@.contains_key(b) ==> exists|a: u64| inverted@[b]@.contains(a),
    ensures
        match r {
            Ok(order) => is_topological_order(order@, nodes@ + endpoints(rel), rel),
            Err(w) => is_cycle_witness(w@, rel) && w@.subset_of(endpoints(rel)),
        },
{
    let mut max_to_min = inverted.clone();
    let mut ordered_set: HashSet<u64> = HashSet::new();
    let mut ordered: Vec<u64> = Vec::new();
    proof {
        assert(ordered_set@ =~= ordered@.to_set());
        assert forall|a: u64, b: u64| #[trigger] rel.contains((a, b)) implies ordered_set@.contains(b)
            || max_to_min@.contains_key(b) by {
            assert(pred(inverted@, a, b));
        }
    }
    while !max_to_min.is_empty()
        invariant
            rel.finite(),
            walk_inv(max_to_min@, ordered_set@, ordered@, rel),
            walk_covers(max_to_min@, ordered_set@, rel),
        decreases recorded(max_to_min@).len(),
    {
        let ghost m = max_to_min@;
        proof {
            if !(exists|k: u64| m.contains_key(k)) {
                assert(m.dom() =~= Set::<u64>::empty());
            }
            assert(recorded(m).subset_of(rel)) by {
                assert forall|e: (u64, u64)| recorded(m).contains(e) implies rel.contains(e) by {
                    assert(pred(m, e.0, e.1));
                }
            }
            vstd::set_lib::lemma_set_subset_finite(rel, recorded(m));
        }
        let (min, max) = match most_min(&max_to_min) {
            Ok(p) => p,
            Err(w) => {
                proof {
                    lemma_walk_witness(m, rel, w@);
                }
                return Err(w);
            },
        };
        take_edge(&mut max_to_min, &mut ordered_set, &mut ordered, min, max, Ghost(rel));
    }
    proof {
        let m = max_to_min@;
        assert(m.dom() =~= Set::<u64>::empty());
        assert forall|x: u64| endpoints(rel).contains(x) implies ordered_set@.contains(x) by {
            let y = choose|y: u64| rel.contains((x, y)) || rel.contains((y, x));
            if rel.contains((x, y)) {
                assert(!pred(m, x, y));
            } else {
                assert(ordered_set@.contains(x) || m.contains_key(x));
            }
        }
    }
    let ghost ends = endpoints(rel);
    let ghost keys = vstd::std_specs::hash::spec_hash_keys_iter(nodes).remaining();
    for node in it: nodes.iter()
        invariant
            it.seq() == keys,
            keys.unref().to_set() == nodes@,
            ordered@.no_duplicates(),
            ordered_set@ == ordered@.to_set(),
            ends == endpoints(rel),
            forall|x: u64| #[trigger] ordered_set@.contains(x) ==> ends.contains(x) || nodes@.contains(x),
            forall|x: u64| ends.contains(x) ==> #[trigger] ordered_set@.contains(x),
            forall|k: int| 0 <= k < it.index() ==> ordered_set@.contains(*#[trigger] keys[k]),
            forall|i: int, j: int|
                0 <= i <= j < ordered@.len() ==> !rel.contains((#[trigger] ordered@[j], #[trigger] ordered@[i])),
    {
        let ghost os2 = ordered_set@;
        let ghost ord2 = ordered@;
        assert(keys.unref()[it.index() as int] == *keys[it.index() as int]);
        assert(nodes@.contains(*node));
        if ordered_set.insert(*node) {
            ordered.push(*node);
            proof {
                let x = *node;
                assert(!ends.contains(x));
                assert(ordered@.to_set() =~= os2.insert(x)) by {
                    assert forall|y: u64| ordered@.to_set().contains(y) <==> os2.insert(x).contains(y) by {
                        if ordered@.contains(y) {
                            let k = choose|k: int| 0 <= k < ordered@.len() && ordered@[k] == y;
                            if k < ord2.len() {
                                assert(ord2[k] == y);
                            }
                        }
                        if ord2.contains(y) {
                            let k = choose|k: int| 0 <= k < ord2.len() && ord2[k] == y;
                            assert(ordered@[k] == y);
                        }
                        if y == x {
                            assert(ordered@[ord2.len() as int] == x);
                        }
                    }
                }
                assert(ordered@.no_duplicates()) by {
                    assert forall|i: int, j: int| 0 <= i < ordered@.len() && 0 <= j < ordered@.len() && i != j implies ordered@[i]
                        != ordered@[j] by {
                        if i < ord2.len() && j < ord2.len() {
                            assert(ordered@[i] == ord2[i] && ordered@[j] == ord2[j]);
                        } else if i < ord2.len() {
                            assert(ord2.contains(ordered@[i]));
                        } else {
                            assert(ord2.contains(ordered@[j]));
                        }
                    }
                }
                assert forall|i: int, j: int| 0 <= i <= j < ordered@.len() implies !rel.contains(
                    (#[trigger] ordered@[j], #[trigger] ordered@[i]),
                ) by {
                    if j < ord2.len() {
                        assert(ordered@[i] == ord2[i] && ordered@[j] == ord2[j]);
                    } else {
                        if rel.contains((x, ordered@[i])) {
                            assert(ends.contains(x));
                        }
                    }
                }
            }
        } else {
            proof {
                assert(ordered_set@ =~= os2);
            }
        }
    }
    proof {
        assert(ordered_set@ =~= nodes@ + endpoints(rel)) by {
            assert forall|x: u64| nodes@.contains(x) implies ordered_set@.contains(x) by {
                assert(keys.unref().to_set().contains(x));
                let k = choose|k: int| 0 <= k < keys.len() && keys.unref()[k] == x;
                assert(*keys[k] == x);
            }
        }
    }
    Ok(ordered)
}

/// A directed graph over `u64` nodes, kept with adjacency in both directions.
pub struct Graph {
    forward: HashMap<u64, HashSet<u64>>,
    backward: HashMap<u64, HashSet<u64>>,
    nodes: HashSet<u64>,
}

impl Graph {
    /// The edges `(src, dst)` inserted so far.
    pub closed spec fn edges(&self) -> Set<(u64, u64)> {
        Set::new(
            |e: (u64, u64)| self.forward@.contains_key(e.0) && self.forward@[e.0]@.contains(e.1),
        )
    }

    /// The nodes inserted on their own.
    pub closed spec fn inserted(&self) -> Set<u64> {
        self.nodes@
    }

    /// Every node of the graph: those inserted on their own and the ends of the edges.
    pub open spec fn all_nodes(&self) -> Set<u64> {
        self.inserted() + endpoints(self.edges())
    }

    pub closed spec fn wf(&self) -> bool {
        &&& forall|a: u64, b: u64|
            #![trigger pred(self.backward@, a, b)]
            #![trigger self.forward@[a]@.contains(b)]
            pred(self.backward@, a, b) <==> (self.forward@.contains_key(a)
                && self.forward@[a]@.contains(b))
        &&& forall|a: u64| #[trigger]
            self.forward@.contains_key(a) ==> exists|b: u64| self.forward@[a]@.contains(b)
        &&& forall|b: u64| #[trigger]
            self.backward@.contains_key(b) ==> exists|a: u64| self.backward@[b]@.contains(a)
        &&& self.edges().finite()
    }

    /// The empty graph.
    pub fn new() -> (r: Self)
        ensures
            r.wf(),
            r.edges() == Set::<(u64, u64)>::empty(),
            r.inserted() == Set::<u64>::empty(),
    {
        let r = Self {
            forward: HashMap::new(),
            backward: HashMap::new(),
            nodes: HashSet::new(),
        };
        assert(r.edges() =~= Set::<(u64, u64)>::empty());
        assert(endpoints(r.edges()) =~= Set::<u64>::empty());
        r
    }

    /// Adds the edge from `src` to `dst`.
    pub fn insert_edge(&mut self, src: u64, dst: u64)
        requires
            old(self).wf(),
        ensures
            final(self).wf(),
            final(self).edges() == old(self).edges().insert((src, dst)),
            final(self).inserted() == old(self).inserted(),
    {
        let ghost old_edges = self.edges();
        let mut fs = match self.forward.remove(&src) {
            Some(s) => s,
            None => HashSet::new(),
        };
        fs.insert(dst);
        self.forward.insert(src, fs);
        let mut bs = match self.backward.remove(&dst) {
            Some(s) => s,
            None => HashSet::new(),
        };
        bs.insert(src);
        self.backward.insert(dst, bs);
        assert(self.edges() =~= old_edges.insert((src, dst)));
        assert forall|a: u64| #[trigger] self.forward@.contains_key(a) implies exists|b: u64|
            self.forward@[a]@.contains(b) by {
            if a == src {
                assert(self.forward@[a]@.contains(dst));
            } else {
                assert(old(self).forward@.contains_key(a));
                assert(self.forward@[a] == old(self).forward@[a]);
            }
        }
        assert forall|b: u64| #[trigger] self.backward@.contains_key(b) implies exists|a: u64|
            self.backward@[b]@.contains(a) by {
            if b == dst {
                assert(self.backward@[b]@.contains(src));
            } else {
                assert(old(self).backward@.contains_key(b));
                assert(self.backward@[b] == old(self).backward@[b]);
            }
        }
        assert forall|a: u64, b: u64|
            pred(self.backward@, a, b) <==> (self.forward@.contains_key(a)
                && self.forward@[a]@.contains(b)) by {
            assert(pred(old(self).backward@, a, b) <==> (old(self).forward@.contains_key(a)
                && old(self).forward@[a]@.contains(b)));
        }
    }

    /// Adds `node` on its own; tells whether it was not inserted on its own before.
    pub fn insert_node(&mut self, node: u64) -> (r: bool)
        requires
            old(self).wf(),
        ensures
            final(self).wf(),
            r == !old(self).inserted().contains(node),
            final(self).inserted() == old(self).inserted().insert(node),
            final(self).edges() == old(self).edges(),
    {
        self.nodes.insert(node)
    }

    /// The nodes that edges from `node` lead to, or `None` where no edge starts at `node`.
    pub fn edges_from(&self, node: &u64) -> (r: Option<&HashSet<u64>>)
        requires
            self.wf(),
        ensures
            match r {
                Some(s) => (exists|b: u64| s@.contains(b)) && forall|b: u64|
                    #[trigger] s@.contains(b) <==> self.edges().contains((*node, b)),
                None => forall|b: u64| !self.edges().contains((*node, b)),
            },
    {
        self.forward.get(node)
    }

    /// The nodes whose edges lead to `node`, or `None` where no edge ends at `node`.
    pub fn edges_to(&self, node: &u64) -> (r: Option<&HashSet<u64>>)
        requires
            self.wf(),
        ensures
            match r {
                Some(s) => (exists|a: u64| s@.contains(a)) && forall|a: u64|
                    #[trigger] s@.contains(a) <==> self.edges().contains((a, *node)),
                None => forall|a: u64| !self.edges().contains((a, *node)),
            },
    {
        let r = self.backward.get(node);
        proof {
            match r {
                Some(s) => {
                    assert forall|a: u64| #[trigger] s@.contains(a) <==> self.edges().contains(
                        (a, *node),
                    ) by {
                        assert(pred(self.backward@, a, *node) <==> self.forward@.contains_key(a)
                            && self.forward@[a]@.contains(*node));
                    }
                },
                None => {
                    assert forall|a: u64| !self.edges().contains((a, *node)) by {
                        assert(pred(self.backward@, a, *node) <==> self.forward@.contains_key(a)
                            && self.forward@[a]@.contains(*node));
                    }
                },
            }
        }
        r
    }

    /// Every node, ordered so that each edge points forward; `Err` with a set of nodes
    /// that holds a cycle where no such order exists.
    pub fn to_vec(&self) -> (r: Result<Vec<u64>, HashSet<u64>>)
        requires
            self.wf(),
        ensures
            r is Ok <==> has_topological_order(self.all_nodes(), self.edges()),
            r is Ok <==> !has_cycle(self.edges()),
            match r {
                Ok(order) => is_topological_order(order@, self.all_nodes(), self.edges()),
                Err(w) => is_cycle_witness(w@, self.edges()) && has_cycle_within(w@, self.edges())
                    && w@.subset_of(self.all_nodes()),
            },
    {
        proof {
            assert forall|a: u64, b: u64| pred(self.backward@, a, b) <==> self.edges().contains(
                (a, b),
            ) by {
                assert(pred(self.backward@, a, b) <==> (self.forward@.contains_key(a)
                    && self.forward@[a]@.contains(b)));
            }
        }
        let r = to_vec_internal(&self.backward, &self.nodes, Ghost(self.edges()));
        proof {
            self.lemma_walk_result(r, self.edges());
        }
        r
    }

    /// Every node, ordered so that each edge points backward; `Err` with a set of nodes
    /// that holds a cycle where no such order exists.
    pub fn to_vec_rev(&self) -> (r: Result<Vec<u64>, HashSet<u64>>)
        requires
            self.wf(),
        ensures
            r is Ok <==> has_topological_order(self.all_nodes(), reversed(self.edges())),
            r is Ok <==> !has_cycle(reversed(self.edges())),
            match r {
                Ok(order) => is_topological_order(
                    order@,
                    self.all_nodes(),
                    reversed(self.edges()),
                ),
                Err(w) => is_cycle_witness(w@, reversed(self.edges())) && has_cycle_within(
                    w@,
                    reversed(self.edges()),
                ) && w@.subset_of(self.all_nodes()),
            },
    {
        proof {
            assert forall|a: u64, b: u64| pred(self.forward@, a, b) <==> reversed(
                self.edges(),
            ).contains((a, b)) by {}
            lemma_reversed_finite(self.edges());
            lemma_reversed_endpoints(self.edges());
        }
        let r = to_vec_internal(&self.forward, &self.nodes, Ghost(reversed(self.edges())));
        proof {
            self.lemma_walk_result(r, reversed(self.edges()));
        }
        r
    }

    proof fn lemma_walk_result(&self, r: Result<Vec<u64>, HashSet<u64>>, rel: Set<(u64, u64)>)
        requires
            self.wf(),
            endpoints(rel) == endpoints(self.edges()),
            match r {
                Ok(order) => is_topological_order(order@, self.nodes@ + endpoints(rel), rel),
                Err(w) => is_cycle_witness(w@, rel) && w@.subset_of(endpoints(rel)),
            },
        ensures
            r is Ok <==> has_topological_order(self.all_nodes(), rel),
            r is Ok <==> !has_cycle(rel),
            match r {
                Ok(order) => is_topological_order(order@, self.all_nodes(), rel),
                Err(w) => is_cycle_witness(w@, rel) && has_cycle_within(w@, rel) && w@.subset_of(
                self.all_nodes(),
            ),
            },
    {
        match r {
            Ok(order) => {
                assert(is_topological_order(order@, self.all_nodes(), rel));
                if has_cycle(rel) {
                    let c = choose|c: Seq<u64>| is_cycle(c, rel);
                    lemma_cycle_witness(c, rel);
                    lemma_witness_excludes_order(self.all_nodes(), rel, c.to_set());
                }
            },
            Err(w) => {
                lemma_witness_excludes_order(self.all_nodes(), rel, w@);
                let keys = vstd::std_specs::hash::spec_hash_keys_iter(&w).remaining();
                assert(keys.unref().to_set() == w@);
                lemma_witness_has_cycle(w@, rel);
            },
        }
    }
}

/// Turning the edges around keeps them finitely many.
proof fn lemma_reversed_finite(edges: Set<(u64, u64)>)
    requires
        edges.finite(),
    ensures
        reversed(edges).finite(),
{
    let swap = |e: (u64, u64)| (e.1, e.0);
    edges.lemma_map_finite(swap);
    assert(reversed(edges) =~= edges.map(swap)) by {
        assert forall|e: (u64, u64)| reversed(edges).contains(e) implies edges.map(swap).contains(e) by {
            assert(edges.contains((e.1, e.0)) && e == swap((e.1, e.0)));
        }
    }
}

/// Turning the edges around keeps their ends.
proof fn lemma_reversed_endpoints(edges: Set<(u64, u64)>)
    ensures
        endpoints(reversed(edges)) == endpoints(edges),
{
    assert(endpoints(reversed(edges)) =~= endpoints(edges)) by {
        assert forall|x: u64| endpoints(reversed(edges)).contains(x) implies endpoints(edges).contains(x) by {
            let y = choose|y: u64| reversed(edges).contains((x, y)) || reversed(edges).contains((y, x));
            assert(edges.contains((y, x)) || edges.contains((x, y)));
        }
        assert forall|x: u64| endpoints(edges).contains(x) implies endpoints(reversed(edges)).contains(x) by {
            let y = choose|y: u64| edges.contains((x, y)) || edges.contains((y, x));
            assert(reversed(edges).contains((y, x)) || reversed(edges).contains((x, y)));
        }
    }
}

/// `c` is a directed cycle of `edges`: a non-empty sequence of nodes, each with an edge
/// to the next and the last with an edge to the first (a self-loop is a cycle of one).
pub open spec fn is_cycle(c: Seq<u64>, edges: Set<(u64, u64)>) -> bool {
    &&& c.len() > 0
    &&& forall|i: int| 0 <= i < c.len() - 1 ==> edges.contains((#[trigger] c[i], c[i + 1]))
    &&& edges.contains((c[c.len() - 1], c[0]))
}

/// `edges` has a directed cycle.
pub open spec fn has_cycle(edges: Set<(u64, u64)>) -> bool {
    exists|c: Seq<u64>| is_cycle(c, edges)
}

/// The nodes of a cycle witness a cycle.
proof fn lemma_cycle_witness(c: Seq<u64>, edges: Set<(u64, u64)>)
    requires
        is_cycle(c, edges),
    ensures
        is_cycle_witness(c.to_set(), edges),
        c.to_set().subset_of(endpoints(edges)),
{
    let w = c.to_set();
    assert(w.contains(c[0]));
    assert forall|x: u64| #[trigger] w.contains(x) implies has_pred_in(w, edges, x) by {
        let i = choose|i: int| 0 <= i < c.len() && c[i] == x;
        reveal(has_pred_in);
        if i == 0 {
            assert(w.contains(c[c.len() - 1]));
            assert(edges.contains((c[c.len() - 1], x)));
        } else {
            assert(edges.contains((c[i - 1], c[i - 1 + 1])));
            assert(w.contains(c[i - 1]));
        }
    }
    assert forall|x: u64| w.contains(x) implies endpoints(edges).contains(x) by {
        let i = choose|i: int| 0 <= i < c.len() && c[i] == x;
        if i < c.len() - 1 {
            assert(edges.contains((c[i], c[i + 1])));
        } else {
            assert(edges.contains((c[c.len() - 1], c[0])));
        }
    }
}

/// Following predecessors inside `w` from `x`, `k` steps back.
spec fn walk_back(w: Set<u64>, edges: Set<(u64, u64)>, x: u64, k: nat) -> u64
    decreases k,
{
    if k == 0 {
        x
    } else {
        let y = walk_back(w, edges, x, (k - 1) as nat);
        choose|z: u64| w.contains(z) && edges.contains((z, y))
    }
}

proof fn lemma_walk_back(w: Set<u64>, edges: Set<(u64, u64)>, x: u64, k: nat)
    requires
        is_cycle_witness(w, edges),
        w.contains(x),
    ensures
        w.contains(walk_back(w, edges, x, k)),
        w.contains(walk_back(w, edges, x, k + 1)),
        edges.contains((walk_back(w, edges, x, k + 1), walk_back(w, edges, x, k))),
    decreases k,
{
    if k > 0 {
        lemma_walk_back(w, edges, x, (k - 1) as nat);
        assert(((k - 1) as nat + 1) as nat == k);
    }
    let y = walk_back(w, edges, x, k);
    assert(w.contains(y));
    assert(has_pred_in(w, edges, y));
    reveal(has_pred_in);
    assert(walk_back(w, edges, x, k + 1) == choose|z: u64| w.contains(z) && edges.contains((z, y)));
}

/// Some directed cycle of `edges` has all its nodes in `w`.
pub open spec fn has_cycle_within(w: Set<u64>, edges: Set<(u64, u64)>) -> bool {
    exists|c: Seq<u64>| #[trigger] is_cycle(c, edges) && c.to_set().subset_of(w)
}

/// A finite set in which every node has a predecessor inside it holds every node of
/// some directed cycle.
pub proof fn lemma_witness_has_cycle(w: Set<u64>, edges: Set<(u64, u64)>)
    requires
        w.finite(),
        is_cycle_witness(w, edges),
    ensures
        has_cycle_within(w, edges),
        has_cycle(edges),
{
    let x = choose|x: u64| w.contains(x);
    let n = w.len();
    let p = Seq::new(n + 1, |k: int| walk_back(w, edges, x, k as nat));
    assert forall|k: int| 0 <= k < p.len() implies w.contains(#[trigger] p[k]) by {
        lemma_walk_back(w, edges, x, k as nat);
    }
    if p.no_duplicates() {
        p.unique_seq_to_set();
        assert(p.to_set().subset_of(w));
        vstd::set_lib::lemma_len_subset(p.to_set(), w);
        assert(false);
    }
    let (i, j) = choose|i: int, j: int| 0 <= i < p.len() && 0 <= j < p.len() && i != j && p[i] == p[j];
    let (lo, hi) = if i < j { (i, j) } else { (j, i) };
    let c = Seq::new((hi - lo) as nat, |m: int| p[hi - m]);
    assert forall|m: int| 0 <= m < c.len() - 1 implies edges.contains((#[trigger] c[m], c[m + 1])) by {
        lemma_walk_back(w, edges, x, (hi - m - 1) as nat);
        assert(c[m] == p[hi - m] && c[m + 1] == p[hi - m - 1]);
    }
    lemma_walk_back(w, edges, x, lo as nat);
    assert(c[c.len() - 1] == p[lo + 1]);
    assert(c[0] == p[hi] && p[hi] == p[lo]);
    assert(is_cycle(c, edges));
    assert forall|v: u64| c.to_set().contains(v) implies w.contains(v) by {
        let m = choose|m: int| 0 <= m < c.len() && c[m] == v;
        assert(c[m] == p[hi - m]);
    }
    assert(c.to_set().subset_of(w));
}

/// No order of `nodes` makes every edge point forward when a cycle witness lies in `nodes`.
pub proof fn lemma_witness_excludes_order(nodes: Set<u64>, edges: Set<(u64, u64)>, w: Set<u64>)
    requires
        is_cycle_witness(w, edges),
        w.subset_of(nodes),
    ensures
        !has_topological_order(nodes, edges),
{
    if has_topological_order(nodes, edges) {
        let order = choose|order: Seq<u64>| is_topological_order(order, nodes, edges);
        lemma_witness_excludes_this_order(order, nodes, edges, w);
    }
}

proof fn lemma_witness_excludes_this_order(
    order: Seq<u64>,
    nodes: Set<u64>,
    edges: Set<(u64, u64)>,
    w: Set<u64>,
)
    requires
        is_cycle_witness(w, edges),
        w.subset_of(nodes),
    ensures
        !is_topological_order(order, nodes, edges),
{
    if is_topological_order(order, nodes, edges) {
        let x = choose|x: u64| w.contains(x);
        assert(order.to_set().contains(x));
        let i0 = choose|i: int| 0 <= i < order.len() && order[i] == x;
        let m = first_in(order, w, i0);
        let xm = order[m];
        assert(w.contains(xm));
        assert(has_pred_in(w, edges, xm));
        reveal(has_pred_in);
        let y = choose|y: u64| w.contains(y) && edges.contains((y, xm));
        assert(order.to_set().contains(y));
        let k = choose|k: int| 0 <= k < order.len() && order[k] == y;
        if k < m {
            assert(!w.contains(order[k]));
        } else {
            assert(!edges.contains((order[k], order[m])));
        }
    }
}

/// The first position of `order` whose node lies in `w`, given one at `i`.
proof fn first_in(order: Seq<u64>, w: Set<u64>, i: int) -> (m: int)
    requires
        0 <= i < order.len(),
        w.contains(order[i]),
    ensures
        0 <= m <= i,
        w.contains(order[m]),
        forall|k: int| 0 <= k < m ==> !w.contains(#[trigger] order[k]),
    decreases i,
{
    if exists|k: int| 0 <= k < i && w.contains(order[k]) {
        let k = choose|k: int| 0 <= k < i && w.contains(order[k]);
        first_in(order, w, k)
    } else {
        i
    }
}

impl Default for Graph {
    fn default() -> (r: Self)
        ensures
            r.wf(),
            r.edges() == Set::<(u64, u64)>::empty(),
            r.inserted() == Set::<u64>::empty(),
    {
        Self::new()
    }
}


/// An order makes every edge point forward exactly when its reverse makes every edge
/// point backward: `to_vec_rev` lists what `to_vec` lists, read from the end.
pub proof fn law_reverse_order(order: Seq<u64>, nodes: Set<u64>, edges: Set<(u64, u64)>)
    ensures
        is_topological_order(order, nodes, edges) <==> is_topological_order(
            order.reverse(),
            nodes,
            reversed(edges),
        ),
{
    let r = order.reverse();
    let n = order.len() as int;
    assert forall|x: u64| order.contains(x) <==> r.contains(x) by {
        if order.contains(x) {
            let i = choose|i: int| 0 <= i < n && order[i] == x;
            assert(r[n - 1 - i] == x);
        }
        if r.contains(x) {
            let i = choose|i: int| 0 <= i < n && r[i] == x;
            assert(order[n - 1 - i] == x);
        }
    }
    assert(order.to_set() =~= r.to_set());
    assert(order.no_duplicates() <==> r.no_duplicates()) by {
        if order.no_duplicates() {
            assert forall|a: int, b: int| 0 <= a < n && 0 <= b < n && a != b implies r[a]
                != r[b] by {
                assert(r[a] == order[n - 1 - a] && r[b] == order[n - 1 - b]);
            }
        }
        if r.no_duplicates() {
            assert forall|a: int, b: int| 0 <= a < n && 0 <= b < n && a != b implies order[a]
                != order[b] by {
                assert(r[n - 1 - a] == order[a] && r[n - 1 - b] == order[b]);
            }
        }
    }
    if is_topological_order(order, nodes, edges) {
        assert forall|i: int, j: int| 0 <= i <= j < n implies !reversed(edges).contains(
            (#[trigger] r[j], #[trigger] r[i]),
        ) by {
            assert(r[j] == order[n - 1 - j] && r[i] == order[n - 1 - i]);
        }
    }
    if is_topological_order(r, nodes, reversed(edges)) {
        assert forall|i: int, j: int| 0 <= i <= j < n implies !edges.contains(
            (#[trigger] order[j], #[trigger] order[i]),
        ) by {
            assert(r[n - 1 - j] == order[j] && r[n - 1 - i] == order[i]);
            assert(!reversed(edges).contains((r[n - 1 - i], r[n - 1 - j])));
        }
    }
}

/// `to_vec` succeeds exactly when `to_vec_rev` does.
pub proof fn law_forward_iff_backward(nodes: Set<u64>, edges: Set<(u64, u64)>)
    ensures
        has_topological_order(nodes, edges) <==> has_topological_order(nodes, reversed(edges)),
{
    if has_topological_order(nodes, edges) {
        let o = choose|o: Seq<u64>| is_topological_order(o, nodes, edges);
        law_reverse_order(o, nodes, edges);
    }
    if has_topological_order(nodes, reversed(edges)) {
        let o = choose|o: Seq<u64>| is_topological_order(o, nodes, reversed(edges));
        law_reverse_order(o.reverse(), nodes, edges);
        assert(o.reverse().reverse() =~= o);
    }
}

} // verus!
