use vstd::prelude::*;

verus! {

/// The parent that entity `c` names in the child links `links`, each a pair of a child
/// entity and the parent it names; the first pair for `c` counts.
pub open spec fn named_parent(links: Seq<(u64, u64)>, c: u64) -> Option<u64>
    decreases links.len(),
{
    if links.len() == 0 {
        None
    } else if links[0].0 == c {
        Some(links[0].1)
    } else {
        named_parent(links.drop_first(), c)
    }
}

/// `c` belongs in the child list of `p`: it is not `p` itself and its link names `p`.
pub open spec fn is_valid_child(links: Seq<(u64, u64)>, p: u64, c: u64) -> bool {
    c != p && named_parent(links, c) == Some(p)
}

/// The entries of the child list `cs` of `p` that belong there, in their order.
pub open spec fn valid_children(links: Seq<(u64, u64)>, p: u64, cs: Seq<u64>) -> Seq<u64> {
    cs.filter(|c: u64| is_valid_child(links, p, c))
}

/// The child lists `ps` with the entries that do not belong dropped.
pub open spec fn without_invalid(ps: Seq<(u64, Seq<u64>)>, links: Seq<(u64, u64)>) -> Seq<(u64, Seq<u64>)> {
    Seq::new(ps.len(), |i: int| (ps[i].0, valid_children(links, ps[i].0, ps[i].1)))
}

/// The parents' child lists, as sequences.
pub open spec fn child_lists(parents: Seq<(u64, Vec<u64>)>) -> Seq<(u64, Seq<u64>)> {
    parents.map_values(|e: (u64, Vec<u64>)| (e.0, e.1@))
}

/// The parent that entity `c` names, if any.
pub fn parent_named_by(links: &[(u64, u64)], c: u64) -> (r: Option<u64>)
    ensures
        r == named_parent(links@, c),
{
    let mut i: usize = 0;
    assert(links@.subrange(0, links@.len() as int) =~= links@);
    while i < links.len()
        invariant
            i <= links@.len(),
            named_parent(links@, c) == named_parent(links@.subrange(i as int, links@.len() as int), c),
        decreases links@.len() - i,
    {
        let ghost rest = links@.subrange(i as int, links@.len() as int);
        if links[i].0 == c {
            return Some(links[i].1);
        }
        assert(rest.drop_first() =~= links@.subrange(i + 1, links@.len() as int));
        i += 1;
    }
    assert(links@.subrange(i as int, links@.len() as int).len() == 0);
    None
}

/// The entries of `cs` that belong in the child list of `p`, in their order.
fn retain_valid_children(links: &[(u64, u64)], p: u64, cs: &Vec<u64>) -> (r: Vec<u64>)
    ensures
        r@ == valid_children(links@, p, cs@),
{
    let mut kept: Vec<u64> = Vec::new();
    let mut i: usize = 0;
    while i < cs.len()
        invariant
            i <= cs@.len(),
            kept@ == valid_children(links@, p, cs@.take(i as int)),
        decreases cs@.len() - i,
    {
        let c = cs[i];
        let keep = c != p && match parent_named_by(links, c) {
            Some(q) => q == p,
            None => false,
        };
        if keep {
            kept.push(c);
        }
        proof {
            let pred = |c: u64| is_valid_child(links@, p, c);
            let t = cs@.take(i + 1);
            assert(t.drop_last() =~= cs@.take(i as int));
            assert(t.last() == c);
            reveal(Seq::filter);
            assert(t.filter(pred) == if pred(c) {
                cs@.take(i as int).filter(pred).push(c)
            } else {
                cs@.take(i as int).filter(pred)
            });
        }
        i += 1;
    }
    assert(cs@.take(cs@.len() as int) =~= cs@);
    kept
}

/// Drops from each parent's child list the entries that are the parent itself or whose
/// link does not name that parent; the rest keep their order.
pub fn update_parents_remove_invalid_children(
    parents: &mut Vec<(u64, Vec<u64>)>,
    links: &[(u64, u64)],
)
    ensures
        child_lists(final(parents)@) == without_invalid(child_lists(old(parents)@), links@),
{
    let mut i: usize = 0;
    while i < parents.len()
        invariant
            i <= parents@.len(),
            parents@.len() == old(parents)@.len(),
            forall|k: int|
                0 <= k < i ==> (#[trigger] child_lists(parents@)[k]) == (
                    old(parents)@[k].0,
                    valid_children(links@, old(parents)@[k].0, old(parents)@[k].1@),
                ),
            forall|k: int| i <= k < parents@.len() ==> #[trigger] parents@[k] == old(parents)@[k],
        decreases parents@.len() - i,
    {
        let p = parents[i].0;
        let kept = retain_valid_children(links, p, &parents[i].1);
        let ghost prev = parents@;
        parents.set(i, (p, kept));
        proof {
            assert forall|k: int| 0 <= k <= i implies (#[trigger] child_lists(parents@)[k]) == (
                old(parents)@[k].0,
                valid_children(links@, old(parents)@[k].0, old(parents)@[k].1@),
            ) by {
                if k < i {
                    assert(parents@[k] == prev[k]);
                    assert(child_lists(prev)[k] == (prev[k].0, prev[k].1@));
                }
            }
        }
        i += 1;
    }
    assert(child_lists(parents@) =~= without_invalid(child_lists(old(parents)@), links@));
}

/// The position of the first entry for parent `p` in the child lists `ps`, if any.
pub open spec fn parent_slot(ps: Seq<(u64, Seq<u64>)>, p: u64) -> Option<int>
    decreases ps.len(),
{
    if ps.len() == 0 {
        None
    } else if ps[0].0 == p {
        Some(0)
    } else {
        match parent_slot(ps.drop_first(), p) {
            Some(j) => Some(j + 1),
            None => None,
        }
    }
}

/// The child lists after taking in the link from `c` to `p`: `c` joins the end of the
/// list of `p` unless it is there already; without a list for `p` nothing changes.
pub open spec fn with_link(ps: Seq<(u64, Seq<u64>)>, c: u64, p: u64) -> Seq<(u64, Seq<u64>)> {
    match parent_slot(ps, p) {
        Some(j) => if ps[j].1.contains(c) {
            ps
        } else {
            ps.update(j, (ps[j].0, ps[j].1.push(c)))
        },
        None => ps,
    }
}

/// The child lists after taking in each of `links` in turn.
pub open spec fn with_links(ps: Seq<(u64, Seq<u64>)>, links: Seq<(u64, u64)>) -> Seq<(u64, Seq<u64>)>
    decreases links.len(),
{
    if links.len() == 0 {
        ps
    } else {
        with_link(with_links(ps, links.drop_last()), links.last().0, links.last().1)
    }
}

proof fn lemma_parent_slot_bounds(ps: Seq<(u64, Seq<u64>)>, p: u64)
    ensures
        parent_slot(ps, p) matches Some(j) ==> 0 <= j < ps.len() && ps[j].0 == p,
        parent_slot(ps, p) is None ==> forall|k: int| 0 <= k < ps.len() ==> ps[k].0 != p,
    decreases ps.len(),
{
    if ps.len() > 0 && ps[0].0 != p {
        lemma_parent_slot_bounds(ps.drop_first(), p);
        if parent_slot(ps, p) is None {
            assert forall|k: int| 0 <= k < ps.len() implies ps[k].0 != p by {
                if k > 0 {
                    assert(ps.drop_first()[k - 1] == ps[k]);
                }
            }
        }
    }
}

/// Where the list of parent `p` is, if there is one.
fn find_parent(parents: &Vec<(u64, Vec<u64>)>, p: u64) -> (r: Option<usize>)
    ensures
        r matches Some(j) ==> parent_slot(child_lists(parents@), p) == Some(j as int),
        r is None ==> parent_slot(child_lists(parents@), p) is None,
{
    let ghost ps = child_lists(parents@);
    let mut i: usize = 0;
    assert(ps.subrange(0, ps.len() as int) =~= ps);
    while i < parents.len()
        invariant
            ps == child_lists(parents@),
            i <= parents@.len(),
            parent_slot(ps, p) == match parent_slot(ps.subrange(i as int, ps.len() as int), p) {
                Some(j) => Some(j + i),
                None => None::<int>,
            },
        decreases parents@.len() - i,
    {
        let ghost rest = ps.subrange(i as int, ps.len() as int);
        assert(rest[0] == ps[i as int]);
        assert(ps[i as int].0 == parents@[i as int].0);
        if parents[i].0 == p {
            return Some(i);
        }
        assert(rest.drop_first() =~= ps.subrange(i + 1, ps.len() as int));
        i += 1;
    }
    None
}

/// Whether `c` is in the list `cs`.
fn list_contains(cs: &Vec<u64>, c: u64) -> (r: bool)
    ensures
        r == cs@.contains(c),
{
    let mut i: usize = 0;
    while i < cs.len()
        invariant
            i <= cs@.len(),
            forall|k: int| 0 <= k < i ==> cs@[k] != c,
        decreases cs@.len() - i,
    {
        if cs[i] == c {
            return true;
        }
        i += 1;
    }
    false
}

/// Takes in each link in turn: the linked child joins the end of the list of the parent
/// it names, unless it is listed there already; a link to an entity without a child list
/// changes nothing.
pub fn update_parents_add_missing_children(
    links: &[(u64, u64)],
    parents: &mut Vec<(u64, Vec<u64>)>,
)
    ensures
        child_lists(final(parents)@) == with_links(child_lists(old(parents)@), links@),
{
    let mut k: usize = 0;
    assert(links@.take(0) =~= Seq::<(u64, u64)>::empty());
    while k < links.len()
        invariant
            k <= links@.len(),
            child_lists(parents@) == with_links(child_lists(old(parents)@), links@.take(k as int)),
        decreases links@.len() - k,
    {
        let (c, p) = links[k];
        let ghost ps = child_lists(parents@);
        proof {
            lemma_parent_slot_bounds(ps, p);
            let t = links@.take(k + 1);
            assert(t.drop_last() =~= links@.take(k as int));
            assert(t.last() == (c, p));
        }
        match find_parent(parents, p) {
            Some(j) => {
                if !list_contains(&parents[j].1, c) {
                    let mut cs = parents[j].1.clone();
                    cs.push(c);
                    parents.set(j, (p, cs));
                    proof {
                        assert(child_lists(parents@) =~= ps.update(j as int, (ps[j as int].0, ps[j as int].1.push(c))));
                    }
                }
            },
            None => {},
        }
        k += 1;
    }
    assert(links@.take(links@.len() as int) =~= links@);
}

/// Each entity has at most one child link.
pub open spec fn links_unique(links: Seq<(u64, u64)>) -> bool {
    forall|a: int, b: int|
        0 <= a < b < links.len() ==> (#[trigger] links[a]).0 != (#[trigger] links[b]).0
}

/// Each parent has at most one child list.
pub open spec fn parents_unique(ps: Seq<(u64, Seq<u64>)>) -> bool {
    forall|a: int, b: int| 0 <= a < b < ps.len() ==> (#[trigger] ps[a]).0 != (#[trigger] ps[b]).0
}

proof fn lemma_named_parent_found(links: Seq<(u64, u64)>, c: u64)
    ensures
        named_parent(links, c) matches Some(q) ==> exists|k: int|
            0 <= k < links.len() && #[trigger] links[k] == (c, q),
    decreases links.len(),
{
    if links.len() > 0 && links[0].0 != c {
        lemma_named_parent_found(links.drop_first(), c);
        if named_parent(links, c) is Some {
            let q = named_parent(links, c)->0;
            let k = choose|k: int| 0 <= k < links.len() - 1 && #[trigger] links.drop_first()[k] == (c, q);
            assert(links[k + 1] == (c, q));
        }
    } else if links.len() > 0 {
        assert(links[0] == (c, links[0].1));
    }
}

proof fn lemma_named_parent_unique(links: Seq<(u64, u64)>, k: int)
    requires
        links_unique(links),
        0 <= k < links.len(),
    ensures
        named_parent(links, links[k].0) == Some(links[k].1),
    decreases links.len(),
{
    if k > 0 {
        assert(links[0].0 != links[k].0);
        let rest = links.drop_first();
        assert forall|a: int, b: int| 0 <= a < b < rest.len() implies (#[trigger] rest[a]).0 != (
        #[trigger] rest[b]).0 by {
            assert(rest[a] == links[a + 1] && rest[b] == links[b + 1]);
        }
        assert(rest[k - 1] == links[k]);
        lemma_named_parent_unique(rest, k - 1);
    }
}

proof fn lemma_with_links_step(
    a: Seq<(u64, Seq<u64>)>,
    links: Seq<(u64, u64)>,
    n: int,
    i: int,
)
    requires
        parents_unique(a),
        0 <= i < a.len(),
        0 <= n <= links.len(),
    ensures
        with_links(a, links.take(n)).len() == a.len(),
        forall|j: int| 0 <= j < a.len() ==> #[trigger] with_links(a, links.take(n))[j].0 == a[j].0,
        with_links(a, links.take(n))[i].1.to_set() == a[i].1.to_set().union(
            Set::new(|c: u64| exists|k: int| 0 <= k < n && #[trigger] links[k] == (c, a[i].0)),
        ),
    decreases n,
{
    let p = a[i].0;
    let added = Set::new(|c: u64| exists|k: int| 0 <= k < n && #[trigger] links[k] == (c, p));
    if n == 0 {
        assert(links.take(0) =~= Seq::<(u64, u64)>::empty());
        assert(added =~= Set::<u64>::empty());
        assert(a[i].1.to_set().union(added) =~= a[i].1.to_set());
    } else {
        lemma_with_links_step(a, links, n - 1, i);
        let t = links.take(n);
        assert(t.drop_last() =~= links.take(n - 1));
        let b = with_links(a, links.take(n - 1));
        let (c, q) = links[n - 1];
        assert(t.last() == (c, q));
        assert(with_links(a, t) == with_link(b, c, q));
        let prev = Set::new(|x: u64| exists|k: int| 0 <= k < n - 1 && #[trigger] links[k] == (x, p));
        assert(parents_unique(b)) by {
            assert forall|x: int, y: int| 0 <= x < y < b.len() implies (#[trigger] b[x]).0 != (
            #[trigger] b[y]).0 by {
                assert(a[x].0 != a[y].0);
            }
        }
        lemma_parent_slot_bounds(b, q);
        let r = with_link(b, c, q);
        if q == p {
            assert(b[i].0 == p);
            assert(parent_slot(b, q) == Some(i)) by {
                if parent_slot(b, q) is Some {
                    let j = parent_slot(b, q)->0;
                    if j != i {
                        if j < i {
                            assert(b[j].0 != b[i].0);
                        } else {
                            assert(b[i].0 != b[j].0);
                        }
                    }
                }
            }
            assert(added =~= prev.insert(c)) by {
                assert(links[n - 1] == (c, p));
            }
            assert(r[i].1.to_set() =~= b[i].1.to_set().insert(c)) by {
                if !b[i].1.contains(c) {
                    assert(r[i].1 == b[i].1.push(c));
                    assert forall|x: u64| r[i].1.contains(x) <==> b[i].1.contains(x) || x == c by {
                        if r[i].1.contains(x) {
                            let m = choose|m: int| 0 <= m < r[i].1.len() && r[i].1[m] == x;
                            if m < b[i].1.len() {
                                assert(b[i].1[m] == x);
                            }
                        }
                        if b[i].1.contains(x) {
                            let m = choose|m: int| 0 <= m < b[i].1.len() && b[i].1[m] == x;
                            assert(r[i].1[m] == x);
                        }
                        if x == c {
                            assert(r[i].1[b[i].1.len() as int] == c);
                        }
                    }
                }
            }
        } else {
            assert(added =~= prev) by {
                assert(links[n - 1].1 != p);
            }
            if parent_slot(b, q) is Some {
                let j = parent_slot(b, q)->0;
                assert(j != i);
                assert(r[i] == b[i]);
            }
            assert(r[i] == b[i]);
        }
        assert forall|j: int| 0 <= j < a.len() implies #[trigger] r[j].0 == a[j].0 by {
            assert(b[j].0 == a[j].0);
        }
    }
}

/// Reconciling a parent's child list with the child links, first dropping the entries
/// that do not belong and then taking in every link, leaves exactly the entities whose
/// link names that parent, where each entity has at most one link and each parent at
/// most one list.
pub proof fn law_reconciled_children(ps: Seq<(u64, Seq<u64>)>, links: Seq<(u64, u64)>, i: int)
    requires
        links_unique(links),
        parents_unique(ps),
        0 <= i < ps.len(),
    ensures
        with_links(without_invalid(ps, links), links)[i].0 == ps[i].0,
        with_links(without_invalid(ps, links), links)[i].1.to_set() == Set::new(
            |c: u64| named_parent(links, c) == Some(ps[i].0),
        ),
{
    let a = without_invalid(ps, links);
    let p = ps[i].0;
    assert(parents_unique(a)) by {
        assert forall|x: int, y: int| 0 <= x < y < a.len() implies (#[trigger] a[x]).0 != (
        #[trigger] a[y]).0 by {
            assert(ps[x].0 != ps[y].0);
        }
    }
    lemma_with_links_step(a, links, links.len() as int, i);
    assert(links.take(links.len() as int) =~= links);
    let kept = a[i].1;
    let pred = |c: u64| is_valid_child(links, p, c);
    assert(kept == ps[i].1.filter(pred));
    let named = Set::new(|c: u64| named_parent(links, c) == Some(p));
    let linked = Set::new(
        |c: u64| exists|k: int| 0 <= k < links.len() && #[trigger] links[k] == (c, p),
    );
    assert(linked =~= named) by {
        assert forall|c: u64| linked.contains(c) <==> named.contains(c) by {
            if linked.contains(c) {
                let k = choose|k: int| 0 <= k < links.len() && #[trigger] links[k] == (c, p);
                lemma_named_parent_unique(links, k);
            }
            lemma_named_parent_found(links, c);
        }
    }
    assert(kept.to_set().union(linked) =~= named) by {
        assert forall|c: u64| kept.to_set().contains(c) implies named.contains(c) by {
            let m = choose|m: int| 0 <= m < kept.len() && kept[m] == c;
            ps[i].1.lemma_filter_pred(pred, m);
        }
    }
}

} // verus!
