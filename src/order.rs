//! What the node walk guarantees over a whole run: each reachable node once,
//! in pre-order, and pruning keeps the walk out of the pruned subtree.
use vstd::prelude::*;
use crate::tree::{climb, linked, node_links_wf, points_to, walk_next, walk_successor, DevInfo};

verus! {

/// Whether `a` is a proper ancestor of node `n`.
pub open spec fn is_ancestor(t: DevInfo, a: nat, n: nat) -> bool
    decreases n,
{
    match t.parent_of(n as int) {
        Some(p) => (p as nat) < n && (a == p || is_ancestor(t, a, p as nat)),
        None => false,
    }
}

/// The position and the finished flag of a walk without pruning after `k`
/// steps.
pub open spec fn walk_run(t: DevInfo, k: nat) -> (Option<usize>, bool)
    decreases k,
{
    if k == 0 {
        (None, false)
    } else {
        let (pos, fin) = walk_run(t, (k - 1) as nat);
        match walk_next(t, pos, fin, false) {
            Some(n) => (Some(n), false),
            None => (pos, true),
        }
    }
}

/// The node that step `k` of a walk without pruning yields, if any.
pub open spec fn walk_yield(t: DevInfo, k: nat) -> Option<usize> {
    walk_next(t, walk_run(t, k).0, walk_run(t, k).1, false)
}

proof fn lemma_ancestor_trans(t: DevInfo, x: nat, a: nat, n: nat)
    requires
        is_ancestor(t, x, a),
        is_ancestor(t, a, n),
    ensures
        is_ancestor(t, x, n),
    decreases n,
{
    let p = t.parent_of(n as int)->Some_0 as nat;
    if a != p {
        lemma_ancestor_trans(t, x, a, p);
    }
}

proof fn lemma_ancestor_below(t: DevInfo, a: nat, n: nat)
    requires
        is_ancestor(t, a, n),
    ensures
        a < n,
    decreases n,
{
    let p = t.parent_of(n as int)->Some_0 as nat;
    if a != p {
        lemma_ancestor_below(t, a, p);
    }
}

/// Where `climb` lands: on the next sibling of a proper ancestor.
proof fn lemma_climb_sibling(t: DevInfo, c: nat)
    requires
        t.wf(),
        c < t.nodes().len(),
        climb(t, c) is Some,
    ensures
        exists|a: nat| #[trigger] is_ancestor(t, a, c) && t.sibling_of(a as int) == climb(t, c),
    decreases c,
{
    let p = t.parent_of(c as int)->Some_0;
    assert(node_links_wf(t.nodes(), c as int));
    if t.sibling_of(p as int) is Some {
        assert(is_ancestor(t, p as nat, c));
    } else {
        lemma_climb_sibling(t, p as nat);
        let a = choose|a: nat| #[trigger] is_ancestor(t, a, p as nat) && t.sibling_of(a as int)
            == climb(t, p as nat);
        assert(is_ancestor(t, a, c));
    }
}

/// A node's next sibling has the node's proper ancestors, and only those.
proof fn lemma_sibling_ancestors(t: DevInfo, c: nat, a: nat)
    requires
        t.wf(),
        c < t.nodes().len(),
        t.sibling_of(c as int) is Some,
    ensures
        is_ancestor(t, a, t.sibling_of(c as int)->Some_0 as nat) == is_ancestor(t, a, c),
{
    let s = t.sibling_of(c as int)->Some_0;
    assert(node_links_wf(t.nodes(), c as int));
    assert(node_links_wf(t.nodes(), s as int));
    assert(c != 0);
    assert(s != 0);
}

/// A walk without pruning is in pre-order, and each position it takes lies
/// in the tree with all its proper ancestors yielded before.
proof fn lemma_run_ancestors(t: DevInfo, k: nat)
    requires
        t.wf(),
    ensures
        walk_run(t, k).0 matches Some(c) ==> c < t.nodes().len() && exists|j: nat| j < k && walk_yield(t, j)
            == Some(c),
        walk_run(t, k).0 matches Some(c) ==> forall|a: nat| #[trigger] is_ancestor(t, a, c as nat) ==> exists|j: nat|
            j < k && walk_yield(t, j) == Some(a as usize),
        walk_run(t, k).0 is None ==> k == 0,
        walk_yield(t, k) matches Some(n) ==> n < t.nodes().len(),
    decreases k,
{
    if k > 0 {
        lemma_run_ancestors(t, (k - 1) as nat);
    }
    let (pos, fin) = walk_run(t, k);
    if let Some(c) = pos {
        assert(node_links_wf(t.nodes(), c as int));
        if climb(t, c as nat) is Some {
            lemma_climb_sibling(t, c as nat);
            let a = choose|a: nat| #[trigger] is_ancestor(t, a, c as nat) && t.sibling_of(a as int)
                == climb(t, c as nat);
            lemma_ancestor_below(t, a, c as nat);
            assert(node_links_wf(t.nodes(), a as int));
        }
    }
    if k > 0 {
        let (pp, pf) = walk_run(t, (k - 1) as nat);
        let m = walk_next(t, pp, pf, false);
        if let Some(n) = m {
            assert(walk_run(t, k).0 == Some(n));
            assert(walk_yield(t, (k - 1) as nat) == Some(n));
            assert forall|a: nat| #[trigger] is_ancestor(t, a, n as nat) implies exists|j: nat|
                j < k && walk_yield(t, j) == Some(a as usize) by {
                lemma_step_ancestors(t, pp, pf, n, a);
                if let Some(c) = pp {
                    if a == c {
                        let j = choose|j: nat| j < k - 1 && walk_yield(t, j) == Some(c);
                        assert(j < k);
                    } else {
                        let j = choose|j: nat| j < k - 1 && walk_yield(t, j) == Some(a as usize);
                        assert(j < k);
                    }
                }
            }
        } else {
            assert(walk_run(t, k).0 == pp);
            if let Some(c) = pp {
                let j = choose|j: nat| j < k - 1 && walk_yield(t, j) == Some(c);
                assert(j < k);
                assert forall|a: nat| #[trigger] is_ancestor(t, a, c as nat) implies exists|j: nat|
                    j < k && walk_yield(t, j) == Some(a as usize) by {
                    let j = choose|j: nat| j < k - 1 && walk_yield(t, j) == Some(a as usize);
                    assert(j < k);
                }
            }
        }
    }
}

/// The proper ancestors of the node that one step yields are the node it
/// started from and that node's proper ancestors.
proof fn lemma_step_ancestors(t: DevInfo, pos: Option<usize>, fin: bool, n: usize, a: nat)
    requires
        t.wf(),
        pos matches Some(c) ==> c < t.nodes().len(),
        walk_next(t, pos, fin, false) == Some(n),
        is_ancestor(t, a, n as nat),
    ensures
        pos matches Some(c) && (a == c || is_ancestor(t, a, c as nat)),
{
    match pos {
        None => {
            assert(n == 0);
            assert(t.parent_of(0) is None);
            assert(!is_ancestor(t, a, 0));
        },
        Some(c) => {
            assert(node_links_wf(t.nodes(), c as int));
            if t.child_of(c as int) is Some {
                let ch = t.child_of(c as int)->Some_0;
                assert(ch == n);
                assert(ch < t.nodes().len());
                assert(node_links_wf(t.nodes(), ch as int));
                assert(t.parent_of(ch as int) == Some(c));
            } else if t.sibling_of(c as int) is Some {
                lemma_sibling_ancestors(t, c as nat, a);
            } else {
                lemma_climb_sibling(t, c as nat);
                let b = choose|b: nat| #[trigger] is_ancestor(t, b, c as nat) && t.sibling_of(b as int)
                    == climb(t, c as nat);
                lemma_ancestor_below(t, b, c as nat);
                lemma_sibling_ancestors(t, b, a);
                lemma_ancestor_trans(t, a, b, c as nat);
            }
        },
    }
}

/// Pre-order: in a walk without pruning, every proper ancestor of a node
/// is yielded before the node itself.
pub proof fn lemma_walk_preorder(t: DevInfo, k: nat, a: nat)
    requires
        t.wf(),
        walk_yield(t, k) matches Some(n) && is_ancestor(t, a, n as nat),
    ensures
        exists|j: nat| j < k && walk_yield(t, j) == Some(a as usize),
{
    let n = walk_yield(t, k)->Some_0;
    lemma_run_ancestors(t, k);
    lemma_step_ancestors(t, walk_run(t, k).0, walk_run(t, k).1, n, a);
    let c = walk_run(t, k).0->Some_0;
    if a != c {
        assert(is_ancestor(t, a, c as nat));
    }
}

/// The nodes reachable from node `i` through first-child and next-sibling
/// links, in pre-order: `i`, then its subtree, then the subtrees of its
/// later siblings in turn. `preorder(t, 0)` lists the whole tree.
pub open spec fn preorder(t: DevInfo, i: nat) -> Seq<usize>
    decreases t.nodes().len() - i,
{
    let below = match t.child_of(i as int) {
        Some(c) => if i < c < t.nodes().len() { preorder(t, c as nat) } else { Seq::empty() },
        None => Seq::empty(),
    };
    let after = match t.sibling_of(i as int) {
        Some(s) => if i < s < t.nodes().len() { preorder(t, s as nat) } else { Seq::empty() },
        None => Seq::empty(),
    };
    seq![i as usize] + below + after
}

/// Whether `x` is `y` or lies below it.
pub open spec fn under(t: DevInfo, x: nat, y: nat) -> bool {
    x == y || is_ancestor(t, y, x)
}

proof fn lemma_child_after(t: DevInfo, i: nat)
    requires
        t.wf(),
        i < t.nodes().len(),
    ensures
        t.child_of(i as int) matches Some(c) ==> i < c < t.nodes().len() && t.parent_of(c as int)
            == Some(i as usize),
        t.sibling_of(i as int) matches Some(s) ==> i < s < t.nodes().len() && t.parent_of(s as int)
            == t.parent_of(i as int) && i > 0,
        i > 0 ==> (t.parent_of(i as int) matches Some(p) && p < i),
{
    assert(node_links_wf(t.nodes(), i as int));
    if let Some(c) = t.child_of(i as int) {
        assert(t.parent_of(c as int) == Some(i as usize));
        assert(node_links_wf(t.nodes(), c as int));
        assert(c != 0);
        assert(c > i);
    }
}

/// Each step of a walk without pruning moves along `preorder(t, i)`, and
/// its last node hands over to where `i` climbs to.
proof fn lemma_preorder_steps(t: DevInfo, i: nat)
    requires
        t.wf(),
        i < t.nodes().len(),
    ensures
        ({
            let f = preorder(t, i);
            &&& f.len() >= 1
            &&& f[0] == i
            &&& forall|q: int| 0 <= q < f.len() ==> i <= #[trigger] f[q] < t.nodes().len()
            &&& forall|q: int| 0 <= q < f.len() - 1 ==> walk_successor(t, #[trigger] f[q] as nat, false)
                == Some(f[q + 1])
            &&& walk_successor(t, f.last() as nat, false) == climb(t, i)
        }),
    decreases t.nodes().len() - i,
{
    lemma_child_after(t, i);
    let f = preorder(t, i);
    let head = seq![i as usize];
    let below = match t.child_of(i as int) {
        Some(c) => preorder(t, c as nat),
        None => Seq::empty(),
    };
    let after = match t.sibling_of(i as int) {
        Some(s) => preorder(t, s as nat),
        None => Seq::empty(),
    };
    assert(f == head + below + after);
    if let Some(c) = t.child_of(i as int) {
        lemma_preorder_steps(t, c as nat);
        lemma_child_after(t, c as nat);
    }
    if let Some(s) = t.sibling_of(i as int) {
        lemma_preorder_steps(t, s as nat);
        lemma_child_after(t, s as nat);
        assert(climb(t, s as nat) == climb(t, i));
    }
    let hb = head + below;
    assert forall|q: int| 0 <= q < f.len() implies i <= #[trigger] f[q] < t.nodes().len() by {
        if q >= hb.len() {
            assert(f[q] == after[q - hb.len()]);
        } else if q >= 1 {
            assert(f[q] == below[q - 1]);
        }
    }
    assert forall|q: int| 0 <= q < f.len() - 1 implies walk_successor(t, #[trigger] f[q] as nat, false)
        == Some(f[q + 1]) by {
        if q == 0 {
            if below.len() == 0 {
                assert(f[1] == after[0]);
            } else {
                assert(f[1] == below[0]);
            }
        } else if q < hb.len() - 1 {
            assert(f[q] == below[q - 1]);
            assert(f[q + 1] == below[q]);
        } else if q == hb.len() - 1 {
            assert(f[q] == below[q - 1]);
            assert(f[q + 1] == after[0]);
            assert(below.last() == below[q - 1]);
        } else {
            assert(f[q] == after[q - hb.len()]);
            assert(f[q + 1] == after[q + 1 - hb.len()]);
        }
    }
    if after.len() > 0 {
        assert(f.last() == after.last());
    } else if below.len() > 0 {
        assert(f.last() == below.last());
    } else {
        assert(f.last() == i);
    }
}

/// Where a node reached from `j` through first-child and next-sibling links
/// lies: below some node that shares `j`'s parent and is not before `j`.
proof fn lemma_preorder_place(t: DevInfo, j: nat, q: int)
    requires
        t.wf(),
        j < t.nodes().len(),
        0 <= q < preorder(t, j).len(),
    ensures
        exists|y: nat| #![trigger under(t, preorder(t, j)[q] as nat, y)]
            j <= y < t.nodes().len() && t.parent_of(y as int) == t.parent_of(j as int)
            && under(t, preorder(t, j)[q] as nat, y),
    decreases t.nodes().len() - j,
{
    lemma_child_after(t, j);
    let f = preorder(t, j);
    let x = f[q];
    let below = match t.child_of(j as int) {
        Some(c) => preorder(t, c as nat),
        None => Seq::empty(),
    };
    let hb = seq![j as usize] + below;
    if q == 0 {
        assert(under(t, x as nat, j));
    } else if q < hb.len() {
        let c = t.child_of(j as int)->Some_0;
        assert(x == below[q - 1]);
        lemma_preorder_place(t, c as nat, q - 1);
        let y = choose|y: nat| #![trigger under(t, below[q - 1] as nat, y)]
            c <= y < t.nodes().len() && t.parent_of(y as int) == t.parent_of(c as int)
            && under(t, below[q - 1] as nat, y);
        lemma_child_after(t, y);
        assert(is_ancestor(t, j, y));
        if x != y {
            lemma_ancestor_trans(t, j, y, x as nat);
        }
        assert(under(t, x as nat, j));
    } else {
        let s = t.sibling_of(j as int)->Some_0;
        let after = preorder(t, s as nat);
        assert(x == after[q - hb.len()]);
        lemma_preorder_place(t, s as nat, q - hb.len());
        let y = choose|y: nat| #![trigger under(t, after[q - hb.len()] as nat, y)]
            s <= y < t.nodes().len() && t.parent_of(y as int) == t.parent_of(s as int)
            && under(t, after[q - hb.len()] as nat, y);
        assert(under(t, x as nat, y));
    }
}

/// Two nodes with one parent that both lie over `x` are the same node.
proof fn lemma_one_per_level(t: DevInfo, x: nat, i: nat, y: nat)
    requires
        t.wf(),
        x < t.nodes().len(),
        under(t, x, i),
        under(t, x, y),
        t.parent_of(i as int) is Some,
        t.parent_of(i as int) == t.parent_of(y as int),
    ensures
        i == y,
    decreases x,
{
    lemma_child_after(t, x);
    let p = t.parent_of(i as int)->Some_0;
    if x == i && x != y {
        lemma_ancestor_below(t, y, x);
        lemma_child_after(t, y);
        assert(is_ancestor(t, y, i));
        assert(p == y || is_ancestor(t, y, p as nat));
        if p != y {
            lemma_ancestor_below(t, y, p as nat);
        }
    } else if x == y && x != i {
        lemma_ancestor_below(t, i, x);
        lemma_child_after(t, i);
        assert(p == i || is_ancestor(t, i, p as nat));
        if p != i {
            lemma_ancestor_below(t, i, p as nat);
        }
    } else if x != i && x != y {
        let px = t.parent_of(x as int)->Some_0;
        lemma_one_per_level(t, px as nat, i, y);
    }
}

/// `preorder(t, i)` holds no node twice.
proof fn lemma_preorder_distinct(t: DevInfo, i: nat)
    requires
        t.wf(),
        i < t.nodes().len(),
    ensures
        preorder(t, i).no_duplicates(),
    decreases t.nodes().len() - i,
{
    lemma_child_after(t, i);
    lemma_preorder_steps(t, i);
    let f = preorder(t, i);
    let below = match t.child_of(i as int) {
        Some(c) => preorder(t, c as nat),
        None => Seq::empty(),
    };
    let after = match t.sibling_of(i as int) {
        Some(s) => preorder(t, s as nat),
        None => Seq::empty(),
    };
    let hb = seq![i as usize] + below;
    assert(f == hb + after);
    if let Some(c) = t.child_of(i as int) {
        lemma_preorder_distinct(t, c as nat);
        lemma_preorder_steps(t, c as nat);
    }
    if let Some(s) = t.sibling_of(i as int) {
        lemma_preorder_distinct(t, s as nat);
        lemma_preorder_steps(t, s as nat);
    }
    assert forall|a: int, b: int| 0 <= a < b < f.len() implies f[a] != f[b] by {
        if a == 0 {
            assert(f[b] > i);
        } else if b < hb.len() {
            assert(f[a] == below[a - 1] && f[b] == below[b - 1]);
        } else if a >= hb.len() {
            assert(f[a] == after[a - hb.len()] && f[b] == after[b - hb.len()]);
        } else {
            let c = t.child_of(i as int)->Some_0;
            let s = t.sibling_of(i as int)->Some_0;
            assert(f[a] == below[a - 1] && f[b] == after[b - hb.len()]);
            lemma_preorder_place(t, c as nat, a - 1);
            lemma_preorder_place(t, s as nat, b - hb.len());
            let ya = choose|y: nat| #![trigger under(t, below[a - 1] as nat, y)]
                c <= y < t.nodes().len() && t.parent_of(y as int) == t.parent_of(c as int)
                && under(t, below[a - 1] as nat, y);
            let yb = choose|y: nat| #![trigger under(t, after[b - hb.len()] as nat, y)]
                s <= y < t.nodes().len() && t.parent_of(y as int) == t.parent_of(s as int)
                && under(t, after[b - hb.len()] as nat, y);
            if f[a] == f[b] {
                let x = f[a] as nat;
                lemma_child_after(t, ya);
                assert(is_ancestor(t, i, ya));
                if x != ya {
                    lemma_ancestor_trans(t, i, ya, x);
                }
                assert(under(t, x, i));
                lemma_one_per_level(t, x, i, yb);
            }
        }
    }
}

/// Every first child and next sibling of a node listed in `preorder(t, i)`
/// is listed too.
proof fn lemma_preorder_closed(t: DevInfo, i: nat)
    requires
        t.wf(),
        i < t.nodes().len(),
    ensures
        forall|q: int| 0 <= q < preorder(t, i).len() ==> (t.child_of(#[trigger] preorder(t, i)[q] as int)
            matches Some(c) ==> preorder(t, i).contains(c)),
        forall|q: int| 0 <= q < preorder(t, i).len() ==> (t.sibling_of(#[trigger] preorder(t, i)[q] as int)
            matches Some(s) ==> preorder(t, i).contains(s)),
    decreases t.nodes().len() - i,
{
    lemma_child_after(t, i);
    let f = preorder(t, i);
    let below = match t.child_of(i as int) {
        Some(c) => preorder(t, c as nat),
        None => Seq::empty(),
    };
    let after = match t.sibling_of(i as int) {
        Some(s) => preorder(t, s as nat),
        None => Seq::empty(),
    };
    let hb = seq![i as usize] + below;
    assert(f == hb + after);
    if let Some(c) = t.child_of(i as int) {
        lemma_preorder_closed(t, c as nat);
        lemma_preorder_steps(t, c as nat);
        assert(f[1] == c);
    }
    if let Some(s) = t.sibling_of(i as int) {
        lemma_preorder_closed(t, s as nat);
        lemma_preorder_steps(t, s as nat);
        assert(f[hb.len() as int] == s);
    }
    assert forall|q: int| 0 <= q < f.len() implies (t.child_of(#[trigger] f[q] as int) matches Some(c)
        ==> f.contains(c)) && (t.sibling_of(f[q] as int) matches Some(s) ==> f.contains(s)) by {
        if q >= hb.len() {
            let r = q - hb.len();
            assert(f[q] == after[r]);
            if let Some(c) = t.child_of(f[q] as int) {
                let w = choose|w: int| 0 <= w < after.len() && after[w] == c;
                assert(f[hb.len() + w] == c);
            }
            if let Some(s) = t.sibling_of(f[q] as int) {
                let w = choose|w: int| 0 <= w < after.len() && after[w] == s;
                assert(f[hb.len() + w] == s);
            }
        } else if q >= 1 {
            assert(f[q] == below[q - 1]);
            if let Some(c) = t.child_of(f[q] as int) {
                let w = choose|w: int| 0 <= w < below.len() && below[w] == c;
                assert(f[1 + w] == c);
            }
            if let Some(s) = t.sibling_of(f[q] as int) {
                let w = choose|w: int| 0 <= w < below.len() && below[w] == s;
                assert(f[1 + w] == s);
            }
        }
    }
}

/// After `k` steps, for `k` from 1 to the length of the whole pre-order
/// list, a walk without pruning stands on the `k`-th node of that list; later
/// it is over, still standing on the last node.
proof fn lemma_run_follows(t: DevInfo, k: nat)
    requires
        t.wf(),
        k >= 1,
    ensures
        k <= preorder(t, 0).len() ==> walk_run(t, k) == (Some(preorder(t, 0)[k - 1]), false),
        k > preorder(t, 0).len() ==> walk_run(t, k) == (Some(preorder(t, 0).last()), true),
    decreases k,
{
    let f = preorder(t, 0);
    lemma_preorder_steps(t, 0);
    lemma_child_after(t, 0);
    assert(climb(t, 0) is None);
    assert(walk_run(t, 0) == (None::<usize>, false));
    if k > 1 {
        lemma_run_follows(t, (k - 1) as nat);
        if k - 1 < f.len() {
            assert(walk_successor(t, f[k - 2] as nat, false) == Some(f[k - 1]));
        }
    }
}

/// Every node of the snapshot is on the whole pre-order list.
proof fn lemma_all_listed(t: DevInfo, x: nat)
    requires
        t.wf(),
        x < t.nodes().len(),
    ensures
        preorder(t, 0).contains(x as usize),
    decreases x,
{
    lemma_preorder_steps(t, 0);
    lemma_preorder_closed(t, 0);
    let f = preorder(t, 0);
    if x == 0 {
        assert(f[0] == 0);
    } else {
        assert(linked(t.nodes(), x as int));
        let j = choose|j: int| 0 <= j < t.nodes().len() && #[trigger] points_to(t.nodes(), j, x as int);
        lemma_child_after(t, j as nat);
        lemma_child_after(t, x);
        lemma_all_listed(t, j as nat);
        let q = choose|q: int| 0 <= q < f.len() && f[q] == j as usize;
        assert(t.child_of(f[q] as int) == t.child_of(j));
    }
}

/// A walk without pruning yields exactly the nodes reachable from the root
/// through first-child and next-sibling links, each once and in pre-order,
/// and then reports that it is over: its `k`-th step yields the `k`-th node
/// of `preorder(t, 0)`, a list without repetition that holds the first
/// child and the next sibling of each node in it, and every node of the
/// snapshot.
pub proof fn lemma_walk_visits_each_once(t: DevInfo, k: nat)
    requires
        t.wf(),
    ensures
        preorder(t, 0).no_duplicates(),
        preorder(t, 0)[0] == 0,
        forall|q: int| 0 <= q < preorder(t, 0).len() ==> (t.child_of(#[trigger] preorder(t, 0)[q] as int)
            matches Some(c) ==> preorder(t, 0).contains(c)),
        forall|q: int| 0 <= q < preorder(t, 0).len() ==> (t.sibling_of(#[trigger] preorder(t, 0)[q] as int)
            matches Some(s) ==> preorder(t, 0).contains(s)),
        k < preorder(t, 0).len() ==> walk_yield(t, k) == Some(preorder(t, 0)[k as int]),
        k >= preorder(t, 0).len() ==> walk_yield(t, k) is None,
        forall|x: usize| x < t.nodes().len() ==> #[trigger] preorder(t, 0).contains(x),
{
    let f = preorder(t, 0);
    assert forall|x: usize| x < t.nodes().len() implies #[trigger] preorder(t, 0).contains(x) by {
        lemma_all_listed(t, x as nat);
    }
    lemma_preorder_distinct(t, 0);
    lemma_preorder_closed(t, 0);
    lemma_preorder_steps(t, 0);
    lemma_child_after(t, 0);
    assert(climb(t, 0) is None);
    if k >= 1 {
        lemma_run_follows(t, k);
        if k < f.len() {
            assert(walk_successor(t, f[k - 1] as nat, false) == Some(f[k as int]));
        }
    }
}

/// Whether `z` follows `y` in the chain of next-sibling links.
pub open spec fn later_sibling(t: DevInfo, y: nat, z: nat) -> bool
    decreases t.nodes().len() - y,
{
    match t.sibling_of(y as int) {
        Some(s) => y < s < t.nodes().len() && (s == z || later_sibling(t, s as nat, z)),
        None => false,
    }
}

proof fn lemma_later_sibling(t: DevInfo, y: nat, z: nat)
    requires
        t.wf(),
        later_sibling(t, y, z),
    ensures
        0 < y < z < t.nodes().len(),
        t.parent_of(z as int) == t.parent_of(y as int),
    decreases t.nodes().len() - y,
{
    let s = t.sibling_of(y as int)->Some_0;
    lemma_child_after(t, y);
    if s != z {
        lemma_later_sibling(t, s as nat, z);
    }
}

/// Two nodes that share a parent have the same proper ancestors.
proof fn lemma_same_parent(t: DevInfo, c: nat, s: nat, a: nat)
    requires
        t.wf(),
        0 < c < t.nodes().len(),
        0 < s < t.nodes().len(),
        t.parent_of(c as int) == t.parent_of(s as int),
    ensures
        is_ancestor(t, a, c) == is_ancestor(t, a, s),
{
    lemma_child_after(t, c);
    lemma_child_after(t, s);
}

/// A walk that stands on `c` can no longer reach `n` or anything below it:
/// `c` is neither below `n` nor above it, and no later sibling of `c` or of
/// one of its ancestors lies over `n`.
pub open spec fn clear_of(t: DevInfo, c: nat, n: nat) -> bool {
    &&& !under(t, c, n)
    &&& !is_ancestor(t, c, n)
    &&& forall|y: nat, z: nat| #![trigger under(t, c, y), later_sibling(t, y, z)]
        under(t, c, y) && later_sibling(t, y, z) ==> !under(t, n, z)
}

/// Pruning the subtree of `n` leaves the walk clear of it.
proof fn lemma_prune_clear(t: DevInfo, n: nat, m: usize)
    requires
        t.wf(),
        n < t.nodes().len(),
        walk_successor(t, n, true) == Some(m),
    ensures
        clear_of(t, m as nat, n),
{
    lemma_child_after(t, n);
    if let Some(s) = t.sibling_of(n as int) {
        assert(m == s);
        lemma_child_after(t, s as nat);
        lemma_same_parent(t, n, s as nat, n);
        if is_ancestor(t, m as nat, n) {
            lemma_ancestor_below(t, m as nat, n);
        }
        if is_ancestor(t, n, n) {
            lemma_ancestor_below(t, n, n);
        }
        assert(!under(t, m as nat, n));
        assert(!is_ancestor(t, m as nat, n));
        assert forall|y: nat, z: nat| #![trigger under(t, m as nat, y), later_sibling(t, y, z)]
            under(t, m as nat, y) && later_sibling(t, y, z) implies !under(t, n, z) by {
            lemma_later_sibling(t, y, z);
            if y == m {
                if is_ancestor(t, z, n) {
                    lemma_ancestor_below(t, z, n);
                }
            } else {
                lemma_ancestor_below(t, y, m as nat);
                lemma_same_parent(t, n, s as nat, y);
                if under(t, n, z) {
                    lemma_child_after(t, y);
                    lemma_one_per_level(t, n, y, z);
                }
            }
        }
    } else {
        lemma_climb_sibling(t, n);
        let a = choose|a: nat| #[trigger] is_ancestor(t, a, n) && t.sibling_of(a as int) == climb(t, n);
        lemma_ancestor_below(t, a, n);
        lemma_child_after(t, a);
        lemma_child_after(t, m as nat);
        lemma_same_parent(t, a, m as nat, n);
        if m as nat == n {
            lemma_one_per_level(t, n, n, a);
        }
        if is_ancestor(t, m as nat, n) {
            lemma_one_per_level(t, n, m as nat, a);
        }
        if is_ancestor(t, n, a) {
            lemma_ancestor_below(t, n, a);
        }
        assert(!under(t, m as nat, n));
        assert(!is_ancestor(t, m as nat, n));
        assert forall|y: nat, z: nat| #![trigger under(t, m as nat, y), later_sibling(t, y, z)]
            under(t, m as nat, y) && later_sibling(t, y, z) implies !under(t, n, z) by {
            lemma_later_sibling(t, y, z);
            if under(t, n, z) {
                if y == m {
                    lemma_one_per_level(t, n, z, a);
                } else {
                    lemma_ancestor_below(t, y, m as nat);
                    lemma_same_parent(t, a, m as nat, y);
                    lemma_ancestor_trans(t, y, a, n);
                    lemma_child_after(t, y);
                    lemma_one_per_level(t, n, y, z);
                }
            }
        }
    }
}

/// A step from a node clear of `n` leads to a node clear of `n`, whether
/// or not the step prunes.
proof fn lemma_step_clear(t: DevInfo, c: nat, skip: bool, n: nat, m: usize)
    requires
        t.wf(),
        c < t.nodes().len(),
        n < t.nodes().len(),
        clear_of(t, c, n),
        walk_successor(t, c, skip) == Some(m),
    ensures
        clear_of(t, m as nat, n),
{
    lemma_child_after(t, c);
    assert(under(t, c, c));
    if !skip && t.child_of(c as int) is Some {
        lemma_child_after(t, m as nat);
        assert(is_ancestor(t, c, m as nat));
        if m as nat == n {
            assert(is_ancestor(t, c, n));
        }
        if is_ancestor(t, m as nat, n) {
            lemma_ancestor_trans(t, c, m as nat, n);
        }
        assert forall|y: nat, z: nat| #![trigger under(t, m as nat, y), later_sibling(t, y, z)]
            under(t, m as nat, y) && later_sibling(t, y, z) implies !under(t, n, z) by {
            lemma_later_sibling(t, y, z);
            if y == m {
                lemma_child_after(t, z);
                assert(is_ancestor(t, c, z));
                if is_ancestor(t, z, n) {
                    lemma_ancestor_trans(t, c, z, n);
                }
            } else {
                assert(under(t, c, y));
            }
        }
    } else if t.sibling_of(c as int) is Some {
        lemma_child_after(t, m as nat);
        assert(later_sibling(t, c, m as nat));
        lemma_same_parent(t, c, m as nat, n);
        assert forall|y: nat, z: nat| #![trigger under(t, m as nat, y), later_sibling(t, y, z)]
            under(t, m as nat, y) && later_sibling(t, y, z) implies !under(t, n, z) by {
            if y == m {
                assert(later_sibling(t, c, z));
            } else {
                lemma_same_parent(t, c, m as nat, y);
                assert(under(t, c, y));
            }
        }
    } else {
        lemma_climb_sibling(t, c);
        let a = choose|a: nat| #[trigger] is_ancestor(t, a, c) && t.sibling_of(a as int) == climb(t, c);
        lemma_ancestor_below(t, a, c);
        lemma_child_after(t, a);
        lemma_child_after(t, m as nat);
        assert(under(t, c, a));
        assert(later_sibling(t, a, m as nat));
        lemma_same_parent(t, a, m as nat, n);
        if is_ancestor(t, n, a) {
            lemma_ancestor_trans(t, n, a, c);
        }
        assert forall|y: nat, z: nat| #![trigger under(t, m as nat, y), later_sibling(t, y, z)]
            under(t, m as nat, y) && later_sibling(t, y, z) implies !under(t, n, z) by {
            if y == m {
                assert(later_sibling(t, a, z));
            } else {
                lemma_same_parent(t, a, m as nat, y);
                lemma_ancestor_trans(t, y, a, c);
                assert(under(t, c, y));
            }
        }
    }
}

/// The position and the finished flag of a walk after `k` steps, where the
/// caller prunes the subtree of each yielded node in `prune`. By the
/// contracts of `DevInfo::walk_node`, `NodeWalk::next` and
/// `NodeWalk::skip_children`, this is the walk's own `position()` and
/// `finished()` after `k` calls of `next` when the caller calls
/// `skip_children` right after each node of `prune` is yielded.
pub open spec fn walk_run_pruning(t: DevInfo, prune: Set<usize>, k: nat) -> (Option<usize>, bool)
    decreases k,
{
    if k == 0 {
        (None, false)
    } else {
        let (pos, fin) = walk_run_pruning(t, prune, (k - 1) as nat);
        let skip = pos matches Some(c) && prune.contains(c);
        match walk_next(t, pos, fin, skip) {
            Some(n) => (Some(n), false),
            None => (pos, true),
        }
    }
}

/// The node that step `k` of such a walk yields, if any.
pub open spec fn walk_yield_pruning(t: DevInfo, prune: Set<usize>, k: nat) -> Option<usize> {
    let (pos, fin) = walk_run_pruning(t, prune, k);
    walk_next(t, pos, fin, pos matches Some(c) && prune.contains(c))
}

proof fn lemma_successor_in(t: DevInfo, c: nat, skip: bool)
    requires
        t.wf(),
        c < t.nodes().len(),
    ensures
        walk_successor(t, c, skip) matches Some(m) ==> m < t.nodes().len(),
{
    lemma_child_after(t, c);
    if climb(t, c) is Some {
        lemma_climb_sibling(t, c);
        let a = choose|a: nat| #[trigger] is_ancestor(t, a, c) && t.sibling_of(a as int) == climb(t, c);
        lemma_ancestor_below(t, a, c);
        lemma_child_after(t, a);
    }
}

proof fn lemma_run_pruning_in(t: DevInfo, prune: Set<usize>, k: nat)
    requires
        t.wf(),
    ensures
        walk_run_pruning(t, prune, k).0 matches Some(c) ==> c < t.nodes().len(),
        walk_yield_pruning(t, prune, k) matches Some(m) ==> m < t.nodes().len()
            && walk_run_pruning(t, prune, k + 1) == (Some(m), false),
        walk_yield_pruning(t, prune, k) is None ==> walk_run_pruning(t, prune, k + 1).1,
    decreases k,
{
    if k > 0 {
        lemma_run_pruning_in(t, prune, (k - 1) as nat);
    }
    if let Some(c) = walk_run_pruning(t, prune, k).0 {
        lemma_successor_in(t, c as nat, prune.contains(c));
    }
}

proof fn lemma_clear_after_prune(t: DevInfo, prune: Set<usize>, k: nat, n: usize, j: nat)
    requires
        t.wf(),
        walk_yield_pruning(t, prune, k) == Some(n),
        prune.contains(n),
        k < j,
    ensures
        walk_yield_pruning(t, prune, j) matches Some(m) ==> clear_of(t, m as nat, n as nat),
    decreases j,
{
    lemma_run_pruning_in(t, prune, k);
    lemma_run_pruning_in(t, prune, (j - 1) as nat);
    lemma_run_pruning_in(t, prune, j);
    if j == k + 1 {
        if let Some(m) = walk_yield_pruning(t, prune, j) {
            lemma_prune_clear(t, n as nat, m);
        }
    } else {
        lemma_clear_after_prune(t, prune, k, n, (j - 1) as nat);
        if let Some(m) = walk_yield_pruning(t, prune, j) {
            let c = walk_yield_pruning(t, prune, (j - 1) as nat)->Some_0;
            lemma_step_clear(t, c as nat, prune.contains(c), n as nat, m);
        }
    }
}

/// Pruning: once the caller prunes the subtree of a node `n` right after the
/// walk yields it, no later step yields `n` or any node below it, whatever
/// else the caller prunes. The step right after yields `n`'s next sibling,
/// or else the next sibling of `n`'s nearest ancestor that has one.
pub proof fn lemma_prune_skips_subtree(t: DevInfo, prune: Set<usize>, k: nat, n: usize, j: nat)
    requires
        t.wf(),
        walk_yield_pruning(t, prune, k) == Some(n),
        prune.contains(n),
        k < j,
    ensures
        walk_yield_pruning(t, prune, j) matches Some(m) ==> !under(t, m as nat, n as nat),
        walk_yield_pruning(t, prune, k + 1) == walk_successor(t, n as nat, true),
{
    lemma_run_pruning_in(t, prune, k);
    lemma_clear_after_prune(t, prune, k, n, j);
}

/// `preorder(t, i)` with the subtree of each node in `prune` left out.
pub open spec fn pruned_preorder(t: DevInfo, i: nat, prune: Set<usize>) -> Seq<usize>
    decreases t.nodes().len() - i,
{
    let below = match t.child_of(i as int) {
        Some(c) => if i < c < t.nodes().len() && !prune.contains(i as usize) {
            pruned_preorder(t, c as nat, prune)
        } else {
            Seq::empty()
        },
        None => Seq::empty(),
    };
    let after = match t.sibling_of(i as int) {
        Some(s) => if i < s < t.nodes().len() { pruned_preorder(t, s as nat, prune) } else { Seq::empty() },
        None => Seq::empty(),
    };
    seq![i as usize] + below + after
}

/// Each step of a pruning walk moves along `pruned_preorder(t, i, prune)`,
/// and its last node hands over to where `i` climbs to; every node on it is
/// on `preorder(t, i)`.
proof fn lemma_pruned_steps(t: DevInfo, i: nat, prune: Set<usize>)
    requires
        t.wf(),
        i < t.nodes().len(),
    ensures
        ({
            let f = pruned_preorder(t, i, prune);
            &&& f.len() >= 1
            &&& f[0] == i
            &&& forall|q: int| 0 <= q < f.len() ==> preorder(t, i).contains(#[trigger] f[q])
            &&& forall|q: int| 0 <= q < f.len() - 1 ==> walk_successor(
                t,
                #[trigger] f[q] as nat,
                prune.contains(f[q]),
            ) == Some(f[q + 1])
            &&& walk_successor(t, f.last() as nat, prune.contains(f.last())) == climb(t, i)
        }),
    decreases t.nodes().len() - i,
{
    lemma_child_after(t, i);
    let f = pruned_preorder(t, i, prune);
    let g = preorder(t, i);
    let pruned = prune.contains(i as usize);
    let below = match t.child_of(i as int) {
        Some(c) => if !pruned { pruned_preorder(t, c as nat, prune) } else { Seq::empty() },
        None => Seq::empty(),
    };
    let after = match t.sibling_of(i as int) {
        Some(s) => pruned_preorder(t, s as nat, prune),
        None => Seq::empty(),
    };
    let gbelow = match t.child_of(i as int) {
        Some(c) => preorder(t, c as nat),
        None => Seq::empty(),
    };
    let gafter = match t.sibling_of(i as int) {
        Some(s) => preorder(t, s as nat),
        None => Seq::empty(),
    };
    assert(f == seq![i as usize] + below + after);
    assert(g == seq![i as usize] + gbelow + gafter);
    let hb = seq![i as usize] + below;
    let ghb = seq![i as usize] + gbelow;
    if let Some(c) = t.child_of(i as int) {
        if !pruned {
            lemma_pruned_steps(t, c as nat, prune);
        }
    }
    if let Some(s) = t.sibling_of(i as int) {
        lemma_pruned_steps(t, s as nat, prune);
        lemma_child_after(t, s as nat);
        assert(climb(t, s as nat) == climb(t, i));
    }
    assert forall|q: int| 0 <= q < f.len() implies g.contains(#[trigger] f[q]) by {
        if q == 0 {
            assert(g[0] == f[0]);
        } else if q < hb.len() {
            assert(f[q] == below[q - 1]);
            let w = choose|w: int| 0 <= w < gbelow.len() && gbelow[w] == below[q - 1];
            assert(g[1 + w] == f[q]);
        } else {
            assert(f[q] == after[q - hb.len()]);
            let w = choose|w: int| 0 <= w < gafter.len() && gafter[w] == after[q - hb.len()];
            assert(g[ghb.len() + w] == f[q]);
        }
    }
    assert forall|q: int| 0 <= q < f.len() - 1 implies walk_successor(
        t,
        #[trigger] f[q] as nat,
        prune.contains(f[q]),
    ) == Some(f[q + 1]) by {
        if q == 0 {
            if below.len() == 0 {
                assert(f[1] == after[0]);
            } else {
                assert(f[1] == below[0]);
            }
        } else if q < hb.len() - 1 {
            assert(f[q] == below[q - 1]);
            assert(f[q + 1] == below[q]);
        } else if q == hb.len() - 1 {
            assert(f[q] == below[q - 1]);
            assert(f[q + 1] == after[0]);
            assert(below.last() == below[q - 1]);
        } else {
            assert(f[q] == after[q - hb.len()]);
            assert(f[q + 1] == after[q + 1 - hb.len()]);
        }
    }
    if after.len() > 0 {
        assert(f.last() == after.last());
    } else if below.len() > 0 {
        assert(f.last() == below.last());
    } else {
        assert(f.last() == i);
    }
}

/// A pruning walk yields `pruned_preorder(t, 0, prune)` step by step, then
/// is over.
proof fn lemma_pruning_run_follows(t: DevInfo, prune: Set<usize>, k: nat)
    requires
        t.wf(),
    ensures
        k < pruned_preorder(t, 0, prune).len() ==> walk_yield_pruning(t, prune, k) == Some(
            pruned_preorder(t, 0, prune)[k as int],
        ),
        1 <= k <= pruned_preorder(t, 0, prune).len() ==> walk_run_pruning(t, prune, k) == (
            Some(pruned_preorder(t, 0, prune)[k - 1]),
            false,
        ),
    decreases k,
{
    let f = pruned_preorder(t, 0, prune);
    lemma_pruned_steps(t, 0, prune);
    assert(walk_run_pruning(t, prune, 0) == (None::<usize>, false));
    if k >= 1 {
        lemma_pruning_run_follows(t, prune, (k - 1) as nat);
    }
}

/// Every node of `preorder(t, i)` that does not lie strictly below `n` is on
/// `pruned_preorder(t, i, set![n])`.
proof fn lemma_pruned_keeps(t: DevInfo, i: nat, n: usize, x: usize)
    requires
        t.wf(),
        i < t.nodes().len(),
        preorder(t, i).contains(x),
        !is_ancestor(t, n as nat, x as nat),
    ensures
        pruned_preorder(t, i, set![n]).contains(x),
    decreases t.nodes().len() - i,
{
    lemma_child_after(t, i);
    let prune = set![n];
    let f = pruned_preorder(t, i, prune);
    let g = preorder(t, i);
    let gbelow = match t.child_of(i as int) {
        Some(c) => preorder(t, c as nat),
        None => Seq::empty(),
    };
    let gafter = match t.sibling_of(i as int) {
        Some(s) => preorder(t, s as nat),
        None => Seq::empty(),
    };
    let below = match t.child_of(i as int) {
        Some(c) => if i != n { pruned_preorder(t, c as nat, prune) } else { Seq::empty() },
        None => Seq::empty(),
    };
    let after = match t.sibling_of(i as int) {
        Some(s) => pruned_preorder(t, s as nat, prune),
        None => Seq::empty(),
    };
    assert(g == seq![i as usize] + gbelow + gafter);
    assert(f == seq![i as usize] + below + after);
    let q = choose|q: int| 0 <= q < g.len() && g[q] == x;
    let ghb = seq![i as usize] + gbelow;
    let hb = seq![i as usize] + below;
    if q == 0 {
        assert(f[0] == x);
    } else if q < ghb.len() {
        let c = t.child_of(i as int)->Some_0;
        assert(gbelow[q - 1] == x);
        if i == n {
            lemma_preorder_place(t, c as nat, q - 1);
            let y = choose|y: nat| #![trigger under(t, gbelow[q - 1] as nat, y)]
                c <= y < t.nodes().len() && t.parent_of(y as int) == t.parent_of(c as int)
                && under(t, gbelow[q - 1] as nat, y);
            lemma_child_after(t, y);
            assert(is_ancestor(t, i, y));
            if x as nat != y {
                lemma_ancestor_trans(t, i, y, x as nat);
            }
        }
        lemma_pruned_keeps(t, c as nat, n, x);
        let w = choose|w: int| 0 <= w < below.len() && below[w] == x;
        assert(f[1 + w] == x);
    } else {
        let s = t.sibling_of(i as int)->Some_0;
        assert(gafter[q - ghb.len()] == x);
        lemma_pruned_keeps(t, s as nat, n, x);
        let w = choose|w: int| 0 <= w < after.len() && after[w] == x;
        assert(f[hb.len() + w] == x);
    }
}

/// Later siblings of a node on the whole pre-order list are on it too.
proof fn lemma_later_sibling_listed(t: DevInfo, y: nat, z: nat)
    requires
        t.wf(),
        y < t.nodes().len(),
        preorder(t, 0).contains(y as usize),
        later_sibling(t, y, z),
    ensures
        preorder(t, 0).contains(z as usize),
    decreases t.nodes().len() - y,
{
    lemma_preorder_closed(t, 0);
    let f = preorder(t, 0);
    let q = choose|q: int| 0 <= q < f.len() && f[q] == y as usize;
    assert(t.sibling_of(f[q] as int) is Some);
    let s = t.sibling_of(y as int)->Some_0;
    if s as nat != z {
        lemma_later_sibling_listed(t, s as nat, z);
    }
}

/// What pruning leaves: when the caller prunes only the subtree of `n`,
/// which the walk yields at step `k`, the walk still yields every later
/// sibling of `n` and every later sibling of each ancestor of `n`.
pub proof fn lemma_prune_keeps_siblings(t: DevInfo, n: usize, k: nat, a: nat, z: nat)
    requires
        t.wf(),
        walk_yield_pruning(t, set![n], k) == Some(n),
        a == n || is_ancestor(t, a, n as nat),
        later_sibling(t, a, z),
    ensures
        exists|j: nat| walk_yield_pruning(t, set![n], j) == Some(z as usize),
{
    let prune = set![n];
    let fp = pruned_preorder(t, 0, prune);
    let f = preorder(t, 0);
    lemma_pruned_steps(t, 0, prune);
    lemma_run_pruning_in(t, prune, k);
    lemma_walk_visits_each_once(t, 0);
    // `n` is on the pruned list, hence on the whole list.
    if k >= fp.len() {
        assert(walk_run_pruning(t, prune, fp.len()) == (Some(fp[fp.len() - 1]), false)) by {
            lemma_pruning_run_follows(t, prune, fp.len());
        }
        lemma_pruning_stays_over(t, prune, fp.len(), k);
    }
    lemma_pruning_run_follows(t, prune, k);
    assert(fp[k as int] == n);
    assert(f.contains(n));
    // The ancestor `a` is on the whole list.
    if a != n {
        let q = choose|q: int| 0 <= q < f.len() && f[q] == n;
        lemma_walk_visits_each_once(t, q as nat);
        lemma_walk_preorder(t, q as nat, a);
        let j = choose|j: nat| j < q && walk_yield(t, j) == Some(a as usize);
        lemma_walk_visits_each_once(t, j);
        assert(f[j as int] == a);
        lemma_ancestor_below(t, a, n as nat);
    }
    lemma_later_sibling(t, a, z);
    lemma_later_sibling_listed(t, a, z);
    if is_ancestor(t, n as nat, z) {
        lemma_child_after(t, z);
        lemma_child_after(t, a);
        let p = t.parent_of(z as int)->Some_0;
        assert(n as nat == p || is_ancestor(t, n as nat, p as nat));
        if a != n {
            lemma_ancestor_below(t, a, n as nat);
        }
        if n as nat != p {
            lemma_ancestor_below(t, n as nat, p as nat);
        }
        if a != n {
            lemma_child_after(t, n as nat);
            assert(is_ancestor(t, p as nat, a));
            lemma_ancestor_below(t, p as nat, a);
        }
    }
    lemma_pruned_keeps(t, 0, n, z as usize);
    let w = choose|w: int| 0 <= w < fp.len() && fp[w] == z as usize;
    lemma_pruning_run_follows(t, prune, w as nat);
    assert(walk_yield_pruning(t, prune, w as nat) == Some(z as usize));
}

/// Once a pruning walk is over, it stays over.
proof fn lemma_pruning_stays_over(t: DevInfo, prune: Set<usize>, k0: nat, k: nat)
    requires
        t.wf(),
        k0 <= k,
        k0 == pruned_preorder(t, 0, prune).len(),
    ensures
        walk_yield_pruning(t, prune, k) is None,
    decreases k - k0,
{
    lemma_pruned_steps(t, 0, prune);
    lemma_child_after(t, 0);
    assert(climb(t, 0) is None);
    lemma_pruning_run_follows(t, prune, k0);
    if k > k0 {
        lemma_pruning_stays_over(t, prune, k0, (k - 1) as nat);
        lemma_run_pruning_in(t, prune, (k - 1) as nat);
    }
}

/// The test that keeps a node unless it lies strictly below `n`.
pub open spec fn not_below(t: DevInfo, n: usize) -> spec_fn(usize) -> bool {
    |x: usize| !is_ancestor(t, n as nat, x as nat)
}

proof fn lemma_filter_one(i: usize, pred: spec_fn(usize) -> bool)
    requires
        pred(i),
    ensures
        seq![i].filter(pred) == seq![i],
{
    reveal_with_fuel(Seq::<usize>::filter, 2);
    assert(seq![i].drop_last() =~= Seq::<usize>::empty());
}

/// From a node not strictly below `n`, pruning `n` leaves exactly the nodes
/// of the pre-order list that are not strictly below `n`.
proof fn lemma_pruned_filter(t: DevInfo, i: nat, n: usize)
    requires
        t.wf(),
        i < t.nodes().len(),
        !is_ancestor(t, n as nat, i),
    ensures
        pruned_preorder(t, i, set![n]) == preorder(t, i).filter(not_below(t, n)),
    decreases t.nodes().len() - i,
{
    lemma_child_after(t, i);
    let prune = set![n];
    let pred = not_below(t, n);
    let f = pruned_preorder(t, i, prune);
    let g = preorder(t, i);
    let gbelow = match t.child_of(i as int) {
        Some(c) => preorder(t, c as nat),
        None => Seq::empty(),
    };
    let gafter = match t.sibling_of(i as int) {
        Some(s) => preorder(t, s as nat),
        None => Seq::empty(),
    };
    let below = match t.child_of(i as int) {
        Some(c) => if i != n { pruned_preorder(t, c as nat, prune) } else { Seq::empty() },
        None => Seq::empty(),
    };
    let after = match t.sibling_of(i as int) {
        Some(s) => pruned_preorder(t, s as nat, prune),
        None => Seq::empty(),
    };
    let one = seq![i as usize];
    assert(g == one + gbelow + gafter);
    assert(f == one + below + after);
    Seq::filter_distributes_over_add(one + gbelow, gafter, pred);
    Seq::filter_distributes_over_add(one, gbelow, pred);
    assert(pred(i as usize));
    lemma_filter_one(i as usize, pred);
    if let Some(c) = t.child_of(i as int) {
        lemma_child_after(t, c as nat);
        if i == n {
            assert forall|q: int| 0 <= q < gbelow.len() implies !pred(#[trigger] gbelow[q]) by {
                lemma_preorder_place(t, c as nat, q);
                let y = choose|y: nat| #![trigger under(t, gbelow[q] as nat, y)]
                    c <= y < t.nodes().len() && t.parent_of(y as int) == t.parent_of(c as int)
                    && under(t, gbelow[q] as nat, y);
                lemma_child_after(t, y);
                assert(is_ancestor(t, i, y));
                if gbelow[q] as nat != y {
                    lemma_ancestor_trans(t, i, y, gbelow[q] as nat);
                }
            }
            assert(gbelow.all(|x: usize| !pred(x)));
            gbelow.lemma_all_neg_filter_empty(pred);
            assert(gbelow.filter(pred) =~= below);
        } else {
            assert(!is_ancestor(t, n as nat, c as nat));
            lemma_pruned_filter(t, c as nat, n);
        }
    } else {
        reveal_with_fuel(Seq::<usize>::filter, 1);
        assert(gbelow.filter(pred) =~= below);
    }
    if let Some(s) = t.sibling_of(i as int) {
        lemma_child_after(t, s as nat);
        lemma_same_parent(t, i, s as nat, n as nat);
        lemma_pruned_filter(t, s as nat, n);
    } else {
        reveal_with_fuel(Seq::<usize>::filter, 1);
        assert(gafter.filter(pred) =~= after);
    }
    assert(f =~= g.filter(pred));
}

/// The whole pruned sequence: a walk whose caller prunes the subtree of
/// each yielded node in `prune` yields `pruned_preorder(t, 0, prune)` step
/// by step and is then over. Pruning a single node `n` leaves the whole
/// pre-order list without the nodes strictly below `n`, in the same order.
pub proof fn lemma_pruned_walk_sequence(t: DevInfo, prune: Set<usize>, n: usize, k: nat)
    requires
        t.wf(),
    ensures
        k < pruned_preorder(t, 0, prune).len() ==> walk_yield_pruning(t, prune, k) == Some(
            pruned_preorder(t, 0, prune)[k as int],
        ),
        k >= pruned_preorder(t, 0, prune).len() ==> walk_yield_pruning(t, prune, k) is None,
        pruned_preorder(t, 0, set![n]) == preorder(t, 0).filter(not_below(t, n)),
{
    lemma_pruning_run_follows(t, prune, k);
    if k >= pruned_preorder(t, 0, prune).len() {
        lemma_pruning_stays_over(t, prune, pruned_preorder(t, 0, prune).len(), k);
    }
    lemma_child_after(t, 0);
    assert(!is_ancestor(t, n as nat, 0));
    lemma_pruned_filter(t, 0, n);
}

} // verus!
