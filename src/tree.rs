//! The captured device tree and the walkers over it.
use vstd::prelude::*;
use crate::error::Error;
use crate::minor::{spec_type_of, MinorRecord, MinorWalk, SpecType};
use crate::prop::{
    prop_type_of, string_prop_map, string_props, pairs_are, PropRecord, PropType, PropertyWalk,
};

verus! {

/// Raw instance number that marks a node bound to no driver.
pub const NO_INSTANCE: i32 = -1;

/// What the snapshot holds of one tree element, its links given as indices
/// into the snapshot's node list.
pub struct NodeRecord {
    pub name: String,
    pub driver: Option<String>,
    /// The instance number as the tree reports it, `NO_INSTANCE` if unbound.
    pub instance: i32,
    /// The node's device-filesystem path, or the OS error that its
    /// resolution gave.
    pub devfs_path: Result<String, i32>,
    pub parent: Option<usize>,
    pub child: Option<usize>,
    pub sibling: Option<usize>,
    /// The next node bound to the same driver, in the tree's driver index.
    pub driver_next: Option<usize>,
    pub props: Vec<PropRecord>,
    pub minors: Vec<MinorRecord>,
}

/// A link of the tree that, where present, names a node of a tree of `len`
/// nodes.
pub open spec fn link_in(l: Option<usize>, len: nat) -> bool {
    l matches Some(i) ==> i < len
}

/// The conditions that make a list of records a tree rooted at index 0:
/// parents come before their children, the root has neither parent nor
/// sibling, a first child's parent is the node it hangs from and a next
/// sibling shares its parent and comes after it; the next node in the
/// driver index is bound to the same driver, every kind code is known, and
/// every node but the root hangs on a first-child or next-sibling link.
pub open spec fn records_wf(nodes: Seq<NodeRecord>) -> bool {
    &&& nodes.len() >= 1
    &&& nodes[0].parent is None
    &&& nodes[0].sibling is None
    &&& forall|i: int| 0 <= i < nodes.len() ==> #[trigger] node_links_wf(nodes, i)
    &&& forall|i: int| 1 <= i < nodes.len() ==> #[trigger] linked(nodes, i)
}

/// Whether node `j`'s first-child or next-sibling link leads to node `y`.
pub open spec fn points_to(nodes: Seq<NodeRecord>, j: int, y: int) -> bool {
    nodes[j].child == Some(y as usize) || nodes[j].sibling == Some(y as usize)
}

/// Whether some node's first-child or next-sibling link leads to node `i`.
pub open spec fn linked(nodes: Seq<NodeRecord>, i: int) -> bool {
    exists|j: int| 0 <= j < nodes.len() && #[trigger] points_to(nodes, j, i)
}

/// Whether two driver bindings are both present and name the same driver.
pub open spec fn same_driver(a: Option<String>, b: Option<String>) -> bool {
    a matches Some(x) && b matches Some(y) && x@ == y@
}

/// Whether a node is bound to driver `name`.
pub open spec fn bound_to(n: NodeRecord, name: Seq<char>) -> bool {
    n.driver matches Some(d) && d@ == name
}

/// Whether every property kind code and every minor spec-type code of a
/// node is one that this library knows.
pub open spec fn codes_known(n: NodeRecord) -> bool {
    &&& forall|q: int| 0 <= q < n.props@.len() ==> (#[trigger] prop_type_of(n.props@[q].kind)) is Some
    &&& forall|q: int| 0 <= q < n.minors@.len() ==> (#[trigger] spec_type_of(n.minors@[q].spec_type)) is Some
}

/// The conditions of `records_wf` on the links of node `i`.
pub open spec fn node_links_wf(nodes: Seq<NodeRecord>, i: int) -> bool {
    let n = nodes[i];
    &&& (i > 0 ==> (n.parent matches Some(p) && p < i))
    &&& link_in(n.child, nodes.len())
    &&& link_in(n.sibling, nodes.len())
    &&& link_in(n.driver_next, nodes.len())
    &&& (n.driver_next matches Some(j) ==> same_driver(n.driver, nodes[j as int].driver))
    &&& codes_known(n)
    &&& (n.child matches Some(c) ==> nodes[c as int].parent == Some(i as usize))
    &&& (n.sibling matches Some(s) ==> nodes[s as int].parent == n.parent && s > i)
}

/// Whether a driver-index entry names a node bound to that driver.
pub open spec fn entry_bound(nodes: Seq<NodeRecord>, e: (String, usize)) -> bool {
    e.1 < nodes.len() && bound_to(nodes[e.1 as int], e.0@)
}

/// A snapshot of the device tree, captured once and read through the views
/// that borrow it.
pub struct DevInfo {
    nodes: Vec<NodeRecord>,
    /// For each driver name, the first node bound to it.
    drivers: Vec<(String, usize)>,
}

impl DevInfo {
    /// The records of the snapshot; the root is at index 0.
    pub closed spec fn nodes(&self) -> Seq<NodeRecord> {
        self.nodes@
    }

    /// The driver index: each driver name with the first node bound to it.
    pub closed spec fn drivers(&self) -> Seq<(String, usize)> {
        self.drivers@
    }

    /// The records, for the views of this module's neighbours.
    pub(crate) fn nodes_vec(&self) -> (r: &Vec<NodeRecord>)
        ensures
            r@ == self.nodes(),
    {
        &self.nodes
    }

    pub open spec fn wf(&self) -> bool {
        &&& self.nodes().len() <= usize::MAX
        &&& records_wf(self.nodes())
        &&& forall|k: int| 0 <= k < self.drivers().len() ==>
            #[trigger] entry_bound(self.nodes(), self.drivers()[k])
    }

    /// Node `i`'s parent, first child and next sibling.
    pub open spec fn parent_of(&self, i: int) -> Option<usize> {
        self.nodes()[i].parent
    }

    pub open spec fn child_of(&self, i: int) -> Option<usize> {
        self.nodes()[i].child
    }

    pub open spec fn sibling_of(&self, i: int) -> Option<usize> {
        self.nodes()[i].sibling
    }

    /// Builds a snapshot from its records, which must form a tree rooted at
    /// index 0, and from its driver index.
    pub fn from_records(nodes: Vec<NodeRecord>, drivers: Vec<(String, usize)>) -> (r: Option<DevInfo>)
        ensures
            r is Some <==> (records_wf(nodes@) && forall|k: int| 0 <= k < drivers@.len() ==>
                #[trigger] entry_bound(nodes@, drivers@[k])),
            r matches Some(d) ==> d.nodes() == nodes@ && d.drivers() == drivers@ && d.wf(),
    {
        if !check_records(&nodes) {
            return None;
        }
        let mut k: usize = 0;
        while k < drivers.len()
            invariant
                0 <= k <= drivers@.len(),
                forall|j: int| 0 <= j < k ==> #[trigger] entry_bound(nodes@, drivers@[j]),
            decreases drivers@.len() - k,
        {
            let idx = drivers[k].1;
            if idx >= nodes.len() {
                assert(!entry_bound(nodes@, drivers@[k as int]));
                return None;
            }
            let ok = match &nodes[idx].driver {
                Some(d) => *d == drivers[k].0,
                None => false,
            };
            if !ok {
                assert(!entry_bound(nodes@, drivers@[k as int]));
                return None;
            }
            k = k + 1;
        }
        let count = nodes.len();
        assert(count as nat == nodes@.len());
        Some(DevInfo { nodes, drivers })
    }

    /// Walks every node of the tree in depth-first pre-order, starting at
    /// the root.
    pub fn walk_node(&mut self) -> (r: NodeWalk<'_>)
        ensures
            r.snapshot() == *old(self),
            old(self).wf() ==> r.wf(),
            r.position() is None,
            !r.finished(),
            !r.skipping(),
    {
        NodeWalk { parent: self, node: None, fin: false, skip_children: false }
    }

    /// Walks the nodes bound to driver `name`, in the driver index's order.
    pub fn walk_driver(&mut self, name: &str) -> (r: DriverWalk<'_>)
        ensures
            r.snapshot() == *old(self),
            old(self).wf() ==> r.wf(),
            r.driver()@ == name@,
            r.position() is None,
            !r.finished(),
    {
        DriverWalk { parent: self, driver: name.to_string(), node: None, fin: false }
    }
}

fn check_links(l: Option<usize>, len: usize) -> (r: bool)
    ensures
        r == link_in(l, len as nat),
{
    match l {
        Some(i) => i < len,
        None => true,
    }
}

/// Whether every kind code of a node is known.
fn check_codes(n: &NodeRecord) -> (r: bool)
    ensures
        r == codes_known(*n),
{
    let mut q: usize = 0;
    while q < n.props.len()
        invariant
            0 <= q <= n.props@.len(),
            forall|w: int| 0 <= w < q ==> (#[trigger] prop_type_of(n.props@[w].kind)) is Some,
        decreases n.props@.len() - q,
    {
        if PropType::from_raw(n.props[q].kind).is_none() {
            return false;
        }
        q = q + 1;
    }
    let mut q: usize = 0;
    while q < n.minors.len()
        invariant
            0 <= q <= n.minors@.len(),
            forall|w: int| 0 <= w < n.props@.len() ==> (#[trigger] prop_type_of(n.props@[w].kind)) is Some,
            forall|w: int| 0 <= w < q ==> (#[trigger] spec_type_of(n.minors@[w].spec_type)) is Some,
        decreases n.minors@.len() - q,
    {
        if SpecType::from_raw(n.minors[q].spec_type).is_none() {
            return false;
        }
        q = q + 1;
    }
    true
}

/// Whether the records form a tree rooted at index 0.
fn check_records(nodes: &Vec<NodeRecord>) -> (r: bool)
    ensures
        r == records_wf(nodes@),
{
    let len = nodes.len();
    if len == 0 || nodes[0].parent.is_some() || nodes[0].sibling.is_some() {
        return false;
    }
    let mut i: usize = 0;
    while i < len
        invariant
            len == nodes@.len(),
            0 <= i <= len,
            len >= 1,
            nodes@[0].parent is None,
            nodes@[0].sibling is None,
            forall|j: int| 0 <= j < i ==> #[trigger] node_links_wf(nodes@, j),
        decreases len - i,
    {
        let n = &nodes[i];
        let parent_ok = match n.parent {
            Some(p) => p < i,
            None => i == 0,
        };
        if !parent_ok || !check_links(n.child, len) || !check_links(n.sibling, len)
            || !check_links(n.driver_next, len) {
            assert(!node_links_wf(nodes@, i as int));
            return false;
        }
        if let Some(j) = n.driver_next {
            let same = match (&n.driver, &nodes[j].driver) {
                (Some(x), Some(y)) => *x == *y,
                _ => false,
            };
            if !same {
                assert(!node_links_wf(nodes@, i as int));
                return false;
            }
        }
        if !check_codes(n) {
            assert(!node_links_wf(nodes@, i as int));
            return false;
        }
        if let Some(c) = n.child {
            if nodes[c].parent != Some(i) {
                assert(!node_links_wf(nodes@, i as int));
                return false;
            }
        }
        if let Some(s) = n.sibling {
            if nodes[s].parent != n.parent || s <= i {
                assert(!node_links_wf(nodes@, i as int));
                return false;
            }
        }
        assert(node_links_wf(nodes@, i as int));
        i = i + 1;
    }
    check_linked(nodes)
}

/// Whether every node but the root hangs on some first-child or
/// next-sibling link.
fn check_linked(nodes: &Vec<NodeRecord>) -> (r: bool)
    requires
        forall|j: int| 0 <= j < nodes@.len() ==> #[trigger] node_links_wf(nodes@, j),
    ensures
        r == forall|i: int| 1 <= i < nodes@.len() ==> #[trigger] linked(nodes@, i),
{
    let len = nodes.len();
    let mut reached: Vec<bool> = Vec::new();
    let mut x: usize = 0;
    while x < len
        invariant
            0 <= x <= len,
            len == nodes@.len(),
            reached@.len() == x,
            forall|y: int| 0 <= y < x ==> !reached@[y],
        decreases len - x,
    {
        reached.push(false);
        x = x + 1;
    }
    let mut j: usize = 0;
    while j < len
        invariant
            0 <= j <= len,
            len == nodes@.len(),
            reached@.len() == len,
            forall|j2: int| 0 <= j2 < nodes@.len() ==> #[trigger] node_links_wf(nodes@, j2),
            forall|y: int| 0 <= y < len ==> (reached@[y] <==> exists|jj: int| 0 <= jj < j
                && #[trigger] points_to(nodes@, jj, y)),
        decreases len - j,
    {
        assert(node_links_wf(nodes@, j as int));
        let ghost before = reached@;
        if let Some(c) = nodes[j].child {
            reached.set(c, true);
        }
        if let Some(s) = nodes[j].sibling {
            reached.set(s, true);
        }
        assert forall|y: int| 0 <= y < len implies (reached@[y] <==> exists|jj: int| 0 <= jj < j + 1
            && #[trigger] points_to(nodes@, jj, y)) by {
            if points_to(nodes@, j as int, y) {
                assert(reached@[y]);
            } else {
                assert(reached@[y] == before[y]);
                if exists|jj: int| 0 <= jj < j + 1 && #[trigger] points_to(nodes@, jj, y) {
                    let jj = choose|jj: int| 0 <= jj < j + 1 && #[trigger] points_to(nodes@, jj, y);
                    assert(jj < j);
                }
            }
        }
        j = j + 1;
    }
    let mut i: usize = 1;
    while i < len
        invariant
            1 <= i <= len || len == 0,
            len == nodes@.len(),
            reached@.len() == len,
            forall|y: int| 0 <= y < len ==> (reached@[y] <==> exists|jj: int| 0 <= jj < len
                && #[trigger] points_to(nodes@, jj, y)),
            forall|y: int| 1 <= y < i ==> #[trigger] linked(nodes@, y),
        decreases len - i,
    {
        if !reached[i] {
            assert(!linked(nodes@, i as int));
            return false;
        }
        assert(linked(nodes@, i as int));
        i = i + 1;
    }
    true
}

/// A view of one node of a snapshot, valid while the snapshot is borrowed.
#[derive(Clone, Copy)]
pub struct Node<'a> {
    parent: &'a DevInfo,
    node: usize,
}

/// Depth of node `i`: the root is at depth 1, a child one deeper than its
/// parent.
pub open spec fn depth_of(t: DevInfo, i: nat) -> nat
    decreases i,
{
    match t.parent_of(i as int) {
        Some(p) => if (p as nat) < i { 1 + depth_of(t, p as nat) } else { 1 },
        None => 1,
    }
}

proof fn lemma_depth_bound(t: DevInfo, i: nat)
    ensures
        1 <= depth_of(t, i) <= i + 1,
    decreases i,
{
    if let Some(p) = t.parent_of(i as int) {
        if (p as nat) < i {
            lemma_depth_bound(t, p as nat);
        }
    }
}

impl<'a> Node<'a> {
    pub closed spec fn snapshot(&self) -> DevInfo {
        *self.parent
    }

    pub closed spec fn index(&self) -> nat {
        self.node as nat
    }

    pub open spec fn wf(&self) -> bool {
        &&& self.snapshot().wf()
        &&& self.index() < self.snapshot().nodes().len()
    }

    /// What the snapshot records of this node.
    pub open spec fn record(&self) -> NodeRecord {
        self.snapshot().nodes()[self.index() as int]
    }

    pub fn node_name(&self) -> (r: String)
        requires
            self.wf(),
        ensures
            r@ == self.record().name@,
    {
        self.parent.nodes[self.node].name.clone()
    }

    /// The bound driver's name, absent if the node is unbound.
    pub fn driver_name(&self) -> (r: Option<String>)
        requires
            self.wf(),
        ensures
            r is Some <==> self.record().driver is Some,
            r matches Some(d) ==> d@ == self.record().driver->Some_0@,
    {
        match &self.parent.nodes[self.node].driver {
            Some(d) => Some(d.clone()),
            None => None,
        }
    }

    /// The instance number, absent where the tree reports the unbound
    /// sentinel.
    pub fn instance(&self) -> (r: Option<i32>)
        requires
            self.wf(),
        ensures
            r == (if self.record().instance == NO_INSTANCE {
                None::<i32>
            } else {
                Some(self.record().instance)
            }),
    {
        let v = self.parent.nodes[self.node].instance;
        if v == NO_INSTANCE {
            None
        } else {
            Some(v)
        }
    }

    /// The node's device-filesystem path, or the resolution error.
    pub fn devfs_path(&self) -> (r: Result<String, Error>)
        requires
            self.wf(),
        ensures
            match self.record().devfs_path {
                Ok(p) => r matches Ok(q) && q@ == p@,
                Err(e) => r == Err::<String, Error>(Error::Resolve(e)),
            },
    {
        match &self.parent.nodes[self.node].devfs_path {
            Ok(p) => Ok(p.clone()),
            Err(e) => Err(Error::Resolve(*e)),
        }
    }

    /// Walks the node's properties.
    pub fn props(&self) -> (r: PropertyWalk<'a>)
        requires
            self.wf(),
        ensures
            r.wf(),
            r.snapshot() == self.snapshot(),
            r.node_index() == self.index(),
            r.position() is None,
            !r.finished(),
    {
        PropertyWalk::new(self.parent, self.node)
    }

    /// The node's single-valued string properties as name-value pairs.
    pub fn string_props(&self) -> (r: Vec<(String, String)>)
        requires
            self.wf(),
        ensures
            pairs_are(r@, string_prop_map(self.record().props@)),
    {
        string_props(&self.parent.nodes[self.node].props)
    }

    /// Walks the node's minor nodes.
    pub fn minors(&self) -> (r: MinorWalk<'a>)
        requires
            self.wf(),
        ensures
            r.wf(),
            r.snapshot() == self.snapshot(),
            r.node_index() == self.index(),
            r.position() is None,
            !r.finished(),
    {
        MinorWalk::new(self.parent, self.node)
    }

    /// The number of nodes from the root down to this one, both counted.
    pub fn depth(&self) -> (r: u32)
        requires
            self.wf(),
            self.snapshot().nodes().len() <= u32::MAX,
        ensures
            r == depth_of(self.snapshot(), self.index()),
    {
        let t = self.parent;
        let mut d: u32 = 1;
        let mut n: usize = self.node;
        proof {
            lemma_depth_bound(*t, n as nat);
        }
        loop
            invariant
                t.wf(),
                t == self.parent,
                n < t.nodes@.len(),
                self.index() < t.nodes@.len(),
                t.nodes@.len() <= u32::MAX,
                d + depth_of(*t, n as nat) == depth_of(*t, self.index()) + 1,
                1 <= d <= self.index() + 1 - n,
            decreases n,
        {
            assert(node_links_wf(t.nodes@, n as int));
            match t.nodes[n].parent {
                Some(p) => {
                    proof {
                        lemma_depth_bound(*t, p as nat);
                    }
                    assert(p < n);
                    n = p;
                    d = d + 1;
                },
                None => {
                    return d;
                },
            }
        }
    }

    /// The node's parent; absent at the root.
    pub fn parent(&self) -> (r: Result<Option<Node<'a>>, Error>)
        requires
            self.wf(),
        ensures
            match self.snapshot().parent_of(self.index() as int) {
                Some(p) => (r matches Ok(Some(n)) && n.snapshot() == self.snapshot() && n.index()
                    == p && n.wf()),
                None => r matches Ok(None),
            },
    {
        assert(node_links_wf(self.parent.nodes@, self.node as int));
        match self.parent.nodes[self.node].parent {
            Some(p) => Ok(Some(Node { parent: self.parent, node: p })),
            None => Ok(None),
        }
    }
}

/// The first ancestor-sibling met when climbing from node `i`: the node
/// visited next once `i`'s subtree and its later siblings are done.
pub open spec fn climb(t: DevInfo, i: nat) -> Option<usize>
    decreases i,
{
    match t.parent_of(i as int) {
        Some(p) => if (p as nat) < i {
            match t.sibling_of(p as int) {
                Some(s) => Some(s),
                None => climb(t, p as nat),
            }
        } else {
            None
        },
        None => None,
    }
}

/// The node visited after node `i` in pre-order; with `skip`, `i`'s
/// subtree is passed over.
pub open spec fn walk_successor(t: DevInfo, i: nat, skip: bool) -> Option<usize> {
    if !skip && t.child_of(i as int) is Some {
        t.child_of(i as int)
    } else if t.sibling_of(i as int) is Some {
        t.sibling_of(i as int)
    } else {
        climb(t, i)
    }
}

/// The node that a walk yields next from the given state, absent when it
/// is over.
pub open spec fn walk_next(t: DevInfo, pos: Option<usize>, fin: bool, skip: bool) -> Option<usize> {
    if fin {
        None
    } else {
        match pos {
            None => Some(0),
            Some(i) => walk_successor(t, i as nat, skip),
        }
    }
}

/// A depth-first, pre-order walk over the nodes of a snapshot.
pub struct NodeWalk<'w> {
    parent: &'w DevInfo,
    node: Option<usize>,
    fin: bool,
    skip_children: bool,
}

impl<'a> NodeWalk<'a> {
    pub closed spec fn snapshot(&self) -> DevInfo {
        *self.parent
    }

    /// The node yielded last, absent before the first step.
    pub closed spec fn position(&self) -> Option<usize> {
        self.node
    }

    pub closed spec fn finished(&self) -> bool {
        self.fin
    }

    /// Whether the subtree of the node yielded last is to be passed over.
    pub closed spec fn skipping(&self) -> bool {
        self.skip_children
    }

    pub open spec fn wf(&self) -> bool {
        &&& self.snapshot().wf()
        &&& link_in(self.position(), self.snapshot().nodes().len())
    }

    /// Prunes the subtree of the node yielded last: the next step goes to
    /// its next sibling, or climbs.
    pub fn skip_children(&mut self)
        ensures
            final(self).snapshot() == old(self).snapshot(),
            final(self).position() == old(self).position(),
            final(self).finished() == old(self).finished(),
            final(self).skipping(),
    {
        self.skip_children = true;
    }

    /// Advances the walk: the root first, then the first child (unless
    /// pruned), else the next sibling, else the next sibling of the nearest
    /// ancestor that has one; the walk is over when the root is reached.
    pub fn next(&mut self) -> (r: Option<Result<Node<'a>, Error>>)
        requires
            old(self).wf(),
        ensures
            final(self).wf(),
            final(self).snapshot() == old(self).snapshot(),
            !final(self).skipping(),
            ({
                let k = walk_next(old(self).snapshot(), old(self).position(), old(self).finished(),
                    old(self).skipping());
                &&& r is Some <==> k is Some
                &&& final(self).finished() <==> k is None
                &&& k is None ==> final(self).position() == old(self).position()
                &&& r matches Some(x) ==> (x matches Ok(n) && n.snapshot() == old(self).snapshot()
                    && n.wf() && k == Some(n.index() as usize)
                    && final(self).position() == k)
            }),
    {
        let t = self.parent;
        if self.fin {
            self.skip_children = false;
            return None;
        }
        let cur = match self.node {
            None => {
                self.node = Some(0);
                self.skip_children = false;
                return Some(Ok(Node { parent: t, node: 0 }));
            },
            Some(i) => i,
        };
        assert(node_links_wf(t.nodes@, cur as int));
        if self.skip_children {
            self.skip_children = false;
        } else if let Some(c) = t.nodes[cur].child {
            self.node = Some(c);
            return Some(Ok(Node { parent: t, node: c }));
        }
        if let Some(s) = t.nodes[cur].sibling {
            self.node = Some(s);
            return Some(Ok(Node { parent: t, node: s }));
        }
        let mut n: usize = cur;
        loop
            invariant
                t.wf(),
                t == self.parent,
                self.parent == old(self).parent,
                old(self).position() == Some(cur),
                !old(self).finished(),
                walk_successor(*t, cur as nat, old(self).skipping()) == climb(*t, cur as nat),
                !self.fin,
                !self.skip_children,
                self.node == Some(cur),
                cur < t.nodes@.len(),
                n < t.nodes@.len(),
                climb(*t, n as nat) == climb(*t, cur as nat),
            decreases n,
        {
            assert(node_links_wf(t.nodes@, n as int));
            match t.nodes[n].parent {
                None => {
                    self.fin = true;
                    return None;
                },
                Some(p) => {
                    assert(node_links_wf(t.nodes@, p as int));
                    if let Some(s) = t.nodes[p].sibling {
                        self.node = Some(s);
                        return Some(Ok(Node { parent: t, node: s }));
                    }
                    n = p;
                },
            }
        }
    }
}

/// The first node that the driver index gives for driver `name`.
pub open spec fn driver_first(drivers: Seq<(String, usize)>, name: Seq<char>) -> Option<usize>
    decreases drivers.len(),
{
    if drivers.len() == 0 {
        None
    } else if drivers[0].0@ == name {
        Some(drivers[0].1)
    } else {
        driver_first(drivers.drop_first(), name)
    }
}

proof fn lemma_driver_first_in(drivers: Seq<(String, usize)>, name: Seq<char>, nodes: Seq<NodeRecord>)
    requires
        forall|k: int| 0 <= k < drivers.len() ==> #[trigger] entry_bound(nodes, drivers[k]),
    ensures
        driver_first(drivers, name) matches Some(i) ==> i < nodes.len() && bound_to(nodes[i as int], name),
    decreases drivers.len(),
{
    if drivers.len() > 0 {
        assert(entry_bound(nodes, drivers[0]));
        if drivers[0].0@ != name {
            let rest = drivers.drop_first();
            assert forall|k: int| 0 <= k < rest.len() implies #[trigger] entry_bound(nodes, rest[k]) by {
                assert(rest[k] == drivers[k + 1]);
            }
            lemma_driver_first_in(rest, name, nodes);
        }
    }
}

/// A walk over the nodes bound to one driver, in the driver index's order.
pub struct DriverWalk<'w> {
    parent: &'w DevInfo,
    driver: String,
    node: Option<usize>,
    fin: bool,
}

impl<'a> DriverWalk<'a> {
    pub closed spec fn snapshot(&self) -> DevInfo {
        *self.parent
    }

    pub closed spec fn driver(&self) -> String {
        self.driver
    }

    pub closed spec fn position(&self) -> Option<usize> {
        self.node
    }

    pub closed spec fn finished(&self) -> bool {
        self.fin
    }

    pub open spec fn wf(&self) -> bool {
        &&& self.snapshot().wf()
        &&& link_in(self.position(), self.snapshot().nodes().len())
        &&& (self.position() matches Some(i) ==> bound_to(
            self.snapshot().nodes()[i as int],
            self.driver()@,
        ))
    }

    /// The node that the walk yields next from its state.
    pub open spec fn next_spec(&self) -> Option<usize> {
        if self.finished() {
            None
        } else {
            match self.position() {
                None => driver_first(self.snapshot().drivers(), self.driver()@),
                Some(i) => self.snapshot().nodes()[i as int].driver_next,
            }
        }
    }

    /// Advances to the next node bound to the driver.
    pub fn next(&mut self) -> (r: Option<Result<Node<'a>, Error>>)
        requires
            old(self).wf(),
        ensures
            final(self).wf(),
            final(self).snapshot() == old(self).snapshot(),
            final(self).driver() == old(self).driver(),
            ({
                let k = old(self).next_spec();
                &&& r is Some <==> k is Some
                &&& final(self).finished() <==> k is None
                &&& r matches Some(x) ==> (x matches Ok(n) && n.snapshot() == old(self).snapshot()
                    && n.wf() && k == Some(n.index() as usize)
                    && bound_to(n.record(), old(self).driver()@)
                    && final(self).position() == k)
            }),
    {
        let t = self.parent;
        if self.fin {
            return None;
        }
        let next = match self.node {
            None => {
                proof {
                    lemma_driver_first_in(t.drivers@, self.driver@, t.nodes@);
                }
                first_for_driver(&t.drivers, &self.driver)
            },
            Some(i) => {
                assert(node_links_wf(t.nodes@, i as int));
                assert(t.nodes@[i as int].driver_next matches Some(j) ==> node_links_wf(t.nodes@, j as int));
                t.nodes[i].driver_next
            },
        };
        match next {
            None => {
                self.fin = true;
                None
            },
            Some(j) => {
                self.node = Some(j);
                Some(Ok(Node { parent: t, node: j }))
            },
        }
    }
}

/// Looks driver `name` up in the driver index.
fn first_for_driver(drivers: &Vec<(String, usize)>, name: &String) -> (r: Option<usize>)
    ensures
        r == driver_first(drivers@, name@),
{
    let mut k: usize = 0;
    assert(drivers@.subrange(0, drivers@.len() as int) =~= drivers@);
    while k < drivers.len()
        invariant
            0 <= k <= drivers@.len(),
            driver_first(drivers@, name@) == driver_first(drivers@.subrange(k as int, drivers@.len() as int), name@),
        decreases drivers@.len() - k,
    {
        let ghost rest = drivers@.subrange(k as int, drivers@.len() as int);
        assert(rest.drop_first() =~= drivers@.subrange(k + 1, drivers@.len() as int));
        if drivers[k].0 == *name {
            return Some(drivers[k].1);
        }
        k = k + 1;
    }
    assert(drivers@.subrange(k as int, drivers@.len() as int).len() == 0);
    None
}

} // verus!
