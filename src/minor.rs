//! Minor nodes: the device special files that a node exposes.
use vstd::prelude::*;
use crate::error::Error;
use crate::text::{has_prefix, text_equals};
use crate::tree::{node_links_wf, DevInfo};

verus! {

/// File-type bits of a character special file.
pub const S_IFCHR: u32 = 0x2000;

/// File-type bits of a block special file.
pub const S_IFBLK: u32 = 0x6000;

/// How a special file is accessed.
#[derive(Debug, Clone, Copy, PartialEq, Eq, Structural)]
pub enum SpecType {
    Char,
    Block,
}

/// The access kind that file-type bits stand for, if they are one that
/// this library knows.
pub open spec fn spec_type_of(raw: u32) -> Option<SpecType> {
    if raw == S_IFCHR {
        Some(SpecType::Char)
    } else if raw == S_IFBLK {
        Some(SpecType::Block)
    } else {
        None
    }
}

impl SpecType {
    /// Decodes file-type bits.
    pub fn from_raw(raw: u32) -> (r: Option<SpecType>)
        ensures
            r == spec_type_of(raw),
    {
        if raw == S_IFCHR {
            Some(SpecType::Char)
        } else if raw == S_IFBLK {
            Some(SpecType::Block)
        } else {
            None
        }
    }
}

/// Whether a node type names a block device: exactly `ddi_block`, or one
/// of its subtypes after a colon.
pub open spec fn is_block_node_type(t: Seq<char>) -> bool {
    t == "ddi_block"@ || "ddi_block:"@.is_prefix_of(t)
}

/// Whether a minor of this node type and access kind is a raw disk: a block
/// device node type reached through a character special file.
pub fn is_raw_disk(node_type: &str, spec: SpecType) -> (r: bool)
    ensures
        r == (is_block_node_type(node_type@) && spec == SpecType::Char),
{
    let block = text_equals(node_type, "ddi_block") || has_prefix(node_type, "ddi_block:");
    block && spec == SpecType::Char
}

/// What the snapshot holds of one minor node.
pub struct MinorRecord {
    pub name: String,
    pub node_type: String,
    /// The file-type bits of the special file, as the tree reports them.
    pub spec_type: u32,
    /// The minor's device-filesystem path, or the OS error that its
    /// resolution gave.
    pub devfs_path: Result<String, i32>,
}

/// A view of one minor node of a node.
pub struct Minor<'a> {
    parent: &'a DevInfo,
    node: usize,
    minor: usize,
}

impl<'a> Minor<'a> {
    pub closed spec fn snapshot(&self) -> DevInfo {
        *self.parent
    }

    pub closed spec fn node_index(&self) -> nat {
        self.node as nat
    }

    pub closed spec fn minor_index(&self) -> nat {
        self.minor as nat
    }

    pub open spec fn wf(&self) -> bool {
        &&& self.snapshot().wf()
        &&& self.node_index() < self.snapshot().nodes().len()
        &&& self.minor_index() < self.snapshot().nodes()[self.node_index() as int].minors@.len()
    }

    pub open spec fn record(&self) -> MinorRecord {
        self.snapshot().nodes()[self.node_index() as int].minors@[self.minor_index() as int]
    }

    fn rec(&self) -> (r: &'a MinorRecord)
        requires
            self.wf(),
        ensures
            *r == self.record(),
            spec_type_of(r.spec_type) is Some,
    {
        assert(node_links_wf(self.snapshot().nodes(), self.node_index() as int));
        assert(spec_type_of(self.record().spec_type) is Some);
        &self.parent.nodes_vec()[self.node].minors[self.minor]
    }

    pub fn name(&self) -> (r: String)
        requires
            self.wf(),
        ensures
            r@ == self.record().name@,
    {
        self.rec().name.clone()
    }

    pub fn node_type(&self) -> (r: String)
        requires
            self.wf(),
        ensures
            r@ == self.record().node_type@,
    {
        self.rec().node_type.clone()
    }

    /// The access kind; a snapshot holds only character and block special
    /// files.
    pub fn spec_type(&self) -> (r: SpecType)
        requires
            self.wf(),
        ensures
            Some(r) == spec_type_of(self.record().spec_type),
    {
        match SpecType::from_raw(self.rec().spec_type) {
            Some(t) => t,
            None => SpecType::Char,
        }
    }

    /// Whether this minor is a raw disk device.
    pub fn is_raw_disk(&self) -> (r: bool)
        requires
            self.wf(),
        ensures
            r == (is_block_node_type(self.record().node_type@) && spec_type_of(
                self.record().spec_type,
            ) == Some(SpecType::Char)),
    {
        is_raw_disk(self.rec().node_type.as_str(), self.spec_type())
    }

    /// The minor's device-filesystem path, or the resolution error.
    pub fn devfs_path(&self) -> (r: Result<String, Error>)
        requires
            self.wf(),
        ensures
            match self.record().devfs_path {
                Ok(p) => r matches Ok(q) && q@ == p@,
                Err(e) => r == Err::<String, Error>(Error::Resolve(e)),
            },
    {
        match &self.rec().devfs_path {
            Ok(p) => Ok(p.clone()),
            Err(e) => Err(Error::Resolve(*e)),
        }
    }
}

/// A walk over the minor nodes of one node, in the tree's order.
pub struct MinorWalk<'a> {
    parent: &'a DevInfo,
    node: usize,
    minor: Option<usize>,
    fin: bool,
}

impl<'a> MinorWalk<'a> {
    pub(crate) fn new(parent: &'a DevInfo, node: usize) -> (r: MinorWalk<'a>)
        requires
            parent.wf(),
            node < parent.nodes().len(),
        ensures
            r.wf(),
            r.snapshot() == *parent,
            r.node_index() == node,
            r.position() is None,
            !r.finished(),
    {
        MinorWalk { parent, node, minor: None, fin: false }
    }

    pub closed spec fn snapshot(&self) -> DevInfo {
        *self.parent
    }

    pub closed spec fn node_index(&self) -> nat {
        self.node as nat
    }

    /// The index of the minor yielded last, absent before the first step.
    pub closed spec fn position(&self) -> Option<usize> {
        self.minor
    }

    pub closed spec fn finished(&self) -> bool {
        self.fin
    }

    /// The number of minors of the node walked.
    pub open spec fn count(&self) -> nat {
        self.snapshot().nodes()[self.node_index() as int].minors@.len()
    }

    pub open spec fn wf(&self) -> bool {
        &&& self.snapshot().wf()
        &&& self.node_index() < self.snapshot().nodes().len()
        &&& (self.position() matches Some(i) ==> i < self.count())
    }

    /// The index of the minor that the walk yields next.
    pub open spec fn next_spec(&self) -> Option<usize> {
        if self.finished() {
            None
        } else {
            let k = match self.position() {
                None => 0,
                Some(i) => i + 1,
            };
            if k < self.count() {
                Some(k as usize)
            } else {
                None
            }
        }
    }

    /// Yields the next minor of the node.
    pub fn next(&mut self) -> (r: Option<Result<Minor<'a>, Error>>)
        requires
            old(self).wf(),
        ensures
            final(self).wf(),
            final(self).snapshot() == old(self).snapshot(),
            final(self).node_index() == old(self).node_index(),
            final(self).finished() <==> old(self).next_spec() is None,
            r is Some <==> old(self).next_spec() is Some,
            r matches Some(x) ==> (x matches Ok(m) && m.wf() && m.snapshot() == old(self).snapshot()
                && m.node_index() == old(self).node_index() && Some(m.minor_index() as usize)
                == old(self).next_spec() && final(self).position() == old(self).next_spec()),
    {
        if self.fin {
            return None;
        }
        let len = self.parent.nodes_vec()[self.node].minors.len();
        let k: usize = match self.minor {
            None => 0,
            Some(i) => i + 1,
        };
        if k >= len {
            self.fin = true;
            return None;
        }
        self.minor = Some(k);
        Some(Ok(Minor { parent: self.parent, node: self.node, minor: k }))
    }
}

} // verus!
