//! Shared path handles: each handle names one tree node by its own component
//! plus a reference-counted link to the chain for the parent's path, so that
//! handles under a common ancestor share that ancestor's chain instead of
//! duplicating it.

use std::rc::Rc;
use vstd::prelude::*;

verus! {

/// One segment of a reverse-linked path chain: a component name and the
/// shared chain of the parent's path, if any.
#[derive(Debug)]
struct ReversePathPart {
    part: Vec<u8>,
    prefix: Option<Rc<ReversePathPart>>,
}

impl ReversePathPart {
    /// The full component sequence from the root down to this segment.
    spec fn components(self) -> Seq<Seq<u8>>
        decreases self,
    {
        match self.prefix {
            Option::Some(p) => p.components().push(self.part@),
            Option::None => seq![self.part@],
        }
    }

    /// Reconstructs the forward-ordered component sequence by walking the
    /// chain up to the root.
    fn path(&self) -> (r: Vec<Vec<u8>>)
        ensures
            r.deep_view() == self.components(),
        decreases *self,
    {
        match &self.prefix {
            Option::Some(p) => {
                let mut path = (**p).path();
                let own = self.part.clone();
                proof {
                    assert(own@ =~~= self.part@);
                    assert(path.deep_view().push(self.part@) =~~= self.components());
                }
                let ghost before = path.deep_view();
                path.push(own);
                proof {
                    assert(path.deep_view() =~~= before.push(self.part@));
                }
                path
            },
            Option::None => {
                let mut path: Vec<Vec<u8>> = Vec::new();
                let own = self.part.clone();
                proof {
                    assert(own@ =~~= self.part@);
                }
                path.push(own);
                proof {
                    assert(path.deep_view() =~~= seq![self.part@]);
                }
                path
            },
        }
    }
}

/// The full location of one tree node, held as a chain of components ending
/// at that node. Extending a handle shares the parent's chain.
#[derive(Debug)]
pub struct ReversePath {
    last_part: Rc<ReversePathPart>,
}

impl ReversePath {
    /// The forward-ordered component sequence this handle stands for; never
    /// empty.
    pub closed spec fn components(self) -> Seq<Seq<u8>> {
        self.last_part.components()
    }

    /// A root-level handle with no parent chain.
    pub fn new(part: &Vec<u8>) -> (r: ReversePath)
        ensures
            r.components() == seq![part@],
    {
        let own = part.clone();
        proof {
            assert(own@ =~= part@);
        }
        ReversePath { last_part: Rc::new(ReversePathPart { part: own, prefix: Option::None }) }
    }

    /// A child handle one component below `prefix`, sharing its chain.
    pub fn new_from_prefix(prefix: &ReversePath, part: &Vec<u8>) -> (r: ReversePath)
        ensures
            r.components() == prefix.components().push(part@),
    {
        let own = part.clone();
        proof {
            assert(own@ =~= part@);
        }
        ReversePath {
            last_part: Rc::new(
                ReversePathPart { part: own, prefix: Option::Some(prefix.last_part.clone()) },
            ),
        }
    }

    /// Materializes the full forward-ordered path, root component first.
    /// Idempotent: the handle is immutable and the result depends on the
    /// handle alone.
    pub fn path(&self) -> (r: Vec<Vec<u8>>)
        ensures
            r.deep_view() == self.components(),
            r@.len() > 0,
    {
        let r = (*self.last_part).path();
        proof {
            assert(r.deep_view().len() == self.components().len());
            assert(self.last_part.components().len() > 0);
        }
        r
    }

    /// The component stored at the handle itself, without materializing.
    pub fn last_member(&self) -> (r: &Vec<u8>)
        ensures
            r@ == self.components().last(),
    {
        &self.last_part.part
    }
}

impl Clone for ReversePath {
    /// A clone shares the whole chain and stands for the same components.
    fn clone(&self) -> (r: Self)
        ensures
            r.components() == self.components(),
    {
        ReversePath { last_part: self.last_part.clone() }
    }
}

/// Materializing a chain of extensions yields exactly the components the
/// chain was built from, in order; two handles extended independently from
/// one shared root keep their own chains.
pub proof fn lemma_materialize_extensions(
    root: ReversePath,
    h_b: ReversePath,
    h_c: ReversePath,
    h_d: ReversePath,
    h_e: ReversePath,
    a: Seq<u8>,
    b: Seq<u8>,
    c: Seq<u8>,
    d: Seq<u8>,
    e: Seq<u8>,
)
    requires
        root.components() == seq![a],
        h_b.components() == root.components().push(b),
        h_c.components() == h_b.components().push(c),
        h_d.components() == root.components().push(d),
        h_e.components() == h_d.components().push(e),
    ensures
        h_c.components() == seq![a, b, c],
        h_e.components() == seq![a, d, e],
{
    assert(h_c.components() =~= seq![a, b, c]);
    assert(h_e.components() =~= seq![a, d, e]);
}

} // verus!
