//! Nodes of authenticated multipoint evaluation trees: their stored
//! commitment and proof, and their positions in a complete binary tree of
//! fixed depth.

use crate::serde::{MyFromBytes, MyToBytes, SerdeError, SerdeType};
use vstd::arithmetic::power2::pow2;
use vstd::prelude::*;

verus! {

/// The commitment and the proof stored at a node.
#[derive(Clone, Copy, Default)]
pub struct AMTNode<G> {
    pub commitment: G,
    pub proof: G,
}

impl<G: View> View for AMTNode<G> {
    type V = (G::V, G::V);

    open spec fn view(&self) -> (G::V, G::V) {
        (self.commitment@, self.proof@)
    }
}

impl<G: MyFromBytes> MyFromBytes for AMTNode<G> {
    /// The commitment, then the proof, each in the requested form.
    open spec fn spec_read(data: Seq<u8>, ty: SerdeType) -> Option<((G::V, G::V), nat)> {
        match G::spec_read(data, ty) {
            None => None,
            Some((c, k)) => match G::spec_read(data.skip(k as int), ty) {
                None => None,
                Some((p, l)) => Some(((c, p), k + l)),
            },
        }
    }

    fn read(data: &[u8], pos: usize, ty: SerdeType) -> (r: Result<(Self, usize), SerdeError>) {
        let (commitment, mid) = match G::read(data, pos, ty) {
            Ok(x) => x,
            Err(e) => return Err(e),
        };
        proof {
            assert(data@.skip(pos as int).skip(mid - pos) =~= data@.skip(mid as int));
        }
        let (proof, end) = match G::read(data, mid, ty) {
            Ok(x) => x,
            Err(e) => return Err(e),
        };
        Ok((AMTNode { commitment, proof }, end))
    }
}

impl<G: MyToBytes> MyToBytes for AMTNode<G> {
    open spec fn spec_write(&self, ty: SerdeType) -> Seq<u8> {
        self.commitment.spec_write(ty) + self.proof.spec_write(ty)
    }

    fn write(&self, out: &mut Vec<u8>, ty: SerdeType) {
        self.commitment.write(out, ty);
        self.proof.write(out, ty);
        assert(out@ =~= old(out)@ + self.spec_write(ty));
    }
}

/// Reading back what `write` wrote gives the same node, commitment first
/// and proof second, whatever follows, for any component type that itself
/// reads back what it writes.
pub proof fn lemma_amt_node_roundtrip<G: MyFromBytes + MyToBytes>(n: AMTNode<G>, ty: SerdeType, rest: Seq<u8>)
    requires
        forall|x: G, r: Seq<u8>|
            #[trigger] G::spec_read(x.spec_write(ty) + r, ty) == Some((x@, x.spec_write(ty).len())),
    ensures
        AMTNode::<G>::spec_read(n.spec_write(ty) + rest, ty) == Some(
            ((n.commitment@, n.proof@), n.spec_write(ty).len()),
        ),
{
    let cw = n.commitment.spec_write(ty);
    let pw = n.proof.spec_write(ty);
    let data = n.spec_write(ty) + rest;
    assert(data =~= cw + (pw + rest));
    assert(G::spec_read(cw + (pw + rest), ty) == Some((n.commitment@, cw.len())));
    assert(data.skip(cw.len() as int) =~= pw + rest);
    assert(G::spec_read(pw + rest, ty) == Some((n.proof@, pw.len())));
}

/// A node of `u32` components written and read back, whatever follows, is
/// the same node: its commitment comes back as the commitment and its proof
/// as the proof.
pub proof fn lemma_amt_node_u32_roundtrip(n: AMTNode<u32>, ty: SerdeType, rest: Seq<u8>)
    ensures
        AMTNode::<u32>::spec_read(n.spec_write(ty) + rest, ty) == Some(((n.commitment, n.proof), 8nat)),
{
    assert forall|x: u32, r: Seq<u8>|
        #[trigger] <u32 as MyFromBytes>::spec_read(x.spec_write(ty) + r, ty) == Some((x@, x.spec_write(ty).len())) by {
        crate::serde::lemma_u32_roundtrip(x, ty, r);
        crate::serde::lemma_le_bytes_len(x as nat, 4);
    }
    crate::serde::lemma_le_bytes_len(n.commitment as nat, 4);
    crate::serde::lemma_le_bytes_len(n.proof as nat, 4);
    lemma_amt_node_roundtrip(n, ty, rest);
}

/// A node of a complete binary tree of depth `N`: the root has depth 0 and
/// the leaves depth `N`; the nodes of depth `d` are numbered from 0 to
/// `2^d - 1` from left to right.
#[derive(Copy, Clone, Debug, PartialEq, Eq, Hash)]
pub struct NodeIndex<const N: usize> {
    depth: usize,
    index: usize,
}

/// `true` when node `(ad, ai)` is node `(bd, bi)` or one of its ancestors.
pub open spec fn is_ancestor_or_self(ad: nat, ai: nat, bd: nat, bi: nat) -> bool {
    ad <= bd && bi / pow2((bd - ad) as nat) == ai
}

/// The number of the other child of the same parent.
pub open spec fn sibling_number(i: nat) -> nat {
    if i % 2 == 0 {
        i + 1
    } else {
        (i - 1) as nat
    }
}

impl<const N: usize> NodeIndex<N> {
    /// Every node index is valid: its depth is at most `N` (and below the
    /// bit width) and its number is below `2^depth`.
    #[verifier::type_invariant]
    pub closed spec fn well_formed(self) -> bool {
        &&& self.depth <= N
        &&& self.depth < usize::BITS
        &&& self.index < pow2(self.depth as nat)
    }

    /// A valid node index lies within the tree: its depth is at most `N` and
    /// its number is below `2^depth`. Every node index that `new`, `leaf`,
    /// `root`, `to_sibling` and `to_ancestor` give is valid.
    pub proof fn lemma_valid(self)
        requires
            self.well_formed(),
        ensures
            self.spec_depth() <= N,
            self.spec_depth() < usize::BITS,
            self.spec_index() < pow2(self.spec_depth()),
    {
    }

    /// The depth of the node.
    pub closed spec fn spec_depth(self) -> nat {
        self.depth as nat
    }

    /// The number of the node among the nodes of its depth.
    pub closed spec fn spec_index(self) -> nat {
        self.index as nat
    }

    /// `true` when the node is the root.
    pub open spec fn is_root(self) -> bool {
        self.spec_depth() == 0 && self.spec_index() == 0
    }

    /// Whether `needs_maintain` holds: the node is the root, a strict
    /// descendant of the shard root, or the sibling of the shard root or of one
    /// of its ancestors.
    pub open spec fn spec_needs_maintain(self, shard_root: Self) -> bool {
        ||| self.is_root()
        ||| (self.spec_depth() > shard_root.spec_depth() && is_ancestor_or_self(
            shard_root.spec_depth(),
            shard_root.spec_index(),
            self.spec_depth(),
            self.spec_index(),
        ))
        ||| (self.spec_depth() <= shard_root.spec_depth() && is_ancestor_or_self(
            self.spec_depth(),
            sibling_number(self.spec_index()),
            shard_root.spec_depth(),
            shard_root.spec_index(),
        ))
    }

    /// The node at `depth` numbered `index`.
    pub fn new(depth: usize, index: usize) -> (r: Self)
        requires
            depth <= N,
            depth < usize::BITS,
            index < pow2(depth as nat),
        ensures
            r.spec_depth() == depth,
            r.spec_index() == index,
    {
        Self { depth, index }
    }

    /// The leaf numbered `index`.
    pub fn leaf(index: usize) -> (r: Self)
        requires
            N < usize::BITS,
            index < pow2(N as nat),
        ensures
            r.spec_depth() == N,
            r.spec_index() == index,
    {
        Self::new(N, index)
    }

    /// The root.
    pub fn root() -> (r: Self)
        ensures
            r.spec_depth() == 0,
            r.spec_index() == 0,
    {
        proof {
            vstd::arithmetic::power2::lemma2_to64();
        }
        Self::new(0, 0)
    }

    /// The other child of the same parent.
    pub fn to_sibling(&self) -> (r: Self)
        requires
            self.spec_depth() > 0,
        ensures
            r.spec_depth() == self.spec_depth(),
            r.spec_index() == sibling_number(self.spec_index()),
    {
        proof {
            use_type_invariant(self);
        }
        let i = self.index;
        assert((i ^ 1usize) == if i % 2 == 0 { (i + 1) as usize } else { (i - 1) as usize })
            by (bit_vector);
        proof {
            vstd::arithmetic::power2::lemma_pow2_unfold(self.depth as nat);
            assert(pow2(self.depth as nat) % 2 == 0) by {
                vstd::arithmetic::div_mod::lemma_mod_multiples_basic(
                    pow2((self.depth - 1) as nat) as int,
                    2,
                );
                vstd::arithmetic::mul::lemma_mul_is_commutative(
                    2,
                    pow2((self.depth - 1) as nat) as int,
                );
            }
        }
        Self::new(self.depth, i ^ 1)
    }

    /// The ancestor `height` levels above the node.
    pub fn to_ancestor(&self, height: usize) -> (r: Self)
        requires
            height <= self.spec_depth(),
        ensures
            r.spec_depth() == self.spec_depth() - height,
            r.spec_index() == self.spec_index() / pow2(height as nat),
            is_ancestor_or_self(r.spec_depth(), r.spec_index(), self.spec_depth(), self.spec_index()),
    {
        proof {
            use_type_invariant(self);
        }
        let d = self.depth - height;
        proof {
            lemma_shr_div(self.index, height);
            lemma_div_below_pow2(self.index as nat, d as nat, height as nat);
        }
        Self::new(d, self.index >> height)
    }

    /// Whether the node must be maintained for the shard rooted at
    /// `shard_root`.
    pub fn needs_maintain(&self, shard_root: &Self) -> (r: bool)
        ensures
            r == self.spec_needs_maintain(*shard_root),
    {
        proof {
            use_type_invariant(self);
            use_type_invariant(shard_root);
        }
        if self.depth == 0 && self.index == 0 {
            return true;
        }
        if self.depth > shard_root.depth {
            let height_diff = self.depth - shard_root.depth;
            proof {
                lemma_shr_div(self.index, height_diff);
            }
            let index = self.index >> height_diff;
            return index == shard_root.index;
        } else {
            proof {
                if self.depth == 0 {
                    vstd::arithmetic::power2::lemma2_to64();
                }
            }
            let sib = self.to_sibling();
            proof {
                use_type_invariant(sib);
            }
            let height_diff = shard_root.depth - sib.depth;
            proof {
                lemma_shr_div(shard_root.index, height_diff);
            }
            let index = shard_root.index >> height_diff;
            return sib.index == index;
        }
    }

    pub fn depth(&self) -> (r: usize)
        ensures
            r == self.spec_depth(),
    {
        self.depth
    }

    pub fn index(&self) -> (r: usize)
        ensures
            r == self.spec_index(),
    {
        self.index
    }

    /// The depth of the leaves.
    pub fn total_depth(&self) -> (r: usize)
        ensures
            r == N,
    {
        N
    }
}

/// Taking the sibling twice gives the node back.
pub proof fn lemma_sibling_involution(i: nat)
    ensures
        sibling_number(sibling_number(i)) == i,
{
}

/// Going up `a` levels and then `b` levels is going up `a + b` levels.
pub proof fn lemma_ancestor_compose(i: nat, a: nat, b: nat)
    ensures
        i / pow2(a) / pow2(b) == i / pow2(a + b),
{
    vstd::arithmetic::power2::lemma_pow2_pos(a);
    vstd::arithmetic::power2::lemma_pow2_pos(b);
    vstd::arithmetic::power2::lemma_pow2_adds(a, b);
    vstd::arithmetic::div_mod::lemma_div_denominator(i as int, pow2(a) as int, pow2(b) as int);
}

proof fn lemma_shr_div(x: usize, s: usize)
    requires
        s < usize::BITS,
    ensures
        (x >> s) == x as nat / pow2(s as nat),
{
    vstd::bits::lemma_usize_shr_is_div(x, s);
}

proof fn lemma_div_below_pow2(x: nat, d: nat, h: nat)
    requires
        x < pow2(d + h),
    ensures
        x / pow2(h) < pow2(d),
{
    vstd::arithmetic::power2::lemma_pow2_adds(d, h);
    vstd::arithmetic::power2::lemma_pow2_pos(h);
    vstd::arithmetic::mul::lemma_mul_is_commutative(pow2(d) as int, pow2(h) as int);
    vstd::arithmetic::div_mod::lemma_multiply_divide_lt(x as int, pow2(h) as int, pow2(d) as int);
}

} // verus!
