//! Names of the trees in a multi-layer multipoint tree: the path of child
//! positions from the root tree.

use crate::serde::{
    lemma_le_bytes_len, lemma_pow256_values, lemma_read_many_fails_after, lemma_u32_roundtrip, le_bytes,
    le_value, spec_read_many, spec_write_many, MyFromBytes, MyToBytes, SerdeError, SerdeType,
};
use vstd::prelude::*;

verus! {

/// The name of a tree: the positions of the children taken from the root
/// tree, the last one being the position within its level.
#[derive(Default, Debug, Clone, Hash, PartialEq, Eq, Ord, PartialOrd)]
pub struct TreeName(pub Vec<u32>);

impl View for TreeName {
    type V = Seq<u32>;

    open spec fn view(&self) -> Seq<u32> {
        self.0@
    }
}

impl TreeName {
    /// The root tree.
    pub fn root() -> (r: Self)
        ensures
            r@ == Seq::<u32>::empty(),
    {
        TreeName(Vec::new())
    }

    /// The position of the tree within its level; `None` for the root.
    pub fn level_index(&self) -> (r: Option<u32>)
        ensures
            r == (if self@.len() == 0 {
                None
            } else {
                Some(self@.last())
            }),
    {
        if self.0.len() == 0 {
            None
        } else {
            Some(self.0[self.0.len() - 1])
        }
    }

    /// The child tree at position `index`.
    pub fn child(&self, index: u32) -> (r: Self)
        ensures
            r@ == self@.push(index),
    {
        let mut answer = self.0.clone();
        assert(answer@ =~= self@);
        answer.push(index);
        TreeName(answer)
    }

    /// The parent tree; `None` for the root.
    pub fn parent(&self) -> (r: Option<Self>)
        ensures
            match r {
                None => self@.len() == 0,
                Some(p) => self@.len() > 0 && p@ == self@.drop_last(),
            },
    {
        let mut answer = self.0.clone();
        assert(answer@ =~= self@);
        let top_element = answer.pop();
        if top_element.is_none() {
            None
        } else {
            Some(TreeName(answer))
        }
    }
}

/// The parent of a child tree is the tree itself, and the child's position
/// within its level is the position it was created with.
pub proof fn lemma_child_parent(name: Seq<u32>, index: u32)
    ensures
        name.push(index).len() > 0,
        name.push(index).drop_last() == name,
        name.push(index).last() == index,
{
    assert(name.push(index).drop_last() =~= name);
}

impl MyFromBytes for TreeName {
    open spec fn spec_read(data: Seq<u8>, ty: SerdeType) -> Option<(Seq<u32>, nat)> {
        match <u8 as MyFromBytes>::spec_read(data, ty) {
            None => None,
            Some((len, k)) => match spec_read_many::<u32>(data.skip(k as int), ty, len as nat) {
                None => None,
                Some((items, used)) => Some((items, k + used)),
            },
        }
    }

    fn read(data: &[u8], pos: usize, ty: SerdeType) -> (r: Result<(Self, usize), SerdeError>) {
        let (length, start) = match <u8 as MyFromBytes>::read(data, pos, ty) {
            Ok(x) => x,
            Err(e) => return Err(e),
        };
        let ghost d = data@.skip(pos as int);
        let ghost body = d.skip(start - pos);
        assert(body =~= data@.skip(start as int));
        let mut answer: Vec<u32> = Vec::with_capacity(length as usize);
        let mut cur = start;
        let mut i: u8 = 0;
        while i < length
            invariant
                pos <= start <= cur <= data@.len(),
                i <= length,
                d == data@.skip(pos as int),
                body == data@.skip(start as int),
                d.skip(start - pos) == body,
                <u8 as MyFromBytes>::spec_read(d, ty) == Some((length, (start - pos) as nat)),
                spec_read_many::<u32>(body, ty, i as nat) == Some((answer@, (cur - start) as nat)),
            decreases length - i,
        {
            let (item, next) = match <u32 as MyFromBytes>::read(data, cur, ty) {
                Ok(x) => x,
                Err(e) => {
                    proof {
                        assert(body.skip(cur - start) =~= data@.skip(cur as int));
                        lemma_read_many_fails_after::<u32>(body, ty, i as nat, length as nat);
                    }
                    return Err(e);
                },
            };
            proof {
                assert(body.skip(cur - start) =~= data@.skip(cur as int));
            }
            answer.push(item);
            cur = next;
            i = i + 1;
        }
        Ok((TreeName(answer), cur))
    }
}

impl MyToBytes for TreeName {
    /// The number of positions as one byte (only its low eight bits are
    /// kept), then each position.
    open spec fn spec_write(&self, ty: SerdeType) -> Seq<u8> {
        seq![(self@.len() % 256) as u8] + spec_write_many(self@, ty)
    }

    fn write(&self, out: &mut Vec<u8>, ty: SerdeType) {
        let len_byte = (self.0.len() % 256) as u8;
        <u8 as MyToBytes>::write(&len_byte, out, ty);
        proof {
            lemma_pow256_values();
            reveal_with_fuel(le_bytes, 2);
            assert(le_bytes(len_byte as nat, 1) =~= seq![len_byte]);
        }
        let ghost start = out@;
        let mut i: usize = 0;
        while i < self.0.len()
            invariant
                i <= self@.len(),
                out@ == start + spec_write_many(self@.subrange(0, i as int), ty),
            decreases self@.len() - i,
        {
            <u32 as MyToBytes>::write(&self.0[i], out, ty);
            proof {
                assert(self@.subrange(0, i + 1).drop_last() =~= self@.subrange(0, i as int));
            }
            i = i + 1;
        }
        assert(self@.subrange(0, self@.len() as int) =~= self@);
    }
}

/// Positions written one after another and read back, whatever follows them,
/// are the same positions.
pub proof fn lemma_u32_many_roundtrip(items: Seq<u32>, ty: SerdeType, rest: Seq<u8>)
    ensures
        spec_write_many(items, ty).len() == 4 * items.len(),
        spec_read_many::<u32>(spec_write_many(items, ty) + rest, ty, items.len()) == Some(
            (items, 4 * items.len()),
        ),
    decreases items.len(),
{
    if items.len() > 0 {
        let init = items.drop_last();
        let last = items.last();
        let lb = last.spec_write(ty);
        lemma_pow256_values();
        lemma_le_bytes_len(last as nat, 4);
        lemma_u32_many_roundtrip(init, ty, lb + rest);
        let data = spec_write_many(items, ty) + rest;
        assert(data =~= spec_write_many(init, ty) + (lb + rest));
        assert(data.skip((4 * init.len()) as int) =~= lb + rest);
        lemma_u32_roundtrip(last, ty, rest);
        assert(init.push(last) =~= items);
    } else {
        assert(spec_write_many(items, ty) + rest =~= rest);
    }
}

/// A tree name of fewer than 256 positions, written and read back whatever
/// follows it, is the same name.
pub proof fn lemma_tree_name_roundtrip(name: TreeName, ty: SerdeType, rest: Seq<u8>)
    requires
        name@.len() < 256,
    ensures
        TreeName::spec_read(name.spec_write(ty) + rest, ty) == Some(
            (name@, 1 + 4 * name@.len()),
        ),
{
    let items = name@;
    lemma_u32_many_roundtrip(items, ty, rest);
    let data = name.spec_write(ty) + rest;
    lemma_pow256_values();
    reveal_with_fuel(le_value, 2);
    assert(data.take(1) =~= seq![items.len() as u8]);
    assert(data.skip(1) =~= spec_write_many(items, ty) + rest);
}

} // verus!
