//! What a message between peers holds, as plain values.

use crate::ident::{Block, Cid};
use crate::wantlist::Entry;
use vstd::prelude::*;

verus! {

/// What a peer says about a block it was asked about.
#[derive(Clone, Copy, PartialEq, Eq, Structural, Debug)]
pub enum BlockPresenceType {
    Have,
    DontHave,
}

/// One statement of a peer about one block.
#[derive(Clone, Copy, PartialEq, Eq, Structural, Debug)]
pub struct BlockPresence {
    pub cid: Cid,
    pub typ: BlockPresenceType,
}

/// A message: wants, blocks, and statements about blocks.
#[derive(Clone, Debug)]
pub struct BitswapMessage {
    /// Whether the wantlist replaces the one sent before.
    pub full: bool,
    pub wantlist: Vec<Entry>,
    pub blocks: Vec<Block>,
    pub block_presences: Vec<BlockPresence>,
    pub pending_bytes: i32,
}

/// The identifiers of `presences` that are of kind `typ`, in order.
pub open spec fn presences_of(presences: Seq<BlockPresence>, typ: BlockPresenceType) -> Seq<Cid> {
    presences.filter(|p: BlockPresence| p.typ == typ).map_values(|p: BlockPresence| p.cid)
}

/// The identifiers of `blocks`, in order.
pub open spec fn block_cids(blocks: Seq<Block>) -> Seq<Cid> {
    blocks.map_values(|b: Block| b.cid)
}

/// The bytes that `blocks` hold together.
pub open spec fn total_len(blocks: Seq<Block>) -> nat
    decreases blocks.len(),
{
    if blocks.len() == 0 {
        0
    } else {
        total_len(blocks.drop_last()) + blocks.last().data@.len()
    }
}

/// The identifiers of `blocks`, in order.
pub fn cids_of_blocks(blocks: &Vec<Block>) -> (v: Vec<Cid>)
    ensures
        v@ == block_cids(blocks@),
{
    let mut v: Vec<Cid> = Vec::new();
    let mut i: usize = 0;
    while i < blocks.len()
        invariant
            i <= blocks@.len(),
            v@.len() == i,
            forall|j: int| 0 <= j < i ==> v@[j] == blocks@[j].cid,
        decreases blocks@.len() - i,
    {
        v.push(blocks[i].cid);
        i += 1;
    }
    assert(v@ =~= block_cids(blocks@));
    v
}

impl BitswapMessage {
    /// A message that holds nothing.
    pub fn new(full: bool) -> (m: Self)
        ensures
            m.full == full,
            m.wantlist@.len() == 0,
            m.blocks@.len() == 0,
            m.block_presences@.len() == 0,
            m.pending_bytes == 0,
    {
        BitswapMessage {
            full,
            wantlist: Vec::new(),
            blocks: Vec::new(),
            block_presences: Vec::new(),
            pending_bytes: 0,
        }
    }

    pub fn blocks_len(&self) -> (n: usize)
        ensures
            n == self.blocks@.len(),
    {
        self.blocks.len()
    }

    pub fn blocks(&self) -> (b: &Vec<Block>)
        ensures
            b == self.blocks,
    {
        &self.blocks
    }

    fn presences(&self, typ: BlockPresenceType) -> (v: Vec<Cid>)
        ensures
            v@ == presences_of(self.block_presences@, typ),
    {
        let ghost pred = |p: BlockPresence| p.typ == typ;
        let ghost cid_of = |p: BlockPresence| p.cid;
        let ghost all = self.block_presences@;
        let mut v: Vec<Cid> = Vec::new();
        let mut i: usize = 0;
        proof {
            crate::keyset::lemma_filter_ends(all, pred);
            assert(Seq::<BlockPresence>::empty().map_values(cid_of) =~= Seq::<Cid>::empty());
        }
        while i < self.block_presences.len()
            invariant
                all == self.block_presences@,
                i <= all.len(),
                pred == (|p: BlockPresence| p.typ == typ),
                cid_of == (|p: BlockPresence| p.cid),
                v@ == all.subrange(0, i as int).filter(pred).map_values(cid_of),
            decreases all.len() - i,
        {
            proof {
                crate::keyset::lemma_filter_next(all, i as int, pred);
                let f = all.subrange(0, i as int).filter(pred);
                assert(f.push(all[i as int]).map_values(cid_of) =~= f.map_values(cid_of).push(
                    all[i as int].cid,
                ));
            }
            let p = self.block_presences[i];
            if p.typ == typ {
                v.push(p.cid);
            }
            i += 1;
        }
        v
    }

    /// The blocks that the sender says it has.
    pub fn haves(&self) -> (v: Vec<Cid>)
        ensures
            v@ == presences_of(self.block_presences@, BlockPresenceType::Have),
    {
        self.presences(BlockPresenceType::Have)
    }

    /// The blocks that the sender says it lacks.
    pub fn dont_haves(&self) -> (v: Vec<Cid>)
        ensures
            v@ == presences_of(self.block_presences@, BlockPresenceType::DontHave),
    {
        self.presences(BlockPresenceType::DontHave)
    }
}

} // verus!
