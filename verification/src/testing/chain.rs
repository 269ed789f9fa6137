//! An in-memory block chain for driving the voter in tests: blocks with their QCs, the links from
//! parents to children, the last finalized block and the last key block that was voted on.
use std::collections::BTreeMap;

use vstd::prelude::*;

use super::model::{
    first_child_in, generated_block, genesis_block, lemma_first_child_prefix,
    lemma_generated_next_key, lemma_generated_prefix, lemma_key_ancestor,
    lemma_with_block_well_formed, lemma_with_finalized_well_formed,
    lemma_with_qc_saved_well_formed, lemma_first_child_parent, summary, votes_map, BlockView, ChainView, QcView,
};
use super::names::{block_hash, genesis, genesis_string};
use super::{BlockNumber, Id, Signature};

verus! {

/// A quorum certificate for the block `hash` at `height`, with each voter's signature.
#[derive(Debug, Clone)]
pub struct QC {
    height: u64,
    hash: super::Hash,
    signatures: BTreeMap<Id, Signature>,
}

impl View for QC {
    type V = QcView;

    closed spec fn view(&self) -> QcView {
        QcView { height: self.height, hash: self.hash@, signatures: self.signatures@ }
    }
}

impl Default for QC {
    fn default() -> (qc: QC)
        ensures
            qc@ == QcView::empty(),
    {
        QC { height: 0, hash: String::new(), signatures: BTreeMap::new() }
    }
}

impl QC {
    /// Builds the QC for block `hash` at `height` from `(voter, signature)` pairs; a later pair
    /// of the same voter replaces an earlier one.
    pub fn from_votes(height: u64, hash: super::Hash, signatures: Vec<(Id, Signature)>) -> (qc: QC)
        ensures
            qc@ == (QcView { height, hash: hash@, signatures: votes_map(signatures@) }),
    {
        let mut map: BTreeMap<Id, Signature> = BTreeMap::new();
        let mut i: usize = 0;
        while i < signatures.len()
            invariant
                i <= signatures.len(),
                map@ == votes_map(signatures@.take(i as int)),
            decreases signatures.len() - i,
        {
            let (id, signature) = signatures[i];
            map.insert(id, signature);
            assert(signatures@.take(i + 1).drop_last() =~= signatures@.take(i as int));
            i = i + 1;
        }
        assert(signatures@.take(i as int) =~= signatures@);
        QC { height, hash, signatures: map }
    }

    /// Whether no voter signed.
    pub fn is_empty(&self) -> (r: bool)
        ensures
            r == self@.signatures.is_empty(),
    {
        self.signatures.is_empty()
    }

    /// A copy of this QC.
    pub fn duplicate(&self) -> (qc: QC)
        ensures
            qc@ == self@,
    {
        QC { height: self.height, hash: self.hash.clone(), signatures: self.signatures.clone() }
    }
}

} // verus!

verus! {

/// A block: its hash, number, parent and QC, and whether it is a key block.
#[derive(Debug, Clone)]
pub(crate) struct Block {
    qc: QC,
    /// Hash
    hash: super::Hash,
    /// Block height
    number: BlockNumber,
    /// Parent hash
    parent: super::Hash,
    /// Key block or not
    key_block: bool,
}

impl View for Block {
    type V = BlockView;

    closed spec fn view(&self) -> BlockView {
        BlockView {
            qc: self.qc@,
            hash: self.hash@,
            number: self.number,
            parent: self.parent@,
            key_block: self.key_block,
        }
    }
}

impl Block {
    /// A key block under `parent_block` that carries `qc`.
    fn new_key_block(parent_block: &Block, hash: super::Hash, number: BlockNumber, qc: QC) -> (b: Block)
        ensures
            b@ == (BlockView { qc: qc@, hash: hash@, number, parent: parent_block@.hash, key_block: true }),
    {
        Block { qc, hash, number, parent: parent_block.hash.clone(), key_block: true }
    }

    /// A block between key blocks: it carries its parent's QC.
    fn new_in_between_block(parent_block: &Block, hash: super::Hash, number: BlockNumber) -> (b: Block)
        ensures
            b@ == (BlockView {
                qc: parent_block@.qc,
                hash: hash@,
                number,
                parent: parent_block@.hash,
                key_block: false,
            }),
    {
        Block {
            qc: parent_block.qc.duplicate(),
            hash,
            number,
            parent: parent_block.hash.clone(),
            key_block: false,
        }
    }

    /// A copy of this block.
    fn duplicate(&self) -> (b: Block)
        ensures
            b@ == self@,
    {
        Block {
            qc: self.qc.duplicate(),
            hash: self.hash.clone(),
            number: self.number,
            parent: self.parent.clone(),
            key_block: self.key_block,
        }
    }
}

/// The blocks of `s` by hash; a later block replaces an earlier one with the same hash.
#[verifier::opaque]
spec fn blocks_map(s: Seq<Block>) -> Map<Seq<char>, BlockView>
    decreases s.len(),
{
    if s.len() == 0 {
        Map::empty()
    } else {
        blocks_map(s.drop_last()).insert(s.last()@.hash, s.last()@)
    }
}

/// No two blocks of `s` share a hash.
spec fn distinct_hashes(s: Seq<Block>) -> bool {
    forall|i: int, j: int| 0 <= i < j < s.len() ==> s[i]@.hash != s[j]@.hash
}

spec fn links_view(s: Seq<(super::Hash, super::Hash)>) -> Seq<(Seq<char>, Seq<char>)> {
    s.map_values(|e: (super::Hash, super::Hash)| (e.0@, e.1@))
}

proof fn lemma_blocks_map_index(s: Seq<Block>, i: int)
    requires
        0 <= i < s.len(),
        distinct_hashes(s),
    ensures
        blocks_map(s).contains_key(s[i]@.hash),
        blocks_map(s)[s[i]@.hash] == s[i]@,
    decreases s.len(),
{
    reveal(blocks_map);
    if i < s.len() - 1 {
        lemma_blocks_map_index(s.drop_last(), i);
    }
}

proof fn lemma_blocks_map_dom(s: Seq<Block>, k: Seq<char>)
    requires
        blocks_map(s).contains_key(k),
    ensures
        exists|i: int| 0 <= i < s.len() && s[i]@.hash == k,
    decreases s.len(),
{
    reveal(blocks_map);
    if s.last()@.hash != k {
        lemma_blocks_map_dom(s.drop_last(), k);
        let i = choose|i: int| 0 <= i < s.drop_last().len() && s.drop_last()[i]@.hash == k;
        assert(s[i]@.hash == k);
    }
}

proof fn lemma_blocks_map_update(s: Seq<Block>, i: int, b: Block)
    requires
        0 <= i < s.len(),
        distinct_hashes(s),
        b@.hash == s[i]@.hash,
    ensures
        distinct_hashes(s.update(i, b)),
        blocks_map(s.update(i, b)) == blocks_map(s).insert(b@.hash, b@),
    decreases s.len(),
{
    reveal(blocks_map);
    let t = s.update(i, b);
    if i == s.len() - 1 {
        assert(t.drop_last() =~= s.drop_last());
    } else {
        assert(t.drop_last() =~= s.drop_last().update(i, b));
        lemma_blocks_map_update(s.drop_last(), i, b);
    }
    assert(blocks_map(t) =~= blocks_map(s).insert(b@.hash, b@));
}

proof fn lemma_blocks_map_push(s: Seq<Block>, b: Block)
    requires
        distinct_hashes(s),
        !blocks_map(s).contains_key(b@.hash),
    ensures
        distinct_hashes(s.push(b)),
        blocks_map(s.push(b)) == blocks_map(s).insert(b@.hash, b@),
{
    reveal(blocks_map);
    assert forall|i: int| 0 <= i < s.len() implies s[i]@.hash != b@.hash by {
        lemma_blocks_map_index(s, i);
    }
    assert(s.push(b).drop_last() =~= s);
}

proof fn lemma_links_view_push(s: Seq<(super::Hash, super::Hash)>, e: (super::Hash, super::Hash))
    ensures
        links_view(s.push(e)) == links_view(s).push((e.0@, e.1@)),
{
    assert(links_view(s.push(e)) =~= links_view(s).push((e.0@, e.1@)));
}

/// A blockchain structure.
#[derive(Debug)]
pub struct DummyChain {
    inner: Vec<Block>,
    finalized: (BlockNumber, super::Hash),
    /// `(parent, child)` hashes, in the order the children were added.
    children: Vec<(super::Hash, super::Hash)>,
    /// Will always be the key block.
    latest_voted: (BlockNumber, super::Hash),
}

impl View for DummyChain {
    type V = ChainView;

    closed spec fn view(&self) -> ChainView {
        ChainView {
            blocks: blocks_map(self.inner@),
            links: links_view(self.children@),
            finalized: (self.finalized.0, self.finalized.1@),
            latest_voted: (self.latest_voted.0, self.latest_voted.1@),
        }
    }
}

impl DummyChain {
    /// The stored blocks have distinct hashes.
    pub closed spec fn hashes_distinct(&self) -> bool {
        distinct_hashes(self.inner@)
    }

    /// The chain's invariant.
    pub open spec fn wf(&self) -> bool {
        self.hashes_distinct() && self@.well_formed()
    }

    /// A chain that holds the genesis block only.
    pub fn new() -> (chain: DummyChain)
        ensures
            chain.wf(),
            chain@ == ChainView::initial(),
    {
        let mut inner: Vec<Block> = Vec::new();
        let qc = QC { height: 0, hash: genesis_string(), signatures: BTreeMap::new() };
        inner.push(
            Block {
                qc,
                number: 0,
                parent: genesis_string(),
                key_block: true,
                hash: genesis_string(),
            },
        );
        let chain = DummyChain {
            inner,
            finalized: (0, genesis_string()),
            children: Vec::new(),
            latest_voted: (0, genesis_string()),
        };
        proof {
            reveal_with_fuel(blocks_map, 2);
            assert(chain.inner@.drop_last() =~= Seq::<Block>::empty());
            assert(chain.inner@[0]@ == genesis_block());
            assert(chain@.blocks =~= map![genesis() => genesis_block()]);
            assert(chain@.links =~= Seq::<(Seq<char>, Seq<char>)>::empty());
        }
        chain
    }

    /// The index of the stored block with hash `hash`.
    fn find_block(&self, hash: &super::Hash) -> (r: Option<usize>)
        requires
            self.hashes_distinct(),
        ensures
            match r {
                Some(i) => {
                    &&& i < self.inner.len()
                    &&& self.inner@[i as int]@.hash == hash@
                    &&& self@.blocks.contains_key(hash@)
                    &&& self@.blocks[hash@] == self.inner@[i as int]@
                },
                None => !self@.blocks.contains_key(hash@),
            },
    {
        let mut i: usize = 0;
        while i < self.inner.len()
            invariant
                i <= self.inner.len(),
                distinct_hashes(self.inner@),
                forall|j: int| 0 <= j < i ==> self.inner@[j]@.hash != hash@,
            decreases self.inner.len() - i,
        {
            if self.inner[i].hash == *hash {
                proof {
                    lemma_blocks_map_index(self.inner@, i as int);
                }
                return Some(i);
            }
            i = i + 1;
        }
        proof {
            if blocks_map(self.inner@).contains_key(hash@) {
                lemma_blocks_map_dom(self.inner@, hash@);
            }
        }
        None
    }

    /// The index of the link to the first child of `hash`.
    fn first_child_index(&self, hash: &super::Hash) -> (r: Option<usize>)
        ensures
            match r {
                Some(i) => {
                    &&& i < self.children.len()
                    &&& self@.links[i as int].0 == hash@
                    &&& self@.first_child(hash@) == Some(self@.links[i as int].1)
                },
                None => self@.first_child(hash@) is None,
            },
    {
        let ghost links = self@.links;
        let mut i: usize = 0;
        while i < self.children.len()
            invariant
                i <= self.children.len(),
                links == links_view(self.children@),
                first_child_in(links.take(i as int), hash@) is None,
            decreases self.children.len() - i,
        {
            if self.children[i].0 == *hash {
                proof {
                    assert(links.take(i + 1).drop_last() =~= links.take(i as int));
                    lemma_first_child_prefix(links, i + 1, hash@);
                }
                return Some(i);
            }
            assert(links.take(i + 1).drop_last() =~= links.take(i as int));
            i = i + 1;
        }
        assert(links.take(i as int) =~= links);
        None
    }

    /// The index of the first key block reached from `start` by following first children.
    fn next_key_after(&self, start: &super::Hash) -> (r: Result<usize, ()>)
        requires
            self.wf(),
            self@.blocks.contains_key(start@),
            self@.next_key_block(start@) is Some,
        ensures
            r matches Ok(i) && i < self.inner.len() && self.inner@[i as int]@.hash
                == self@.next_key_block(start@).unwrap() && self@.blocks[self.inner@[i as int]@.hash]
                == self.inner@[i as int]@,
    {
        let mut hash = start.clone();
        loop
            invariant
                self.wf(),
                self@.blocks.contains_key(hash@),
                self@.next_key_block(hash@) == self@.next_key_block(start@),
                self@.next_key_block(start@) is Some,
            decreases u64::MAX - self@.blocks[hash@].number,
        {
            let ci = match self.first_child_index(&hash) {
                Some(ci) => ci,
                None => return Err(()),
            };
            let child = self.children[ci].1.clone();
            proof {
                let (p, c) = self@.links[ci as int];
                assert(self@.blocks.contains_key(c));
            }
            let bi = match self.find_block(&child) {
                Some(bi) => bi,
                None => return Err(()),
            };
            if self.inner[bi].key_block {
                return Ok(bi);
            }
            hash = child;
        }
    }

    /// Generate dummy blocks.
    ///
    /// WARNING: Only call this function when the chain is empty.
    pub fn generate_init_blocks(&mut self, n: usize)
        requires
            old(self).wf(),
            old(self)@ == ChainView::initial(),
            n >= 1,
        ensures
            final(self).wf(),
            final(self)@ == ChainView::generated(n as nat),
    {
        proof {
            lemma_generated_prefix(0);
        }
        let mut parent_block = self.get_genesis().duplicate();
        let key_block_interval: usize = 3;
        let mut i: usize = 0;
        while i < n
            invariant
                i <= n,
                key_block_interval == 3,
                self.wf(),
                self@ == ChainView::generated_prefix(i as nat),
                parent_block@ == (if i == 0 {
                    genesis_block()
                } else {
                    generated_block((i - 1) as nat)
                }),
            decreases n - i,
        {
            proof {
                lemma_generated_prefix(i as nat);
                lemma_generated_prefix((i + 1) as nat);
                reveal_with_fuel(ChainView::generated_prefix, 2);
            }
            let hash = block_hash(i);
            let block = if i % key_block_interval == 0 {
                let qc = QC::default();
                Block::new_key_block(&parent_block, hash, i as u64 + 1, qc)
            } else {
                Block::new_in_between_block(&parent_block, hash, i as u64 + 1)
            };
            assert(block@ == generated_block(i as nat));
            self.push_block(block.duplicate());
            parent_block = block;
            i = i + 1;
        }
        proof {
            lemma_generated_prefix(n as nat);
            lemma_generated_next_key(n as nat);
        }
        // First block.
        let qc = self.get_genesis().qc.duplicate();
        let saved = self.save_qc(qc);
        assert(saved is Ok);
    }

    /// Get the genesis block.
    pub(crate) fn get_genesis(&self) -> (b: &Block)
        requires
            self.wf(),
        ensures
            b@ == self@.blocks[genesis()],
            b@ == genesis_block(),
    {
        let g = genesis_string();
        let i = self.find_block(&g).unwrap();
        &self.inner[i]
    }

    /// Add a chain to current chain: the blocks one after another, as `push_block` adds them.
    ///
    /// Used for test only.
    pub(crate) fn push_blocks(&mut self, blocks: &[Block])
        requires
            old(self).wf(),
            old(self)@.accepts_all(blocks@.map_values(|b: Block| b@)),
        ensures
            final(self).wf(),
            final(self)@ == old(self)@.with_blocks(blocks@.map_values(|b: Block| b@)),
    {
        let ghost views = blocks@.map_values(|b: Block| b@);
        if blocks.is_empty() {
            assert(views =~= Seq::<BlockView>::empty());
            return;
        }
        assert(views.skip(0) =~= views);
        let mut i: usize = 0;
        while i < blocks.len()
            invariant
                i <= blocks.len(),
                views == blocks@.map_values(|b: Block| b@),
                self.wf(),
                self@.accepts_all(views.skip(i as int)),
                self@.with_blocks(views.skip(i as int)) == old(self)@.with_blocks(views),
            decreases blocks.len() - i,
        {
            assert(views.skip(i as int).drop_first() =~= views.skip(i + 1));
            assert(views.skip(i as int)[0] == blocks@[i as int]@);
            self.push_block(blocks[i].duplicate());
            i = i + 1;
        }
        assert(views.skip(i as int) =~= Seq::<BlockView>::empty());
    }

    /// Add a block to current chain: a block with a new hash under a stored, older parent; it is
    /// linked as the last child of that parent.
    pub(crate) fn push_block(&mut self, block: Block)
        requires
            old(self).wf(),
            old(self)@.accepts(block@),
        ensures
            final(self).wf(),
            final(self)@ == old(self)@.with_block(block@),
    {
        proof {
            lemma_with_block_well_formed(old(self)@, block@);
            lemma_blocks_map_push(old(self).inner@, block);
        }
        let parent = block.parent.clone();
        let hash = block.hash.clone();
        let link = (parent, hash);
        proof {
            lemma_links_view_push(self.children@, link);
        }
        self.inner.push(block);
        self.children.push(link);
    }

    /// Whether the chain holds a block with hash `hash`.
    pub fn contains_block(&self, hash: &super::Hash) -> (r: bool)
        requires
            self.wf(),
        ensures
            r == self@.blocks.contains_key(hash@),
    {
        self.find_block(hash).is_some()
    }

    /// Whether following first children from block `from` reaches a key block: what
    /// `next_to_be_finalized` (from the last finalized block) and `save_qc` (from the last voted
    /// block) need.
    pub fn has_key_block_after(&self, from: &super::Hash) -> (r: bool)
        requires
            self.wf(),
        ensures
            r == (self@.blocks.contains_key(from@) && self@.next_key_block(from@) is Some),
    {
        if self.find_block(from).is_none() {
            return false;
        }
        let mut hash = from.clone();
        loop
            invariant
                self.wf(),
                self@.blocks.contains_key(hash@),
                self@.blocks.contains_key(from@),
                (self@.next_key_block(hash@) is Some) == (self@.next_key_block(from@) is Some),
            decreases u64::MAX - self@.blocks[hash@].number,
        {
            let ci = match self.first_child_index(&hash) {
                Some(ci) => ci,
                None => return false,
            };
            proof {
                lemma_first_child_parent(self@, hash@);
            }
            let child = self.children[ci].1.clone();
            let bi = match self.find_block(&child) {
                Some(bi) => bi,
                None => return false,
            };
            if self.inner[bi].key_block {
                return true;
            }
            hash = child;
        }
    }

    /// Number and hash of the last finalized block.
    pub fn last_finalized(&self) -> (r: (BlockNumber, super::Hash))
        ensures
            r.0 == self@.finalized.0,
            r.1@ == self@.finalized.1,
    {
        (self.finalized.0, self.finalized.1.clone())
    }

    /// Get block after the last finalized block
    ///
    /// Always returns the key block.
    pub fn next_to_be_finalized(&self) -> (r: Result<(BlockNumber, super::Hash), ()>)
        requires
            self.wf(),
            self@.next_key_block(self@.finalized.1) is Some,
        ensures
            r matches Ok((number, hash)) && (number, hash@) == self@.finalizing_target(),
    {
        let i = self.next_key_after(&self.finalized.1)?;
        Ok((self.inner[i].number, self.inner[i].hash.clone()))
    }

    /// Get the block to be voted on.
    ///
    /// Will return the last key block that have a QC.
    pub fn next_to_be_voted(&self) -> (r: Result<(BlockNumber, super::Hash, (BlockNumber, super::Hash)), ()>)
        requires
            self.wf(),
        ensures
            r matches Ok((number, hash, (qc_height, qc_hash))) && (number, hash@, (qc_height, qc_hash@))
                == self@.voting_target(),
    {
        let hash = self.latest_voted.1.clone();
        let i = match self.find_block(&hash) {
            Some(i) => i,
            None => return Err(()),
        };
        let block = &self.inner[i];
        Ok((block.number, hash, (block.qc.height, block.qc.hash.clone())))
    }

    /// Gives the next key block after the last voted one the QC `qc`, and makes it the last voted one.
    pub fn save_qc(&mut self, qc: QC) -> (r: Result<(), ()>)
        requires
            old(self).wf(),
            old(self)@.next_key_block(old(self)@.latest_voted.1) is Some,
        ensures
            r is Ok,
            final(self).wf(),
            final(self)@ == old(self)@.with_qc_saved(qc@),
    {
        // find the next key block
        let i = self.next_key_after(&self.latest_voted.1)?;
        // update the block
        let old_block = &self.inner[i];
        let block = Block {
            qc,
            hash: old_block.hash.clone(),
            number: old_block.number,
            parent: old_block.parent.clone(),
            key_block: old_block.key_block,
        };
        let number = block.number;
        let hash = block.hash.clone();
        proof {
            lemma_blocks_map_update(self.inner@, i as int, block);
            lemma_with_qc_saved_well_formed(old(self)@, qc@);
        }
        self.inner.set(i, block);
        self.latest_voted = (number, hash);
        proof {
            assert(self@.blocks =~= old(self)@.with_qc_saved(qc@).blocks);
        }
        Ok(())
    }

    /// Finalized a block.
    pub fn finalize_block(&mut self, block: super::Hash) -> (r: bool)
        requires
            old(self).wf(),
            block@ != genesis(),
        ensures
            r == old(self)@.blocks.contains_key(block@),
            final(self).wf(),
            final(self)@ == old(self)@.with_finalized(block@),
    {
        proof {
            lemma_with_finalized_well_formed(old(self)@, block@);
        }
        if let Some(i) = self.find_block(&block) {
            // A block other than genesis descends from an older parent.
            self.finalized = (self.inner[i].number, block);
            return true;
        }
        false
    }

    /// The nearest key block strictly above block `hash`, with its QC.
    pub fn parent_key_block(&self, hash: super::Hash) -> (r: Option<(BlockNumber, super::Hash, (BlockNumber, super::Hash))>)
        requires
            self.wf(),
            self@.blocks.contains_key(hash@),
        ensures
            r matches Some((number, key_hash, (qc_height, qc_hash))) && (number, key_hash@, (qc_height, qc_hash@))
                == summary(self@.blocks[self@.parent_key_block(hash@).unwrap()]),
    {
        let ghost target = self@.parent_key_block(hash@);
        let start = self.find_block(&hash).unwrap();
        let mut current = self.inner[start].parent.clone();
        proof {
            lemma_key_ancestor(self@, current@);
        }
        loop
            invariant
                self.wf(),
                self@.blocks.contains_key(current@),
                self@.key_ancestor(current@) == target,
                target == self@.parent_key_block(hash@),
            decreases self@.blocks[current@].number,
        {
            let i = self.find_block(&current).unwrap();
            let block = &self.inner[i];
            if block.key_block {
                proof {
                    assert(self@.key_ancestor(current@) == Some(current@));
                    assert(self@.blocks[current@].hash == current@);
                }
                return Some((block.number, current, (block.qc.height, block.qc.hash.clone())));
            }
            proof {
                assert(current@ != genesis());
                let p = self@.blocks[current@].parent;
                assert(self@.blocks.contains_key(p));
                assert(self@.blocks[p].number < self@.blocks[current@].number);
            }
            let new_hash = block.parent.clone();
            if new_hash == current {
                return None;
            }
            current = new_hash;
        }
    }

    /// Number, hash and QC of block `hash`.
    pub fn get_block(&self, hash: &super::Hash) -> (r: Option<(BlockNumber, super::Hash, (BlockNumber, super::Hash))>)
        requires
            self.wf(),
            self@.blocks.contains_key(hash@),
        ensures
            r matches Some((number, block_hash, (qc_height, qc_hash))) && (number, block_hash@, (qc_height, qc_hash@))
                == summary(self@.blocks[hash@]),
    {
        let i = self.find_block(hash).unwrap();
        let block = &self.inner[i];
        Some((block.number, hash.clone(), (block.qc.height, block.qc.hash.clone())))
    }
}

} // verus!
