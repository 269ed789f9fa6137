//! The mathematical model of the test chain: blocks keyed by hash, the parent-to-child links in
//! the order they were added, the last finalized block and the last key block that holds a QC.
use vstd::prelude::*;

use super::names::{block_name, genesis, lemma_block_name_distinct};

verus! {

/// A quorum certificate: the height and hash of the certified block, and the signature of each voter.
pub struct QcView {
    pub height: u64,
    pub hash: Seq<char>,
    pub signatures: Map<u64, u64>,
}

/// A block as the chain stores it.
pub struct BlockView {
    pub qc: QcView,
    pub hash: Seq<char>,
    pub number: u64,
    pub parent: Seq<char>,
    pub key_block: bool,
}

/// The whole chain.
pub struct ChainView {
    /// Every block, by its hash.
    pub blocks: Map<Seq<char>, BlockView>,
    /// `(parent, child)` for every block added after genesis, oldest first.
    pub links: Seq<(Seq<char>, Seq<char>)>,
    /// Number and hash of the last finalized block.
    pub finalized: (u64, Seq<char>),
    /// Number and hash of the last key block that was given a QC.
    pub latest_voted: (u64, Seq<char>),
}

impl QcView {
    /// The default QC: height 0, empty hash, no signatures.
    pub open spec fn empty() -> QcView {
        QcView { height: 0, hash: Seq::empty(), signatures: Map::empty() }
    }
}

/// The QC the genesis block starts with.
pub open spec fn genesis_qc() -> QcView {
    QcView { height: 0, hash: genesis(), signatures: Map::empty() }
}

/// The genesis block: number 0, its own parent, a key block.
pub open spec fn genesis_block() -> BlockView {
    BlockView { qc: genesis_qc(), hash: genesis(), number: 0, parent: genesis(), key_block: true }
}

/// The signature map that inserting `votes` one after another gives: a later vote of the same
/// voter replaces an earlier one.
pub open spec fn votes_map(votes: Seq<(u64, u64)>) -> Map<u64, u64>
    decreases votes.len(),
{
    if votes.len() == 0 {
        Map::empty()
    } else {
        votes_map(votes.drop_last()).insert(votes.last().0, votes.last().1)
    }
}

/// The child of `h` that was linked first, if `h` has a child.
pub open spec fn first_child_in(links: Seq<(Seq<char>, Seq<char>)>, h: Seq<char>) -> Option<Seq<char>>
    decreases links.len(),
{
    if links.len() == 0 {
        None
    } else {
        match first_child_in(links.drop_last(), h) {
            Some(c) => Some(c),
            None => if links.last().0 == h {
                Some(links.last().1)
            } else {
                None
            },
        }
    }
}

/// Number, hash and QC (height, hash) of a block: what lookups report.
pub open spec fn summary(b: BlockView) -> (u64, Seq<char>, (u64, Seq<char>)) {
    (b.number, b.hash, (b.qc.height, b.qc.hash))
}

/// The `i`-th generated block. Every third one, starting with the first, is a key block.
pub open spec fn generated_block(i: nat) -> BlockView {
    BlockView {
        qc: QcView::empty(),
        hash: block_name(i),
        number: (i + 1) as u64,
        parent: if i == 0 {
            genesis()
        } else {
            block_name((i - 1) as nat)
        },
        key_block: i % 3 == 0,
    }
}

impl ChainView {
    /// A chain that holds the genesis block only.
    pub open spec fn initial() -> ChainView {
        ChainView {
            blocks: map![genesis() => genesis_block()],
            links: seq![],
            finalized: (0, genesis()),
            latest_voted: (0, genesis()),
        }
    }

    /// What every reachable chain satisfies.
    pub open spec fn well_formed(self) -> bool {
        &&& self.blocks.contains_key(genesis())
        &&& self.blocks[genesis()] == genesis_block()
        &&& forall|h: Seq<char>| #[trigger] self.blocks.contains_key(h) ==> self.blocks[h].hash == h
        &&& forall|h: Seq<char>|
            #[trigger] self.blocks.contains_key(h) && h != genesis() ==> {
                &&& self.blocks.contains_key(self.blocks[h].parent)
                &&& self.blocks[self.blocks[h].parent].number < self.blocks[h].number
            }
        &&& forall|i: int|
            0 <= i < self.links.len() ==> {
                let (p, c) = #[trigger] self.links[i];
                &&& self.blocks.contains_key(p)
                &&& self.blocks.contains_key(c)
                &&& c != genesis()
                &&& self.blocks[c].parent == p
            }
        &&& self.blocks.contains_key(self.finalized.1)
        &&& self.blocks[self.finalized.1].number == self.finalized.0
        &&& self.blocks.contains_key(self.latest_voted.1)
        &&& self.blocks[self.latest_voted.1].number == self.latest_voted.0
        &&& self.blocks[self.latest_voted.1].key_block
    }

    /// The child of `h` that was linked first.
    pub open spec fn first_child(self, h: Seq<char>) -> Option<Seq<char>> {
        first_child_in(self.links, h)
    }

    /// The first key block reached from `h` by following first children, `h` itself excluded;
    /// `None` where a block on the way has no child.
    pub open spec fn next_key_block(self, h: Seq<char>) -> Option<Seq<char>>
        decreases u64::MAX - self.blocks[h].number,
    {
        match self.first_child(h) {
            Some(c) => if self.blocks.contains_key(c) && self.blocks[h].number
                < self.blocks[c].number {
                if self.blocks[c].key_block {
                    Some(c)
                } else {
                    self.next_key_block(c)
                }
            } else {
                None
            },
            None => None,
        }
    }

    /// The nearest key block among `h` and its ancestors.
    pub open spec fn key_ancestor(self, h: Seq<char>) -> Option<Seq<char>>
        decreases self.blocks[h].number,
    {
        if !self.blocks.contains_key(h) {
            None
        } else if self.blocks[h].key_block {
            Some(h)
        } else {
            let p = self.blocks[h].parent;
            if p != h && self.blocks.contains_key(p) && self.blocks[p].number
                < self.blocks[h].number {
                self.key_ancestor(p)
            } else {
                None
            }
        }
    }

    /// The nearest key block strictly above `h`: the key ancestor of its parent.
    pub open spec fn parent_key_block(self, h: Seq<char>) -> Option<Seq<char>> {
        self.key_ancestor(self.blocks[h].parent)
    }

    /// The chain with block `b` added and linked under its parent.
    pub open spec fn with_block(self, b: BlockView) -> ChainView {
        ChainView {
            blocks: self.blocks.insert(b.hash, b),
            links: self.links.push((b.parent, b.hash)),
            finalized: self.finalized,
            latest_voted: self.latest_voted,
        }
    }

    /// Whether `b` may be added: a new hash, a known parent with a smaller number.
    pub open spec fn accepts(self, b: BlockView) -> bool {
        &&& !self.blocks.contains_key(b.hash)
        &&& self.blocks.contains_key(b.parent)
        &&& self.blocks[b.parent].number < b.number
    }

    /// Whether `bs` may be added one after another.
    pub open spec fn accepts_all(self, bs: Seq<BlockView>) -> bool
        decreases bs.len(),
    {
        bs.len() == 0 || (self.accepts(bs[0]) && self.with_block(bs[0]).accepts_all(bs.drop_first()))
    }

    /// The chain with `bs` added one after another.
    pub open spec fn with_blocks(self, bs: Seq<BlockView>) -> ChainView
        decreases bs.len(),
    {
        if bs.len() == 0 {
            self
        } else {
            self.with_block(bs[0]).with_blocks(bs.drop_first())
        }
    }

    /// The chain after `qc` is saved: it goes into the next key block after the last voted one,
    /// which becomes the last voted one.
    pub open spec fn with_qc_saved(self, qc: QcView) -> ChainView {
        let k = self.next_key_block(self.latest_voted.1).unwrap();
        let b = self.blocks[k];
        ChainView {
            blocks: self.blocks.insert(
                k,
                BlockView { qc, hash: b.hash, number: b.number, parent: b.parent, key_block: b.key_block },
            ),
            links: self.links,
            finalized: self.finalized,
            latest_voted: (b.number, k),
        }
    }

    /// The chain after block `h` is finalized; unchanged where there is no such block.
    pub open spec fn with_finalized(self, h: Seq<char>) -> ChainView {
        if self.blocks.contains_key(h) {
            ChainView {
                blocks: self.blocks,
                links: self.links,
                finalized: (self.blocks[h].number, h),
                latest_voted: self.latest_voted,
            }
        } else {
            self
        }
    }

    /// The block to vote on next: the last voted key block, with its QC.
    pub open spec fn voting_target(self) -> (u64, Seq<char>, (u64, Seq<char>)) {
        summary(self.blocks[self.latest_voted.1])
    }

    /// The block to finalize next: the next key block after the last finalized one.
    pub open spec fn finalizing_target(self) -> (u64, Seq<char>) {
        let k = self.next_key_block(self.finalized.1).unwrap();
        (self.blocks[k].number, k)
    }

    /// The chain right after the first `n` generated blocks were added to the initial chain.
    pub open spec fn generated_prefix(n: nat) -> ChainView
        decreases n,
    {
        if n == 0 {
            ChainView::initial()
        } else {
            ChainView::generated_prefix((n - 1) as nat).with_block(generated_block((n - 1) as nat))
        }
    }

    /// The chain that generating `n` blocks leaves: the blocks added, then the genesis QC saved.
    pub open spec fn generated(n: nat) -> ChainView {
        ChainView::generated_prefix(n).with_qc_saved(genesis_qc())
    }
}

/// The next key block after `h` is a key block of the chain with a greater number than `h`.
pub proof fn lemma_next_key_block(v: ChainView, h: Seq<char>)
    requires
        v.well_formed(),
        v.blocks.contains_key(h),
        v.next_key_block(h) is Some,
    ensures
        v.blocks.contains_key(v.next_key_block(h).unwrap()),
        v.blocks[v.next_key_block(h).unwrap()].key_block,
        v.blocks[h].number < v.blocks[v.next_key_block(h).unwrap()].number,
    decreases u64::MAX - v.blocks[h].number,
{
    let c = v.first_child(h).unwrap();
    if !v.blocks[c].key_block {
        lemma_next_key_block(v, c);
    }
}

/// In a well-formed chain every block has a key ancestor (itself included): genesis is one.
pub proof fn lemma_key_ancestor(v: ChainView, h: Seq<char>)
    requires
        v.well_formed(),
        v.blocks.contains_key(h),
    ensures
        v.key_ancestor(h) is Some,
        v.blocks.contains_key(v.key_ancestor(h).unwrap()),
        v.blocks[v.key_ancestor(h).unwrap()].key_block,
        v.blocks[v.key_ancestor(h).unwrap()].number <= v.blocks[h].number,
        v.key_ancestor(h).unwrap() == h || v.blocks[v.key_ancestor(h).unwrap()].number
            < v.blocks[h].number,
    decreases v.blocks[h].number,
{
    if !v.blocks[h].key_block {
        let p = v.blocks[h].parent;
        lemma_key_ancestor(v, p);
    }
}

/// Adding a block that the chain accepts keeps it well formed.
pub proof fn lemma_with_block_well_formed(v: ChainView, b: BlockView)
    requires
        v.well_formed(),
        v.accepts(b),
    ensures
        v.with_block(b).well_formed(),
{
    let w = v.with_block(b);
    assert forall|i: int| 0 <= i < w.links.len() implies {
        let (p, c) = #[trigger] w.links[i];
        &&& w.blocks.contains_key(p)
        &&& w.blocks.contains_key(c)
        &&& c != genesis()
        &&& w.blocks[c].parent == p
    } by {
        if i < v.links.len() {
            assert(w.links[i] == v.links[i]);
            let (p, c) = v.links[i];
            assert(c != b.hash);
        }
    }
}

/// Saving a QC keeps the chain well formed.
pub proof fn lemma_with_qc_saved_well_formed(v: ChainView, qc: QcView)
    requires
        v.well_formed(),
        v.next_key_block(v.latest_voted.1) is Some,
    ensures
        v.with_qc_saved(qc).well_formed(),
{
    lemma_next_key_block(v, v.latest_voted.1);
    let w = v.with_qc_saved(qc);
    assert forall|i: int| 0 <= i < w.links.len() implies {
        let (p, c) = #[trigger] w.links[i];
        &&& w.blocks.contains_key(p)
        &&& w.blocks.contains_key(c)
        &&& c != genesis()
        &&& w.blocks[c].parent == p
    } by {
        assert(w.links[i] == v.links[i]);
    }
}

/// Finalizing a block keeps the chain well formed.
pub proof fn lemma_with_finalized_well_formed(v: ChainView, h: Seq<char>)
    requires
        v.well_formed(),
    ensures
        v.with_finalized(h).well_formed(),
{
}

/// The generated prefix of `n` blocks: well formed, genesis untouched, every generated block in
/// place, no later generated hash present yet, nothing finalized or voted beyond genesis.
pub proof fn lemma_generated_prefix(n: nat)
    requires
        n <= u64::MAX,
    ensures
        ChainView::generated_prefix(n).well_formed(),
        ChainView::generated_prefix(n).blocks[genesis()] == genesis_block(),
        ChainView::generated_prefix(n).finalized == (0u64, genesis()),
        ChainView::generated_prefix(n).latest_voted == (0u64, genesis()),
        forall|i: nat|
            i < n ==> #[trigger] ChainView::generated_prefix(n).blocks.contains_key(block_name(i))
                && ChainView::generated_prefix(n).blocks[block_name(i)] == generated_block(i),
        forall|j: nat|
            j >= n ==> !#[trigger] ChainView::generated_prefix(n).blocks.contains_key(block_name(j)),
        n >= 1 ==> ChainView::generated_prefix(n).first_child(genesis()) == Some(block_name(0)),
    decreases n,
{
    reveal_with_fuel(ChainView::generated_prefix, 2);
    if n == 0 {
        assert forall|j: nat| j >= n implies !#[trigger] ChainView::generated_prefix(n).blocks.contains_key(block_name(j)) by {
            lemma_block_name_distinct(j, j);
        }
    } else {
        let m = (n - 1) as nat;
        lemma_generated_prefix(m);
        let v = ChainView::generated_prefix(m);
        let b = generated_block(m);
        if m > 0 {
            assert(v.blocks.contains_key(block_name((m - 1) as nat)));
        }
        lemma_with_block_well_formed(v, b);
        let w = v.with_block(b);
        lemma_block_name_distinct(m, m);
        assert forall|i: nat| i < n implies #[trigger] w.blocks.contains_key(block_name(i))
            && w.blocks[block_name(i)] == generated_block(i) by {
            lemma_block_name_distinct(i, m);
        }
        assert forall|j: nat| j >= n implies !#[trigger] w.blocks.contains_key(block_name(j)) by {
            lemma_block_name_distinct(j, m);
        }
        assert(w.links.drop_last() =~= v.links);
        if m == 0 {
            assert(v.links =~= Seq::<(Seq<char>, Seq<char>)>::empty());
        }
    }
}

/// Generating `n >= 1` blocks leaves the first one as the next key block after genesis.
pub proof fn lemma_generated_next_key(n: nat)
    requires
        1 <= n <= u64::MAX,
    ensures
        ChainView::generated_prefix(n).next_key_block(genesis()) == Some(block_name(0)),
{
    lemma_generated_prefix(n);
}

/// A child found among the first `j` links is the first child overall.
pub proof fn lemma_first_child_prefix(links: Seq<(Seq<char>, Seq<char>)>, j: int, h: Seq<char>)
    requires
        0 <= j <= links.len(),
        first_child_in(links.take(j), h) is Some,
    ensures
        first_child_in(links, h) == first_child_in(links.take(j), h),
    decreases links.len(),
{
    if j == links.len() {
        assert(links.take(j) =~= links);
    } else {
        assert(links.drop_last().take(j) =~= links.take(j));
        lemma_first_child_prefix(links.drop_last(), j, h);
    }
}

/// After a QC is saved, the block to vote on next is the key block that received it, reported
/// with that QC's height and hash; it is a key block with a greater number than the one voted on
/// before, so voting paces forward.
pub proof fn law_saved_qc_is_voted_next(v: ChainView, qc: QcView)
    requires
        v.well_formed(),
        v.next_key_block(v.latest_voted.1) is Some,
    ensures
        ({
            let k = v.next_key_block(v.latest_voted.1).unwrap();
            let w = v.with_qc_saved(qc);
            &&& w.voting_target() == (v.blocks[k].number, k, (qc.height, qc.hash))
            &&& w.blocks[w.latest_voted.1].key_block
            &&& v.latest_voted.0 < w.latest_voted.0
            &&& w.well_formed()
        }),
{
    lemma_next_key_block(v, v.latest_voted.1);
    lemma_with_qc_saved_well_formed(v, qc);
}

/// After block `h` of the chain is finalized, the last finalized block is `h`, with its number.
pub proof fn law_finalized_is_reported(v: ChainView, h: Seq<char>)
    requires
        v.well_formed(),
        v.blocks.contains_key(h),
    ensures
        v.with_finalized(h).finalized == (v.blocks[h].number, h),
        v.with_finalized(h).well_formed(),
{
}

/// The block to finalize next is a key block of the chain, later than the last finalized one.
pub proof fn law_finalizing_target_is_later_key_block(v: ChainView)
    requires
        v.well_formed(),
        v.next_key_block(v.finalized.1) is Some,
    ensures
        v.blocks.contains_key(v.finalizing_target().1),
        v.blocks[v.finalizing_target().1].key_block,
        v.blocks[v.finalizing_target().1].number == v.finalizing_target().0,
        v.finalized.0 < v.finalizing_target().0,
{
    lemma_next_key_block(v, v.finalized.1);
}

/// Every block has a parent key block: a key block of the chain that is not newer than its
/// parent, and older than the block itself unless the block is genesis.
pub proof fn law_parent_key_block(v: ChainView, h: Seq<char>)
    requires
        v.well_formed(),
        v.blocks.contains_key(h),
    ensures
        v.parent_key_block(h) is Some,
        v.blocks.contains_key(v.parent_key_block(h).unwrap()),
        v.blocks[v.parent_key_block(h).unwrap()].key_block,
        v.blocks[v.parent_key_block(h).unwrap()].number <= v.blocks[v.blocks[h].parent].number,
        h != genesis() ==> v.blocks[v.parent_key_block(h).unwrap()].number < v.blocks[h].number,
{
    lemma_key_ancestor(v, v.blocks[h].parent);
}

/// A QC built from votes has no signatures exactly when there were no votes.
pub proof fn law_votes_map_empty(votes: Seq<(u64, u64)>)
    ensures
        votes_map(votes).is_empty() <==> votes.len() == 0,
{
    if votes.len() > 0 {
        assert(votes_map(votes).contains_key(votes.last().0));
    } else {
        assert(votes_map(votes).dom() =~= Set::empty());
    }
}

/// Generating `n >= 1` blocks gives a well-formed chain whose first generated block is the one
/// voted on, carrying the genesis QC, while nothing beyond genesis is finalized.
pub proof fn law_generated_chain(n: nat)
    requires
        1 <= n <= u64::MAX,
    ensures
        ChainView::generated(n).well_formed(),
        ChainView::generated(n).finalized == (0u64, genesis()),
        ChainView::generated(n).latest_voted == (1u64, block_name(0)),
        ChainView::generated(n).voting_target() == (1u64, block_name(0), (0u64, genesis())),
        forall|i: nat|
            1 <= i < n ==> #[trigger] ChainView::generated(n).blocks.contains_key(block_name(i))
                && ChainView::generated(n).blocks[block_name(i)] == generated_block(i),
{
    lemma_generated_prefix(n);
    lemma_generated_next_key(n);
    lemma_with_qc_saved_well_formed(ChainView::generated_prefix(n), genesis_qc());
    assert forall|i: nat| 1 <= i < n implies #[trigger] ChainView::generated(n).blocks.contains_key(block_name(i))
        && ChainView::generated(n).blocks[block_name(i)] == generated_block(i) by {
        lemma_block_name_distinct(i, 0);
        assert(ChainView::generated_prefix(n).blocks.contains_key(block_name(i)));
    }
}

/// A first child is linked under the block it is the first child of.
pub proof fn lemma_first_child_link(links: Seq<(Seq<char>, Seq<char>)>, h: Seq<char>)
    requires
        first_child_in(links, h) is Some,
    ensures
        exists|i: int| 0 <= i < links.len() && links[i] == (h, first_child_in(links, h).unwrap()),
    decreases links.len(),
{
    if first_child_in(links.drop_last(), h) is Some {
        lemma_first_child_link(links.drop_last(), h);
        let i = choose|i: int|
            0 <= i < links.drop_last().len() && links.drop_last()[i] == (h, first_child_in(
                links.drop_last(),
                h,
            ).unwrap());
        assert(links[i] == links.drop_last()[i]);
    } else {
        assert(links[links.len() - 1] == links.last());
    }
}

/// In a well-formed chain the first child of `h` is a block whose parent is `h`.
pub proof fn lemma_first_child_parent(v: ChainView, h: Seq<char>)
    requires
        v.well_formed(),
        v.first_child(h) is Some,
    ensures
        v.blocks.contains_key(h),
        v.blocks.contains_key(v.first_child(h).unwrap()),
        v.first_child(h).unwrap() != genesis(),
        v.blocks[v.first_child(h).unwrap()].parent == h,
        v.blocks[h].number < v.blocks[v.first_child(h).unwrap()].number,
{
    lemma_first_child_link(v.links, h);
    let c = v.first_child(h).unwrap();
    let i = choose|i: int| 0 <= i < v.links.len() && v.links[i] == (h, c);
    let (p, c2) = v.links[i];
    assert(v.blocks.contains_key(c2));
}

/// Walking first children from a block whose key ancestor is `f` through blocks that are not
/// key blocks, the key block reached has `f` as the key ancestor of its parent.
proof fn lemma_walk_parent_key(v: ChainView, h: Seq<char>, f: Seq<char>)
    requires
        v.well_formed(),
        v.blocks.contains_key(h),
        v.key_ancestor(h) == Some(f),
        v.next_key_block(h) is Some,
    ensures
        v.key_ancestor(v.blocks[v.next_key_block(h).unwrap()].parent) == Some(f),
    decreases u64::MAX - v.blocks[h].number,
{
    lemma_first_child_parent(v, h);
    let c = v.first_child(h).unwrap();
    if !v.blocks[c].key_block {
        assert(v.key_ancestor(c) == v.key_ancestor(h));
        lemma_walk_parent_key(v, c, f);
    }
}

/// When the last finalized block is a key block, it is the parent key block of the block to
/// finalize next.
pub proof fn law_finalized_is_parent_key_block_of_next(v: ChainView)
    requires
        v.well_formed(),
        v.blocks[v.finalized.1].key_block,
        v.next_key_block(v.finalized.1) is Some,
    ensures
        v.parent_key_block(v.finalizing_target().1) == Some(v.finalized.1),
{
    assert(v.key_ancestor(v.finalized.1) == Some(v.finalized.1));
    lemma_walk_parent_key(v, v.finalized.1, v.finalized.1);
}

/// Adding a block links it as the first child of its parent when the parent had none, and
/// leaves every other first child as it was.
pub proof fn law_with_block_first_child(v: ChainView, b: BlockView, h: Seq<char>)
    ensures
        v.with_block(b).first_child(h) == match v.first_child(h) {
            Some(c) => Some(c),
            None => if h == b.parent {
                Some(b.hash)
            } else {
                None
            },
        },
{
    assert(v.with_block(b).links.drop_last() =~= v.links);
}

/// Adding an accepted block under a parent that already has a child changes no walk over first
/// children: what is finalized next and where a saved QC goes stay as they were.
pub proof fn law_with_block_keeps_walks(v: ChainView, b: BlockView, h: Seq<char>)
    requires
        v.well_formed(),
        v.accepts(b),
        v.first_child(b.parent) is Some,
        v.blocks.contains_key(h),
    ensures
        v.with_block(b).next_key_block(h) == v.next_key_block(h),
    decreases u64::MAX - v.blocks[h].number,
{
    let w = v.with_block(b);
    law_with_block_first_child(v, b, h);
    if v.first_child(h) is Some {
        lemma_first_child_parent(v, h);
        let c = v.first_child(h).unwrap();
        assert(c != b.hash);
        assert(w.blocks[c] == v.blocks[c]);
        assert(w.blocks[h] == v.blocks[h]);
        if !v.blocks[c].key_block {
            law_with_block_keeps_walks(v, b, c);
        }
    } else {
        assert(h != b.parent);
    }
}

/// Adding an accepted key block as the first child of the last finalized block makes it the
/// block to finalize next.
pub proof fn law_with_block_first_key_child_is_finalized_next(v: ChainView, b: BlockView)
    requires
        v.well_formed(),
        v.accepts(b),
        b.parent == v.finalized.1,
        v.first_child(b.parent) is None,
        b.key_block,
    ensures
        v.with_block(b).well_formed(),
        v.with_block(b).next_key_block(v.finalized.1) == Some(b.hash),
        v.with_block(b).finalizing_target() == (b.number, b.hash),
{
    lemma_with_block_well_formed(v, b);
    law_with_block_first_child(v, b, b.parent);
}

/// No generated block has a child before the next one is generated.
proof fn lemma_generated_no_child_yet(m: nat, i: nat)
    requires
        m <= i + 1,
        m <= u64::MAX,
    ensures
        ChainView::generated_prefix(m).first_child(block_name(i)) is None,
    decreases m,
{
    if m > 0 {
        let k = (m - 1) as nat;
        lemma_generated_no_child_yet(k, i);
        let v = ChainView::generated_prefix(k);
        law_with_block_first_child(v, generated_block(k), block_name(i));
        lemma_block_name_distinct(i, 0);
        if k > 0 {
            lemma_block_name_distinct((k - 1) as nat, i);
        }
    }
}

/// Each generated block but the last has the next one as its first child; the last has none.
proof fn lemma_generated_first_child(n: nat, i: nat)
    requires
        i < n <= u64::MAX,
    ensures
        ChainView::generated_prefix(n).first_child(block_name(i)) == if i + 1 < n {
            Some(block_name(i + 1))
        } else {
            None
        },
    decreases n,
{
    if i + 1 >= n {
        lemma_generated_no_child_yet(n, i);
    } else {
        let k = (n - 1) as nat;
        let v = ChainView::generated_prefix(k);
        law_with_block_first_child(v, generated_block(k), block_name(i));
        if i + 1 < k {
            lemma_generated_first_child(k, i);
        } else {
            lemma_generated_no_child_yet(k, i);
        }
    }
}

/// What a walk over a generated chain sees at the `i`-th block: it is there with number `i + 1`,
/// it is a key block when `i` is a multiple of three, and its first child is the next block.
proof fn lemma_generated_block_facts(n: nat, i: nat)
    requires
        1 <= n <= u64::MAX,
        i < n,
    ensures
        ChainView::generated(n).blocks.contains_key(block_name(i)),
        ChainView::generated(n).blocks[block_name(i)].number == i + 1,
        ChainView::generated(n).blocks[block_name(i)].key_block == (i % 3 == 0),
        ChainView::generated(n).first_child(block_name(i)) == if i + 1 < n {
            Some(block_name(i + 1))
        } else {
            None
        },
{
    law_generated_chain(n);
    lemma_generated_prefix(n);
    lemma_generated_next_key(n);
    lemma_generated_first_child(n, i);
    let v = ChainView::generated(n);
    assert(v.links == ChainView::generated_prefix(n).links);
    if i == 0 {
        assert(ChainView::generated_prefix(n).blocks[block_name(0)] == generated_block(0));
    } else {
        assert(v.blocks[block_name(i)] == generated_block(i));
    }
}

/// Walking first children from the `i`-th generated block reaches the next key block, the one
/// at the next multiple of three, where it was generated.
proof fn lemma_generated_walk(n: nat, i: nat)
    requires
        1 <= n <= u64::MAX,
        i < n,
    ensures
        ChainView::generated(n).next_key_block(block_name(i)) == if 3 * (i / 3) + 3 < n {
            Some(block_name(3 * (i / 3) + 3))
        } else {
            None
        },
    decreases n - i,
{
    let v = ChainView::generated(n);
    lemma_generated_block_facts(n, i);
    if i + 1 < n {
        lemma_generated_block_facts(n, i + 1);
        if (i + 1) % 3 != 0 {
            lemma_generated_walk(n, i + 1);
            assert((i + 1) / 3 == i / 3);
            assert(v.next_key_block(block_name(i)) == v.next_key_block(block_name(i + 1)));
        } else {
            assert(3 * (i / 3) + 3 == i + 1);
            assert(v.next_key_block(block_name(i)) == Some(block_name(i + 1)));
        }
    } else {
        assert(3 * (i / 3) + 3 >= n);
        assert(v.next_key_block(block_name(i)) is None);
    }
}

/// In a generated chain the next key block after genesis is the first generated block, and the
/// next key block after the `i`-th one is the one at the next multiple of three, where there is
/// one: so `save_qc` and `next_to_be_finalized` can run from a generated block exactly when a
/// later key block was generated.
pub proof fn law_generated_walks(n: nat, i: nat)
    requires
        1 <= n <= u64::MAX,
        i < n,
    ensures
        ChainView::generated(n).next_key_block(genesis()) == Some(block_name(0)),
        ChainView::generated(n).next_key_block(block_name(i)) == if 3 * (i / 3) + 3 < n {
            Some(block_name(3 * (i / 3) + 3))
        } else {
            None
        },
{
    lemma_generated_walk(n, i);
    law_generated_chain(n);
    lemma_generated_prefix(n);
    lemma_generated_next_key(n);
    let v = ChainView::generated(n);
    assert(v.links == ChainView::generated_prefix(n).links);
}

/// Adding blocks together is adding them one after another: nothing for no blocks, and the last
/// block added to the chain that the others make.
pub proof fn law_with_blocks_one_by_one(v: ChainView, bs: Seq<BlockView>)
    ensures
        bs.len() == 0 ==> v.with_blocks(bs) == v,
        bs.len() > 0 ==> v.with_blocks(bs) == v.with_blocks(bs.drop_last()).with_block(bs.last()),
        v.accepts_all(bs) && bs.len() > 0 ==> v.with_blocks(bs.drop_last()).accepts(bs.last())
            && v.accepts_all(bs.drop_last()),
    decreases bs.len(),
{
    if bs.len() > 1 {
        let t = bs.drop_first();
        law_with_blocks_one_by_one(v.with_block(bs[0]), t);
        assert(t.drop_last() =~= bs.drop_last().drop_first());
        assert(bs.drop_last()[0] == bs[0]);
        assert(t.last() == bs.last());
        assert(v.with_blocks(bs.drop_last()) == v.with_block(bs[0]).with_blocks(t.drop_last()));
        assert(v.with_blocks(bs) == v.with_block(bs[0]).with_blocks(t));
    } else if bs.len() == 1 {
        assert(bs.drop_last() =~= Seq::<BlockView>::empty());
        assert(bs.drop_first() =~= Seq::<BlockView>::empty());
        assert(v.with_blocks(bs.drop_last()) == v);
        assert(v.with_block(bs[0]).with_blocks(bs.drop_first()) == v.with_block(bs[0]));
        assert(bs.last() == bs[0]);
    }
}

} // verus!
