//! What the chain's operations do, stated from the blocks, their parents, their key flags and the
//! links alone: the walk over first children that finds the next key block, the climb over
//! parents that finds the parent key block, the one block a saved QC changes, the chain that
//! generation builds, and the signatures a QC collects from its votes.
use vstd::prelude::*;

use super::model::{
    first_child_in, lemma_first_child_parent, lemma_key_ancestor, lemma_generated_prefix, law_generated_chain,
    lemma_generated_next_key, summary, votes_map, BlockView, ChainView, QcView,
};
use super::names::{block_name, genesis, lemma_block_name_distinct};

verus! {

/// `c` is the first child linked under `h`: the earliest link from `h` leads to `c`.
pub open spec fn is_first_child(links: Seq<(Seq<char>, Seq<char>)>, h: Seq<char>, c: Seq<char>) -> bool {
    exists|i: int|
        0 <= i < links.len() && #[trigger] links[i] == (h, c) && forall|j: int|
            0 <= j < i ==> (#[trigger] links[j]).0 != h
}

/// `p` starts at a block, steps each time to the first child, passes no key block after its
/// start, and ends at a key block.
pub open spec fn is_key_walk(v: ChainView, p: Seq<Seq<char>>) -> bool {
    &&& p.len() >= 2
    &&& forall|j: int| 0 <= j < p.len() ==> v.blocks.contains_key(#[trigger] p[j])
    &&& forall|j: int| 0 <= j < p.len() - 1 ==> is_first_child(v.links, #[trigger] p[j], p[j + 1])
    &&& forall|j: int| 0 < j < p.len() - 1 ==> !v.blocks[#[trigger] p[j]].key_block
    &&& v.blocks[p.last()].key_block
}

/// `p` starts at a block, steps each time to the parent, passes no key block after its start,
/// and ends at a key block.
pub open spec fn is_key_climb(v: ChainView, p: Seq<Seq<char>>) -> bool {
    &&& p.len() >= 2
    &&& forall|j: int| 0 <= j < p.len() ==> v.blocks.contains_key(#[trigger] p[j])
    &&& forall|j: int| 0 <= j < p.len() - 1 ==> p[j + 1] == v.blocks[#[trigger] p[j]].parent
    &&& forall|j: int| 0 < j < p.len() - 1 ==> !v.blocks[#[trigger] p[j]].key_block
    &&& v.blocks[p.last()].key_block
}

/// `first_child_in` finds the earliest link from `h`, and none where there is no link from `h`.
proof fn lemma_first_child_in_meaning(links: Seq<(Seq<char>, Seq<char>)>, h: Seq<char>)
    ensures
        (first_child_in(links, h) is None) <==> (forall|j: int|
            0 <= j < links.len() ==> (#[trigger] links[j]).0 != h),
        first_child_in(links, h) is Some ==> is_first_child(links, h, first_child_in(links, h).unwrap()),
    decreases links.len(),
{
    if links.len() > 0 {
        let d = links.drop_last();
        lemma_first_child_in_meaning(d, h);
        if first_child_in(d, h) is Some {
            let c = first_child_in(d, h).unwrap();
            let i = choose|i: int|
                0 <= i < d.len() && #[trigger] d[i] == (h, c) && forall|j: int|
                    0 <= j < i ==> (#[trigger] d[j]).0 != h;
            assert(links[i] == d[i]);
            assert forall|j: int| 0 <= j < i implies (#[trigger] links[j]).0 != h by {
                assert(links[j] == d[j]);
            }
            let k = choose|k: int| 0 <= k < d.len() && (#[trigger] d[k]).0 == h;
            assert(links[k] == d[k]);
        } else {
            assert forall|j: int| 0 <= j < links.len() - 1 implies (#[trigger] links[j]).0 != h by {
                assert(links[j] == d[j]);
            }
            if links.last().0 == h {
                let i = links.len() - 1;
                assert(links[i] == (h, links.last().1));
            } else {
                assert forall|j: int| 0 <= j < links.len() implies (#[trigger] links[j]).0 != h by {
                    if j < links.len() - 1 {
                        assert(links[j] == d[j]);
                    }
                }
            }
        }
    }
}

/// A block has at most one first child.
proof fn lemma_is_first_child_unique(
    links: Seq<(Seq<char>, Seq<char>)>,
    h: Seq<char>,
    c1: Seq<char>,
    c2: Seq<char>,
)
    requires
        is_first_child(links, h, c1),
        is_first_child(links, h, c2),
    ensures
        c1 == c2,
{
    let i1 = choose|i: int|
        0 <= i < links.len() && #[trigger] links[i] == (h, c1) && forall|j: int|
            0 <= j < i ==> (#[trigger] links[j]).0 != h;
    let i2 = choose|i: int|
        0 <= i < links.len() && #[trigger] links[i] == (h, c2) && forall|j: int|
            0 <= j < i ==> (#[trigger] links[j]).0 != h;
    if i1 < i2 {
        assert(links[i1].0 == h);
    } else if i2 < i1 {
        assert(links[i2].0 == h);
    }
}

/// `first_child_in` agrees with `is_first_child`.
pub proof fn lemma_first_child_in_is_first_child(
    links: Seq<(Seq<char>, Seq<char>)>,
    h: Seq<char>,
    c: Seq<char>,
)
    ensures
        first_child_in(links, h) == Some(c) <==> is_first_child(links, h, c),
{
    lemma_first_child_in_meaning(links, h);
    if is_first_child(links, h, c) {
        let i = choose|i: int|
            0 <= i < links.len() && #[trigger] links[i] == (h, c) && forall|j: int|
                0 <= j < i ==> (#[trigger] links[j]).0 != h;
        assert(links[i].0 == h);
        lemma_is_first_child_unique(links, h, c, first_child_in(links, h).unwrap());
    }
}

/// Every voter that voted has a signature in the QC.
proof fn lemma_votes_map_has_voters(votes: Seq<(u64, u64)>)
    ensures
        forall|i: int| 0 <= i < votes.len() ==> votes_map(votes).contains_key(#[trigger] votes[i].0),
    decreases votes.len(),
{
    if votes.len() > 0 {
        let d = votes.drop_last();
        lemma_votes_map_has_voters(d);
        assert forall|i: int| 0 <= i < votes.len() implies votes_map(votes).contains_key(#[trigger] votes[i].0) by {
            if i < votes.len() - 1 {
                assert(votes[i] == d[i]);
                assert(votes_map(d).contains_key(d[i].0));
            }
        }
    }
}

/// Only voters that voted have a signature in the QC.
proof fn lemma_votes_map_only_voters(votes: Seq<(u64, u64)>, id: u64)
    requires
        votes_map(votes).contains_key(id),
    ensures
        exists|i: int| 0 <= i < votes.len() && (#[trigger] votes[i]).0 == id,
    decreases votes.len(),
{
    let d = votes.drop_last();
    if id == votes.last().0 {
        assert(votes[votes.len() - 1].0 == id);
    } else {
        assert(votes_map(d).contains_key(id));
        lemma_votes_map_only_voters(d, id);
        let i = choose|i: int| 0 <= i < d.len() && (#[trigger] d[i]).0 == id;
        assert(votes[i] == d[i]);
    }
}

/// A voter's signature in the QC is the one of its last vote.
proof fn lemma_votes_map_last_vote(votes: Seq<(u64, u64)>, i: int)
    requires
        0 <= i < votes.len(),
        forall|j: int| i < j < votes.len() ==> (#[trigger] votes[j]).0 != votes[i].0,
    ensures
        votes_map(votes)[votes[i].0] == votes[i].1,
    decreases votes.len(),
{
    if i < votes.len() - 1 {
        let d = votes.drop_last();
        assert(votes[votes.len() - 1].0 != votes[i].0);
        assert(votes[i] == d[i]);
        assert forall|j: int| i < j < d.len() implies (#[trigger] d[j]).0 != d[i].0 by {
            assert(votes[j] == d[j]);
        }
        lemma_votes_map_last_vote(d, i);
    }
}

/// The signatures a QC collects: one for every voter that voted and for no one else, and for
/// each voter the signature of its last vote.
pub proof fn law_votes_map_contents(votes: Seq<(u64, u64)>)
    ensures
        forall|i: int| 0 <= i < votes.len() ==> votes_map(votes).contains_key(#[trigger] votes[i].0),
        forall|id: u64|
            #[trigger] votes_map(votes).contains_key(id) ==> exists|i: int|
                0 <= i < votes.len() && (#[trigger] votes[i]).0 == id,
        forall|i: int|
            0 <= i < votes.len() && (forall|j: int| i < j < votes.len() ==> (#[trigger] votes[j]).0 != votes[i].0)
                ==> votes_map(votes)[(#[trigger] votes[i]).0] == votes[i].1,
{
    lemma_votes_map_has_voters(votes);
    assert forall|id: u64| #[trigger] votes_map(votes).contains_key(id) implies exists|i: int|
        0 <= i < votes.len() && (#[trigger] votes[i]).0 == id by {
        lemma_votes_map_only_voters(votes, id);
    }
    assert forall|i: int|
        0 <= i < votes.len() && (forall|j: int| i < j < votes.len() ==> (#[trigger] votes[j]).0 != votes[i].0)
        implies votes_map(votes)[(#[trigger] votes[i]).0] == votes[i].1 by {
        lemma_votes_map_last_vote(votes, i);
    }
}

/// A step to a first child that is a key block is a walk.
proof fn lemma_walk_pair(v: ChainView, h: Seq<char>, c: Seq<char>)
    requires
        v.blocks.contains_key(h),
        v.blocks.contains_key(c),
        is_first_child(v.links, h, c),
        v.blocks[c].key_block,
    ensures
        is_key_walk(v, seq![h, c]),
{
    let p = seq![h, c];
    assert(p[0] == h && p[1] == c);
    assert forall|j: int| 0 <= j < p.len() implies v.blocks.contains_key(#[trigger] p[j]) by {}
    assert forall|j: int| 0 <= j < p.len() - 1 implies is_first_child(v.links, #[trigger] p[j], p[j + 1]) by {}
}

/// A step to a first child that is no key block, followed by a walk from it, is a walk.
proof fn lemma_walk_cons(v: ChainView, h: Seq<char>, q: Seq<Seq<char>>)
    requires
        is_key_walk(v, q),
        v.blocks.contains_key(h),
        is_first_child(v.links, h, q[0]),
        !v.blocks[q[0]].key_block,
    ensures
        is_key_walk(v, seq![h] + q),
        (seq![h] + q)[0] == h,
        (seq![h] + q).last() == q.last(),
{
    let p = seq![h] + q;
    assert(p[0] == h);
    assert forall|j: int| 0 <= j < p.len() implies v.blocks.contains_key(#[trigger] p[j]) by {
        if j > 0 {
            assert(p[j] == q[j - 1]);
        }
    }
    assert forall|j: int| 0 <= j < p.len() - 1 implies is_first_child(v.links, #[trigger] p[j], p[j + 1]) by {
        if j > 0 {
            assert(p[j] == q[j - 1]);
            assert(p[j + 1] == q[j]);
        } else {
            assert(p[1] == q[0]);
        }
    }
    assert forall|j: int| 0 < j < p.len() - 1 implies !v.blocks[#[trigger] p[j]].key_block by {
        assert(p[j] == q[j - 1]);
    }
    assert(p.last() == q.last());
}

/// The walk over first children from `h` to the next key block.
#[verifier::rlimit(30)]
proof fn lemma_key_walk(v: ChainView, h: Seq<char>) -> (p: Seq<Seq<char>>)
    requires
        v.well_formed(),
        v.blocks.contains_key(h),
        v.next_key_block(h) is Some,
    ensures
        is_key_walk(v, p),
        p[0] == h,
        p.last() == v.next_key_block(h).unwrap(),
    decreases u64::MAX - v.blocks[h].number,
{
    lemma_first_child_parent(v, h);
    let c = v.first_child(h).unwrap();
    lemma_first_child_in_is_first_child(v.links, h, c);
    assert(v.next_key_block(h) == if v.blocks[c].key_block {
        Some(c)
    } else {
        v.next_key_block(c)
    });
    if v.blocks[c].key_block {
        lemma_walk_pair(v, h, c);
        seq![h, c]
    } else {
        let q = lemma_key_walk(v, c);
        lemma_walk_cons(v, h, q);
        seq![h] + q
    }
}

/// A climb over parents of blocks that are no key blocks, ending at a key block.
pub open spec fn is_plain_climb(v: ChainView, q: Seq<Seq<char>>) -> bool {
    &&& q.len() >= 1
    &&& forall|j: int| 0 <= j < q.len() ==> v.blocks.contains_key(#[trigger] q[j])
    &&& forall|j: int| 0 <= j < q.len() - 1 ==> q[j + 1] == v.blocks[#[trigger] q[j]].parent
    &&& forall|j: int| 0 <= j < q.len() - 1 ==> !v.blocks[#[trigger] q[j]].key_block
    &&& v.blocks[q.last()].key_block
}

/// A block that is no key block, followed by a climb from its parent, is a climb.
proof fn lemma_plain_climb_cons(v: ChainView, h: Seq<char>, r: Seq<Seq<char>>)
    requires
        is_plain_climb(v, r),
        v.blocks.contains_key(h),
        r[0] == v.blocks[h].parent,
        !v.blocks[h].key_block,
    ensures
        is_plain_climb(v, seq![h] + r),
        (seq![h] + r)[0] == h,
        (seq![h] + r).last() == r.last(),
{
    let q = seq![h] + r;
    assert(q[0] == h);
    assert forall|j: int| 0 <= j < q.len() implies v.blocks.contains_key(#[trigger] q[j]) by {
        if j > 0 {
            assert(q[j] == r[j - 1]);
        }
    }
    assert forall|j: int| 0 <= j < q.len() - 1 implies q[j + 1] == v.blocks[#[trigger] q[j]].parent by {
        if j > 0 {
            assert(q[j] == r[j - 1]);
            assert(q[j + 1] == r[j]);
        } else {
            assert(q[1] == r[0]);
        }
    }
    assert forall|j: int| 0 <= j < q.len() - 1 implies !v.blocks[#[trigger] q[j]].key_block by {
        if j > 0 {
            assert(q[j] == r[j - 1]);
        }
    }
    assert(q.last() == r.last());
}

/// The climb over parents from `h`, `h` included, to its nearest key block.
proof fn lemma_ancestor_climb(v: ChainView, h: Seq<char>) -> (q: Seq<Seq<char>>)
    requires
        v.well_formed(),
        v.blocks.contains_key(h),
    ensures
        is_plain_climb(v, q),
        q[0] == h,
        q.last() == v.key_ancestor(h).unwrap(),
    decreases v.blocks[h].number,
{
    if v.blocks[h].key_block {
        let q = seq![h];
        assert(q[0] == h);
        assert forall|j: int| 0 <= j < q.len() implies v.blocks.contains_key(#[trigger] q[j]) by {}
        q
    } else {
        let p = v.blocks[h].parent;
        let r = lemma_ancestor_climb(v, p);
        lemma_plain_climb_cons(v, h, r);
        seq![h] + r
    }
}

/// A block followed by a climb from its parent is a key climb.
proof fn lemma_key_climb_cons(v: ChainView, h: Seq<char>, r: Seq<Seq<char>>)
    requires
        is_plain_climb(v, r),
        v.blocks.contains_key(h),
        r[0] == v.blocks[h].parent,
    ensures
        is_key_climb(v, seq![h] + r),
        (seq![h] + r)[0] == h,
        (seq![h] + r).last() == r.last(),
{
    let p = seq![h] + r;
    assert(p[0] == h);
    assert forall|j: int| 0 <= j < p.len() implies v.blocks.contains_key(#[trigger] p[j]) by {
        if j > 0 {
            assert(p[j] == r[j - 1]);
        }
    }
    assert forall|j: int| 0 <= j < p.len() - 1 implies p[j + 1] == v.blocks[#[trigger] p[j]].parent by {
        if j > 0 {
            assert(p[j] == r[j - 1]);
            assert(p[j + 1] == r[j]);
        } else {
            assert(p[1] == r[0]);
        }
    }
    assert forall|j: int| 0 < j < p.len() - 1 implies !v.blocks[#[trigger] p[j]].key_block by {
        assert(p[j] == r[j - 1]);
    }
    assert(p.last() == r.last());
}

/// The block to finalize next is the key block that walking first children from the last
/// finalized block reaches first, whatever block was last voted on: the walk returned passes no
/// key block before it.
pub proof fn law_finalizing_target_walk(v: ChainView) -> (p: Seq<Seq<char>>)
    requires
        v.well_formed(),
        v.next_key_block(v.finalized.1) is Some,
    ensures
        is_key_walk(v, p),
        p[0] == v.finalized.1,
        v.finalizing_target() == (v.blocks[p.last()].number, p.last()),
{
    lemma_key_walk(v, v.finalized.1)
}

/// Saving a QC changes exactly one block: the key block that walking first children from the
/// last voted block reaches first gets the QC and becomes the last voted block; every other
/// block, the links and the last finalized block stay as they were.
pub proof fn law_saved_qc_changes_one_block(v: ChainView, qc: QcView) -> (p: Seq<Seq<char>>)
    requires
        v.well_formed(),
        v.next_key_block(v.latest_voted.1) is Some,
    ensures
        is_key_walk(v, p),
        p[0] == v.latest_voted.1,
        ({
            let k = p.last();
            let w = v.with_qc_saved(qc);
            let b = v.blocks[k];
            &&& w.latest_voted == (b.number, k)
            &&& w.finalized == v.finalized
            &&& w.links == v.links
            &&& w.blocks.dom() == v.blocks.dom()
            &&& w.blocks[k] == (BlockView { qc, hash: b.hash, number: b.number, parent: b.parent, key_block: b.key_block })
            &&& forall|h: Seq<char>| #[trigger] w.blocks.contains_key(h) && h != k ==> w.blocks[h] == v.blocks[h]
        }),
{
    let p = lemma_key_walk(v, v.latest_voted.1);
    let w = v.with_qc_saved(qc);
    assert(w.blocks.dom() =~= v.blocks.dom());
    p
}

/// The parent key block of `h` is the key block that climbing parents from `h` reaches first:
/// the climb returned passes no key block between `h` and it.
pub proof fn law_parent_key_block_climb(v: ChainView, h: Seq<char>) -> (p: Seq<Seq<char>>)
    requires
        v.well_formed(),
        v.blocks.contains_key(h),
    ensures
        is_key_climb(v, p),
        p[0] == h,
        v.parent_key_block(h) == Some(p.last()),
{
    let x = v.blocks[h].parent;
    if h == genesis() {
        assert(x == genesis());
    } else {
        assert(v.blocks.contains_key(x));
    }
    lemma_key_ancestor(v, x);
    let r = lemma_ancestor_climb(v, x);
    lemma_key_climb_cons(v, h, r);
    seq![h] + r
}

/// The generated prefix holds genesis and the generated blocks only, linked in generation order.
proof fn lemma_generated_prefix_shape(n: nat)
    requires
        n <= u64::MAX,
    ensures
        forall|h: Seq<char>|
            #[trigger] ChainView::generated_prefix(n).blocks.contains_key(h) ==> h == genesis()
                || exists|i: nat| i < n && h == block_name(i),
        ChainView::generated_prefix(n).links.len() == n,
        forall|i: int|
            0 <= i < n ==> #[trigger] ChainView::generated_prefix(n).links[i] == (
                if i == 0 {
                    genesis()
                } else {
                    block_name((i - 1) as nat)
                },
                block_name(i as nat),
            ),
    decreases n,
{
    reveal_with_fuel(ChainView::generated_prefix, 2);
    if n > 0 {
        let m = (n - 1) as nat;
        lemma_generated_prefix_shape(m);
        let v = ChainView::generated_prefix(m);
        let w = ChainView::generated_prefix(n);
        assert forall|h: Seq<char>| #[trigger] w.blocks.contains_key(h) implies h == genesis()
            || exists|i: nat| i < n && h == block_name(i) by {
            if h == block_name(m) {
                assert(m < n && h == block_name(m));
            } else {
                assert(v.blocks.contains_key(h));
                if h != genesis() {
                    let i = choose|i: nat| i < m && h == block_name(i);
                    assert(i < n && h == block_name(i));
                }
            }
        }
        assert forall|i: int| 0 <= i < n implies #[trigger] w.links[i] == (
            if i == 0 {
                genesis()
            } else {
                block_name((i - 1) as nat)
            },
            block_name(i as nat),
        ) by {
            if i < m {
                assert(w.links[i] == v.links[i]);
            }
        }
    }
}

/// Block `i` of a generated chain, written out field by field.
spec fn generated_block_literal(n: nat, i: nat) -> BlockView {
    BlockView {
        qc: QcView {
            height: 0,
            hash: if i == 0 {
                genesis()
            } else {
                Seq::empty()
            },
            signatures: Map::empty(),
        },
        hash: block_name(i),
        number: (i + 1) as u64,
        parent: if i == 0 {
            genesis()
        } else {
            block_name((i - 1) as nat)
        },
        key_block: i % 3 == 0,
    }
}

proof fn lemma_generated_block_literal(n: nat, i: nat)
    requires
        1 <= n <= u64::MAX,
        i < n,
    ensures
        ChainView::generated(n).blocks.contains_key(block_name(i)),
        ChainView::generated(n).blocks[block_name(i)] == generated_block_literal(n, i),
{
    law_generated_chain(n);
    lemma_generated_prefix(n);
    lemma_generated_next_key(n);
    let v = ChainView::generated_prefix(n);
    assert(v.blocks.contains_key(block_name(i)));
    if i == 0 {
        assert(v.blocks[block_name(0)] == super::model::generated_block(0));
    }
}

/// Generating `n >= 1` blocks builds exactly genesis and `block-0` .. `block-(n-1)`: block `i`
/// has number `i + 1`, the previous block (genesis for the first) as parent, is a key block when
/// `i` is a multiple of three, and carries the default QC (height 0, empty hash, no signatures),
/// except `block-0`, which carries the genesis QC; genesis is unchanged, the links follow
/// generation order, nothing beyond genesis is finalized, and `block-0` is the one voted on.
pub proof fn law_generated_chain_contents(n: nat)
    requires
        1 <= n <= u64::MAX,
    ensures
        ChainView::generated(n).finalized == (0u64, genesis()),
        ChainView::generated(n).latest_voted == (1u64, block_name(0)),
        ChainView::generated(n).blocks.contains_key(genesis()),
        ChainView::generated(n).blocks[genesis()] == (BlockView {
                qc: QcView { height: 0, hash: genesis(), signatures: Map::empty() },
                hash: genesis(),
                number: 0,
                parent: genesis(),
                key_block: true,
            }),
        forall|h: Seq<char>|
                #[trigger] ChainView::generated(n).blocks.contains_key(h) <==> (h == genesis() || exists|i: nat|
                    i < n && h == block_name(i)),
        forall|i: nat|
                i < n ==> #[trigger] ChainView::generated(n).blocks.contains_key(block_name(i)) && ChainView::generated(n).blocks[block_name(i)]
                    == (BlockView {
                    qc: QcView {
                        height: 0,
                        hash: if i == 0 {
                            genesis()
                        } else {
                            Seq::empty()
                        },
                        signatures: Map::empty(),
                    },
                    hash: block_name(i),
                    number: (i + 1) as u64,
                    parent: if i == 0 {
                        genesis()
                    } else {
                        block_name((i - 1) as nat)
                    },
                    key_block: i % 3 == 0,
                }),
        ChainView::generated(n).links.len() == n,
        forall|i: int|
                0 <= i < n ==> #[trigger] ChainView::generated(n).links[i] == (
                    if i == 0 {
                        genesis()
                    } else {
                        block_name((i - 1) as nat)
                    },
                    block_name(i as nat),
                ),
{
    law_generated_chain(n);
    lemma_generated_prefix(n);
    lemma_generated_next_key(n);
    lemma_generated_prefix_shape(n);
    lemma_block_name_distinct(0, 0);
    let v = ChainView::generated_prefix(n);
    let g = ChainView::generated(n);
    assert(v.blocks.contains_key(block_name(0)));
    assert forall|h: Seq<char>| #[trigger] g.blocks.contains_key(h) <==> (h == genesis() || exists|i: nat|
        i < n && h == block_name(i)) by {
        if exists|i: nat| i < n && h == block_name(i) {
            let i = choose|i: nat| i < n && h == block_name(i);
            assert(v.blocks.contains_key(block_name(i)));
        }
    }
    assert forall|i: nat| i < n implies #[trigger] ChainView::generated(n).blocks.contains_key(block_name(i))
        && ChainView::generated(n).blocks[block_name(i)] == generated_block_literal(n, i) by {
        lemma_generated_block_literal(n, i);
    }
    assert(g.finalized == (0u64, genesis()));
    assert(g.latest_voted == (1u64, block_name(0)));
    assert(g.blocks.contains_key(genesis()));
    assert(g.blocks[genesis()] == v.blocks[genesis()]);
    assert(g.links == v.links);
    assert forall|i: int| 0 <= i < n implies #[trigger] g.links[i] == (
        if i == 0 {
            genesis()
        } else {
            block_name((i - 1) as nat)
        },
        block_name(i as nat),
    ) by {
        assert(v.links[i] == g.links[i]);
    }
    assert(g.blocks[genesis()] == (BlockView {
        qc: QcView { height: 0, hash: genesis(), signatures: Map::empty() },
        hash: genesis(),
        number: 0,
        parent: genesis(),
        key_block: true,
    }));
}

/// Every walk over first children that ends at its first key block is the one that finds the
/// next key block: the next key block after a block is the end of the walk from it.
pub proof fn law_key_walk_is_found(v: ChainView, p: Seq<Seq<char>>)
    requires
        v.well_formed(),
        is_key_walk(v, p),
    ensures
        v.next_key_block(p[0]) == Some(p.last()),
    decreases p.len(),
{
    let h = p[0];
    let c = p[1];
    assert(v.blocks.contains_key(h));
    assert(v.blocks.contains_key(c));
    assert(is_first_child(v.links, p[0], p[1]));
    lemma_first_child_in_is_first_child(v.links, h, c);
    lemma_first_child_parent(v, h);
    if p.len() > 2 {
        let q = p.drop_first();
        assert(!v.blocks[p[1]].key_block);
        assert forall|j: int| 0 <= j < q.len() implies v.blocks.contains_key(#[trigger] q[j]) by {
            assert(q[j] == p[j + 1]);
        }
        assert forall|j: int| 0 <= j < q.len() - 1 implies is_first_child(v.links, #[trigger] q[j], q[j + 1]) by {
            assert(q[j] == p[j + 1]);
            assert(q[j + 1] == p[j + 2]);
        }
        assert forall|j: int| 0 < j < q.len() - 1 implies !v.blocks[#[trigger] q[j]].key_block by {
            assert(q[j] == p[j + 1]);
        }
        assert(q.last() == p.last());
        law_key_walk_is_found(v, q);
    }
}

/// A climb over parents of blocks that are no key blocks, ending at a key block, ends at the key
/// ancestor of its start.
#[verifier::rlimit(30)]
proof fn lemma_plain_climb_is_found(v: ChainView, q: Seq<Seq<char>>)
    requires
        v.well_formed(),
        is_plain_climb(v, q),
    ensures
        v.key_ancestor(q[0]) == Some(q.last()),
    decreases q.len(),
{
    let h = q[0];
    assert(v.blocks.contains_key(h));
    if q.len() > 1 {
        assert(!v.blocks[q[0]].key_block);
        assert(q[1] == v.blocks[q[0]].parent);
        let r = q.drop_first();
        assert forall|j: int| 0 <= j < r.len() implies v.blocks.contains_key(#[trigger] r[j]) by {
            assert(r[j] == q[j + 1]);
        }
        assert forall|j: int| 0 <= j < r.len() - 1 implies r[j + 1] == v.blocks[#[trigger] r[j]].parent by {
            assert(r[j] == q[j + 1]);
            assert(r[j + 1] == q[j + 2]);
        }
        assert forall|j: int| 0 <= j < r.len() - 1 implies !v.blocks[#[trigger] r[j]].key_block by {
            assert(r[j] == q[j + 1]);
        }
        assert(r.last() == q.last());
        assert(h != genesis());
        let p = v.blocks[h].parent;
        assert(v.blocks.contains_key(p));
        assert(v.blocks[p].number < v.blocks[h].number);
        assert(v.key_ancestor(h) == v.key_ancestor(p));
        lemma_plain_climb_is_found(v, r);
    }
}

/// Every climb over parents that ends at its first key block after its start finds the parent
/// key block of its start.
pub proof fn law_key_climb_is_found(v: ChainView, p: Seq<Seq<char>>)
    requires
        v.well_formed(),
        is_key_climb(v, p),
    ensures
        v.parent_key_block(p[0]) == Some(p.last()),
{
    let r = p.drop_first();
    assert(p[1] == v.blocks[p[0]].parent);
    assert forall|j: int| 0 <= j < r.len() implies v.blocks.contains_key(#[trigger] r[j]) by {
        assert(r[j] == p[j + 1]);
    }
    assert forall|j: int| 0 <= j < r.len() - 1 implies r[j + 1] == v.blocks[#[trigger] r[j]].parent by {
        assert(r[j] == p[j + 1]);
        assert(r[j + 1] == p[j + 2]);
    }
    assert forall|j: int| 0 <= j < r.len() - 1 implies !v.blocks[#[trigger] r[j]].key_block by {
        assert(r[j] == p[j + 1]);
    }
    assert(r.last() == p.last());
    lemma_plain_climb_is_found(v, r);
}

/// The block to vote on is the last voted block, a key block of the chain, reported with its
/// number and the height and hash of the QC it stores.
pub proof fn law_voting_target_is_stored_key_block(v: ChainView)
    requires
        v.well_formed(),
    ensures
        v.blocks.contains_key(v.voting_target().1),
        v.voting_target().1 == v.latest_voted.1,
        v.blocks[v.voting_target().1].key_block,
        v.voting_target().0 == v.blocks[v.latest_voted.1].number,
        v.voting_target().2 == (v.blocks[v.latest_voted.1].qc.height, v.blocks[v.latest_voted.1].qc.hash),
{
}

/// What a lookup reports of a block: its number, its hash, and its QC's height and hash.
pub proof fn law_summary_reports_block(b: BlockView)
    ensures
        summary(b).0 == b.number,
        summary(b).1 == b.hash,
        summary(b).2 == (b.qc.height, b.qc.hash),
{
}

/// Finalizing a stored block changes only the last finalized block, to that block and its
/// number; finalizing anything else changes nothing.
pub proof fn law_finalizing_changes_only_finalized(v: ChainView, h: Seq<char>)
    ensures
        v.with_finalized(h).blocks == v.blocks,
        v.with_finalized(h).links == v.links,
        v.with_finalized(h).latest_voted == v.latest_voted,
        v.with_finalized(h).finalized == if v.blocks.contains_key(h) {
            (v.blocks[h].number, h)
        } else {
            v.finalized
        },
{
}

} // verus!
