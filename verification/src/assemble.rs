//! Assembling per-graph adjacency matrices from a corpus-wide edge list
//! and a node-to-graph membership list.
//!
//! Global node ids are 1-indexed across the whole corpus; the membership
//! list names, for every global node id in ascending order, the graph it
//! belongs to, keeping each graph's nodes in one contiguous run.  Each
//! graph's matrix is sized to its node count; an edge (u, v) sets the
//! single cell (u − offset, v − offset) of its owning graph's matrix to 1,
//! where the offset is the first global id of that graph, so repeated
//! edges are idempotent.  Graphs are emitted in ascending graph-id order
//! through an explicit sort, never through a container's iteration order.

use vstd::prelude::*;

use crate::adjacency::AdjacencyMatrix;
use crate::errors::DataError;

verus! {

/// Each graph id occupies one contiguous run of the membership list: a
/// position that starts a new run carries a value never seen before it.
pub open spec fn contiguous(s: Seq<u64>) -> bool {
    forall|i: int, j: int|
        #![trigger s[i], s[j]]
        0 < i < s.len() && 0 <= j < i && s[i] != s[i - 1] ==> s[j] != s[i]
}

/// How many nodes belong to graph `g`.
pub open spec fn count_of(s: Seq<u64>, g: u64) -> int
    decreases s.len(),
{
    if s.len() == 0 {
        0
    } else {
        count_of(s.drop_last(), g) + (if s.last() == g {
            1int
        } else {
            0int
        })
    }
}

/// The first position holding `g` (the graph's offset in global ids).
pub open spec fn first_idx(s: Seq<u64>, g: u64) -> int
    decreases s.len(),
{
    if s.len() == 0 {
        0
    } else if s[0] == g {
        0
    } else {
        1 + first_idx(s.drop_first(), g)
    }
}

/// `first_idx` finds the position before which `g` never occurs.
proof fn lemma_first_idx_at(s: Seq<u64>, g: u64, a: int)
    requires
        0 <= a < s.len(),
        s[a] == g,
        forall|p: int| 0 <= p < a ==> s[p] != g,
    ensures
        first_idx(s, g) == a,
    decreases a,
{
    if a > 0 {
        let r = s.drop_first();
        assert(forall|p: int| 0 <= p < a - 1 ==> #[trigger] r[p] != g);
        lemma_first_idx_at(r, g, a - 1);
    }
}

/// If the positions holding `g` are exactly the range `[a, b)`, then `g`
/// occurs `b - a` times.
proof fn lemma_count_range(s: Seq<u64>, g: u64, a: int, b: int)
    requires
        0 <= a <= b <= s.len(),
        forall|p: int| 0 <= p < s.len() ==> (#[trigger] s[p] == g <==> a <= p < b),
    ensures
        count_of(s, g) == b - a,
    decreases s.len(),
{
    if s.len() == 0 {
    } else if b == s.len() && a < b {
        let r = s.drop_last();
        assert(forall|p: int|
            0 <= p < r.len() ==> (#[trigger] r[p] == g <==> a <= p < b - 1));
        lemma_count_range(r, g, a, b - 1);
    } else {
        let r = s.drop_last();
        let a2: int = if b == s.len() {
            s.len() - 1
        } else {
            a
        };
        let b2: int = if b == s.len() {
            s.len() - 1
        } else {
            b
        };
        assert(s.last() != g);
        assert(forall|p: int|
            0 <= p < r.len() ==> (#[trigger] r[p] == g <==> a2 <= p < b2));
        lemma_count_range(r, g, a2, b2);
    }
}

/// Both endpoints of the edge are valid 1-indexed global node ids.
pub open spec fn edge_in_range(s: Seq<u64>, e: (u64, u64)) -> bool {
    1 <= e.0 <= s.len() && 1 <= e.1 <= s.len()
}

/// Both endpoints belong to the same graph.
pub open spec fn edge_within_one_graph(s: Seq<u64>, e: (u64, u64)) -> bool {
    s[e.0 - 1] == s[e.1 - 1]
}

/// The edge can be placed in its owning graph's matrix.
pub open spec fn edge_ok(s: Seq<u64>, e: (u64, u64)) -> bool {
    edge_in_range(s, e) && edge_within_one_graph(s, e)
}

/// Every edge of the list can be placed.
pub open spec fn edges_ok(s: Seq<u64>, es: Seq<(u64, u64)>) -> bool {
    forall|i: int| 0 <= i < es.len() ==> edge_ok(s, #[trigger] es[i])
}

/// Edge `e` writes cell (i, j) of the graph `g` whose first global
/// position is `off`.
pub open spec fn edge_maps(
    s: Seq<u64>,
    e: (u64, u64),
    g: u64,
    off: int,
    i: int,
    j: int,
) -> bool {
    edge_ok(s, e) && s[e.0 - 1] == g && e.0 - 1 - off == i && e.1 - 1 - off == j
}

/// Some edge of the list writes cell (i, j) of graph `g` at offset `off`.
pub open spec fn cell_set(
    s: Seq<u64>,
    es: Seq<(u64, u64)>,
    g: u64,
    off: int,
    i: int,
    j: int,
) -> bool {
    exists|e: int| 0 <= e < es.len() && edge_maps(s, #[trigger] es[e], g, off, i, j)
}

/// One contiguous run of the membership list: graph `id` owns the global
/// positions `[start, start + size)`.
#[derive(Clone, Copy, Debug)]
struct GraphBlock {
    id: u64,
    start: usize,
    size: usize,
}

/// Position `p` lies in the block.
spec fn block_holds(b: GraphBlock, p: int) -> bool {
    b.start <= p < b.start + b.size
}

/// Position `p` lies in some block of the list.
spec fn covered(bs: Seq<GraphBlock>, p: int) -> bool {
    exists|b: int| 0 <= b < bs.len() && block_holds(#[trigger] bs[b], p)
}

/// The blocks describe the membership list faithfully: they stay in
/// bounds and are non-empty, carry the value of every position they
/// hold, start at their id's first occurrence, cover every position, and
/// no two share an id.
spec fn blocks_sound(bs: Seq<GraphBlock>, s: Seq<u64>) -> bool {
    &&& forall|b: int|
        0 <= b < bs.len() ==> (#[trigger] bs[b]).start + bs[b].size <= s.len() && bs[b].size
            >= 1
    &&& forall|b: int, p: int|
        #![trigger bs[b], s[p]]
        0 <= b < bs.len() && block_holds(bs[b], p) ==> s[p] == bs[b].id
    &&& forall|b: int, p: int|
        #![trigger bs[b], s[p]]
        0 <= b < bs.len() && 0 <= p < bs[b].start ==> s[p] != bs[b].id
    &&& forall|p: int| 0 <= p < s.len() ==> covered(bs, p)
    &&& forall|b1: int, b2: int|
        0 <= b1 < b2 < bs.len() ==> (#[trigger] bs[b1]).id != (#[trigger] bs[b2]).id
}

/// Scan the membership list into its runs, in scan order.  Fails exactly
/// when the list is not contiguous.
#[verifier::rlimit(60)]
fn scan_blocks(s: &Vec<u64>) -> (r: Result<Vec<GraphBlock>, DataError>)
    ensures
        r is Ok <==> contiguous(s@),
        r is Err ==> r == Result::<Vec<GraphBlock>, DataError>::Err(
            DataError::MembershipNotContiguous,
        ),
        r matches Ok(bs) ==> blocks_sound(bs@, s@),
{
    let n = s.len();
    let mut bs: Vec<GraphBlock> = Vec::new();
    let mut i: usize = 0;
    while i < n
        invariant
            i <= n,
            n == s@.len(),
            contiguous(s@.take(i as int)),
            blocks_sound(bs@, s@.take(i as int)),
            bs@.len() > 0 ==> bs@.last().start + bs@.last().size == i,
            bs@.len() == 0 ==> i == 0,
        decreases n - i,
    {
        let ghost pre = s@.take(i as int);
        let ghost post = s@.take(i + 1);
        proof {
            assert(post.drop_last() =~= pre);
            assert(forall|p: int| 0 <= p < i ==> #[trigger] post[p] == s@[p]);
            assert(post[i as int] == s@[i as int]);
        }
        let cur = s[i];
        let boundary = if i == 0 {
            true
        } else {
            cur != s[i - 1]
        };
        if boundary {
            let m = bs.len();
            let mut b: usize = 0;
            while b < m
                invariant
                    b <= m,
                    m == bs@.len(),
                    forall|p: int| 0 <= p < b ==> (#[trigger] bs@[p]).id != cur,
                    blocks_sound(bs@, s@.take(i as int)),
                    i < n,
                    n == s@.len(),
                    cur == s@[i as int],
                    i > 0 ==> cur != s@[i - 1],
                decreases m - b,
            {
                if bs[b].id == cur {
                    proof {
                        let blk = bs@[b as int];
                        let p0 = blk.start as int;
                        assert(s@.take(i as int).len() == i);
                        assert(blk.start + blk.size <= i && blk.size >= 1);
                        assert(block_holds(blk, p0));
                        assert(s@.take(i as int)[p0] == blk.id);
                        assert(s@[p0] == cur);
                        assert(p0 < i);
                        assert(i > 0);
                        assert(cur != s@[i - 1]);
                        assert(!contiguous(s@)) by {
                            if contiguous(s@) {
                                assert(s@[p0] != s@[i as int]);
                            }
                        }
                    }
                    return Err(DataError::MembershipNotContiguous);
                }
                b = b + 1;
            }
            // The value is fresh: no earlier position holds it.
            proof {
                assert forall|p: int| 0 <= p < i implies s@[p] != cur by {
                    assert(covered(bs@, p));
                    let wb = choose|b: int|
                        0 <= b < bs@.len() && block_holds(#[trigger] bs@[b], p);
                    assert(s@.take(i as int)[p] == bs@[wb].id);
                    assert(bs@[wb].id != cur);
                }
            }
            let blk = GraphBlock { id: cur, start: i, size: 1 };
            let ghost obs = bs@;
            bs.push(blk);
            proof {
                assert(bs@ == obs.push(blk));
                assert(bs@[bs@.len() - 1] == blk);
                assert(forall|b: int| 0 <= b < obs.len() ==> #[trigger] bs@[b] == obs[b]);
                assert forall|p: int| 0 <= p < post.len() implies covered(bs@, p) by {
                    if p < i {
                        assert(covered(obs, p));
                        let wb = choose|b: int|
                            0 <= b < obs.len() && block_holds(#[trigger] obs[b], p);
                        assert(block_holds(bs@[wb], p));
                    } else {
                        assert(block_holds(bs@[bs@.len() - 1], p));
                    }
                }
                assert forall|b: int, p: int|
                    #![trigger bs@[b], post[p]]
                    0 <= b < bs@.len() && block_holds(bs@[b], p) implies post[p]
                    == bs@[b].id by {
                    if b < obs.len() {
                        assert(bs@[b] == obs[b]);
                        assert(pre[p] == obs[b].id);
                    } else {
                        assert(bs@[b] == blk);
                        assert(post[p] == cur);
                    }
                }
                assert forall|b: int, p: int|
                    #![trigger bs@[b], post[p]]
                    0 <= b < bs@.len() && 0 <= p < bs@[b].start implies post[p]
                    != bs@[b].id by {
                    if b < obs.len() {
                        assert(bs@[b] == obs[b]);
                        assert(pre[p] != obs[b].id);
                    } else {
                        assert(bs@[b] == blk);
                        assert(s@[p] != cur);
                    }
                }
                assert(blocks_sound(bs@, post));
                assert(contiguous(post)) by {
                    assert forall|x: int, j: int|
                        #![trigger post[x], post[j]]
                        0 < x < post.len() && 0 <= j < x && post[x] != post[x - 1]
                            implies post[j] != post[x] by {
                        if x < i {
                            assert(pre[x] != pre[x - 1] && pre[j] == post[j]);
                        } else {
                            assert(post[x] == cur);
                            assert(s@[j] != cur);
                        }
                    }
                }
            }
        } else {
            proof {
                assert(bs@.len() > 0);
            }
            let last = bs.len() - 1;
            let mut blk = bs[last];
            proof {
                assert(block_holds(bs@[last as int], i - 1));
                assert(s@.take(i as int)[i - 1] == bs@[last as int].id);
                assert(cur == blk.id);
                assert(blk.size < n);
            }
            let ghost obs = bs@;
            blk.size = blk.size + 1;
            bs.set(last, blk);
            proof {
                assert(bs@ == obs.update(last as int, blk));
                assert(bs@[last as int] == blk);
                assert(forall|b: int|
                    0 <= b < obs.len() && b != last ==> #[trigger] bs@[b] == obs[b]);
                assert forall|p: int| 0 <= p < post.len() implies covered(bs@, p) by {
                    if p < i {
                        assert(covered(obs, p));
                        let wb = choose|b: int|
                            0 <= b < obs.len() && block_holds(#[trigger] obs[b], p);
                        if wb == last as int {
                            assert(block_holds(blk, p));
                            assert(block_holds(bs@[last as int], p));
                        } else {
                            assert(block_holds(bs@[wb], p));
                        }
                    } else {
                        assert(block_holds(bs@[last as int], p));
                    }
                }
                assert forall|b: int, p: int|
                    #![trigger bs@[b], post[p]]
                    0 <= b < bs@.len() && block_holds(bs@[b], p) implies post[p]
                    == bs@[b].id by {
                    if b != last as int {
                        assert(bs@[b] == obs[b]);
                        assert(pre[p] == obs[b].id);
                    } else {
                        if p < i {
                            assert(block_holds(obs[b], p));
                            assert(pre[p] == obs[b].id);
                        } else {
                            assert(p == i);
                            assert(post[p] == cur);
                        }
                    }
                }
                assert forall|b: int, p: int|
                    #![trigger bs@[b], post[p]]
                    0 <= b < bs@.len() && 0 <= p < bs@[b].start implies post[p]
                    != bs@[b].id by {
                    if b != last as int {
                        assert(bs@[b] == obs[b]);
                        assert(pre[p] != obs[b].id);
                    } else {
                        assert(bs@[b].start == obs[b].start);
                        assert(pre[p] != obs[b].id);
                    }
                }
                assert(blocks_sound(bs@, post));
                assert(contiguous(post)) by {
                    assert forall|x: int, j: int|
                        #![trigger post[x], post[j]]
                        0 < x < post.len() && 0 <= j < x && post[x] != post[x - 1]
                            implies post[j] != post[x] by {
                        assert(x < i);
                        assert(pre[x] != pre[x - 1] && pre[j] == post[j]);
                    }
                }
            }
        }
        i = i + 1;
    }
    proof {
        assert(s@.take(n as int) =~= s@);
    }
    Ok(bs)
}

/// Inserting an element anywhere gives the sequence's multiset plus that
/// element.
proof fn lemma_insert_multiset(old_out: Seq<GraphBlock>, x: GraphBlock, pos: int)
    requires
        0 <= pos <= old_out.len(),
    ensures
        old_out.insert(pos, x).to_multiset() == old_out.to_multiset().insert(x),
{
    broadcast use vstd::seq_lib::group_to_multiset_ensures;
    broadcast use vstd::multiset::group_multiset_axioms;

    let s1 = old_out.subrange(0, pos);
    let s2 = old_out.subrange(pos, old_out.len() as int);
    vstd::seq_lib::lemma_multiset_commutative(s1.push(x), s2);
    vstd::seq_lib::lemma_multiset_commutative(s1, s2);
    assert(s1 + s2 =~= old_out);
    assert(s1.push(x).to_multiset() =~= s1.to_multiset().insert(x));
    assert(s1.to_multiset().insert(x).add(s2.to_multiset()) =~= s1.to_multiset().add(
        s2.to_multiset(),
    ).insert(x));
}

/// Inserting at the found position keeps the output strictly sorted by id.
/// The new sequence is described entry by entry: unchanged before `pos`,
/// the new block at `pos`, the rest shifted right by one.
proof fn lemma_sorted_after_insert(
    old_out: Seq<GraphBlock>,
    new_out: Seq<GraphBlock>,
    x: GraphBlock,
    pos: int,
)
    requires
        0 <= pos <= old_out.len(),
        new_out.len() == old_out.len() + 1,
        forall|i: int| 0 <= i < pos ==> #[trigger] new_out[i] == old_out[i],
        forall|i: int| pos <= i < old_out.len() ==> new_out[i + 1] == #[trigger] old_out[i],
        new_out[pos] == x,
        forall|c1: int, c2: int|
            0 <= c1 < c2 < old_out.len() ==> (#[trigger] old_out[c1]).id
                < (#[trigger] old_out[c2]).id,
        forall|p: int| 0 <= p < pos ==> (#[trigger] old_out[p]).id < x.id,
        pos < old_out.len() ==> old_out[pos].id > x.id,
    ensures
        forall|c1: int, c2: int|
            0 <= c1 < c2 < new_out.len() ==> (#[trigger] new_out[c1]).id
                < (#[trigger] new_out[c2]).id,
{
    assert forall|c1: int, c2: int|
        0 <= c1 < c2 < new_out.len() implies (#[trigger] new_out[c1]).id
            < (#[trigger] new_out[c2]).id by {
        if c1 < pos && c2 < pos {
        } else if c1 == pos && c2 > pos {
            assert(new_out[c2] == old_out[c2 - 1]);
        } else if c2 == pos {
            assert(new_out[c1] == old_out[c1]);
        } else if c1 < pos {
            assert(new_out[c1] == old_out[c1] && new_out[c2] == old_out[c2 - 1]);
        } else {
            assert(new_out[c1] == old_out[c1 - 1] && new_out[c2] == old_out[c2 - 1]);
        }
    }
}

/// Order the runs by ascending graph id (the ids are distinct, so the
/// order is strict); the result holds exactly the input's blocks.
#[verifier::rlimit(30)]
fn sort_blocks(bs: Vec<GraphBlock>) -> (out: Vec<GraphBlock>)
    requires
        forall|b1: int, b2: int|
            0 <= b1 < b2 < bs@.len() ==> (#[trigger] bs@[b1]).id != (#[trigger] bs@[b2]).id,
    ensures
        out@.len() == bs@.len(),
        forall|c1: int, c2: int|
            0 <= c1 < c2 < out@.len() ==> (#[trigger] out@[c1]).id < (#[trigger] out@[c2]).id,
        out@.to_multiset() == bs@.to_multiset(),
{
    let n = bs.len();
    let mut out: Vec<GraphBlock> = Vec::new();
    let mut b: usize = 0;
    proof {
        assert(bs@.subrange(0, 0).to_multiset() =~= out@.to_multiset()) by {
            broadcast use vstd::seq_lib::group_to_multiset_ensures;

            assert(bs@.subrange(0, 0) =~= out@);
        }
    }
    while b < n
        invariant
            b <= n,
            n == bs@.len(),
            out@.len() == b,
            forall|b1: int, b2: int|
                0 <= b1 < b2 < bs@.len() ==> (#[trigger] bs@[b1]).id != (#[trigger] bs@[b2]).id,
            forall|c1: int, c2: int|
                0 <= c1 < c2 < out@.len() ==> (#[trigger] out@[c1]).id
                    < (#[trigger] out@[c2]).id,
            out@.to_multiset() == bs@.subrange(0, b as int).to_multiset(),
        decreases n - b,
    {
        let x = bs[b];
        let mut pos: usize = 0;
        while pos < out.len() && out[pos].id < x.id
            invariant
                pos <= out@.len(),
                x == bs@[b as int],
                forall|p: int| 0 <= p < pos ==> (#[trigger] out@[p]).id < x.id,
            decreases out@.len() - pos,
        {
            pos = pos + 1;
        }
        proof {
            if pos < out@.len() {
                // The element at the insertion point is one of the blocks
                // already placed, so its id differs from the fresh one.
                assert(out@[pos as int].id != x.id) by {
                    broadcast use vstd::seq_lib::group_to_multiset_ensures;

                    let pre = bs@.subrange(0, b as int);
                    assert(out@.contains(out@[pos as int]));
                    assert(out@.to_multiset().count(out@[pos as int]) > 0);
                    assert(pre.to_multiset().count(out@[pos as int]) > 0);
                    assert(pre.contains(out@[pos as int]));
                    let wp = choose|p: int| 0 <= p < pre.len() && pre[p] == out@[pos as int];
                    assert(bs@[wp] == out@[pos as int]);
                    assert(bs@[wp].id != bs@[b as int].id);
                }
                assert(out@[pos as int].id > x.id);
            }
        }
        let ghost old_out = out@;
        out.insert(pos, x);
        proof {
            old_out.insert_ensures(pos as int, x);
            assert(out@ == old_out.insert(pos as int, x));
            assert(out@[pos as int] == x);
            assert(forall|i: int| 0 <= i < pos ==> #[trigger] out@[i] == old_out[i]);
            assert(forall|i: int|
                pos <= i < old_out.len() ==> out@[i + 1] == #[trigger] old_out[i]);
            lemma_sorted_after_insert(old_out, out@, x, pos as int);
            lemma_insert_multiset(old_out, x, pos as int);
            assert(bs@.subrange(0, b + 1).to_multiset() == old_out.to_multiset().insert(x)) by {
                broadcast use vstd::seq_lib::group_to_multiset_ensures;

                assert(bs@.subrange(0, b + 1) =~= bs@.subrange(0, b as int).push(x));
            }
        }
        b = b + 1;
    }
    proof {
        assert(bs@.subrange(0, n as int) =~= bs@);
    }
    out
}

/// A reordering of sound blocks (same multiset, distinct ids) is sound.
proof fn lemma_permuted_blocks_sound(blocks: Seq<GraphBlock>, sv: Seq<GraphBlock>, s: Seq<u64>)
    requires
        blocks_sound(blocks, s),
        sv.to_multiset() == blocks.to_multiset(),
        forall|c1: int, c2: int|
            0 <= c1 < c2 < sv.len() ==> (#[trigger] sv[c1]).id != (#[trigger] sv[c2]).id,
    ensures
        blocks_sound(sv, s),
{
    broadcast use vstd::seq_lib::group_to_multiset_ensures;

    assert forall|b: int|
        0 <= b < sv.len() implies (#[trigger] sv[b]).start + sv[b].size <= s.len() && sv[b].size
            >= 1 by {
        assert(sv.contains(sv[b]));
        assert(sv.to_multiset().count(sv[b]) > 0);
        assert(blocks.to_multiset().count(sv[b]) > 0);
        assert(blocks.contains(sv[b]));
        let w = choose|p: int| 0 <= p < blocks.len() && blocks[p] == sv[b];
        assert(blocks[w].start + blocks[w].size <= s.len());
    }
    assert forall|b: int, p: int|
        #![trigger sv[b], s[p]]
        0 <= b < sv.len() && block_holds(sv[b], p) implies s[p] == sv[b].id by {
        assert(sv.contains(sv[b]));
        assert(sv.to_multiset().count(sv[b]) > 0);
        assert(blocks.to_multiset().count(sv[b]) > 0);
        assert(blocks.contains(sv[b]));
        let w = choose|q: int| 0 <= q < blocks.len() && blocks[q] == sv[b];
        assert(block_holds(blocks[w], p));
    }
    assert forall|b: int, p: int|
        #![trigger sv[b], s[p]]
        0 <= b < sv.len() && 0 <= p < sv[b].start implies s[p] != sv[b].id by {
        assert(sv.contains(sv[b]));
        assert(sv.to_multiset().count(sv[b]) > 0);
        assert(blocks.to_multiset().count(sv[b]) > 0);
        assert(blocks.contains(sv[b]));
        let w = choose|q: int| 0 <= q < blocks.len() && blocks[q] == sv[b];
        assert(0 <= p < blocks[w].start);
    }
    assert forall|p: int| 0 <= p < s.len() implies covered(sv, p) by {
        assert(covered(blocks, p));
        let w = choose|b: int| 0 <= b < blocks.len() && block_holds(#[trigger] blocks[b], p);
        assert(blocks.contains(blocks[w]));
        assert(blocks.to_multiset().count(blocks[w]) > 0);
        assert(sv.to_multiset().count(blocks[w]) > 0);
        assert(sv.contains(blocks[w]));
        let c = choose|c: int| 0 <= c < sv.len() && sv[c] == blocks[w];
        assert(block_holds(sv[c], p));
    }
}

/// Sound blocks, read off in the membership list's own vocabulary: each
/// block starts at its id's first occurrence and is as large as its id's
/// multiplicity, the block ids are exactly the distinct values of the
/// list, and there are as many blocks as distinct values.
proof fn lemma_blocks_to_spec(sv: Seq<GraphBlock>, s: Seq<u64>, idseq: Seq<u64>)
    requires
        blocks_sound(sv, s),
        idseq.len() == sv.len(),
        forall|c: int| 0 <= c < sv.len() ==> #[trigger] idseq[c] == sv[c].id,
    ensures
        forall|c: int|
            0 <= c < sv.len() ==> first_idx(s, #[trigger] idseq[c]) == sv[c].start,
        forall|c: int| 0 <= c < sv.len() ==> count_of(s, #[trigger] idseq[c]) == sv[c].size,
        idseq.to_set() == s.to_set(),
        idseq.len() == s.to_set().len(),
{
    assert forall|c3: int|
        0 <= c3 < sv.len() implies first_idx(s, #[trigger] idseq[c3]) == sv[c3].start by {
        let blk = sv[c3];
        assert(block_holds(blk, blk.start as int));
        assert(s[blk.start as int] == blk.id);
        assert(forall|p: int| 0 <= p < blk.start ==> s[p] != blk.id);
        lemma_first_idx_at(s, blk.id, blk.start as int);
    }
    assert forall|c3: int|
        0 <= c3 < sv.len() implies count_of(s, #[trigger] idseq[c3]) == sv[c3].size by {
        let blk = sv[c3];
        assert forall|p: int|
            0 <= p < s.len() implies (#[trigger] s[p] == blk.id <==> blk.start <= p < blk.start
                + blk.size) by {
            if s[p] == blk.id {
                assert(covered(sv, p));
                let wb = choose|b: int| 0 <= b < sv.len() && block_holds(#[trigger] sv[b], p);
                assert(sv[wb].id == s[p]);
                if wb < c3 {
                    assert(sv[wb].id != sv[c3].id);
                } else if c3 < wb {
                    assert(sv[c3].id != sv[wb].id);
                }
                assert(block_holds(blk, p));
            }
        }
        lemma_count_range(s, blk.id, blk.start as int, blk.start + blk.size);
    }
    assert forall|p: int|
        0 <= p < s.len() implies exists|c3: int|
            #![trigger idseq[c3]]
            0 <= c3 < sv.len() && idseq[c3] == #[trigger] s[p] by {
        assert(covered(sv, p));
        let wb = choose|b: int| 0 <= b < sv.len() && block_holds(#[trigger] sv[b], p);
        assert(idseq[wb] == s[p]);
    }
    assert forall|c3: int| 0 <= c3 < sv.len() implies s.contains(#[trigger] idseq[c3]) by {
        let blk = sv[c3];
        assert(block_holds(blk, blk.start as int));
        assert(s[blk.start as int] == idseq[c3]);
    }
    assert(idseq.no_duplicates()) by {
        assert forall|c1: int, c2: int|
            0 <= c1 < idseq.len() && 0 <= c2 < idseq.len() && c1 != c2 implies idseq[c1]
            != idseq[c2] by {
            if c1 < c2 {
                assert(sv[c1].id != sv[c2].id);
            } else {
                assert(sv[c2].id != sv[c1].id);
            }
        }
    }
    assert(idseq.to_set() =~= s.to_set()) by {
        assert forall|a: u64| idseq.to_set().contains(a) implies s.to_set().contains(a) by {
            assert(idseq.contains(a));
            let wc = choose|c3: int| #![trigger idseq[c3]] 0 <= c3 < idseq.len() && idseq[c3] == a;
            assert(s.contains(idseq[wc]));
        }
        assert forall|a: u64| s.to_set().contains(a) implies idseq.to_set().contains(a) by {
            assert(s.contains(a));
            let wp = choose|p: int| #![trigger s[p]] 0 <= p < s.len() && s[p] == a;
            let wc = choose|c3: int| #![trigger idseq[c3]] 0 <= c3 < sv.len() && idseq[c3] == s[wp];
            assert(idseq[wc] == a);
            assert(idseq.contains(a));
        }
    }
    idseq.unique_seq_to_set();
}

/// The assembled corpus: one graph id and one adjacency matrix per
/// distinct graph, aligned, in ascending id order.
pub struct GraphSet {
    /// The distinct graph ids, strictly ascending.
    pub ids: Vec<u64>,
    /// The adjacency matrix of each graph in `ids`, aligned by position.
    pub mats: Vec<AdjacencyMatrix>,
}

impl GraphSet {
    /// The two columns are aligned and every matrix is well formed.
    pub open spec fn wf(&self) -> bool {
        &&& self.ids@.len() == self.mats@.len()
        &&& forall|c: int| 0 <= c < self.mats@.len() ==> (#[trigger] self.mats@[c]).wf()
    }

    /// The number of graphs.
    pub fn len(&self) -> (n: usize)
        ensures
            n == self.ids@.len(),
    {
        self.ids.len()
    }
}

/// Assemble one adjacency matrix per distinct graph id from the
/// membership list and the edge list.  Succeeds if and only if the
/// membership list is contiguous and every edge joins two valid global
/// node ids of one and the same graph; the matrices come back in
/// ascending graph-id order, each sized to its graph's node count, and
/// cell (i, j) of a graph's matrix is 1 exactly when some edge of the
/// list maps to it through the graph's offset.
#[verifier::rlimit(100)]
pub fn assemble_graphs(membership: &Vec<u64>, edges: &Vec<(u64, u64)>) -> (r: Result<
    GraphSet,
    DataError,
>)
    ensures
        r is Ok <==> contiguous(membership@) && edges_ok(membership@, edges@),
        r == Result::<GraphSet, DataError>::Err(DataError::MembershipNotContiguous)
            <==> !contiguous(membership@),
        r == Result::<GraphSet, DataError>::Err(DataError::EdgeEndpointOutOfRange) ==> exists|
            e: int,
        |
            0 <= e < edges@.len() && !edge_in_range(membership@, #[trigger] edges@[e]),
        r == Result::<GraphSet, DataError>::Err(DataError::EdgeCrossesGraphs) ==> exists|e: int|
            0 <= e < edges@.len() && !edge_within_one_graph(membership@, #[trigger] edges@[e]),
        r is Err ==> r == Result::<GraphSet, DataError>::Err(DataError::MembershipNotContiguous)
            || r == Result::<GraphSet, DataError>::Err(DataError::EdgeEndpointOutOfRange) || r
            == Result::<GraphSet, DataError>::Err(DataError::EdgeCrossesGraphs),
        r matches Ok(gs) ==> {
            &&& gs.wf()
            &&& gs.ids@.to_set() == membership@.to_set()
            &&& gs.ids@.len() == membership@.to_set().len()
            &&& forall|c1: int, c2: int|
                0 <= c1 < c2 < gs.ids@.len() ==> #[trigger] gs.ids@[c1] < #[trigger] gs.ids@[c2]
            &&& forall|c: int|
                0 <= c < gs.mats@.len() ==> (#[trigger] gs.mats@[c])@.len() == count_of(
                    membership@,
                    gs.ids@[c],
                )
            &&& forall|c: int, i: int, j: int|
                #![trigger gs.mats@[c]@[i][j]]
                0 <= c < gs.mats@.len() && 0 <= i < gs.mats@[c]@.len() && 0 <= j
                    < gs.mats@[c]@.len() ==> (gs.mats@[c]@[i][j] == 1 <==> cell_set(
                    membership@,
                    edges@,
                    gs.ids@[c],
                    first_idx(membership@, gs.ids@[c]),
                    i,
                    j,
                ))
        },
{
    let s_len = membership.len();
    let blocks = match scan_blocks(membership) {
        Ok(bs) => bs,
        Err(e) => {
            return Err(e);
        },
    };
    // Validate every edge before writing anything.
    let ne = edges.len();
    let mut e: usize = 0;
    while e < ne
        invariant
            e <= ne,
            ne == edges@.len(),
            s_len == membership@.len(),
            contiguous(membership@),
            forall|p: int| 0 <= p < e ==> edge_ok(membership@, #[trigger] edges@[p]),
        decreases ne - e,
    {
        let (u, v) = edges[e];
        proof {
            assert(edges@[e as int] == (u, v));
        }
        if u < 1 || u > s_len as u64 || v < 1 || v > s_len as u64 {
            proof {
                assert(!edge_in_range(membership@, edges@[e as int]));
                assert(!edge_ok(membership@, edges@[e as int]));
            }
            return Err(DataError::EdgeEndpointOutOfRange);
        }
        let ui = (u - 1) as usize;
        let vi = (v - 1) as usize;
        if membership[ui] != membership[vi] {
            proof {
                assert(ui as int == u - 1 && vi as int == v - 1);
                assert(!edge_within_one_graph(membership@, edges@[e as int]));
                assert(!edge_ok(membership@, edges@[e as int]));
            }
            return Err(DataError::EdgeCrossesGraphs);
        }
        proof {
            assert(ui as int == u - 1 && vi as int == v - 1);
            assert(edge_ok(membership@, edges@[e as int]));
        }
        e = e + 1;
    }
    let ghost scanned = blocks@;
    let sorted = sort_blocks(blocks);
    let ghost sv = sorted@;
    let ghost s = membership@;
    proof {
        lemma_permuted_blocks_sound(scanned, sv, s);
    }
    // Allocate the matrices, ascending by graph id.
    let gcount = sorted.len();
    let mut ids: Vec<u64> = Vec::new();
    let mut mats: Vec<AdjacencyMatrix> = Vec::new();
    let mut c: usize = 0;
    while c < gcount
        invariant
            c <= gcount,
            sv == sorted@,
            gcount == sv.len(),
            ids@.len() == c,
            mats@.len() == c,
            forall|p: int| 0 <= p < c ==> #[trigger] ids@[p] == sv[p].id,
            forall|p: int|
                0 <= p < c ==> (#[trigger] mats@[p]).wf() && mats@[p]@.len() == sv[p].size,
            forall|p: int, i: int, j: int|
                #![trigger mats@[p]@[i][j]]
                0 <= p < c && 0 <= i < mats@[p]@.len() && 0 <= j < mats@[p]@.len()
                    ==> mats@[p]@[i][j] == 0,
        decreases gcount - c,
    {
        let blk = sorted[c];
        ids.push(blk.id);
        mats.push(AdjacencyMatrix::zeros(blk.size));
        c = c + 1;
    }
    // Write every edge into its graph's matrix.
    let mut e2: usize = 0;
    while e2 < ne
        invariant
            e2 <= ne,
            ne == edges@.len(),
            s == membership@,
            s_len == s.len(),
            sv == sorted@,
            blocks_sound(sv, s),
            edges_ok(s, edges@),
            gcount == sv.len(),
            ids@.len() == gcount,
            mats@.len() == gcount,
            forall|p: int| 0 <= p < gcount ==> #[trigger] ids@[p] == sv[p].id,
            forall|p: int|
                0 <= p < gcount ==> (#[trigger] mats@[p]).wf() && mats@[p]@.len() == sv[p].size,
            forall|p: int, i: int, j: int|
                #![trigger mats@[p]@[i][j]]
                0 <= p < gcount && 0 <= i < mats@[p]@.len() && 0 <= j < mats@[p]@.len() ==> (
                mats@[p]@[i][j] == 1 <==> cell_set(
                    s,
                    edges@.take(e2 as int),
                    ids@[p],
                    sv[p].start as int,
                    i,
                    j,
                )),
        decreases ne - e2,
    {
        let ghost pre_edges = edges@.take(e2 as int);
        let ghost post_edges = edges@.take(e2 + 1);
        proof {
            assert(post_edges.drop_last() =~= pre_edges);
            assert(post_edges.last() == edges@[e2 as int]);
        }
        let (u, v) = edges[e2];
        proof {
            assert(edges@[e2 as int] == (u, v));
            assert(edge_ok(s, edges@[e2 as int]));
        }
        let ui = (u - 1) as usize;
        let vi = (v - 1) as usize;
        proof {
            assert(ui as int == u - 1 && vi as int == v - 1);
        }
        let g = membership[ui];
        proof {
            assert(g == s[ui as int]);
            assert(s[vi as int] == g);
        }
        // Locate the graph's block: position ui is covered by the block
        // whose id is g, and ids are distinct, so the search succeeds.
        let mut c2: usize = 0;
        while c2 < gcount && ids[c2] != g
            invariant
                c2 <= gcount,
                gcount == ids@.len(),
                forall|p: int| 0 <= p < c2 ==> #[trigger] ids@[p] != g,
            decreases gcount - c2,
        {
            c2 = c2 + 1;
        }
        proof {
            assert(covered(sv, ui as int));
            let wb = choose|b: int| 0 <= b < sv.len() && block_holds(#[trigger] sv[b], ui as int);
            assert(s[ui as int] == sv[wb].id);
            assert(ids@[wb] == g);
            assert(c2 < gcount);
        }
        let blk = sorted[c2];
        proof {
            // ui and vi both lie inside this very block.
            assert(ids@[c2 as int] == g);
            assert(blk.id == g);
            let wb = choose|b: int| 0 <= b < sv.len() && block_holds(#[trigger] sv[b], ui as int);
            assert(s[ui as int] == sv[wb].id);
            assert(sv[wb].id == g);
            if wb < c2 as int {
                assert(sv[wb].id != sv[c2 as int].id);
            } else if (c2 as int) < wb {
                assert(sv[c2 as int].id != sv[wb].id);
            }
            assert(wb == c2 as int);
            assert(block_holds(blk, ui as int));
            assert(covered(sv, vi as int));
            let wv = choose|b: int| 0 <= b < sv.len() && block_holds(#[trigger] sv[b], vi as int);
            assert(s[vi as int] == sv[wv].id);
            assert(sv[wv].id == g);
            if wv < c2 as int {
                assert(sv[wv].id != sv[c2 as int].id);
            } else if (c2 as int) < wv {
                assert(sv[c2 as int].id != sv[wv].id);
            }
            assert(wv == c2 as int);
            assert(block_holds(blk, vi as int));
        }
        let li = ui - blk.start;
        let lj = vi - blk.start;
        let m = &mut mats[c2];
        proof {
            assert(m@.len() == blk.size);
        }
        m.set_one(li, lj);
        proof {
            assert forall|p: int, i: int, j: int|
                #![trigger mats@[p]@[i][j]]
                0 <= p < gcount && 0 <= i < mats@[p]@.len() && 0 <= j < mats@[p]@.len()
                    implies (mats@[p]@[i][j] == 1 <==> cell_set(
                    s,
                    post_edges,
                    ids@[p],
                    sv[p].start as int,
                    i,
                    j,
                )) by {
                let old_mats = mats@.update(
                    c2 as int,
                    mats@[c2 as int],
                );
                if mats@[p]@[i][j] == 1 {
                    if p == c2 as int && i == li as int && j == lj as int {
                        assert(edge_maps(
                            s,
                            post_edges[e2 as int],
                            ids@[p],
                            sv[p].start as int,
                            i,
                            j,
                        ));
                        assert(cell_set(s, post_edges, ids@[p], sv[p].start as int, i, j));
                    } else {
                        assert(cell_set(s, pre_edges, ids@[p], sv[p].start as int, i, j));
                        let we = choose|q: int|
                            0 <= q < pre_edges.len() && edge_maps(
                                s,
                                #[trigger] pre_edges[q],
                                ids@[p],
                                sv[p].start as int,
                                i,
                                j,
                            );
                        assert(post_edges[we] == pre_edges[we]);
                        assert(cell_set(s, post_edges, ids@[p], sv[p].start as int, i, j));
                    }
                }
                if cell_set(s, post_edges, ids@[p], sv[p].start as int, i, j) {
                    let we = choose|q: int|
                        0 <= q < post_edges.len() && edge_maps(
                            s,
                            #[trigger] post_edges[q],
                            ids@[p],
                            sv[p].start as int,
                            i,
                            j,
                        );
                    if we < e2 as int {
                        assert(pre_edges[we] == post_edges[we]);
                        assert(cell_set(s, pre_edges, ids@[p], sv[p].start as int, i, j));
                        assert(mats@[p]@[i][j] == 1);
                    } else {
                        // The new edge maps here: it names this very cell.
                        assert(post_edges[we] == edges@[e2 as int]);
                        assert(s[ui as int] == ids@[p]);
                        if p != c2 as int {
                            assert(sv[p].id != sv[c2 as int].id);
                            assert(false);
                        }
                        assert(i == li as int && j == lj as int);
                        assert(mats@[p]@[i][j] == 1);
                    }
                }
            }
        }
        e2 = e2 + 1;
    }
    proof {
        assert(edges@.take(ne as int) =~= edges@);
    }
    // Tie the blocks to the membership list's own vocabulary.
    proof {
        lemma_blocks_to_spec(sv, s, ids@);
        assert forall|c3: int, i: int, j: int|
            #![trigger mats@[c3]@[i][j]]
            0 <= c3 < gcount && 0 <= i < mats@[c3]@.len() && 0 <= j < mats@[c3]@.len()
                implies (mats@[c3]@[i][j] == 1 <==> cell_set(
                s,
                edges@,
                ids@[c3],
                first_idx(s, ids@[c3]),
                i,
                j,
            )) by {
            assert(first_idx(s, ids@[c3]) == sv[c3].start as int);
        }
    }
    Ok(GraphSet { ids, mats })
}

/// Assemble the graphs and align the optional label list with them: the
/// labels, one per distinct graph id in ascending order, must be exactly
/// as many as the graphs.
pub fn build_dataset(
    membership: &Vec<u64>,
    edges: &Vec<(u64, u64)>,
    labels: Option<Vec<u64>>,
) -> (r: Result<(GraphSet, Option<Vec<u64>>), DataError>)
    ensures
        r is Ok <==> contiguous(membership@) && edges_ok(membership@, edges@) && (match labels {
            Some(l) => l@.len() == membership@.to_set().len(),
            None => true,
        }),
        r == Result::<(GraphSet, Option<Vec<u64>>), DataError>::Err(
            DataError::LabelCountMismatch,
        ) <==> contiguous(membership@) && edges_ok(membership@, edges@) && (labels matches Some(
            l,
        ) && l@.len() != membership@.to_set().len()),
        r matches Ok(pair) ==> {
            &&& pair.0.wf()
            &&& pair.0.ids@.to_set() == membership@.to_set()
            &&& pair.0.ids@.len() == membership@.to_set().len()
            &&& forall|c1: int, c2: int|
                0 <= c1 < c2 < pair.0.ids@.len() ==> #[trigger] pair.0.ids@[c1]
                    < #[trigger] pair.0.ids@[c2]
            &&& forall|c: int|
                0 <= c < pair.0.mats@.len() ==> (#[trigger] pair.0.mats@[c])@.len() == count_of(
                    membership@,
                    pair.0.ids@[c],
                )
            &&& forall|c: int, i: int, j: int|
                #![trigger pair.0.mats@[c]@[i][j]]
                0 <= c < pair.0.mats@.len() && 0 <= i < pair.0.mats@[c]@.len() && 0 <= j
                    < pair.0.mats@[c]@.len() ==> (pair.0.mats@[c]@[i][j] == 1 <==> cell_set(
                    membership@,
                    edges@,
                    pair.0.ids@[c],
                    first_idx(membership@, pair.0.ids@[c]),
                    i,
                    j,
                ))
            &&& pair.1 == labels
        },
{
    let gs = match assemble_graphs(membership, edges) {
        Ok(gs) => gs,
        Err(e) => {
            return Err(e);
        },
    };
    match labels {
        Some(l) => {
            if l.len() != gs.ids.len() {
                return Err(DataError::LabelCountMismatch);
            }
            Ok((gs, Some(l)))
        },
        None => Ok((gs, None)),
    }
}

} // verus!
