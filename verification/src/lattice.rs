//! The lattice of candidate nodes and its builder.
//!
//! Nodes live in one growable array whose position doubles as the node's
//! identity; a second array of buckets groups node identities by the input
//! position where the node's matched key ends. Each node is linked to a
//! minimum-cost predecessor ending exactly where the node begins, so every
//! node carries the least cost of any segmentation reaching its end
//! position the moment it is created.
use vstd::prelude::*;

use crate::model::{
    is_seg, last_start, lemma_seg_cost_bounds, lemma_seg_len_le_keys, lemma_seg_push,
    seg_cost, seg_indices_ok, seg_keys, valid_dict, Morpheme,
};

verus! {

/// Hands out node identities: a monotonically increasing counter.
pub struct Arena {
    pub next_id: usize,
}

impl Arena {
    /// A fresh arena, whose first identity is 0.
    pub fn new() -> (a: Arena)
        ensures
            a.next_id == 0,
    {
        Arena { next_id: 0 }
    }
}

/// A lattice vertex: one candidate morpheme occurrence, annotated with the
/// minimum cost of reaching it and its best predecessor's identity.
pub struct Node {
    pub id: usize,
    pub start: usize,
    pub cost: u128,
    pub prev: Option<usize>,
    pub text: String,
}

impl Node {
    /// A node carrying the next free identity of `arena`.
    pub fn new(
        arena: &mut Arena,
        start: usize,
        cost: u128,
        prev: Option<usize>,
        text: String,
    ) -> (n: Node)
        requires
            old(arena).next_id < usize::MAX,
        ensures
            n.id == old(arena).next_id,
            final(arena).next_id == old(arena).next_id + 1,
            n.start == start,
            n.cost == cost,
            n.prev == prev,
            n.text == text,
    {
        let ret = Node { id: arena.next_id, start, cost, prev, text };
        arena.next_id = arena.next_id + 1;
        ret
    }
}

/// What the builder guarantees of one node, through the ghost witness map
/// `w`: `w[id]` is a segmentation of the input prefix the node's path
/// covers, the node's cost is that segmentation's cost, and the node's
/// predecessor link drops the segmentation's last entry.
pub open spec fn node_wf(
    nodes: Seq<Node>,
    w: Map<int, Seq<int>>,
    dict: Seq<Morpheme>,
    input: Seq<char>,
    id: int,
) -> bool {
    &&& w.dom().contains(id)
    &&& seg_indices_ok(dict, w[id])
    &&& seg_keys(dict, w[id]).len() <= input.len()
    &&& seg_keys(dict, w[id]) == input.subrange(0, seg_keys(dict, w[id]).len() as int)
    &&& nodes[id].id == id
    &&& nodes[id].cost == seg_cost(dict, w[id])
    &&& if id == 0 {
        &&& w[id] == Seq::<int>::empty()
        &&& nodes[id].prev is None
        &&& nodes[id].start == 0
    } else {
        &&& w[id].len() > 0
        &&& nodes[id].text@ == dict[w[id].last()].text@
        &&& nodes[id].prev is Some
        &&& (nodes[id].prev matches Some(pid) ==> {
            &&& 0 <= pid < id
            &&& w[pid as int] == w[id].drop_last()
            &&& nodes[id].start == seg_keys(dict, w[pid as int]).len()
        })
    }
}

/// The whole graph is well formed: every node satisfies `node_wf`, and a
/// bucket at position `p` holds only identities of nodes whose covered
/// prefix ends exactly at `p`.
pub open spec fn lattice_wf(
    nodes: Seq<Node>,
    buckets: Seq<Vec<usize>>,
    w: Map<int, Seq<int>>,
    dict: Seq<Morpheme>,
    input: Seq<char>,
) -> bool {
    &&& nodes.len() >= 1
    &&& buckets.len() == input.len() + 1
    &&& forall|id: int| 0 <= id < nodes.len() ==> #[trigger] node_wf(nodes, w, dict, input, id)
    &&& forall|p: int, k: int|
        0 <= p < buckets.len() && 0 <= k < buckets[p]@.len() ==> {
            &&& (#[trigger] buckets[p]@[k]) < nodes.len()
            &&& seg_keys(dict, w[buckets[p]@[k] as int]).len() == p
        }
}

/// Some node in the bucket at `p` costs no more than `seg` does.
pub open spec fn beaten_in_bucket(
    nodes: Seq<Node>,
    buckets: Seq<Vec<usize>>,
    dict: Seq<Morpheme>,
    p: int,
    seg: Seq<int>,
) -> bool {
    exists|k: int|
        0 <= k < buckets[p]@.len() && (nodes[#[trigger] buckets[p]@[k] as int].cost as int)
            <= seg_cost(dict, seg)
}

/// `seg` is a segmentation of the first `p` symbols of the input.
pub open spec fn covers_prefix(
    dict: Seq<Morpheme>,
    input: Seq<char>,
    p: int,
    seg: Seq<int>,
) -> bool {
    0 <= p <= input.len() && is_seg(dict, input.subrange(0, p), seg)
}

/// Every segmentation of an input prefix whose last entry begins before
/// position `i` — every one the builder has already had the chance to
/// consider — is matched or beaten by a node in the bucket where it ends.
pub open spec fn complete_upto(
    nodes: Seq<Node>,
    buckets: Seq<Vec<usize>>,
    dict: Seq<Morpheme>,
    input: Seq<char>,
    i: int,
) -> bool {
    forall|p: int, seg: Seq<int>|
        #[trigger] covers_prefix(dict, input, p, seg) && (seg.len() == 0 || last_start(dict, seg)
            < i) ==> beaten_in_bucket(nodes, buckets, dict, p, seg)
}

/// Splitting a prefix-covering segmentation at its last entry: the rest
/// covers the shorter prefix up to where the last entry begins, and that
/// entry's key is exactly the slice it spans.
pub proof fn lemma_split_cover(dict: Seq<Morpheme>, input: Seq<char>, p: int, seg: Seq<int>)
    requires
        valid_dict(dict),
        covers_prefix(dict, input, p, seg),
        seg.len() > 0,
    ensures
        0 <= seg.last() < dict.len(),
        0 <= last_start(dict, seg) < p,
        p == last_start(dict, seg) + dict[seg.last()].yomi@.len(),
        last_start(dict, seg) == seg_keys(dict, seg.drop_last()).len(),
        covers_prefix(dict, input, last_start(dict, seg), seg.drop_last()),
        seg.drop_last().len() == 0 || last_start(dict, seg.drop_last()) < last_start(dict, seg),
        dict[seg.last()].yomi@ == input.subrange(last_start(dict, seg), p),
        seg_cost(dict, seg) == seg_cost(dict, seg.drop_last()) + dict[seg.last()].cost,
{
    let pre = seg.drop_last();
    let j = seg.last();
    let ls = last_start(dict, seg);
    assert(seg_indices_ok(dict, pre));
    assert(0 <= j < dict.len());
    assert(seg_keys(dict, seg) == seg_keys(dict, pre) + dict[j].yomi@);
    assert(seg_keys(dict, seg) == input.subrange(0, p));
    assert(seg_keys(dict, seg).len() == p);
    assert(ls == seg_keys(dict, pre).len());
    assert(dict[j].yomi@.len() > 0);
    assert(seg_keys(dict, pre) =~= input.subrange(0, p).subrange(0, ls));
    assert(input.subrange(0, p).subrange(0, ls) =~= input.subrange(0, ls));
    assert(dict[j].yomi@ =~= input.subrange(0, p).subrange(ls, p));
    assert(input.subrange(0, p).subrange(ls, p) =~= input.subrange(ls, p));
    if pre.len() > 0 {
        assert(seg_keys(dict, pre) == seg_keys(dict, pre.drop_last()) + dict[pre.last()].yomi@);
        assert(0 <= pre.last() < dict.len());
        assert(dict[pre.last()].yomi@.len() > 0);
        assert(last_start(dict, pre) < ls);
    }
}

/// Whether the full pronunciation key matches the input slice beginning
/// at `at`.
pub fn key_matches_at(yomi: &Vec<char>, input: &Vec<char>, at: usize) -> (r: bool)
    requires
        at + yomi@.len() <= input@.len(),
    ensures
        r == (input@.subrange(at as int, at as int + yomi@.len() as int) == yomi@),
{
    let n = yomi.len();
    let ilen = input.len();
    let mut k: usize = 0;
    while k < n
        invariant
            k <= n,
            n == yomi@.len(),
            ilen == input@.len(),
            at + n <= ilen,
            forall|q: int| 0 <= q < k ==> input@[at + q] == yomi@[q],
        decreases n - k,
    {
        if input[at + k] != yomi[k] {
            proof {
                let slice = input@.subrange(at as int, at as int + yomi@.len() as int);
                assert(slice[k as int] != yomi@[k as int]);
            }
            return false;
        }
        k = k + 1;
    }
    proof {
        assert(input@.subrange(at as int, at as int + yomi@.len() as int) =~= yomi@);
    }
    true
}

/// The identity and cost of a minimum-cost node in `bucket`, or `None`
/// when the bucket is empty. Among equal minima the first listed wins, so
/// the choice is deterministic for a fixed dictionary order.
pub fn best_in_bucket(nodes: &Vec<Node>, bucket: &Vec<usize>) -> (r: Option<(usize, u128)>)
    requires
        forall|k: int| 0 <= k < bucket@.len() ==> (#[trigger] bucket@[k]) < nodes@.len(),
    ensures
        match r {
            None => bucket@.len() == 0,
            Some((id, c)) => {
                &&& exists|k: int|
                    0 <= k < bucket@.len() && #[trigger] bucket@[k] == id && nodes@[id as int].cost
                        == c && forall|q: int|
                        0 <= q < k ==> c < nodes@[#[trigger] bucket@[q] as int].cost
                &&& id < nodes@.len()
                &&& nodes@[id as int].cost == c
                &&& forall|k: int|
                    0 <= k < bucket@.len() ==> c <= nodes@[#[trigger] bucket@[k] as int].cost
            },
        },
{
    let n = bucket.len();
    if n == 0 {
        return None;
    }
    let mut best: usize = bucket[0];
    let mut best_cost: u128 = nodes[best].cost;
    let mut best_k: usize = 0;
    let mut k: usize = 1;
    while k < n
        invariant
            1 <= k <= n,
            n == bucket@.len(),
            forall|q: int| 0 <= q < bucket@.len() ==> (#[trigger] bucket@[q]) < nodes@.len(),
            best_k < k,
            bucket@[best_k as int] == best,
            best < nodes@.len(),
            nodes@[best as int].cost == best_cost,
            forall|q: int|
                0 <= q < best_k ==> best_cost < nodes@[#[trigger] bucket@[q] as int].cost,
            forall|q: int| 0 <= q < k ==> best_cost <= nodes@[#[trigger] bucket@[q] as int].cost,
        decreases n - k,
    {
        let cand = bucket[k];
        let cand_cost = nodes[cand].cost;
        if cand_cost < best_cost {
            best = cand;
            best_cost = cand_cost;
            best_k = k;
        }
        k = k + 1;
    }
    Some((best, best_cost))
}

/// A bucket entry that beats `seg` still does after nodes are appended and
/// buckets only grow at their end.
proof fn lemma_beaten_frame(
    old_nodes: Seq<Node>,
    old_buckets: Seq<Vec<usize>>,
    nodes: Seq<Node>,
    buckets: Seq<Vec<usize>>,
    dict: Seq<Morpheme>,
    p: int,
    seg: Seq<int>,
)
    requires
        beaten_in_bucket(old_nodes, old_buckets, dict, p, seg),
        forall|x: int| 0 <= x < old_nodes.len() ==> #[trigger] nodes[x] == old_nodes[x],
        forall|k: int|
            0 <= k < old_buckets[p]@.len() ==> (#[trigger] old_buckets[p]@[k]) < old_nodes.len(),
        old_buckets[p]@.len() <= buckets[p]@.len(),
        forall|k: int|
            0 <= k < old_buckets[p]@.len() ==> #[trigger] buckets[p]@[k] == old_buckets[p]@[k],
    ensures
        beaten_in_bucket(nodes, buckets, dict, p, seg),
{
    let k = choose|k: int|
        0 <= k < old_buckets[p]@.len() && (old_nodes[#[trigger] old_buckets[p]@[k] as int].cost
            as int) <= seg_cost(dict, seg);
    assert(buckets[p]@[k] == old_buckets[p]@[k]);
    assert((nodes[buckets[p]@[k] as int].cost as int) <= seg_cost(dict, seg));
}

/// Builds the lattice: for every input position, every dictionary entry
/// whose full pronunciation key matches there becomes a node linked to a
/// minimum-cost predecessor ending at that position, bucketed by the
/// position where its key ends; candidates that no path reaches are
/// discarded at once. The returned ghost map carries, for each node, the
/// segmentation its predecessor chain spells.
#[verifier::loop_isolation(false)]
pub fn build_lattice(dict: &Vec<Morpheme>, input: &Vec<char>) -> (r: (
    Vec<Node>,
    Vec<Vec<usize>>,
    Ghost<Map<int, Seq<int>>>,
))
    requires
        valid_dict(dict@),
    ensures
        lattice_wf(r.0@, r.1@, r.2@, dict@, input@),
        complete_upto(r.0@, r.1@, dict@, input@, input@.len() as int),
{
    let l = input.len();
    let mut nodes: Vec<Node> = Vec::new();
    let mut buckets: Vec<Vec<usize>> = Vec::new();
    let mut q: usize = 0;
    while q < l
        invariant
            q <= l,
            buckets@.len() == q,
            forall|p: int| 0 <= p < q ==> (#[trigger] buckets@[p])@.len() == 0,
        decreases l - q,
    {
        buckets.push(Vec::new());
        q = q + 1;
    }
    buckets.push(Vec::new());
    nodes.push(Node { id: 0, start: 0, cost: 0, prev: None, text: "start".to_string() });
    let b0 = &mut buckets[0];
    b0.push(0);
    let ghost mut w: Map<int, Seq<int>> = Map::empty().insert(0, Seq::empty());
    proof {
        assert(seg_keys(dict@, w[0]) =~= input@.subrange(0, 0));
        assert(node_wf(nodes@, w, dict@, input@, 0));
        assert(lattice_wf(nodes@, buckets@, w, dict@, input@));
        assert forall|p: int, seg: Seq<int>|
            #[trigger] covers_prefix(dict@, input@, p, seg) && (seg.len() == 0 || last_start(
                dict@,
                seg,
            ) < 0) implies beaten_in_bucket(nodes@, buckets@, dict@, p, seg) by {
            if seg.len() == 0 {
                assert(seg_keys(dict@, seg).len() == 0);
                assert(input@.subrange(0, p).len() == p);
                assert(p == 0);
                assert(buckets@[0]@[0] == 0usize);
                assert(nodes@[0].cost as int <= seg_cost(dict@, seg));
            } else {
                lemma_split_cover(dict@, input@, p, seg);
                assert(false);
            }
        }
        assert(complete_upto(nodes@, buckets@, dict@, input@, 0));
    }
    let mut i: usize = 0;
    while i < l
        invariant
            i <= l,
            lattice_wf(nodes@, buckets@, w, dict@, input@),
            complete_upto(nodes@, buckets@, dict@, input@, i as int),
        decreases l - i,
    {
        let dn = dict.len();
        let mut j: usize = 0;
        while j < dn
            invariant
                j <= dn,
                lattice_wf(nodes@, buckets@, w, dict@, input@),
                complete_upto(nodes@, buckets@, dict@, input@, i as int),
                forall|p: int, seg: Seq<int>|
                    #[trigger] covers_prefix(dict@, input@, p, seg) && seg.len() > 0
                        && last_start(dict@, seg) == i && seg.last() < j
                        ==> beaten_in_bucket(nodes@, buckets@, dict@, p, seg),
            decreases dn - j,
        {
            let m = &dict[j];
            let klen = m.yomi.len();
            if klen <= l - i && key_matches_at(&m.yomi, input, i) {
                let e = i + klen;
                proof {
                    assert forall|k: int|
                        0 <= k < buckets@[i as int]@.len() implies (#[trigger] buckets@[i as int]@[k])
                        < nodes@.len() by {
                        assert(buckets@[i as int]@[k] < nodes@.len());
                    }
                }
                match best_in_bucket(&nodes, &buckets[i]) {
                    None => {
                        proof {
                            assert forall|p: int, seg: Seq<int>|
                                #[trigger] covers_prefix(dict@, input@, p, seg) && seg.len() > 0
                                    && last_start(dict@, seg) == i && seg.last() == j
                                implies beaten_in_bucket(nodes@, buckets@, dict@, p, seg) by {
                                lemma_split_cover(dict@, input@, p, seg);
                                let pre = seg.drop_last();
                                assert(covers_prefix(dict@, input@, i as int, pre));
                                assert(beaten_in_bucket(nodes@, buckets@, dict@, i as int, pre));
                                assert(false);
                            }
                        }
                    },
                    Some((pid, pcost)) => {
                        proof {
                            assert(node_wf(nodes@, w, dict@, input@, pid as int));
                            let kk = choose|kk: int|
                                0 <= kk < buckets@[i as int]@.len() && #[trigger] buckets@[i as int]@[kk]
                                    == pid;
                            assert(seg_keys(dict@, w[pid as int]).len() == i);
                            lemma_seg_len_le_keys(dict@, w[pid as int]);
                            lemma_seg_cost_bounds(dict@, w[pid as int]);
                            assert((i as int) <= 0xFFFF_FFFF_FFFF_FFFF);
                            assert(seg_cost(dict@, w[pid as int]) <= (i as int)
                                * 0xFFFF_FFFF_FFFF_FFFF);
                            assert((pcost as int) + (m.cost as int) < u128::MAX as int);
                        }
                        let cost = pcost + (m.cost as u128);
                        let id = nodes.len();
                        let ghost old_nodes = nodes@;
                        let ghost old_buckets = buckets@;
                        let ghost old_w = w;
                        nodes.push(
                            Node { id, start: i, cost, prev: Some(pid), text: m.text.clone() },
                        );
                        let be = &mut buckets[e];
                        be.push(id);
                        proof {
                            let wseg = old_w[pid as int].push(j as int);
                            w = w.insert(id as int, wseg);
                            lemma_seg_push(dict@, old_w[pid as int], j as int);
                            assert(w[pid as int] == old_w[pid as int]);
                            assert(seg_indices_ok(dict@, wseg)) by {
                                assert forall|k: int| 0 <= k < wseg.len() implies 0 <= #[trigger]
                                    wseg[k] < dict@.len() by {
                                    if k < wseg.len() - 1 {
                                        assert(wseg[k] == old_w[pid as int][k]);
                                    }
                                }
                            }
                            assert(seg_keys(dict@, wseg) =~= input@.subrange(0, e as int));
                            assert(wseg.drop_last() =~= old_w[pid as int]);
                            assert(nodes@[id as int].text@ == dict@[j as int].text@);
                            assert(node_wf(nodes@, w, dict@, input@, id as int));
                            assert forall|id2: int| 0 <= id2 < nodes@.len() implies #[trigger]
                                node_wf(nodes@, w, dict@, input@, id2) by {
                                if id2 < id {
                                    assert(node_wf(old_nodes, old_w, dict@, input@, id2));
                                    assert(nodes@[id2] == old_nodes[id2]);
                                }
                            }
                            assert(buckets@[e as int]@ == old_buckets[e as int]@.push(id));
                            assert forall|p: int|
                                0 <= p < buckets@.len() && p != e as int implies buckets@[p]
                                    == old_buckets[p] by {}
                            assert(lattice_wf(nodes@, buckets@, w, dict@, input@)) by {
                                assert forall|p: int, k: int|
                                    0 <= p < buckets@.len() && 0 <= k < buckets@[p]@.len()
                                    implies {
                                    &&& (#[trigger] buckets@[p]@[k]) < nodes@.len()
                                    &&& seg_keys(dict@, w[buckets@[p]@[k] as int]).len() == p
                                } by {
                                    if p == e as int && k == old_buckets[e as int]@.len() {
                                        assert(buckets@[p]@[k] == id);
                                    } else {
                                        assert(buckets@[p]@[k] == old_buckets[p]@[k]);
                                        assert(old_buckets[p]@[k] < old_nodes.len());
                                        assert(w[old_buckets[p]@[k] as int]
                                            == old_w[old_buckets[p]@[k] as int]);
                                    }
                                }
                            }
                            assert forall|p: int, seg: Seq<int>|
                                #[trigger] covers_prefix(dict@, input@, p, seg) && (seg.len() == 0
                                    || last_start(dict@, seg) < i) implies beaten_in_bucket(
                                nodes@,
                                buckets@,
                                dict@,
                                p,
                                seg,
                            ) by {
                                assert(beaten_in_bucket(old_nodes, old_buckets, dict@, p, seg));
                                lemma_beaten_frame(
                                    old_nodes,
                                    old_buckets,
                                    nodes@,
                                    buckets@,
                                    dict@,
                                    p,
                                    seg,
                                );
                            }
                            assert forall|p: int, seg: Seq<int>|
                                #[trigger] covers_prefix(dict@, input@, p, seg) && seg.len() > 0
                                    && last_start(dict@, seg) == i && seg.last() < j
                                implies beaten_in_bucket(nodes@, buckets@, dict@, p, seg) by {
                                assert(beaten_in_bucket(old_nodes, old_buckets, dict@, p, seg));
                                lemma_beaten_frame(
                                    old_nodes,
                                    old_buckets,
                                    nodes@,
                                    buckets@,
                                    dict@,
                                    p,
                                    seg,
                                );
                            }
                            assert forall|p: int, seg: Seq<int>|
                                #[trigger] covers_prefix(dict@, input@, p, seg) && seg.len() > 0
                                    && last_start(dict@, seg) == i && seg.last() == j
                                implies beaten_in_bucket(nodes@, buckets@, dict@, p, seg) by {
                                lemma_split_cover(dict@, input@, p, seg);
                                let pre = seg.drop_last();
                                assert(covers_prefix(dict@, input@, i as int, pre));
                                assert(beaten_in_bucket(old_nodes, old_buckets, dict@, i as int, pre));
                                let k = choose|k: int|
                                    0 <= k < old_buckets[i as int]@.len() && (old_nodes[#[trigger]
                                        old_buckets[i as int]@[k] as int].cost as int) <= seg_cost(
                                        dict@,
                                        pre,
                                    );
                                let b = old_buckets[i as int]@[k];
                                assert(b < old_nodes.len());
                                assert((pcost as int) <= old_nodes[b as int].cost as int);
                                assert(seg_cost(dict@, seg) == seg_cost(dict@, pre)
                                    + dict@[j as int].cost);
                                assert(p == e as int);
                                assert(buckets@[e as int]@[old_buckets[e as int]@.len() as int]
                                    == id);
                                assert((nodes@[id as int].cost as int) <= seg_cost(dict@, seg));
                                assert(beaten_in_bucket(nodes@, buckets@, dict@, p, seg));
                            }
                        }
                    },
                }
            } else {
                proof {
                    assert forall|p: int, seg: Seq<int>|
                        #[trigger] covers_prefix(dict@, input@, p, seg) && seg.len() > 0
                            && last_start(dict@, seg) == i && seg.last() == j
                        implies beaten_in_bucket(nodes@, buckets@, dict@, p, seg) by {
                        lemma_split_cover(dict@, input@, p, seg);
                        assert(p == i + dict@[j as int].yomi@.len());
                        assert(p <= l);
                        assert(dict@[j as int].yomi@ == input@.subrange(i as int, p));
                        assert(false);
                    }
                }
            }
            proof {
                assert forall|p: int, seg: Seq<int>|
                    #[trigger] covers_prefix(dict@, input@, p, seg) && seg.len() > 0 && last_start(
                        dict@,
                        seg,
                    ) == i && seg.last() < j + 1 implies beaten_in_bucket(
                    nodes@,
                    buckets@,
                    dict@,
                    p,
                    seg,
                ) by {
                    assert(covers_prefix(dict@, input@, p, seg));
                }
            }
            j = j + 1;
        }
        proof {
            assert forall|p: int, seg: Seq<int>|
                #[trigger] covers_prefix(dict@, input@, p, seg) && (seg.len() == 0 || last_start(
                    dict@,
                    seg,
                ) < i + 1) implies beaten_in_bucket(nodes@, buckets@, dict@, p, seg) by {
                if seg.len() > 0 && last_start(dict@, seg) == i {
                    lemma_split_cover(dict@, input@, p, seg);
                    assert(seg.last() < dn);
                }
            }
        }
        i = i + 1;
    }
    (nodes, buckets, Ghost(w))
}

} // verus!
