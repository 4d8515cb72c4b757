//! The segmenter's public entry point: dictionary validation, the search
//! over the lattice, and reconstruction of the chosen path.
use vstd::pervasive::unreached;
use vstd::prelude::*;

use crate::lattice::{
    beaten_in_bucket, best_in_bucket, build_lattice, covers_prefix, lemma_split_cover, node_wf,
    Node,
};
use crate::model::{
    is_seg, lemma_empty_input_seg, seg_cost, seg_keys, texts_match, valid_dict, Morpheme,
};

verus! {

/// Why a segmentation call failed.
#[derive(Debug, PartialEq, Eq)]
pub enum SegError {
    /// No sequence of dictionary entries covers the whole input.
    NoSegmentation,
    /// The dictionary holds an entry with an empty pronunciation key.
    InvalidDictionaryEntry,
}

/// A successful result: the surface forms along the minimum-cost path, in
/// input order, and that path's total cost.
#[derive(Debug, PartialEq, Eq)]
pub struct Segmentation {
    pub texts: Vec<String>,
    pub total_cost: u128,
}

/// Whether every dictionary entry has a non-empty pronunciation key.
fn validate_dict(dict: &Vec<Morpheme>) -> (r: bool)
    ensures
        r == valid_dict(dict@),
{
    let n = dict.len();
    let mut j: usize = 0;
    while j < n
        invariant
            j <= n,
            n == dict@.len(),
            forall|q: int| 0 <= q < j ==> (#[trigger] dict@[q].yomi)@.len() > 0,
        decreases n - j,
    {
        if dict[j].yomi.len() == 0 {
            return false;
        }
        j = j + 1;
    }
    true
}

/// Walks the predecessor links back from `best` and returns the surface
/// forms of its path, reordered to read start-to-end.
fn reconstruct(
    nodes: &Vec<Node>,
    best: usize,
    Ghost(w): Ghost<Map<int, Seq<int>>>,
    Ghost(dict): Ghost<Seq<Morpheme>>,
    Ghost(input): Ghost<Seq<char>>,
) -> (texts: Vec<String>)
    requires
        forall|id: int| 0 <= id < nodes@.len() ==> #[trigger] node_wf(nodes@, w, dict, input, id),
        best < nodes@.len(),
    ensures
        texts_match(dict, w[best as int], texts@),
{
    let ghost bseg = w[best as int];
    let mut rev: Vec<String> = Vec::new();
    let mut cur = best;
    proof {
        assert(bseg.subrange(0, bseg.len() as int) =~= bseg);
    }
    while cur != 0
        invariant
            forall|id: int|
                0 <= id < nodes@.len() ==> #[trigger] node_wf(nodes@, w, dict, input, id),
            cur < nodes@.len(),
            bseg == w[best as int],
            rev@.len() <= bseg.len(),
            w[cur as int] == bseg.subrange(0, bseg.len() - rev@.len()),
            forall|k: int|
                0 <= k < rev@.len() ==> (#[trigger] rev@[k])@ == dict[bseg[bseg.len() - 1
                    - k]].text@,
        decreases w[cur as int].len(),
    {
        proof {
            assert(node_wf(nodes@, w, dict, input, cur as int));
        }
        let node = &nodes[cur];
        rev.push(node.text.clone());
        cur = match node.prev {
            Some(p) => p,
            None => unreached(),
        };
        proof {
            assert(bseg.subrange(0, bseg.len() - rev@.len() + 1).drop_last() =~= bseg.subrange(
                0,
                bseg.len() - rev@.len(),
            ));
        }
    }
    proof {
        assert(node_wf(nodes@, w, dict, input, 0));
        assert(w[0].len() == 0);
        assert(rev@.len() == bseg.len());
    }
    let ghost revsnap = rev@;
    let mut texts: Vec<String> = Vec::new();
    proof {
        assert(rev@ =~= revsnap.subrange(0, rev@.len() as int));
    }
    while rev.len() > 0
        invariant
            rev@ == revsnap.subrange(0, rev@.len() as int),
            texts@.len() + rev@.len() == revsnap.len(),
            revsnap.len() == bseg.len(),
            forall|k: int|
                0 <= k < revsnap.len() ==> (#[trigger] revsnap[k])@ == dict[bseg[bseg.len() - 1
                    - k]].text@,
            forall|k: int| 0 <= k < texts@.len() ==> (#[trigger] texts@[k])@ == dict[bseg[k]].text@,
        decreases rev@.len(),
    {
        let s = match rev.pop() {
            Some(s) => s,
            None => unreached(),
        };
        texts.push(s);
        proof {
            assert(rev@ =~= revsnap.subrange(0, rev@.len() as int));
        }
    }
    texts
}

/// Segments `input` with the given dictionary: builds the lattice and
/// returns the surface forms of a minimum-total-cost covering, together
/// with that cost. Fails with `InvalidDictionaryEntry` exactly when some
/// entry's pronunciation key is empty, and with `NoSegmentation` exactly
/// when no sequence of entries covers the input; an empty input always
/// succeeds with the empty segmentation. Among equal-cost paths the choice
/// is deterministic for a fixed dictionary order.
pub fn viterbi(morphemes: &Vec<Morpheme>, input: &Vec<char>) -> (r: Result<
    Segmentation,
    SegError,
>)
    ensures
        match r {
            Ok(s) => {
                &&& valid_dict(morphemes@)
                &&& exists|seg: Seq<int>|
                    #[trigger] is_seg(morphemes@, input@, seg) && seg_cost(morphemes@, seg)
                        == s.total_cost as int && texts_match(morphemes@, seg, s.texts@)
                &&& forall|seg: Seq<int>|
                    #[trigger] is_seg(morphemes@, input@, seg) ==> seg_cost(morphemes@, seg)
                        >= s.total_cost as int
            },
            Err(SegError::NoSegmentation) => {
                &&& valid_dict(morphemes@)
                &&& forall|seg: Seq<int>| !(#[trigger] is_seg(morphemes@, input@, seg))
            },
            Err(SegError::InvalidDictionaryEntry) => !valid_dict(morphemes@),
        },
        valid_dict(morphemes@) && input@.len() == 0 ==> (r matches Ok(s) && s.texts@.len() == 0
            && s.total_cost == 0),
{
    if !validate_dict(morphemes) {
        return Err(SegError::InvalidDictionaryEntry);
    }
    let (nodes, buckets, wg) = build_lattice(morphemes, input);
    let ghost w = wg@;
    let l = input.len();
    proof {
        assert(input@.subrange(0, l as int) =~= input@);
        assert forall|k: int|
            0 <= k < buckets@[l as int]@.len() implies (#[trigger] buckets@[l as int]@[k])
            < nodes@.len() by {
            assert(buckets@[l as int]@[k] < nodes@.len());
        }
    }
    match best_in_bucket(&nodes, &buckets[l]) {
        None => {
            proof {
                assert forall|seg: Seq<int>| !(#[trigger] is_seg(morphemes@, input@, seg)) by {
                    if is_seg(morphemes@, input@, seg) {
                        assert(covers_prefix(morphemes@, input@, l as int, seg));
                        if seg.len() > 0 {
                            lemma_split_cover(morphemes@, input@, l as int, seg);
                        }
                        assert(beaten_in_bucket(nodes@, buckets@, morphemes@, l as int, seg));
                        assert(false);
                    }
                }
                if input@.len() == 0 {
                    assert(seg_keys(morphemes@, Seq::<int>::empty()) =~= input@);
                    assert(is_seg(morphemes@, input@, Seq::<int>::empty()));
                    assert(false);
                }
            }
            Err(SegError::NoSegmentation)
        },
        Some((best, c)) => {
            proof {
                let kk = choose|kk: int|
                    0 <= kk < buckets@[l as int]@.len() && #[trigger] buckets@[l as int]@[kk]
                        == best;
                assert(seg_keys(morphemes@, w[best as int]).len() == l);
                assert(node_wf(nodes@, w, morphemes@, input@, best as int));
                assert(seg_keys(morphemes@, w[best as int]) == input@);
                assert(is_seg(morphemes@, input@, w[best as int]));
                assert(seg_cost(morphemes@, w[best as int]) == c as int);
                assert forall|seg: Seq<int>|
                    #[trigger] is_seg(morphemes@, input@, seg) implies seg_cost(morphemes@, seg)
                    >= c as int by {
                    assert(covers_prefix(morphemes@, input@, l as int, seg));
                    if seg.len() > 0 {
                        lemma_split_cover(morphemes@, input@, l as int, seg);
                    }
                    assert(beaten_in_bucket(nodes@, buckets@, morphemes@, l as int, seg));
                    let k = choose|k: int|
                        0 <= k < buckets@[l as int]@.len() && (nodes@[#[trigger] buckets@[l as int]@[k] as int].cost
                            as int) <= seg_cost(morphemes@, seg);
                    assert((c as int) <= nodes@[buckets@[l as int]@[k] as int].cost as int);
                }
            }
            let texts = reconstruct(&nodes, best, Ghost(w), Ghost(morphemes@), Ghost(input@));
            proof {
                if input@.len() == 0 {
                    assert(input@ =~= Seq::<char>::empty());
                    lemma_empty_input_seg(morphemes@, w[best as int]);
                }
            }
            Ok(Segmentation { texts, total_cost: c })
        },
    }
}

} // verus!
