//! Mathematical model of dictionaries and segmentations.
//!
//! A segmentation is described abstractly as a sequence of indices into the
//! dictionary; `seg_keys` gives the symbols it consumes and `seg_cost` its
//! total weight. The searcher's contracts are stated over these functions.
use vstd::prelude::*;

verus! {

/// A dictionary entry: a pronunciation key, the surface text shown for it,
/// and a non-negative weight.
pub struct Morpheme {
    pub yomi: Vec<char>,
    pub text: String,
    pub cost: usize,
}

/// Every entry of the dictionary has a non-empty pronunciation key.
pub open spec fn valid_dict(dict: Seq<Morpheme>) -> bool {
    forall|j: int| 0 <= j < dict.len() ==> (#[trigger] dict[j].yomi)@.len() > 0
}

/// Every element of `seg` is an index into the dictionary.
pub open spec fn seg_indices_ok(dict: Seq<Morpheme>, seg: Seq<int>) -> bool {
    forall|k: int| 0 <= k < seg.len() ==> 0 <= #[trigger] seg[k] < dict.len()
}

/// The symbols consumed by the entries of `seg`, in order.
pub open spec fn seg_keys(dict: Seq<Morpheme>, seg: Seq<int>) -> Seq<char>
    decreases seg.len(),
{
    if seg.len() == 0 {
        Seq::empty()
    } else {
        seg_keys(dict, seg.drop_last()) + dict[seg.last()].yomi@
    }
}

/// The total weight of the entries of `seg`.
pub open spec fn seg_cost(dict: Seq<Morpheme>, seg: Seq<int>) -> int
    decreases seg.len(),
{
    if seg.len() == 0 {
        0
    } else {
        seg_cost(dict, seg.drop_last()) + dict[seg.last()].cost
    }
}

/// `seg` is a segmentation of `input`: its entries exist in the dictionary
/// and their pronunciation keys, concatenated, are exactly `input` —
/// no gap and no overlap.
pub open spec fn is_seg(dict: Seq<Morpheme>, input: Seq<char>, seg: Seq<int>) -> bool {
    seg_indices_ok(dict, seg) && seg_keys(dict, seg) == input
}

/// `texts` are the surface forms of the entries of `seg`, in order.
pub open spec fn texts_match(dict: Seq<Morpheme>, seg: Seq<int>, texts: Seq<String>) -> bool {
    &&& texts.len() == seg.len()
    &&& forall|k: int| 0 <= k < seg.len() ==> (#[trigger] texts[k])@ == dict[seg[k]].text@
}

/// The input position at which the last entry of `seg` begins.
pub open spec fn last_start(dict: Seq<Morpheme>, seg: Seq<int>) -> int {
    seg_keys(dict, seg).len() - dict[seg.last()].yomi@.len()
}

/// Appending an entry extends the consumed symbols and adds its cost.
pub proof fn lemma_seg_push(dict: Seq<Morpheme>, seg: Seq<int>, j: int)
    ensures
        seg_keys(dict, seg.push(j)) == seg_keys(dict, seg) + dict[j].yomi@,
        seg_cost(dict, seg.push(j)) == seg_cost(dict, seg) + dict[j].cost,
{
    assert(seg.push(j).drop_last() =~= seg);
    assert(seg.push(j).last() == j);
}

/// A segmentation consumes at least one symbol per entry.
pub proof fn lemma_seg_len_le_keys(dict: Seq<Morpheme>, seg: Seq<int>)
    requires
        valid_dict(dict),
        seg_indices_ok(dict, seg),
    ensures
        seg.len() <= seg_keys(dict, seg).len(),
    decreases seg.len(),
{
    if seg.len() > 0 {
        assert(seg_indices_ok(dict, seg.drop_last()));
        lemma_seg_len_le_keys(dict, seg.drop_last());
    }
}

/// A segmentation's cost is non-negative and at most one maximal weight
/// per entry.
pub proof fn lemma_seg_cost_bounds(dict: Seq<Morpheme>, seg: Seq<int>)
    requires
        seg_indices_ok(dict, seg),
    ensures
        0 <= seg_cost(dict, seg),
        seg_cost(dict, seg) <= seg.len() * 0xFFFF_FFFF_FFFF_FFFF,
    decreases seg.len(),
{
    if seg.len() > 0 {
        assert(seg_indices_ok(dict, seg.drop_last()));
        lemma_seg_cost_bounds(dict, seg.drop_last());
        assert(dict[seg.last()].cost <= 0xFFFF_FFFF_FFFF_FFFF);
    }
}

/// Only the empty segmentation covers the empty input: with every
/// pronunciation key non-empty, any entry would consume a symbol.
pub proof fn lemma_empty_input_seg(dict: Seq<Morpheme>, seg: Seq<int>)
    requires
        valid_dict(dict),
        is_seg(dict, Seq::<char>::empty(), seg),
    ensures
        seg == Seq::<int>::empty(),
{
    if seg.len() > 0 {
        lemma_seg_len_le_keys(dict, seg);
        assert(false);
    }
    assert(seg =~= Seq::<int>::empty());
}

/// The first consumed symbol of a non-empty segmentation is the first
/// symbol of its first entry's pronunciation key.
pub proof fn lemma_seg_first_char(dict: Seq<Morpheme>, seg: Seq<int>)
    requires
        valid_dict(dict),
        seg_indices_ok(dict, seg),
        seg.len() > 0,
    ensures
        seg_keys(dict, seg).len() > 0,
        seg_keys(dict, seg)[0] == dict[seg[0]].yomi@[0],
    decreases seg.len(),
{
    let pre = seg.drop_last();
    assert(seg_indices_ok(dict, pre));
    if pre.len() > 0 {
        lemma_seg_first_char(dict, pre);
        assert(seg[0] == pre[0]);
        assert(seg_keys(dict, seg)[0] == seg_keys(dict, pre)[0]);
    } else {
        assert(seg_keys(dict, pre).len() == 0);
        assert(seg.last() == seg[0]);
        assert(seg_keys(dict, seg) == seg_keys(dict, pre) + dict[seg.last()].yomi@);
        assert(seg_keys(dict, seg)[0] == dict[seg[0]].yomi@[0]);
    }
}

/// An input whose first symbol begins no pronunciation key has no
/// segmentation at all.
pub proof fn lemma_unmatched_first_symbol(
    dict: Seq<Morpheme>,
    input: Seq<char>,
    seg: Seq<int>,
)
    requires
        valid_dict(dict),
        input.len() > 0,
        forall|j: int| 0 <= j < dict.len() ==> (#[trigger] dict[j].yomi)@[0] != input[0],
    ensures
        !is_seg(dict, input, seg),
{
    if is_seg(dict, input, seg) {
        if seg.len() == 0 {
            assert(seg_keys(dict, seg).len() == 0);
        } else {
            lemma_seg_first_char(dict, seg);
            assert(dict[seg[0]].yomi@[0] == input[0]);
        }
    }
}

/// Every consumed symbol comes from some entry's pronunciation key.
pub proof fn lemma_keys_chars(dict: Seq<Morpheme>, seg: Seq<int>, q: int)
    requires
        seg_indices_ok(dict, seg),
        0 <= q < seg_keys(dict, seg).len(),
    ensures
        exists|k: int, o: int|
            0 <= k < seg.len() && 0 <= o < dict[seg[k]].yomi@.len() && seg_keys(dict, seg)[q]
                == #[trigger] dict[seg[k]].yomi@[o],
    decreases seg.len(),
{
    let pre = seg.drop_last();
    assert(seg.len() > 0);
    assert(seg_indices_ok(dict, pre));
    assert(seg_keys(dict, seg) == seg_keys(dict, pre) + dict[seg.last()].yomi@);
    if q < seg_keys(dict, pre).len() {
        lemma_keys_chars(dict, pre, q);
        let (k, o) = choose|k: int, o: int|
            0 <= k < pre.len() && 0 <= o < dict[pre[k]].yomi@.len() && seg_keys(dict, pre)[q]
                == #[trigger] dict[pre[k]].yomi@[o];
        assert(seg[k] == pre[k]);
        assert(seg_keys(dict, seg)[q] == seg_keys(dict, pre)[q]);
        assert(seg_keys(dict, seg)[q] == dict[seg[k]].yomi@[o]);
    } else {
        let k = seg.len() - 1;
        let o = q - seg_keys(dict, pre).len();
        assert(seg[k] == seg.last());
        assert(seg_keys(dict, seg)[q] == dict[seg[k]].yomi@[o]);
    }
}

/// An input holding a symbol that occurs in no pronunciation key has no
/// segmentation at all: nothing could consume that position.
pub proof fn lemma_symbol_in_no_key(
    dict: Seq<Morpheme>,
    input: Seq<char>,
    p: int,
    seg: Seq<int>,
)
    requires
        0 <= p < input.len(),
        forall|j: int, o: int|
            0 <= j < dict.len() && 0 <= o < dict[j].yomi@.len() ==> #[trigger] dict[j].yomi@[o]
                != input[p],
    ensures
        !is_seg(dict, input, seg),
{
    if is_seg(dict, input, seg) {
        lemma_keys_chars(dict, seg, p);
        let (k, o) = choose|k: int, o: int|
            0 <= k < seg.len() && 0 <= o < dict[seg[k]].yomi@.len() && seg_keys(dict, seg)[p]
                == #[trigger] dict[seg[k]].yomi@[o];
        assert(dict[seg[k]].yomi@[o] != input[p]);
        assert(false);
    }
}

/// Two minimum costs over the same dictionary and input are equal: the
/// total cost of a successful search is unique, whatever path is chosen.
pub proof fn lemma_min_cost_unique(
    dict: Seq<Morpheme>,
    input: Seq<char>,
    c1: int,
    c2: int,
)
    requires
        exists|seg: Seq<int>| #[trigger] is_seg(dict, input, seg) && seg_cost(dict, seg) == c1,
        forall|seg: Seq<int>| #[trigger] is_seg(dict, input, seg) ==> seg_cost(dict, seg) >= c1,
        exists|seg: Seq<int>| #[trigger] is_seg(dict, input, seg) && seg_cost(dict, seg) == c2,
        forall|seg: Seq<int>| #[trigger] is_seg(dict, input, seg) ==> seg_cost(dict, seg) >= c2,
    ensures
        c1 == c2,
{
}

} // verus!
