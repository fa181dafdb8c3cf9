use vstd::prelude::*;
use vstd::slice::SliceAdditionalExecFns;

use crate::chain::{as_ints, has_twin_points, is_heaviest_chain};
use crate::graph::{build_graph, heaviest_path};
use crate::interval::{interval_of, saturate_u32, Interval, IntervalView};

verus! {

/// The mask byte of a selected item.
pub const SELECTED: u8 = 255;

/// The mask byte of an item left out.
pub const NOT_SELECTED: u8 = 0;

/// The intervals that a flat buffer of triples `(lower, upper, weight)`
/// describes; bounds are IEEE-754 bit patterns, weights integers.
pub open spec fn decoded(inputs: Seq<u64>) -> Seq<IntervalView> {
    Seq::new(
        (inputs.len() / 3) as nat,
        |i: int| interval_of(saturate_u32(inputs[3 * i + 2]), inputs[3 * i], inputs[3 * i + 1]),
    )
}

/// The mask of `n` items that marks exactly the items of `sel`.
pub open spec fn mask_of(n: nat, sel: Set<int>) -> Seq<u8> {
    Seq::new(n, |i: int| if sel.contains(i) { SELECTED } else { NOT_SELECTED })
}

/// The items that a mask marks as selected.
pub open spec fn selected_of(mask: Seq<u8>) -> Set<int> {
    Set::new(|i: int| 0 <= i < mask.len() && mask[i] != NOT_SELECTED)
}

/// Every byte of the mask is one of the two mask values.
pub open spec fn is_mask(mask: Seq<u8>) -> bool {
    forall|i: int| 0 <= i < mask.len() ==> mask[i] == SELECTED || mask[i] == NOT_SELECTED
}

/// Decodes a flat buffer of triples into intervals.
pub fn decode_intervals(inputs: &[u64]) -> (xs: Vec<Interval>)
    requires
        inputs@.len() % 3 == 0,
    ensures
        xs@.map_values(|x: Interval| x@) == decoded(inputs@),
{
    let len = inputs.len();
    let count = len / 3;
    let mut xs: Vec<Interval> = Vec::new();
    let mut i: usize = 0;
    while i < count
        invariant
            len == inputs@.len(),
            count == inputs@.len() / 3,
            inputs@.len() % 3 == 0,
            i <= count,
            xs@.len() == i,
            forall|k: int| 0 <= k < i ==> (#[trigger] xs@[k])@ == decoded(inputs@)[k],
        decreases count - i,
    {
        assert(3 * i + 3 <= inputs@.len()) by (nonlinear_arith)
            requires
                i < count,
                count == inputs@.len() / 3,
        ;
        let (_, rest) = inputs.split_at(3 * i);
        let (triple, _) = rest.split_at(3);
        let x = Interval::from_f64_slice(triple);
        proof {
            assert(triple@[0] == inputs@[3 * i as int]);
            assert(triple@[1] == inputs@[3 * i as int + 1]);
            assert(triple@[2] == inputs@[3 * i as int + 2]);
        }
        xs.push(x.unwrap());
        i += 1;
    }
    assert(xs@.map_values(|x: Interval| x@) =~= decoded(inputs@));
    xs
}

/// The mask of `n` items in which exactly the listed items are selected.
pub fn encode_mask(n: usize, selected: &Vec<usize>) -> (mask: Vec<u8>)
    requires
        forall|k: int| 0 <= k < selected@.len() ==> #[trigger] selected@[k] < n,
    ensures
        mask@ == mask_of(n as nat, as_ints(selected@).to_set()),
{
    let mut mask: Vec<u8> = Vec::new();
    let mut i: usize = 0;
    while i < n
        invariant
            i <= n,
            mask@.len() == i,
            forall|k: int| 0 <= k < i ==> #[trigger] mask@[k] == NOT_SELECTED,
        decreases n - i,
    {
        mask.push(NOT_SELECTED);
        i += 1;
    }
    let mut j: usize = 0;
    while j < selected.len()
        invariant
            j <= selected@.len(),
            mask@.len() == n,
            forall|k: int| 0 <= k < selected@.len() ==> #[trigger] selected@[k] < n,
            forall|k: int|
                0 <= k < n ==> #[trigger] mask@[k] == if as_ints(selected@.subrange(
                    0,
                    j as int,
                )).contains(k) {
                    SELECTED
                } else {
                    NOT_SELECTED
                },
        decreases selected@.len() - j,
    {
        let ghost old_mask = mask@;
        mask.set(selected[j], SELECTED);
        proof {
            let s0 = as_ints(selected@.subrange(0, j as int));
            let s1 = as_ints(selected@.subrange(0, j as int + 1));
            assert(s1 =~= s0.push(selected@[j as int] as int));
            assert forall|k: int| 0 <= k < n implies #[trigger] mask@[k] == if s1.contains(k) {
                SELECTED
            } else {
                NOT_SELECTED
            } by {
                if s0.contains(k) {
                    let t = choose|t: int| 0 <= t < s0.len() && s0[t] == k;
                    assert(s1[t] == k);
                }
                if s1.contains(k) && k != selected@[j as int] {
                    let t = choose|t: int| 0 <= t < s1.len() && s1[t] == k;
                    assert(s0[t] == k);
                }
                if k == selected@[j as int] {
                    assert(s1[j as int] == k);
                }
            }
        }
        j += 1;
    }
    proof {
        assert(selected@.subrange(0, selected@.len() as int) =~= selected@);
        let s = as_ints(selected@);
        assert forall|k: int| 0 <= k < n implies #[trigger] mask@[k] == mask_of(n as nat, s.to_set())[k] by {
            assert(s.contains(k) <==> s.to_set().contains(k));
        }
        assert(mask@ =~= mask_of(n as nat, s.to_set()));
    }
    mask
}

/// The selected items of a mask, in ascending order.
pub fn decode_mask(mask: &Vec<u8>) -> (selected: Vec<usize>)
    ensures
        as_ints(selected@).to_set() == selected_of(mask@),
        forall|a: int, b: int| 0 <= a < b < selected@.len() ==> selected@[a] < selected@[b],
{
    let mut selected: Vec<usize> = Vec::new();
    let mut i: usize = 0;
    while i < mask.len()
        invariant
            i <= mask@.len(),
            forall|k: int| 0 <= k < selected@.len() ==> #[trigger] selected@[k] < i,
            forall|a: int, b: int| 0 <= a < b < selected@.len() ==> selected@[a] < selected@[b],
            forall|k: int|
                0 <= k < i ==> (#[trigger] as_ints(selected@).contains(k) <==> mask@[k]
                    != NOT_SELECTED),
            forall|k: int| #[trigger] as_ints(selected@).contains(k) ==> 0 <= k < i,
        decreases mask@.len() - i,
    {
        if mask[i] != NOT_SELECTED {
            let ghost old_sel = as_ints(selected@);
            selected.push(i);
            proof {
                assert(as_ints(selected@) =~= old_sel.push(i as int));
                assert forall|k: int| #[trigger] as_ints(selected@).contains(k) implies (
                old_sel.contains(k) || k == i) by {
                    let t = choose|t: int| 0 <= t < old_sel.len() + 1 && as_ints(selected@)[t] == k;
                    if t < old_sel.len() {
                        assert(old_sel[t] == k);
                    }
                }
                assert forall|k: int| old_sel.contains(k) implies #[trigger] as_ints(
                    selected@,
                ).contains(k) by {
                    let t = choose|t: int| 0 <= t < old_sel.len() && old_sel[t] == k;
                    assert(as_ints(selected@)[t] == k);
                }
                assert(as_ints(selected@)[old_sel.len() as int] == i);
            }
        }
        i += 1;
    }
    proof {
        let s = as_ints(selected@);
        assert forall|k: int| s.to_set().contains(k) <==> selected_of(mask@).contains(k) by {
            assert(s.contains(k) <==> s.to_set().contains(k));
        }
        assert(s.to_set() =~= selected_of(mask@));
    }
    selected
}

/// The items selected among `xs`: the solver's chain, or none where two
/// zero-length intervals at one point make the precedence graph cyclic.
pub open spec fn selection_of(xs: Seq<IntervalView>) -> Seq<int> {
    if has_twin_points(xs) {
        Seq::empty()
    } else {
        heaviest_path(xs)
    }
}

/// Selects a heaviest set of pairwise non-overlapping intervals among those
/// that `inputs` describes, and writes the selection mask to `output`.
/// The selection is fixed by the input alone; one interval alone is always
/// selected, whatever its weight; a cyclic graph selects nothing.
pub fn remove_overlapping(inputs: &[u64], output: &mut [u8])
    requires
        inputs@.len() % 3 == 0,
        old(output)@.len() == inputs@.len() / 3,
    ensures
        final(output)@.len() == old(output)@.len(),
        !has_twin_points(decoded(inputs@)) ==> is_heaviest_chain(
            decoded(inputs@),
            selection_of(decoded(inputs@)),
        ),
        decoded(inputs@).len() == 1 ==> selection_of(decoded(inputs@)) == seq![0int],
        final(output)@ == mask_of(decoded(inputs@).len(), selection_of(decoded(inputs@)).to_set()),
{
    let xs = decode_intervals(inputs);
    let len = inputs.len();
    assert(xs@.map_values(|x: Interval| x@).len() == xs@.len());
    assert(xs@.len() == len / 3);
    let g = build_graph(&xs);
    let path = g.longest_path();
    let n = xs.len();
    let ghost sel = as_ints(path@);
    let ghost items = decoded(inputs@);
    proof {
        assert forall|k: int| 0 <= k < path@.len() implies #[trigger] path@[k] < n by {
            assert(0 <= sel[k] < items.len());
        }
        if items.len() == 1 {
            assert(sel =~= seq![0int]);
        }
        if has_twin_points(items) {
            assert(sel =~= Seq::<int>::empty());
        }
        assert(sel == selection_of(items));
    }
    let mask = encode_mask(n, &path);
    let mut i: usize = 0;
    while i < n
        invariant
            n == mask@.len(),
            output@.len() == n,
            i <= n,
            forall|k: int| 0 <= k < i ==> output@[k] == mask@[k],
        decreases n - i,
    {
        output.set(i, mask[i]);
        i += 1;
    }
    assert(output@ =~= mask@);
}

/// A mask of the two mask values is what encoding its own selection gives
/// back: decoding and then re-encoding loses nothing.
pub proof fn lemma_mask_round_trip(mask: Seq<u8>)
    requires
        is_mask(mask),
    ensures
        mask_of(mask.len(), selected_of(mask)) == mask,
{
    assert(mask_of(mask.len(), selected_of(mask)) =~= mask);
}

/// Encoding a selection and then decoding the mask gives back the same items.
pub proof fn lemma_selection_round_trip(n: nat, sel: Set<int>)
    requires
        forall|i: int| #[trigger] sel.contains(i) ==> 0 <= i < n,
    ensures
        selected_of(mask_of(n, sel)) == sel,
{
    assert(selected_of(mask_of(n, sel)) =~= sel);
}

} // verus!
