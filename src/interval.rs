use vstd::prelude::*;

verus! {

/// The bit pattern of `-0.0`.
pub const NEG_ZERO_BITS: u64 = 0x8000_0000_0000_0000;

/// The sign bit of an IEEE-754 double.
pub const SIGN_BIT: u64 = 0x8000_0000_0000_0000;

/// Whether the IEEE-754 double with bit pattern `b` is a NaN.
pub open spec fn is_nan_bits(b: u64) -> bool {
    (b >> 52u64) & 0x7FFu64 == 0x7FFu64 && b & 0xF_FFFF_FFFF_FFFFu64 != 0
}

/// An unsigned key whose order is the numeric order of the (non-NaN) doubles:
/// negative values map below `SIGN_BIT`, non-negative ones at or above it,
/// and the two zeros share one key.
pub open spec fn order_key(b: u64) -> u64 {
    if b == NEG_ZERO_BITS {
        SIGN_BIT
    } else if b >= SIGN_BIT {
        (u64::MAX - b) as u64
    } else {
        (b + SIGN_BIT) as u64
    }
}

/// The three possible outcomes of comparing two items.
#[derive(PartialEq, Eq, Structural, Debug, Clone, Copy)]
pub enum Relation {
    Before,
    After,
    Incomparable,
}

/// A closed range of the real line with a weight. Bounds are held as order
/// keys; an interval whose bounds did not form a proper range is degenerate.
#[derive(Debug, Clone, Copy)]
pub struct Interval {
    lower: u64,
    upper: u64,
    weight: u32,
    proper: bool,
}

/// The mathematical content of an interval.
pub struct IntervalView {
    pub lower: int,
    pub upper: int,
    pub weight: nat,
    pub proper: bool,
}

impl View for Interval {
    type V = IntervalView;

    closed spec fn view(&self) -> IntervalView {
        IntervalView {
            lower: self.lower as int,
            upper: self.upper as int,
            weight: self.weight as nat,
            proper: self.proper,
        }
    }
}

impl IntervalView {
    /// A proper interval has `lower <= upper`; a degenerate one has weight zero.
    pub open spec fn wf(self) -> bool {
        if self.proper {
            0 <= self.lower <= self.upper <= u64::MAX
        } else {
            self.weight == 0 && self.lower == 0 && self.upper == 0
        }
    }

    /// `self` ends no later than `other` starts; touching ends count as ordered.
    pub open spec fn before(self, other: IntervalView) -> bool {
        self.proper && other.proper && self.upper <= other.lower
    }

    pub open spec fn relation(self, other: IntervalView) -> Relation {
        if self.before(other) {
            Relation::Before
        } else if other.before(self) {
            Relation::After
        } else {
            Relation::Incomparable
        }
    }
}

/// Two intervals are equal when both are proper and agree on bounds and
/// weight; a degenerate interval, whose bounds are NaN, equals none.
pub open spec fn same_interval(a: IntervalView, b: IntervalView) -> bool {
    a.proper && b.proper && a.lower == b.lower && a.upper == b.upper && a.weight == b.weight
}

impl PartialEq for Interval {
    fn eq(&self, other: &Interval) -> (r: bool)
        ensures
            r == same_interval(self@, other@),
    {
        self.proper && other.proper && self.lower == other.lower && self.upper == other.upper
            && self.weight == other.weight
    }
}

impl vstd::std_specs::cmp::PartialEqSpecImpl for Interval {
    open spec fn obeys_eq_spec() -> bool {
        false
    }

    open spec fn eq_spec(&self, other: &Interval) -> bool {
        same_interval(self@, other@)
    }
}

/// The interval that `Interval::new` builds from a weight and two bit patterns.
pub open spec fn interval_of(weight: u32, lower: u64, upper: u64) -> IntervalView {
    let kl = order_key(lower) as int;
    let ku = order_key(upper) as int;
    if is_nan_bits(lower) || is_nan_bits(upper) {
        IntervalView { lower: 0, upper: 0, weight: 0, proper: false }
    } else if kl <= ku {
        IntervalView { lower: kl, upper: ku, weight: weight as nat, proper: true }
    } else {
        IntervalView { lower: ku, upper: kl, weight: weight as nat, proper: true }
    }
}

/// A weight given as a wider integer, saturated to the range of `u32`.
pub open spec fn saturate_u32(w: u64) -> u32 {
    if w > u32::MAX as u64 {
        u32::MAX
    } else {
        w as u32
    }
}

/// A NaN bound makes the interval degenerate, whatever the other bound and
/// the weight.
pub proof fn lemma_nan_bound_degenerate(weight: u32, lower: u64, upper: u64)
    requires
        is_nan_bits(lower) || is_nan_bits(upper),
    ensures
        !interval_of(weight, lower, upper).proper,
        interval_of(weight, lower, upper).weight == 0,
{
}

fn is_nan(b: u64) -> (r: bool)
    ensures
        r == is_nan_bits(b),
{
    (b >> 52u64) & 0x7FFu64 == 0x7FFu64 && b & 0xF_FFFF_FFFF_FFFFu64 != 0
}

fn key_of(b: u64) -> (r: u64)
    ensures
        r == order_key(b),
{
    if b == NEG_ZERO_BITS {
        SIGN_BIT
    } else if b >= SIGN_BIT {
        u64::MAX - b
    } else {
        b + SIGN_BIT
    }
}

impl Interval {
    #[verifier::type_invariant]
    spec fn inv(&self) -> bool {
        self@.wf()
    }

    /// Every interval is well formed.
    pub(crate) fn check_wf(&self)
        ensures
            self@.wf(),
    {
        proof {
            use_type_invariant(self);
        }
    }

    /// Builds an interval from a weight and the IEEE-754 bit patterns of its
    /// two bounds. Bounds in the wrong order are swapped; equal bounds give a
    /// zero-length interval; a NaN bound gives the degenerate interval of
    /// weight zero.
    pub fn new(weight: u32, lower: u64, upper: u64) -> (r: Interval)
        ensures
            r@ == interval_of(weight, lower, upper),
            r@.wf(),
    {
        let kl = key_of(lower);
        let ku = key_of(upper);
        if is_nan(lower) || is_nan(upper) {
            Interval { lower: 0, upper: 0, weight: 0, proper: false }
        } else if kl <= ku {
            Interval { lower: kl, upper: ku, weight, proper: true }
        } else {
            Interval { lower: ku, upper: kl, weight, proper: true }
        }
    }

    /// Decodes a triple `[lower, upper, weight]`: the two bounds as IEEE-754
    /// bit patterns, the weight as an integer, saturated to `u32::MAX`.
    /// Any other length gives `None`.
    pub fn from_f64_slice(slice: &[u64]) -> (r: Option<Interval>)
        ensures
            slice@.len() != 3 ==> r.is_none(),
            slice@.len() == 3 ==> r.is_some() && r.unwrap()@ == interval_of(
                saturate_u32(slice@[2]),
                slice@[0],
                slice@[1],
            ),
    {
        if slice.len() != 3 {
            None
        } else {
            let w: u32 = if slice[2] > u32::MAX as u64 { u32::MAX } else { slice[2] as u32 };
            Some(Interval::new(w, slice[0], slice[1]))
        }
    }

    pub fn weight(&self) -> (r: u32)
        ensures
            r as nat == self@.weight,
    {
        self.weight
    }

    pub fn is_proper(&self) -> (r: bool)
        ensures
            r == self@.proper,
    {
        self.proper
    }

    /// Compares two intervals: `Before` when `self` ends no later than `other`
    /// starts, `After` in the mirror case, `Incomparable` otherwise.
    pub fn compare(&self, other: &Interval) -> (r: Relation)
        ensures
            r == self@.relation(other@),
    {
        if self.proper && other.proper && self.upper <= other.lower {
            Relation::Before
        } else if self.proper && other.proper && other.upper <= self.lower {
            Relation::After
        } else {
            Relation::Incomparable
        }
    }
}

} // verus!
