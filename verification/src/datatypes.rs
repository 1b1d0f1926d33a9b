//! The shared data model: a single displayed number with its cosmetic
//! metadata, and the ordered sequence of such numbers that the algorithms
//! mutate in place.
use vstd::prelude::*;

use crate::rng::shuffle_slice;

verus! {

/// Highlight state of one element. Purely cosmetic: algorithms mark the
/// positions they are currently looking at, and equality and ordering of
/// numbers never depend on it.
#[derive(Clone, Copy, Debug, PartialEq, Eq, Structural)]
pub enum Highlight {
    Off,
    Primary,
    Secondary,
}

/// An RGB display color. Cosmetic, never used in comparisons.
#[derive(Clone, Copy, Debug, PartialEq, Eq, Structural)]
pub struct Color {
    pub red: u8,
    pub green: u8,
    pub blue: u8,
}

/// The color assigned to an element whose position gave it the multiplier
/// `color_multiplier`: a red channel that fades with the multiplier,
/// clamped at zero, over fixed green and blue channels.
pub open spec fn color_value(color_multiplier: u8) -> Color {
    Color {
        red: if 5 * (color_multiplier as int) > 255 {
            0
        } else {
            (255 - 5 * (color_multiplier as int)) as u8
        },
        green: 100,
        blue: 100,
    }
}

/// A single value together with its display metadata.
#[derive(Clone, Copy, Debug)]
pub struct Number {
    pub value: u8,
    pub color: Color,
    pub highlight: Highlight,
}

impl Number {
    /// Builds a number with the color derived from `color_multiplier`
    /// (normally the element's position) and no highlight.
    pub fn new(value: u8, color_multiplier: u8) -> (r: Self)
        ensures
            r.value == value,
            r.color == color_value(color_multiplier),
            r.highlight == Highlight::Off,
    {
        Self { value, color: Number::calculate_color(color_multiplier), highlight: Highlight::Off }
    }

    /// Recomputes the color only, leaving value and highlight untouched.
    pub fn color(&mut self, color_multiplier: u8)
        ensures
            final(self).value == old(self).value,
            final(self).highlight == old(self).highlight,
            final(self).color == color_value(color_multiplier),
    {
        self.color = Number::calculate_color(color_multiplier);
    }

    fn calculate_color(color_multiplier: u8) -> (c: Color)
        ensures
            c == color_value(color_multiplier),
    {
        let mut red_value: i16 = 255 - 5 * (color_multiplier as i16);
        if red_value < 0 {
            red_value = 0;
        }
        Color { red: red_value as u8, green: 100, blue: 100 }
    }
}

impl PartialEq for Number {
    /// Numbers compare by value only; color and highlight are cosmetic.
    fn eq(&self, other: &Self) -> (r: bool) {
        self.value == other.value
    }
}

impl vstd::std_specs::cmp::PartialEqSpecImpl for Number {
    open spec fn obeys_eq_spec() -> bool {
        true
    }

    open spec fn eq_spec(&self, other: &Self) -> bool {
        self.value == other.value
    }
}

impl PartialOrd for Number {
    /// Numbers order by value only, like they compare.
    fn partial_cmp(&self, other: &Self) -> (r: Option<core::cmp::Ordering>) {
        if self.value < other.value {
            Some(core::cmp::Ordering::Less)
        } else if self.value == other.value {
            Some(core::cmp::Ordering::Equal)
        } else {
            Some(core::cmp::Ordering::Greater)
        }
    }
}

impl vstd::std_specs::cmp::PartialOrdSpecImpl for Number {
    open spec fn obeys_partial_cmp_spec() -> bool {
        true
    }

    open spec fn partial_cmp_spec(&self, other: &Self) -> Option<core::cmp::Ordering> {
        if self.value < other.value {
            Some(core::cmp::Ordering::Less)
        } else if self.value == other.value {
            Some(core::cmp::Ordering::Equal)
        } else {
            Some(core::cmp::Ordering::Greater)
        }
    }
}

/// The values carried by a sequence of numbers, stripped of the cosmetic
/// metadata: the model every sorting contract is stated over.
pub open spec fn vals(s: Seq<Number>) -> Seq<u8> {
    Seq::new(s.len(), |i: int| s[i].value)
}

/// Sortedness by value, the property the algorithms establish.
pub open spec fn sorted(s: Seq<u8>) -> bool {
    forall|a: int, b: int| 0 <= a < b < s.len() ==> #[trigger] s[a] <= #[trigger] s[b]
}

/// A number with its highlight turned off and everything else kept.
pub open spec fn without_highlight(n: Number) -> Number {
    Number { highlight: Highlight::Off, ..n }
}

/// The sequence with every highlight turned off and everything else kept.
pub open spec fn cleared(s: Seq<Number>) -> Seq<Number> {
    Seq::new(s.len(), |i: int| without_highlight(s[i]))
}

/// All highlights are off.
pub open spec fn highlights_off(s: Seq<Number>) -> bool {
    forall|k: int| 0 <= k < s.len() ==> #[trigger] s[k].highlight == Highlight::Off
}

/// Clearing highlights is idempotent: doing it twice leaves the same
/// sequence as doing it once.
pub proof fn lemma_cleared_idempotent(s: Seq<Number>)
    ensures
        cleared(cleared(s)) == cleared(s),
{
    assert(cleared(cleared(s)) =~= cleared(s));
}

/// The error returned when a highlight is requested at an index the
/// sequence does not have.
#[derive(Clone, Copy, Debug, PartialEq, Eq, Structural)]
pub struct IndexOutOfBoundsError {
    pub requested: usize,
    pub maximum: usize,
}

/// The ordered, index-addressable collection of numbers: the unit of
/// mutual exclusion that one algorithm task at a time mutates while the
/// renderer reads snapshots of it.
pub struct NumberVec {
    pub values: Vec<Number>,
}

impl View for NumberVec {
    type V = Seq<Number>;

    open spec fn view(&self) -> Seq<Number> {
        self.values@
    }
}

impl NumberVec {
    /// Builds numbers at parallel positions, each colored by its own index.
    pub fn new(values: Vec<u8>) -> (r: Self)
        ensures
            r@.len() == values@.len(),
            forall|k: int|
                0 <= k < values@.len() ==> #[trigger] r@[k] == (Number {
                    value: values@[k],
                    color: color_value((k % 256) as u8),
                    highlight: Highlight::Off,
                }),
    {
        let mut nums: Vec<Number> = Vec::new();
        let mut i: usize = 0;
        while i < values.len()
            invariant
                i <= values@.len(),
                nums@.len() == i,
                forall|k: int|
                    0 <= k < i ==> #[trigger] nums@[k] == (Number {
                        value: values@[k],
                        color: color_value((k % 256) as u8),
                        highlight: Highlight::Off,
                    }),
            decreases values@.len() - i,
        {
            nums.push(Number::new(values[i], (i % 256) as u8));
            i += 1;
        }
        Self { values: nums }
    }

    pub fn len(&self) -> (n: usize)
        ensures
            n == self@.len(),
    {
        self.values.len()
    }

    /// True iff every adjacent pair is in order, by value only.
    pub fn is_sorted(&self) -> (r: bool)
        ensures
            r == sorted(vals(self@)),
    {
        let n = self.values.len();
        if n == 0 {
            return true;
        }
        let mut i: usize = 0;
        while i + 1 < n
            invariant
                n == self@.len(),
                i < n,
                forall|a: int, b: int|
                    0 <= a < b <= i ==> #[trigger] vals(self@)[a] <= #[trigger] vals(self@)[b],
            decreases n - i,
        {
            proof {
                assert(vals(self@)[i as int] == self@[i as int].value);
                assert(vals(self@)[i as int + 1] == self@[i as int + 1].value);
            }
            if self.values[i].value > self.values[i + 1].value {
                assert(!sorted(vals(self@)));
                return false;
            }
            i += 1;
        }
        true
    }

    /// Sets every element's highlight to off, touching nothing else.
    pub fn remove_all_highlights(&mut self)
        ensures
            final(self)@ == cleared(old(self)@),
    {
        let n = self.values.len();
        let mut i: usize = 0;
        while i < n
            invariant
                n == self@.len(),
                self@.len() == old(self)@.len(),
                i <= n,
                forall|k: int| 0 <= k < i ==> #[trigger] self@[k] == without_highlight(old(self)@[k]),
                forall|k: int| i <= k < n ==> #[trigger] self@[k] == old(self)@[k],
            decreases n - i,
        {
            self.values[i].highlight = Highlight::Off;
            i += 1;
        }
        assert(self@ =~= cleared(old(self)@));
    }

    /// Sets the highlight of the element at `idx`, or reports the index as
    /// out of range when the sequence has no such element.
    pub fn add_highlight(&mut self, idx: usize, highlight: Highlight) -> (r: Result<
        (),
        IndexOutOfBoundsError,
    >)
        ensures
            idx < old(self)@.len() ==> {
                &&& r is Ok
                &&& final(self)@ == old(self)@.update(
                    idx as int,
                    Number { highlight, ..old(self)@[idx as int] },
                )
            },
            idx >= old(self)@.len() ==> {
                &&& r == Result::<(), IndexOutOfBoundsError>::Err(
                    IndexOutOfBoundsError {
                        requested: idx,
                        maximum: if old(self)@.len() == 0 {
                            0
                        } else {
                            (old(self)@.len() - 1) as usize
                        },
                    },
                )
                &&& final(self)@ == old(self)@
            },
    {
        let n = self.values.len();
        if idx >= n {
            return Err(
                IndexOutOfBoundsError { requested: idx, maximum: if n == 0 { 0 } else { n - 1 } },
            );
        }
        self.values[idx].highlight = highlight;
        Ok(())
    }

    /// Exchanges two elements' records in place: value, color and
    /// highlight all move together.
    pub fn swap(&mut self, i: usize, j: usize)
        requires
            i < old(self)@.len(),
            j < old(self)@.len(),
        ensures
            final(self)@ == old(self)@.update(i as int, old(self)@[j as int]).update(
                j as int,
                old(self)@[i as int],
            ),
    {
        let a = self.values[i];
        let b = self.values[j];
        self.values[i] = b;
        self.values[j] = a;
    }

    /// Randomly permutes all elements, then recolors every element by its
    /// new position, and clears all highlights. Which permutation comes
    /// out depends on the generator; the multiset of values does not.
    pub fn shuffle(&mut self, rng: &mut rand::rngs::ThreadRng)
        ensures
            final(self)@.len() == old(self)@.len(),
            vals(final(self)@).to_multiset() == vals(old(self)@).to_multiset(),
            highlights_off(final(self)@),
            forall|k: int|
                0 <= k < final(self)@.len() ==> #[trigger] final(self)@[k].color == color_value(
                    (k % 256) as u8,
                ),
    {
        shuffle_slice(&mut self.values, rng);
        let ghost permuted = self@;
        let n = self.values.len();
        let mut i: usize = 0;
        while i < n
            invariant
                n == self@.len(),
                self@.len() == permuted.len(),
                i <= n,
                forall|k: int|
                    0 <= k < i ==> #[trigger] self@[k] == (Number {
                        color: color_value((k % 256) as u8),
                        ..permuted[k]
                    }),
                forall|k: int| i <= k < n ==> #[trigger] self@[k] == permuted[k],
            decreases n - i,
        {
            let mut element = self.values[i];
            element.color((i % 256) as u8);
            self.values[i] = element;
            i += 1;
        }
        proof {
            assert(vals(self@) =~= vals(permuted));
        }
        let ghost recolored = self@;
        self.remove_all_highlights();
        proof {
            assert(vals(self@) =~= vals(recolored));
        }
    }
}

} // verus!
