//! Small-block size classes.

use vstd::arithmetic::power2::is_pow2;
use vstd::prelude::*;

use crate::layout::LayoutSpec;

verus! {

/// Number of size classes.
pub const COUNT: usize = 42;

/// Largest size that a class serves.
pub const MAX_SMALL: usize = 32768;

/// Block size of class `index`: steps of eight up to 32, then 48 and 64, then four
/// even steps for each doubling.
pub open spec fn class_size(index: int) -> int {
    if index < 4 {
        8 * (index + 1)
    } else if index == 4 {
        48
    } else if index == 5 {
        64
    } else {
        step_of((index - 6) / 4) * (5 + (index - 6) % 4)
    }
}

/// Distance between classes in doubling `group`.
pub open spec fn step_of(group: int) -> int
    decreases group,
{
    if group <= 0 {
        16
    } else {
        2 * step_of(group - 1)
    }
}

/// One size class: its position and its block size.
#[derive(Clone, Copy, Debug, PartialEq, Eq, Structural)]
pub struct SizeClass {
    pub index: usize,
    pub size: usize,
}

/// Each group doubles the step of the group before it.
proof fn lemma_steps()
    ensures
        step_of(0) == 16,
        step_of(1) == 32,
        step_of(2) == 64,
        step_of(3) == 128,
        step_of(4) == 256,
        step_of(5) == 512,
        step_of(6) == 1024,
        step_of(7) == 2048,
        step_of(8) == 4096,
{
    reveal_with_fuel(step_of, 10);
}

/// Every class is a multiple of eight between 8 and [`MAX_SMALL`], and the last one
/// is [`MAX_SMALL`].
pub proof fn lemma_class_bounds(index: int)
    requires
        0 <= index < COUNT,
    ensures
        8 <= class_size(index) <= MAX_SMALL,
        class_size(index) % 8 == 0,
        class_size(COUNT - 1) == MAX_SMALL,
{
    lemma_steps();
    if index >= 6 {
        let group = (index - 6) / 4;
        assert(group == 0 || group == 1 || group == 2 || group == 3 || group == 4 || group == 5
            || group == 6 || group == 7 || group == 8);
    }
}

/// A later class is larger.
pub proof fn law_classes_increase(left: int, right: int)
    requires
        0 <= left < right < COUNT,
    ensures
        class_size(left) < class_size(right),
    decreases right,
{
    lemma_steps();
    let before = right - 1;
    if before >= 6 {
        let group = (before - 6) / 4;
        assert(group == 0 || group == 1 || group == 2 || group == 3 || group == 4 || group == 5
            || group == 6 || group == 7 || group == 8);
        let step = step_of(group);
        let place = (before - 6) % 4;
        if place < 3 {
            assert((right - 6) / 4 == group && (right - 6) % 4 == place + 1);
            assert(step * (5 + place) < step * (6 + place)) by (nonlinear_arith)
                requires
                    step > 0,
            ;
            assert(class_size(before) == step * (5 + place));
            assert(class_size(right) == step * (6 + place));
        } else {
            assert((right - 6) / 4 == group + 1 && (right - 6) % 4 == 0);
            assert(step_of(group + 1) == 2 * step);
            assert(class_size(before) == step * 8);
            assert(class_size(right) == (2 * step) * 5);
        }
    }
    assert(class_size(before) < class_size(right));
    if left < before {
        law_classes_increase(left, before);
    }
}

/// The classes start at eight bytes, step by eight up to 32 and by sixteen up to 128, and
/// from 64 on the fourth class after another is twice as large.
pub proof fn law_classes_step_and_double(index: int)
    requires
        0 <= index < COUNT,
    ensures
        class_size(0) == 8,
        index < 3 ==> class_size(index + 1) - class_size(index) == 8,
        3 <= index < 9 ==> class_size(index + 1) - class_size(index) == 16,
        5 <= index < COUNT - 4 ==> class_size(index + 4) == 2 * class_size(index),
{
    lemma_steps();
    if index == 5 {
        assert(class_size(9) == 128);
    } else if 6 <= index < COUNT - 4 {
        let group = (index - 6) / 4;
        let place = (index - 6) % 4;
        assert((index + 4 - 6) / 4 == group + 1 && (index + 4 - 6) % 4 == place);
        assert(step_of(group + 1) == 2 * step_of(group));
        let step = step_of(group);
        assert((2 * step) * (5 + place) == 2 * (step * (5 + place))) by (nonlinear_arith);
    }
}

/// From 64 on a class is at most a quarter larger than the class before it.
pub proof fn law_classes_waste_at_most_a_quarter(index: int)
    requires
        6 <= index < COUNT,
    ensures
        4 * class_size(index) <= 5 * class_size(index - 1),
    decreases index,
{
    if index < 10 {
        lemma_steps();
    } else {
        law_classes_waste_at_most_a_quarter(index - 4);
        law_classes_step_and_double(index - 4);
        law_classes_step_and_double(index - 5);
    }
}

impl SizeClass {
    /// One of the classes, with its own size.
    pub open spec fn wf(self) -> bool {
        self.index < COUNT && self.size == class_size(self.index as int)
    }

    pub fn index(self) -> (index: usize)
        ensures
            index == self.index,
    {
        self.index
    }

    pub fn size(self) -> (size: usize)
        ensures
            size == self.size,
    {
        self.size
    }

    /// The block that starts `offset` bytes into a run of this class, if one does.
    pub fn index_of(self, offset: usize) -> (index: Option<usize>)
        requires
            self.wf(),
        ensures
            offset % self.size == 0 ==> index == Some((offset / self.size) as usize),
            offset % self.size != 0 ==> index is None,
    {
        proof {
            lemma_class_bounds(self.index as int);
        }
        if offset % self.size == 0 {
            Some(offset / self.size)
        } else {
            None
        }
    }
}

/// A class serves a layout when its blocks are large enough and each starts on a
/// multiple of the alignment.
pub open spec fn serves(index: int, spec: LayoutSpec) -> bool {
    class_size(index) >= spec.size && class_size(index) % (spec.align as int) == 0
}

/// A size class serves `spec`.
pub open spec fn small(spec: LayoutSpec) -> bool {
    exists|i: int| 0 <= i < COUNT && #[trigger] serves(i, spec)
}

/// Directory of the size classes.
pub struct SizeClasses {}

impl SizeClasses {
    /// The class at `index`.
    pub fn at(index: usize) -> (class: SizeClass)
        requires
            index < COUNT,
        ensures
            class.wf(),
            class.index == index,
    {
        proof {
            lemma_steps();
        }
        let size: usize = if index < 4 {
            8 * (index + 1)
        } else if index == 4 {
            48
        } else if index == 5 {
            64
        } else {
            let group: usize = (index - 6) / 4;
            let mut step: usize = 16;
            let mut i: usize = 0;
            while i < group
                invariant
                    i <= group,
                    group <= 8,
                    step == step_of(i as int),
                    step <= 4096,
                    step_of(0) == 16,
                    step_of(1) == 32,
                    step_of(2) == 64,
                    step_of(3) == 128,
                    step_of(4) == 256,
                    step_of(5) == 512,
                    step_of(6) == 1024,
                    step_of(7) == 2048,
                    step_of(8) == 4096,
                decreases group - i,
            {
                assert(step_of(i + 1) == 2 * step_of(i as int));
                assert(i == 0 || i == 1 || i == 2 || i == 3 || i == 4 || i == 5 || i == 6 || i
                    == 7);
                step = step * 2;
                i = i + 1;
            }
            let factor: usize = 5 + (index - 6) % 4;
            assert(step * factor <= 4096 * 8) by (nonlinear_arith)
                requires
                    step <= 4096,
                    factor <= 8,
            ;
            step * factor
        };
        SizeClass { index, size }
    }

    /// The smallest class that serves `spec`. `None` for a layout that needs a
    /// mapping of its own.
    pub fn class_for(spec: LayoutSpec) -> (class: Option<SizeClass>)
        requires
            spec.wf(),
        ensures
            class matches Some(class) ==> class.wf() && serves(class.index as int, spec)
                && forall|i: int| 0 <= i < class.index ==> !#[trigger] serves(i, spec),
            class is None ==> forall|i: int| 0 <= i < COUNT ==> !#[trigger] serves(i, spec),
    {
        proof {
            reveal(is_pow2);
        }
        let mut index: usize = 0;
        while index < COUNT
            invariant
                index <= COUNT,
                spec.align > 0,
                forall|i: int| 0 <= i < index ==> !#[trigger] serves(i, spec),
            decreases COUNT - index,
        {
            let class = Self::at(index);
            if class.size >= spec.size && class.size % spec.align == 0 {
                assert(serves(index as int, spec));
                return Some(class);
            }
            assert(!serves(index as int, spec));
            index = index + 1;
        }
        None
    }
}

/// A layout larger than the largest class, or aligned more strictly than it, is
/// served by no class.
pub proof fn law_large_layout_has_no_class(spec: LayoutSpec, index: int)
    requires
        spec.wf(),
        spec.size > MAX_SMALL || spec.align > MAX_SMALL,
        0 <= index < COUNT,
    ensures
        !serves(index, spec),
{
    lemma_class_bounds(index);
    let size = class_size(index);
    if spec.align > MAX_SMALL {
        vstd::arithmetic::div_mod::lemma_small_mod(size as nat, spec.align as nat);
    }
}

/// A power of two divides every power of two that is no smaller.
proof fn lemma_powers_divide(less: int, more: int)
    requires
        is_pow2(less),
        is_pow2(more),
        less <= more,
    ensures
        less > 0,
        more % less == 0,
    decreases more,
{
    reveal(is_pow2);
    if less > 1 {
        let half = less / 2;
        let rest = more / 2;
        lemma_powers_divide(half, rest);
        let count = rest / half;
        vstd::arithmetic::div_mod::lemma_fundamental_div_mod(rest, half);
        assert(more == count * less) by (nonlinear_arith)
            requires
                more == 2 * rest,
                less == 2 * half,
                rest == half * count,
        ;
        vstd::arithmetic::div_mod::lemma_mod_multiples_basic(count, less);
    }
}

/// A layout is served by a class exactly where neither its size nor its alignment exceeds
/// the largest class.
pub proof fn law_small_is_up_to_the_largest_class(spec: LayoutSpec)
    requires
        spec.wf(),
    ensures
        small(spec) == (spec.size <= 32768 && spec.align <= 32768),
{
    if spec.size <= 32768 && spec.align <= 32768 {
        reveal_with_fuel(is_pow2, 17);
        lemma_powers_divide(spec.align as int, 32768);
        lemma_class_bounds(COUNT - 1);
        assert(serves(COUNT - 1, spec));
    } else if small(spec) {
        let index = choose|i: int| 0 <= i < COUNT && #[trigger] serves(i, spec);
        law_large_layout_has_no_class(spec, index);
    }
}

/// A layout that asks for no more alignment than every block has gets the smallest class
/// that its size fits: the next smaller one is too small.
pub proof fn law_chosen_class_is_tight(spec: LayoutSpec, index: int)
    requires
        spec.wf(),
        spec.align <= 8,
        0 < index < COUNT,
        serves(index, spec),
        forall|i: int| 0 <= i < index ==> !#[trigger] serves(i, spec),
    ensures
        class_size(index - 1) < spec.size <= class_size(index),
{
    reveal_with_fuel(is_pow2, 5);
    lemma_class_bounds(index - 1);
    lemma_powers_divide(spec.align as int, 8);
    let size = class_size(index - 1);
    let align = spec.align as int;
    vstd::arithmetic::div_mod::lemma_fundamental_div_mod(size, 8);
    vstd::arithmetic::div_mod::lemma_fundamental_div_mod(8, align);
    assert(size == (size / 8 * (8int / align)) * align) by (nonlinear_arith)
        requires
            size == 8 * (size / 8),
            8 == align * (8int / align),
    ;
    vstd::arithmetic::div_mod::lemma_mod_multiples_basic(size / 8 * (8int / align), align);
    assert(!serves(index - 1, spec));
}

} // verus!
