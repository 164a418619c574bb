//! Differences between collections: what to add and what to remove.
use vstd::prelude::*;
use vstd::std_specs::cmp::PartialEqSpec;

verus! {

/// Something that lists the elements to add and the elements to remove.
pub trait DiffProvider {
    type Element;

    /// The elements to add.
    fn additions(&self) -> &[Self::Element];

    /// The elements to remove.
    fn removals(&self) -> &[Self::Element];
}

/// A collection that can list its elements and take a difference.
pub trait CanDiff {
    type Element;
    type Provider: DiffProvider<Element = Self::Element>;

    /// The elements held.
    fn elements(&self) -> &[Self::Element];

    /// Removes the elements the difference removes, then adds those it adds.
    fn apply_diff(&mut self, diff: &Self::Provider);
}

/// A difference held as two vectors.
pub struct VecDiff<T> {
    pub added: Vec<T>,
    pub removed: Vec<T>,
}

impl<T> DiffProvider for VecDiff<T> {
    type Element = T;

    fn additions(&self) -> (r: &[T])
        ensures
            r@ == self.added@,
    {
        self.added.as_slice()
    }

    fn removals(&self) -> (r: &[T])
        ensures
            r@ == self.removed@,
    {
        self.removed.as_slice()
    }
}

/// `x` equals some element of `s`.
pub open spec fn listed<T: PartialEq>(s: Seq<T>, x: T) -> bool {
    exists|i: int| 0 <= i < s.len() && x.eq_spec(&s[i])
}

/// Whether `s` holds an element equal to `x`.
fn lists<T: Copy + PartialEq>(s: &[T], x: &T) -> (r: bool)
    ensures
        T::obeys_eq_spec() ==> r == listed(s@, *x),
{
    let mut i: usize = 0;
    while i < s.len()
        invariant
            0 <= i <= s.len(),
            T::obeys_eq_spec() ==> forall|k: int| 0 <= k < i ==> !x.eq_spec(&s@[k]),
        decreases s.len() - i,
    {
        if *x == s[i] {
            return true;
        }
        i = i + 1;
    }
    false
}

impl<T: Copy + PartialEq> CanDiff for Vec<T> {
    type Element = T;
    type Provider = VecDiff<T>;

    fn elements(&self) -> (r: &[T])
        ensures
            r@ == self@,
    {
        self.as_slice()
    }

    fn apply_diff(&mut self, diff: &VecDiff<T>)
        ensures
            T::obeys_eq_spec() ==> final(self)@ == old(self)@.filter(|x: T| !listed(diff.removed@, x)) + diff.added@,
    {
        let removals = diff.removals();
        let mut kept: Vec<T> = Vec::new();
        let mut i: usize = 0;
        while i < self.len()
            invariant
                removals@ == diff.removed@,
                0 <= i <= self.len(),
                T::obeys_eq_spec() ==> kept@ == self@.take(i as int).filter(|x: T| !listed(diff.removed@, x)),
            decreases self.len() - i,
        {
            let item = self[i];
            proof {
                assert(self@.take(i + 1) == self@.take(i as int).push(item));
                self@.take(i as int).lemma_filter_push(item, |x: T| !listed(diff.removed@, x));
            }
            if !lists(removals, &item) {
                kept.push(item);
            }
            i = i + 1;
        }
        proof {
            assert(self@.take(i as int) =~= self@);
        }
        let additions = diff.additions();
        let ghost base = kept@;
        let mut j: usize = 0;
        while j < additions.len()
            invariant
                additions@ == diff.added@,
                0 <= j <= additions.len(),
                kept@ == base + additions@.take(j as int),
            decreases additions.len() - j,
        {
            kept.push(additions[j]);
            j = j + 1;
            proof {
                assert(kept@ =~= base + additions@.take(j as int));
            }
        }
        proof {
            assert(additions@.take(j as int) =~= additions@);
        }
        *self = kept;
    }
}

} // verus!
