//! Which fonts a text stack has already been given, and whether one of them
//! has been made its default family.
//!
//! Shared by both text stacks because the rule is the same in both, and the
//! failure mode of getting it subtly different is invisible: text that does
//! not draw.

use std::sync::Arc;

use vstd::prelude::*;

verus! {

/// `Arc::ptr_eq`: whether two handles point to the same allocation. Handles to
/// one allocation necessarily carry the same contents; which allocations are
/// shared is not modelled, so nothing is promised when the result is `false`.
#[verifier::external_body]
fn same_allocation<T: ?Sized>(a: &Arc<T>, b: &Arc<T>) -> (r: bool)
    ensures
        r ==> *a == *b,
{
    Arc::ptr_eq(a, b)
}

/// Whether any handle matched: `results` holds, per recorded handle in order,
/// whether it is the same allocation as the one looked up.
pub fn any_match(results: &[bool]) -> (r: bool)
    ensures
        r == results@.contains(true),
{
    let mut i: usize = 0;
    while i < results.len()
        invariant
            i <= results@.len(),
            forall|j: int| 0 <= j < i ==> !(#[trigger] results@[j]),
        decreases results@.len() - i,
    {
        if results[i] {
            proof {
                assert(results@[i as int] == true);
            }
            return true;
        }
        i = i + 1;
    }
    false
}

/// The fonts recorded so far, and whether the default-family slot is taken.
///
/// Identity here is *pointer* identity: the handles are kept alive
/// deliberately, since a dropped allocation could be reused at the same
/// address and make a new font compare equal to an old one.
pub struct FontRegistry<T: ?Sized> {
    fonts: Vec<Arc<T>>,
    default_set: bool,
}

impl<T: ?Sized> Default for FontRegistry<T> {
    fn default() -> (r: Self)
        ensures
            r.fonts() == Seq::<Arc<T>>::empty(),
            !r.default_claimed(),
    {
        FontRegistry { fonts: Vec::new(), default_set: false }
    }
}

impl<T: ?Sized> FontRegistry<T> {
    /// The recorded font handles, in the order they were recorded.
    pub closed spec fn fonts(&self) -> Seq<Arc<T>> {
        self.fonts@
    }

    /// Whether some font has already been made the default family.
    pub closed spec fn default_claimed(&self) -> bool {
        self.default_set
    }

    /// Whether `data` is one of the recorded handles. Only a handle to the
    /// same allocation counts: identical bytes behind a different `Arc` are a
    /// different font.
    pub fn contains(&self, data: &Arc<T>) -> (r: bool)
        ensures
            r ==> self.fonts().contains(*data),
            self.fonts().len() == 0 ==> !r,
    {
        let mut matches: Vec<bool> = Vec::new();
        let mut i: usize = 0;
        while i < self.fonts.len()
            invariant
                i <= self.fonts@.len(),
                matches@.len() == i,
                forall|j: int| 0 <= j < i ==> #[trigger] matches@[j] ==> self.fonts@[j] == *data,
            decreases self.fonts@.len() - i,
        {
            matches.push(same_allocation(&self.fonts[i], data));
            i = i + 1;
        }
        let r = any_match(matches.as_slice());
        proof {
            if r {
                let j = choose|j: int| 0 <= j < matches@.len() && matches@[j] == true;
                assert(self.fonts@[j] == *data);
            }
        }
        r
    }

    /// Record a **successful** registration.
    ///
    /// A font that produced no families or faces is deliberately not
    /// recorded, so a later font can still become the default and re-offering
    /// the same one retries rather than being swallowed as a duplicate.
    pub fn record(&mut self, data: &Arc<T>)
        ensures
            final(self).fonts() == old(self).fonts().push(*data),
            final(self).default_claimed() == old(self).default_claimed(),
    {
        self.fonts.push(data.clone());
    }

    /// Claim the "this one is the default family" slot, once.
    ///
    /// Keyed on whether a default has been set — not on whether this is the
    /// first font offered — so a first font that failed to load does not
    /// consume the slot and leave the stack with no default forever.
    pub fn claim_default_slot(&mut self) -> (r: bool)
        ensures
            r == !old(self).default_claimed(),
            final(self).default_claimed(),
            final(self).fonts() == old(self).fonts(),
    {
        let unclaimed = !self.default_set;
        self.default_set = true;
        unclaimed
    }
}

/// Whether any of the first `k` calls of a run was a claim.
pub open spec fn claimed_before(claims: Seq<bool>, k: int) -> bool {
    exists|j: int| 0 <= j < k && claims[j]
}

proof fn lemma_claimed_flag<T: ?Sized>(states: Seq<FontRegistry<T>>, claims: Seq<bool>, k: int)
    requires
        states.len() == claims.len() + 1,
        !states[0].default_claimed(),
        forall|i: int| 0 <= i < claims.len() && #[trigger] claims[i] ==> states[i + 1].default_claimed(),
        forall|i: int|
            0 <= i < claims.len() && !#[trigger] claims[i] ==> states[i + 1].default_claimed()
                == states[i].default_claimed(),
        0 <= k <= claims.len(),
    ensures
        states[k].default_claimed() == claimed_before(claims, k),
    decreases k,
{
    if k > 0 {
        lemma_claimed_flag(states, claims, k - 1);
        if claims[k - 1] {
            assert(claimed_before(claims, k));
        } else if claimed_before(claims, k) {
            let j = choose|j: int| 0 <= j < k && claims[j];
            assert(j < k - 1);
            assert(claimed_before(claims, k - 1));
        }
    }
}

/// Across any run of calls on a fresh registry, only the first claim of the
/// default slot succeeds, whatever fonts are recorded or looked up between:
/// `states` are the registry before and after each call, `claims[i]` tells
/// whether call `i` was `claim_default_slot` (with answer `answers[i]`), and
/// every other call leaves the slot as it was, as `record` and `contains` do.
pub proof fn lemma_only_the_first_claim_succeeds<T: ?Sized>(
    states: Seq<FontRegistry<T>>,
    claims: Seq<bool>,
    answers: Seq<bool>,
    k: int,
)
    requires
        states.len() == claims.len() + 1,
        answers.len() == claims.len(),
        !states[0].default_claimed(),
        forall|i: int|
            0 <= i < claims.len() && #[trigger] claims[i] ==> answers[i] == !states[i].default_claimed()
                && states[i + 1].default_claimed(),
        forall|i: int|
            0 <= i < claims.len() && !#[trigger] claims[i] ==> states[i + 1].default_claimed()
                == states[i].default_claimed(),
        0 <= k < claims.len(),
        claims[k],
    ensures
        answers[k] == !claimed_before(claims, k),
{
    lemma_claimed_flag(states, claims, k);
}

} // verus!
