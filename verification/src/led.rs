use vstd::prelude::*;

verus! {

/// `n` LED states that start on and then alternate: on, off, on, off, ...
pub open spec fn alternating(n: nat) -> Seq<bool> {
    Seq::new(n, |i: int| i % 2 == 0)
}

/// The states start with the LED on, and each state is the opposite of the one before.
pub proof fn lemma_alternating(n: nat)
    ensures
        alternating(n).len() == n,
        n > 0 ==> alternating(n)[0],
        forall|i: int| 0 <= i < n - 1 ==> #[trigger] alternating(n)[i + 1] != alternating(n)[i],
{
}

/// The blinking of the LED `count` times: on, wait, off, wait, once per blink.
pub struct Blink {
    remaining: usize,
    on_next: bool,
}

impl Blink {
    #[verifier::type_invariant]
    spec fn mid_blink_has_one_left(self) -> bool {
        !self.on_next ==> self.remaining > 0
    }

    /// The LED states still to be set, in order; after each one the caller waits.
    pub closed spec fn pending(self) -> Seq<bool> {
        if self.on_next {
            alternating(2 * self.remaining as nat)
        } else {
            seq![false] + alternating((2 * self.remaining - 2) as nat)
        }
    }

    /// A blinking of `count` blinks.
    pub fn new(count: usize) -> (r: Blink)
        ensures
            r.pending() == alternating(2 * count as nat),
    {
        Blink { remaining: count, on_next: true }
    }

    /// The next LED state to set, or `None` when the blinking is over.
    pub fn next(&mut self) -> (r: Option<bool>)
        ensures
            old(self).pending().len() == 0 ==> r is None && final(self).pending() == old(self).pending(),
            old(self).pending().len() > 0 ==> r == Some(old(self).pending()[0])
                && final(self).pending() == old(self).pending().drop_first(),
    {
        proof {
            use_type_invariant(&*self);
        }
        if self.remaining == 0 {
            return None;
        }
        if self.on_next {
            self.on_next = false;
            assert(self.pending() =~= old(self).pending().drop_first());
            Some(true)
        } else {
            self.on_next = true;
            self.remaining = self.remaining - 1;
            assert(self.pending() =~= old(self).pending().drop_first());
            Some(false)
        }
    }
}

} // verus!
