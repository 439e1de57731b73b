use vstd::prelude::*;
use vstd::slice::slice_subrange;
use vstd::string::StringSliceAdditionalSpecFns;

verus! {

broadcast use vstd::array::group_array_axioms;

/// The error of a write that does not fit in the remaining room of a `StackText`.
#[derive(Debug, Clone, Copy, PartialEq, Eq, Structural)]
pub struct WriteError;

/// A text of at most `N` bytes held in a fixed array, as an embedded target keeps it
/// on the stack.
pub struct StackText<const N: usize> {
    bytes: [u8; N],
    len: usize,
}

impl<const N: usize> View for StackText<N> {
    type V = Seq<u8>;

    /// The bytes written so far.
    closed spec fn view(&self) -> Seq<u8> {
        Seq::new(self.len as nat, |i: int| self.bytes@[i])
    }
}

/// How many of `pieces`, taken in order, fit one after the other in `room` bytes.
pub open spec fn pieces_that_fit(room: int, pieces: Seq<Seq<u8>>) -> nat
    decreases pieces.len(),
{
    if pieces.len() == 0 || pieces[0].len() > room {
        0
    } else {
        1 + pieces_that_fit(room - pieces[0].len(), pieces.drop_first())
    }
}

/// Writing `pieces` one after the other into `before`, each whole or not at all, and
/// stopping at the first piece that does not fit, gives `after`; `ok` says that every
/// piece went in. The written pieces are appended to the text and taken off the front
/// of the unused bytes; the rest of the buffer is left as it was.
pub open spec fn wrote<const N: usize>(
    before: StackText<N>,
    after: StackText<N>,
    pieces: Seq<Seq<u8>>,
    ok: bool,
) -> bool {
    let k = pieces_that_fit(N - before@.len(), pieces);
    let added = pieces.take(k as int).flatten();
    &&& before@.len() <= N
    &&& ok <==> k == pieces.len()
    &&& after@ == before@ + added
    &&& after.spare() == before.spare().skip(added.len() as int)
}

/// Pieces that fit take no more than the room, and the piece after them would not fit
/// too; when not all fit, the whole text is longer than the room.
pub proof fn lemma_fit_bound(room: int, pieces: Seq<Seq<u8>>)
    requires
        room >= 0,
    ensures
        pieces_that_fit(room, pieces) <= pieces.len(),
        pieces.take(pieces_that_fit(room, pieces) as int).flatten().len() <= room,
        pieces_that_fit(room, pieces) < pieces.len() ==> pieces.take(pieces_that_fit(room, pieces) + 1int).flatten().len() > room,
        pieces_that_fit(room, pieces) < pieces.len() ==> pieces.flatten().len() > room,
    decreases pieces.len(),
{
    let k = pieces_that_fit(room, pieces);
    if pieces.len() == 0 {
        assert(pieces.take(0) =~= Seq::<Seq<u8>>::empty());
    } else if pieces[0].len() > room {
        assert(pieces.take(0) =~= Seq::<Seq<u8>>::empty());
        assert(pieces.take(1).drop_first() =~= Seq::<Seq<u8>>::empty());
        assert(pieces.take(1)[0] == pieces[0]);
    } else {
        let rest = pieces.drop_first();
        lemma_fit_bound(room - pieces[0].len(), rest);
        let k1 = pieces_that_fit(room - pieces[0].len(), rest);
        assert(pieces.take(k as int).drop_first() =~= rest.take(k1 as int));
        assert(pieces.take(k as int)[0] == pieces[0]);
        if k < pieces.len() {
            assert(pieces.take(k + 1int).drop_first() =~= rest.take(k1 + 1int));
            assert(pieces.take(k + 1int)[0] == pieces[0]);
        }
    }
}

/// How many pieces of a concatenation fit: those of the first part, and when all of
/// them do, those of the second part in the room that is left.
pub proof fn lemma_fit_concat(room: int, p: Seq<Seq<u8>>, q: Seq<Seq<u8>>)
    ensures
        pieces_that_fit(room, p + q) == if pieces_that_fit(room, p) == p.len() {
            p.len() + pieces_that_fit(room - p.flatten().len(), q)
        } else {
            pieces_that_fit(room, p)
        },
    decreases p.len(),
{
    if p.len() == 0 {
        assert(p + q =~= q);
    } else {
        assert((p + q)[0] == p[0]);
        if p[0].len() <= room {
            assert((p + q).drop_first() =~= p.drop_first() + q);
            lemma_fit_concat(room - p[0].len(), p.drop_first(), q);
        }
    }
}

/// The first `k` pieces of a concatenation, flattened.
pub proof fn lemma_take_concat_flatten(p: Seq<Seq<u8>>, q: Seq<Seq<u8>>, k: int)
    requires
        0 <= k <= p.len() + q.len(),
    ensures
        (p + q).take(k).flatten() == if k <= p.len() {
            p.take(k).flatten()
        } else {
            p.flatten() + q.take(k - p.len()).flatten()
        },
{
    if k <= p.len() {
        assert((p + q).take(k) =~= p.take(k));
    } else {
        assert((p + q).take(k) =~= p + q.take(k - p.len()));
        vstd::seq_lib::lemma_flatten_concat(p, q.take(k - p.len()));
    }
}

/// Writing two lists of pieces in a row is writing their concatenation; after a
/// failure nothing more is written.
pub proof fn lemma_wrote_then<const N: usize>(
    a: StackText<N>,
    b: StackText<N>,
    c: StackText<N>,
    p: Seq<Seq<u8>>,
    q: Seq<Seq<u8>>,
    ok1: bool,
    ok2: bool,
)
    requires
        wrote(a, b, p, ok1),
        ok1 ==> wrote(b, c, q, ok2),
        !ok1 ==> c == b,
    ensures
        wrote(a, c, p + q, ok1 && ok2),
{
    let room = N - a@.len();
    let kp = pieces_that_fit(room, p);
    lemma_fit_concat(room, p, q);
    lemma_fit_bound(room, p);
    lemma_fit_bound(room, p + q);
    let k = pieces_that_fit(room, p + q);
    lemma_take_concat_flatten(p, q, k as int);
    let added = (p + q).take(k as int).flatten();
    if ok1 {
        assert(p.take(kp as int) =~= p);
        let kq = pieces_that_fit(N - b@.len(), q);
        assert(k == p.len() + kq);
        assert(c@ =~= a@ + added);
        let ap = p.flatten().len();
        let aq = q.take(kq as int).flatten().len();
        assert(a.bytes@.len() == N);
        assert(a.spare().skip(ap as int).skip(aq as int) =~= a.spare().skip(added.len() as int));
    } else {
        assert(k == kp);
    }
}

/// One more step of a chain of writes of the list `full`, where the first `k` pieces
/// went in and this step writes the next `step.len()` of them: when it goes through the
/// chain moves on (and after the last piece the whole list was written); when it fails
/// the chain as a whole stops there.
pub proof fn lemma_wrote_step<const N: usize>(
    o: StackText<N>,
    prev: StackText<N>,
    cur: StackText<N>,
    full: Seq<Seq<u8>>,
    k: int,
    step: Seq<Seq<u8>>,
    ok: bool,
)
    requires
        0 <= k,
        k + step.len() <= full.len(),
        full.subrange(k, k + step.len()) =~= step,
        k == 0 ==> prev == o,
        k > 0 ==> wrote(o, prev, full.take(k), true),
        wrote(prev, cur, step, ok),
    ensures
        ok ==> wrote(o, cur, full.take(k + step.len()), true),
        ok && k + step.len() == full.len() ==> wrote(o, cur, full, true),
        !ok ==> wrote(o, cur, full, false),
{
    let m = k + step.len();
    if k == 0 {
        assert(full.take(m) =~= step);
    } else {
        lemma_wrote_then(o, prev, cur, full.take(k), step, true, ok);
        assert(full.take(k) + step =~= full.take(m));
    }
    if ok && m == full.len() {
        assert(full.take(m) =~= full);
    }
    if !ok {
        lemma_wrote_then(o, cur, cur, full.take(m), full.skip(m), false, false);
        assert(full.take(m) + full.skip(m) =~= full);
    }
}

/// A single piece goes in exactly when it fits.
pub proof fn lemma_one_piece(room: int, t: Seq<u8>)
    ensures
        pieces_that_fit(room, seq![t]) == if t.len() <= room {
            1nat
        } else {
            0nat
        },
        seq![t].take(1).flatten() == t,
        seq![t].take(0).flatten() == Seq::<u8>::empty(),
{
    assert(seq![t].drop_first() =~= Seq::<Seq<u8>>::empty());
    assert(seq![t][0] == t);
    assert(pieces_that_fit(room - t.len(), Seq::<Seq<u8>>::empty()) == 0);
    assert(seq![t].take(1) =~= seq![t]);
    assert(seq![t].take(0) =~= Seq::<Seq<u8>>::empty());
    assert(seq![t].flatten() =~= t + Seq::<Seq<u8>>::empty().flatten());
}

/// A write of pieces leaves a text within the capacity, and it goes through exactly when
/// all the pieces together fit in the room that was left.
pub proof fn lemma_wrote_fits<const N: usize>(
    before: StackText<N>,
    after: StackText<N>,
    pieces: Seq<Seq<u8>>,
    ok: bool,
)
    requires
        wrote(before, after, pieces, ok),
    ensures
        after@.len() <= N,
        ok <==> before@.len() + pieces.flatten().len() <= N,
{
    let room = N - before@.len();
    lemma_fit_bound(room, pieces);
    if ok {
        assert(pieces.take(pieces.len() as int) =~= pieces);
    }
}

/// Two texts with the same written bytes and the same unused bytes are the same value.
pub proof fn lemma_same_text<const N: usize>(a: StackText<N>, b: StackText<N>)
    requires
        a@ == b@,
        a.spare() == b.spare(),
        a@.len() <= N,
    ensures
        a == b,
{
    assert(a.len == a@.len());
    assert(b.len == b@.len());
    assert(a.bytes@.len() == N);
    assert(b.bytes@.len() == N);
    assert(a.bytes@ =~= b.bytes@) by {
        assert forall|i: int| 0 <= i < N implies a.bytes@[i] == b.bytes@[i] by {
            if i < a.len {
                assert(a@[i] == a.bytes@[i]);
                assert(b@[i] == b.bytes@[i]);
                assert(a@[i] == b@[i]);
            } else {
                assert(a.len == b.len);
                assert(0 <= i - a.len < a.spare().len());
                assert(a.spare()[i - a.len] == a.bytes@[i]);
                assert(b.spare()[i - b.len] == b.bytes@[i]);
                assert(a.spare()[i - a.len] == b.spare()[i - b.len]);
            }
        }
    }
    assert(a.bytes =~= b.bytes);
}

/// Two writes in a row that both go through leave the same value, unused bytes
/// included, as one write of the joined text into an equal text.
pub proof fn lemma_two_writes_as_one<const N: usize>(
    x0: StackText<N>,
    x1: StackText<N>,
    x2: StackText<N>,
    y1: StackText<N>,
    a: Seq<u8>,
    b: Seq<u8>,
)
    requires
        wrote(x0, x1, seq![a], true),
        wrote(x1, x2, seq![b], true),
        wrote(x0, y1, seq![a + b], true),
    ensures
        x2 == y1,
{
    lemma_wrote_then(x0, x1, x2, seq![a], seq![b], true, true);
    lemma_wrote_fits(x0, x2, seq![a] + seq![b], true);
    lemma_one_piece(N - x0@.len(), a + b);
    assert(seq![a] + seq![b] =~= seq![a, b]);
    assert(seq![a, b].take(2) =~= seq![a, b]);
    assert(seq![a, b].drop_first() =~= seq![b]);
    lemma_one_piece(0, b);
    assert(seq![b].take(1) =~= seq![b]);
    assert(seq![a, b].flatten() =~= a + b);
    lemma_same_text(x2, y1);
}

impl<const N: usize> StackText<N> {
    #[verifier::type_invariant]
    spec fn within_capacity(self) -> bool {
        self.len <= N
    }

    /// The unused bytes of the buffer, after the text.
    pub closed spec fn spare(&self) -> Seq<u8> {
        self.bytes@.skip(self.len as int)
    }

    /// An empty text over a buffer of zeros.
    pub fn new() -> (r: Self)
        ensures
            r@ == Seq::<u8>::empty(),
            r.spare() == Seq::new(N as nat, |i: int| 0u8),
    {
        let r = StackText { bytes: [0u8; N], len: 0 };
        assert(r@ =~= Seq::<u8>::empty());
        assert(r.spare() =~= Seq::new(N as nat, |i: int| 0u8));
        r
    }

    /// The number of bytes written so far; never more than `N`.
    pub fn len(&self) -> (r: usize)
        ensures
            r == self@.len(),
            r <= N,
            self.spare().len() == N - r,
    {
        proof {
            use_type_invariant(self);
            assert(self.bytes@.len() == N);
        }
        self.len
    }

    /// The bytes written so far.
    pub fn as_bytes(&self) -> (r: &[u8])
        ensures
            r@ == self@,
    {
        proof {
            use_type_invariant(self);
            assert(self.bytes@.len() == N);
        }
        let r = slice_subrange(self.bytes.as_slice(), 0, self.len);
        assert(r@ =~= self@);
        r
    }

    /// Appends `s` when it fits in the room left; otherwise leaves the text, and the
    /// whole buffer, unchanged and fails.
    pub fn write_bytes(&mut self, s: &[u8]) -> (r: Result<(), WriteError>)
        ensures
            wrote(*old(self), *final(self), seq![s@], r is Ok),
            r is Ok <==> old(self)@.len() + s@.len() <= N,
            final(self)@.len() <= N,
            r is Err ==> *final(self) == *old(self),
            s@.len() == 0 ==> *final(self) == *old(self),
    {
        proof {
            use_type_invariant(&*self);
            assert(self.bytes@.len() == N);
            lemma_one_piece(N - old(self)@.len(), s@);
        }
        let remaining = N - self.len;
        if s.len() > remaining {
            assert(old(self).spare().skip(0) =~= old(self).spare());
            assert(old(self)@ + Seq::<u8>::empty() =~= old(self)@);
            return Err(WriteError);
        }
        let start = self.len;
        let mut i: usize = 0;
        while i < s.len()
            invariant
                start + s@.len() <= N,
                i <= s@.len(),
                self.len == start,
                start == old(self).len,
                self.bytes@.len() == N,
                forall|j: int| 0 <= j < i ==> self.bytes@[start + j] == s@[j],
                forall|j: int|
                    0 <= j < N && !(start <= j < start + i) ==> self.bytes@[j] == old(self).bytes@[j],
            decreases s@.len() - i,
        {
            self.bytes[start + i] = s[i];
            i = i + 1;
        }
        self.len = start + s.len();
        assert(self@ =~= old(self)@ + s@);
        assert(self.spare() =~= old(self).spare().skip(s@.len() as int));
        proof {
            if s@.len() == 0 {
                assert(old(self)@ + s@ =~= old(self)@);
                assert(old(self).spare().skip(0) =~= old(self).spare());
                lemma_same_text(*self, *old(self));
            }
        }
        Ok(())
    }

    /// Appends the UTF-8 bytes of `s` when they fit; otherwise leaves the text, and the
    /// whole buffer, unchanged and fails.
    pub fn write_str(&mut self, s: &str) -> (r: Result<(), WriteError>)
        ensures
            wrote(*old(self), *final(self), seq![s.spec_bytes()], r is Ok),
            r is Ok <==> old(self)@.len() + s.spec_bytes().len() <= N,
            final(self)@.len() <= N,
            r is Err ==> *final(self) == *old(self),
            s.spec_bytes().len() == 0 ==> *final(self) == *old(self),
    {
        self.write_bytes(s.as_bytes())
    }

    /// Appends the byte `b` when there is room for it; otherwise leaves the text, and the
    /// whole buffer, unchanged and fails.
    pub fn write_byte(&mut self, b: u8) -> (r: Result<(), WriteError>)
        ensures
            wrote(*old(self), *final(self), seq![seq![b]], r is Ok),
            r is Ok <==> old(self)@.len() < N,
            final(self)@.len() <= N,
            r is Err ==> *final(self) == *old(self),
    {
        proof {
            lemma_one_piece(N - old(self)@.len(), seq![b]);
        }
        if self.len() >= N {
            assert(old(self).spare().skip(0) =~= old(self).spare());
            assert(old(self)@ + Seq::<u8>::empty() =~= old(self)@);
            return Err(WriteError);
        }
        self.push_byte(b);
        assert(self@ =~= old(self)@ + seq![b]);
        Ok(())
    }

    /// Appends one byte; the caller has checked that there is room for it.
    pub(crate) fn push_byte(&mut self, b: u8)
        requires
            old(self)@.len() < N,
        ensures
            final(self)@ == old(self)@.push(b),
            final(self).spare() == old(self).spare().skip(1),
    {
        proof {
            use_type_invariant(&*self);
            assert(self.bytes@.len() == N);
        }
        let at = self.len;
        self.bytes[at] = b;
        self.len = at + 1;
        assert(self@ =~= old(self)@.push(b));
        assert(self.spare() =~= old(self).spare().skip(1));
    }
}

} // verus!
