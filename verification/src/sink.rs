use vstd::prelude::*;

verus! {

/// A consumer of the items that the tree hands out.
pub trait Sink<T>: Sized {
    /// Everything this sink has consumed so far, oldest first.
    spec fn consumed(&self) -> Seq<T>;

    /// What else one consumption changes in the sink, from `self` to `next`, beside what it
    /// has consumed.
    spec fn steps_to(&self, next: Self) -> bool;

    /// What the sink has passed on matches what it has consumed; consuming keeps it so.
    spec fn faithful(&self) -> bool;

    fn consume(&mut self, item: T)
        ensures
            final(self).consumed() == old(self).consumed().push(item),
            old(self).steps_to(*final(self)),
            old(self).faithful() ==> final(self).faithful();
}

impl<T> Sink<T> for Vec<T> {
    open spec fn consumed(&self) -> Seq<T> {
        self@
    }

    open spec fn steps_to(&self, next: Self) -> bool {
        true
    }

    open spec fn faithful(&self) -> bool {
        true
    }

    fn consume(&mut self, x: T) {
        self.push(x);
    }
}

/// Appends `item` to `output`.
pub fn consume_unchecked<T>(output: &mut Vec<T>, item: T)
    ensures
        final(output)@ == old(output)@.push(item),
{
    output.push(item);
}

/// A sink that owns its output vector.
pub struct UncheckedVecSink<T> {
    pub output: Vec<T>,
}

impl<T> UncheckedVecSink<T> {
    pub fn new(output: Vec<T>) -> (s: Self)
        ensures
            s.output == output,
    {
        UncheckedVecSink { output: output }
    }
}

impl<T> Sink<T> for UncheckedVecSink<T> {
    open spec fn consumed(&self) -> Seq<T> {
        self.output@
    }

    open spec fn steps_to(&self, next: Self) -> bool {
        true
    }

    open spec fn faithful(&self) -> bool {
        true
    }

    fn consume(&mut self, item: T) {
        consume_unchecked(&mut self.output, item);
    }
}

/// A sink that appends to a borrowed vector.
pub struct UncheckedVecRefSink<'a, T> {
    pub output: &'a mut Vec<T>,
}

impl<'a, T> UncheckedVecRefSink<'a, T> {
    pub fn new(output: &'a mut Vec<T>) -> (s: Self)
        ensures
            s.output@ == old(output)@,
    {
        UncheckedVecRefSink { output: output }
    }
}

impl<'a, T> Sink<T> for UncheckedVecRefSink<'a, T> {
    open spec fn consumed(&self) -> Seq<T> {
        self.output@
    }

    open spec fn steps_to(&self, next: Self) -> bool {
        true
    }

    open spec fn faithful(&self) -> bool {
        true
    }

    fn consume(&mut self, item: T) {
        consume_unchecked(self.output, item);
    }
}

/// Turns references into copies for an inner sink.
pub struct RefCopyingSink<S> {
    pub sink: S,
}

impl<S> RefCopyingSink<S> {
    pub fn new(sink: S) -> (s: Self)
        ensures
            s.sink == sink,
    {
        RefCopyingSink { sink: sink }
    }
}

impl<'a, T: Copy, S: Sink<T>> Sink<&'a T> for RefCopyingSink<S> {
    open spec fn consumed(&self) -> Seq<&'a T> {
        self.sink.consumed().map_values(|x: T| &x)
    }

    open spec fn steps_to(&self, next: Self) -> bool {
        true
    }

    open spec fn faithful(&self) -> bool {
        self.sink.faithful()
    }

    fn consume(&mut self, x: &'a T) {
        self.sink.consume(*x);
        assert(self.sink.consumed().map_values(|y: T| &y)
            =~= old(self).sink.consumed().map_values(|y: T| &y).push(x));
    }
}

/// Turns references into clones for an inner sink.  It remembers the references it was
/// handed.
pub struct RefCloningSink<'a, T, S> {
    pub sink: S,
    pub seen: Ghost<Seq<&'a T>>,
}

impl<'a, T, S> RefCloningSink<'a, T, S> {
    pub fn new(sink: S) -> (s: Self)
        ensures
            s.sink == sink,
            s.seen@ == Seq::<&'a T>::empty(),
    {
        RefCloningSink { sink: sink, seen: Ghost(Seq::empty()) }
    }
}

/// The last items of `inner`, one for each reference of `seen` and in its order, are clones
/// of what those references point to.
pub open spec fn clones_of<'a, T: Clone>(seen: Seq<&'a T>, inner: Seq<T>) -> bool {
    &&& inner.len() >= seen.len()
    &&& forall|i: int| 0 <= i < seen.len() ==> cloned(*#[trigger] seen[i], inner[inner.len() - seen.len() + i])
}

impl<'a, T: Clone, S: Sink<T>> Sink<&'a T> for RefCloningSink<'a, T, S> {
    open spec fn consumed(&self) -> Seq<&'a T> {
        self.seen@
    }

    /// The inner sink consumes exactly one more item, a clone of what the new reference
    /// points to.
    open spec fn steps_to(&self, next: Self) -> bool {
        &&& next.sink.consumed().len() == self.sink.consumed().len() + 1
        &&& next.sink.consumed().drop_last() == self.sink.consumed()
        &&& next.seen@.len() == self.seen@.len() + 1
        &&& cloned(*next.seen@.last(), next.sink.consumed().last())
    }

    /// The inner sink is faithful, and its last items are clones of the references consumed.
    open spec fn faithful(&self) -> bool {
        &&& self.sink.faithful()
        &&& clones_of(self.seen@, self.sink.consumed())
    }

    fn consume(&mut self, x: &'a T) {
        let c = x.clone();
        assert(cloned(*x, c));
        self.sink.consume(c);
        self.seen = Ghost(self.seen@.push(x));
        proof {
            let s0 = old(self).seen@;
            let i0 = old(self).sink.consumed();
            let i1 = self.sink.consumed();
            assert(i1 == i0.push(c));
            assert(i1.drop_last() =~= i0);
            assert(self.seen@.last() == x);
            assert(i1.last() == c);
            if clones_of(s0, i0) {
                assert forall|i: int| 0 <= i < self.seen@.len() implies cloned(
                    *#[trigger] self.seen@[i],
                    i1[i1.len() - self.seen@.len() + i],
                ) by {
                    if i < s0.len() {
                        assert(self.seen@[i] == s0[i]);
                        assert(i1[i1.len() - self.seen@.len() + i] == i0[i0.len() - s0.len() + i]);
                    }
                }
            }
        }
    }
}

/// Feeds the keys of `(key, ())` pairs into an inner sink.
pub struct SinkAdapter<S> {
    pub sink: S,
}

impl<S> SinkAdapter<S> {
    pub fn new(sink: S) -> (s: Self)
        ensures
            s.sink == sink,
    {
        SinkAdapter { sink: sink }
    }
}

/// The pairs `(t, ())` for the items `t`.
pub open spec fn unit_pairs<T>(s: Seq<T>) -> Seq<(T, ())> {
    s.map_values(|t: T| (t, ()))
}

impl<T, S: Sink<T>> Sink<(T, ())> for SinkAdapter<S> {
    open spec fn consumed(&self) -> Seq<(T, ())> {
        unit_pairs(self.sink.consumed())
    }

    open spec fn steps_to(&self, next: Self) -> bool {
        true
    }

    open spec fn faithful(&self) -> bool {
        self.sink.faithful()
    }

    fn consume(&mut self, entry: (T, ())) {
        let ghost e = entry;
        self.sink.consume(entry.0);
        assert(e.1 == ());
        assert(e == (e.0, ()));
        assert(unit_pairs(self.sink.consumed()) =~= unit_pairs(old(self).sink.consumed()).push(entry));
    }
}

/// The first components of a sequence of pairs.
pub open spec fn firsts<T, U>(s: Seq<(T, U)>) -> Seq<T> {
    s.map_values(|p: (T, U)| p.0)
}

/// What a unit-pair sink consumed after an append is what its inner sink consumed, followed
/// by the first components.
pub proof fn lemma_unit_pairs_append<T>(a: Seq<T>, b: Seq<T>, c: Seq<(T, ())>)
    requires
        unit_pairs(a) == unit_pairs(b) + c,
    ensures
        a == b + firsts(c),
{
    assert(a.len() == unit_pairs(a).len());
    assert forall|k: int| 0 <= k < a.len() implies a[k] == (b + firsts(c))[k] by {
        assert(unit_pairs(a)[k] == (a[k], ()));
        if k < b.len() {
            assert(unit_pairs(b)[k] == (b[k], ()));
        } else {
            assert(c[k - b.len()] == unit_pairs(a)[k]);
        }
    }
    assert(a =~= b + firsts(c));
}

/// Feeds the keys of references to `(key, ())` pairs into an inner sink of references.
pub struct RefSinkAdapter<S> {
    pub sink: S,
}

impl<S> RefSinkAdapter<S> {
    pub fn new(sink: S) -> (s: Self)
        ensures
            s.sink == sink,
    {
        RefSinkAdapter { sink: sink }
    }
}

impl<'a, T, S: Sink<&'a T>> Sink<&'a (T, ())> for RefSinkAdapter<S> {
    open spec fn consumed(&self) -> Seq<&'a (T, ())> {
        self.sink.consumed().map_values(|r: &'a T| &(*r, ()))
    }

    open spec fn steps_to(&self, next: Self) -> bool {
        true
    }

    open spec fn faithful(&self) -> bool {
        self.sink.faithful()
    }

    fn consume(&mut self, entry: &'a (T, ())) {
        let ghost e = *entry;
        self.sink.consume(&entry.0);
        assert(e.1 == ());
        assert(e == (e.0, ()));
        assert(self.sink.consumed().map_values(|r: &'a T| &(*r, ())) =~= old(self).sink.consumed().map_values(
            |r: &'a T| &(*r, ()),
        ).push(entry));
    }
}

/// Counts the items it forwards to an inner sink.
pub struct CountingSink<S> {
    pub sink: S,
    pub count: usize,
}

impl<S> CountingSink<S> {
    pub fn new(sink: S) -> (s: Self)
        ensures
            s.sink == sink,
            s.count == 0,
    {
        CountingSink { sink: sink, count: 0 }
    }

    pub fn count(&self) -> (c: usize)
        ensures
            c == self.count,
    {
        self.count
    }
}

impl<T, S: Sink<T>> Sink<T> for CountingSink<S> {
    open spec fn consumed(&self) -> Seq<T> {
        self.sink.consumed()
    }

    /// The count goes up by one, wrapping at the machine limit.
    open spec fn steps_to(&self, next: Self) -> bool {
        next.count == if self.count == usize::MAX {
            0
        } else {
            self.count + 1
        }
    }

    open spec fn faithful(&self) -> bool {
        self.sink.faithful()
    }

    fn consume(&mut self, entry: T) {
        self.count = self.count.wrapping_add(1);
        self.sink.consume(entry)
    }
}

} // verus!
