//! Writers: destinations for encoded bytes.

use vstd::prelude::*;
use crate::error::EncodeError;

verus! {

/// The output after the bytes `bytes` have replaced those starting at `position`.
pub open spec fn spliced(output: Seq<u8>, position: int, bytes: Seq<u8>) -> Seq<u8> {
    output.subrange(0, position) + bytes + output.subrange(position + bytes.len(), output.len() as int)
}

/// The writer `after` is `before` with `bytes` appended: its output is that much longer (by
/// those very bytes, where it keeps bytes, which then replace its spare bytes from the
/// front), and its room that much smaller.
pub open spec fn appends<W: Writer>(before: W, after: W, bytes: Seq<u8>) -> bool {
    &&& after.output().len() == before.output().len() + bytes.len()
    &&& after.room() == before.room() - bytes.len()
    &&& W::retains_bytes() ==> {
        &&& after.output() == before.output() + bytes
        &&& bytes.len() <= before.spare().len()
        &&& after.spare() == before.spare().skip(bytes.len() as int)
    }
}

/// A writer with nothing appended is unchanged.
pub proof fn lemma_appends_nothing<W: Writer>(w: W)
    ensures
        appends(w, w, Seq::empty()),
{
    assert(w.output() + Seq::<u8>::empty() == w.output());
    assert(w.spare().skip(0) == w.spare());
}

/// Appending in two steps appends the two parts in order.
pub proof fn lemma_appends_more<W: Writer>(a: W, b: W, c: W, first: Seq<u8>, second: Seq<u8>)
    requires
        appends(a, b, first),
        appends(b, c, second),
    ensures
        appends(a, c, first + second),
{
    if W::retains_bytes() {
        assert(a.output() + first + second == a.output() + (first + second));
        assert(a.spare().skip(first.len() as int).skip(second.len() as int) == a.spare().skip(
            (first + second).len() as int,
        ));
    }
}

/// The chunks, one after another.
pub open spec fn concatenated(chunks: Seq<Seq<u8>>) -> Seq<u8>
    decreases chunks.len(),
{
    if chunks.len() == 0 {
        Seq::empty()
    } else {
        concatenated(chunks.drop_last()) + chunks.last()
    }
}

/// Over any run of successful writes, the bytes written are the written chunks one after
/// another: the output grows by the sum of their lengths (by the chunks themselves, where
/// the writer keeps bytes).
pub proof fn lemma_appends_all<W: Writer>(states: Seq<W>, chunks: Seq<Seq<u8>>)
    requires
        states.len() == chunks.len() + 1,
        forall|i: int| 0 <= i < chunks.len() ==> appends(#[trigger] states[i], states[i + 1], chunks[i]),
    ensures
        appends(states[0], states.last(), concatenated(chunks)),
    decreases chunks.len(),
{
    if chunks.len() == 0 {
        lemma_appends_nothing(states[0]);
    } else {
        let k = chunks.len() - 1;
        let fewer = states.drop_last();
        assert forall|i: int| 0 <= i < chunks.drop_last().len() implies appends(
            #[trigger] fewer[i],
            fewer[i + 1],
            chunks.drop_last()[i],
        ) by {
            assert(appends(states[i], states[i + 1], chunks[i]));
        }
        lemma_appends_all(fewer, chunks.drop_last());
        assert(appends(states[k], states[k + 1], chunks[k]));
        lemma_appends_more(states[0], states[k], states.last(), concatenated(chunks.drop_last()), chunks.last());
    }
}

/// The calls of `W::write` recorded in `lent`, `handed` and `results` hand over the front
/// of `bytes`, one byte per call: the `i`-th call gets the reference `lent[i]` to the
/// writer and the one-byte slice `handed[i]` holding `bytes[i]`, and `results[i]` is a
/// result that the writer's own `write` allows for that call.
pub open spec fn writes_in_turn<W: Writer>(
    lent: Seq<&mut W>,
    handed: Seq<&[u8]>,
    results: Seq<Result<(), EncodeError>>,
    bytes: Seq<u8>,
) -> bool {
    &&& lent.len() <= bytes.len()
    &&& handed.len() == lent.len()
    &&& results.len() == lent.len()
    &&& forall|i: int|
        0 <= i < lent.len() ==> handed[i]@ == seq![bytes[i]] && call_ensures(
            W::write,
            (#[trigger] lent[i], handed[i]),
            results[i],
        )
}

/// A destination for encoded data.
///
/// The spec functions describe a writer only where `modelled` says so: the writers of this
/// library are modelled. A writer implemented elsewhere that keeps the provided
/// definitions is described by its own methods' contracts alone; what is handed to them,
/// and in which order, is recorded by the callers here through `call_ensures` (see
/// `writes_in_turn` and `calls_made`).
pub trait Writer {
    /// Whether the spec functions below describe this writer.
    open spec fn modelled() -> bool {
        false
    }

    /// The output so far: its length is the append position. Where `retains_bytes` is false,
    /// only the length is meaningful.
    open spec fn output(&self) -> Seq<u8> {
        Seq::empty()
    }

    /// Whether the writer keeps the bytes handed to it (a counting writer does not).
    open spec fn retains_bytes() -> bool {
        false
    }

    /// How many more bytes the writer accepts.
    open spec fn room(&self) -> nat {
        0
    }

    /// For a writer that keeps bytes, the destination's bytes beyond the output: appended
    /// bytes replace them from the front, and nothing else changes them.
    open spec fn spare(&self) -> Seq<u8> {
        Seq::empty()
    }

    /// Writes `bytes`; exactly `bytes.len()` bytes are appended, or an error is returned.
    /// A modelled writer accepts a write exactly when it fits in its room, and otherwise
    /// fails with `UnexpectedEnd`, unchanged.
    fn write(&mut self, bytes: &[u8]) -> (r: Result<(), EncodeError>)
        ensures
            Self::modelled() ==> (r is Ok <==> bytes@.len() <= old(self).room()),
            Self::modelled() && r is Ok ==> final(self).output().len() == old(self).output().len()
                + bytes@.len() && final(self).room() == old(self).room() - bytes@.len(),
            Self::modelled() && r is Ok && Self::retains_bytes() ==> final(self).output() == old(
                self,
            ).output() + bytes@ && bytes@.len() <= old(self).spare().len() && final(self).spare()
                == old(self).spare().skip(bytes@.len() as int),
            Self::modelled() && r is Err ==> r == Err::<(), EncodeError>(EncodeError::UnexpectedEnd)
                && final(self).output() == old(self).output() && final(self).room() == old(
                self,
            ).room() && final(self).spare() == old(self).spare(),
    ;

    /// The append position, for writers that support overwriting earlier bytes.
    /// Forward-only writers, which keep the provided body, return an error.
    fn position(&self) -> (r: Result<usize, EncodeError>)
        ensures
            Self::modelled() ==> (r matches Ok(p) ==> p == self.output().len()),
        default_ensures
            r == Err::<usize, EncodeError>(
                EncodeError::Other("Writer does not support backpatching"),
            ),
    {
        Err(EncodeError::Other("Writer does not support backpatching"))
    }

    /// Replaces bytes entirely within the already-written output, leaving the append
    /// position unchanged; invalid ranges are rejected without changing the output.
    /// Forward-only writers, which keep the provided body, return an error and stay as
    /// they were. (That contract compares whole writers, so the method asks for a sized
    /// writer, as every writer is in practice.)
    fn overwrite(&mut self, position: usize, bytes: &[u8]) -> (r: Result<(), EncodeError>)
        where Self: Sized
        ensures
            Self::modelled() && r is Ok ==> position + bytes@.len() <= (*old(self)).output().len()
                && (*final(self)).output().len() == (*old(self)).output().len(),
            Self::modelled() && r is Ok && Self::retains_bytes() ==> (*final(self)).output()
                == spliced((*old(self)).output(), position as int, bytes@),
            Self::modelled() && r is Err ==> (*final(self)).output() == (*old(self)).output(),
            Self::modelled() ==> (*final(self)).room() == (*old(self)).room() && (*final(self)).spare()
                == (*old(self)).spare(),
        default_ensures
            r == Err::<(), EncodeError>(
                EncodeError::Other("Writer does not support backpatching"),
            ),
            *final(self) == *old(self),
    {
        Err(EncodeError::Other("Writer does not support backpatching"))
    }
}

/// A writer into a borrowed byte slice.
pub struct SliceWriter<'storage> {
    slice: &'storage mut [u8],
    position: usize,
}

impl<'storage> SliceWriter<'storage> {
    #[verifier::type_invariant]
    spec fn inv(&self) -> bool {
        self.position <= self.slice@.len()
    }

    /// The destination slice, handed back to its owner when the writer is dropped.
    pub closed spec fn destination(&self) -> &'storage mut [u8] {
        self.slice
    }

    /// The whole destination slice, written and unwritten parts alike.
    pub open spec fn storage(&self) -> Seq<u8> {
        self.destination()@
    }

    /// The append position, which never exceeds the length of the destination.
    pub closed spec fn written(&self) -> nat {
        self.position as nat
    }

    /// The storage is the output followed by the unwritten part.
    pub proof fn lemma_storage_parts(&self)
        requires
            self.written() <= self.storage().len(),
        ensures
            self.storage() == self.output() + self.spare(),
    {
        assert(self.storage() =~= self.output() + self.spare());
    }

    /// Once a writer is done with (resolved), its destination holds what the writer's
    /// storage holds: this is what the owner of the slice gets back.
    pub proof fn lemma_hands_back(self)
        requires
            has_resolved(self),
        ensures
            final(self.destination())@ == self.storage(),
    {
        assert(has_resolved(self.slice));
    }

    /// Creates a writer that appends at the start of `bytes`. What the slice holds once the
    /// writer is done with is the writer's storage then (see `lemma_hands_back`); the
    /// writer's own `write` and `overwrite` keep it so, also when a generic caller such as
    /// `encode` makes the calls (see `lemma_writes_keep_destination`).
    pub fn new(bytes: &'storage mut [u8]) -> (w: SliceWriter<'storage>)
        ensures
            w.storage() == old(bytes)@,
            w.written() == 0,
            final(bytes)@ == final(w.destination())@,
    {
        SliceWriter { slice: bytes, position: 0 }
    }

    /// The number of bytes written so far.
    pub fn bytes_written(&self) -> (n: usize)
        ensures
            n == self.written(),
            self.written() <= self.storage().len() <= usize::MAX,
    {
        proof { use_type_invariant(self); }
        assert(self.slice@.len() == self.slice.len());
        self.position
    }
}

impl<'storage> Writer for SliceWriter<'storage> {
    open spec fn modelled() -> bool {
        true
    }

    open spec fn output(&self) -> Seq<u8> {
        self.storage().subrange(0, self.written() as int)
    }

    open spec fn retains_bytes() -> bool {
        true
    }

    /// The length of the unwritten part of the destination.
    open spec fn room(&self) -> nat {
        (self.storage().len() - self.written()) as nat
    }

    /// The unwritten part of the destination.
    open spec fn spare(&self) -> Seq<u8> {
        self.storage().subrange(self.written() as int, self.storage().len() as int)
    }

    fn write(&mut self, bytes: &[u8]) -> (r: Result<(), EncodeError>)
        ensures
            r is Ok <==> old(self).written() + bytes@.len() <= old(self).storage().len(),
            r is Ok ==> final(self).written() == old(self).written() + bytes@.len(),
            r is Ok ==> final(self).storage() == spliced(
                old(self).storage(),
                old(self).written() as int,
                bytes@,
            ),
            r is Err ==> r == Err::<(), EncodeError>(EncodeError::UnexpectedEnd),
            r is Err ==> *final(self) == *old(self),
            final(final(self).destination())@ == final(old(self).destination())@,
    {
        proof { use_type_invariant(&*self); }
        if bytes.len() > self.slice.len() - self.position {
            return Err(EncodeError::UnexpectedEnd);
        }
        let start = self.position;
        let ghost before = self.slice@;
        let mut i: usize = 0;
        while i < bytes.len()
            invariant
                0 <= i <= bytes@.len(),
                start == self.position,
                start + bytes@.len() <= before.len(),
                before.len() <= usize::MAX,
                self.slice@.len() == before.len(),
                self.slice@ == spliced(before, start as int, bytes@.subrange(0, i as int)),
                final(self.slice)@ == final(old(self).slice)@,
            decreases bytes@.len() - i,
        {
            self.slice[start + i] = bytes[i];
            i = i + 1;
            assert(self.slice@ == spliced(before, start as int, bytes@.subrange(0, i as int)));
        }
        assert(bytes@.subrange(0, bytes@.len() as int) == bytes@);
        self.position = start + bytes.len();
        Ok(())
    }

    fn position(&self) -> (r: Result<usize, EncodeError>)
        ensures
            r == Ok::<usize, EncodeError>(self.written() as usize),
            self.written() <= self.storage().len(),
    {
        proof { use_type_invariant(self); }
        Ok(self.position)
    }

    fn overwrite(&mut self, position: usize, bytes: &[u8]) -> (r: Result<(), EncodeError>)
        ensures
            r is Ok <==> position + bytes@.len() <= old(self).written(),
            r is Ok ==> final(self).written() == old(self).written(),
            r is Ok ==> final(self).storage() == spliced(
                old(self).storage(),
                position as int,
                bytes@,
            ),
            r is Err ==> r == Err::<(), EncodeError>(EncodeError::UnexpectedEnd),
            r is Err ==> *final(self) == *old(self),
            final(final(self).destination())@ == final(old(self).destination())@,
    {
        proof { use_type_invariant(&*self); }
        if position > self.position || bytes.len() > self.position - position {
            return Err(EncodeError::UnexpectedEnd);
        }
        let ghost before = self.slice@;
        let ghost end = self.position;
        assert(before.len() == self.slice.len());
        let mut i: usize = 0;
        while i < bytes.len()
            invariant
                0 <= i <= bytes@.len(),
                self.position == end,
                position + bytes@.len() <= self.position,
                self.position <= before.len(),
                before.len() <= usize::MAX,
                self.slice@.len() == before.len(),
                self.slice@ == spliced(before, position as int, bytes@.subrange(0, i as int)),
                final(self.slice)@ == final(old(self).slice)@,
            decreases bytes@.len() - i,
        {
            self.slice[position + i] = bytes[i];
            i = i + 1;
            assert(self.slice@ == spliced(before, position as int, bytes@.subrange(0, i as int)));
        }
        assert(bytes@.subrange(0, bytes@.len() as int) == bytes@);
        assert(self.slice@.subrange(0, self.position as int) =~= spliced(
            before.subrange(0, self.position as int),
            position as int,
            bytes@,
        ));
        Ok(())
    }
}

/// A writer that counts how many bytes were written, for instance to size a buffer
/// before writing into it.
pub struct SizeWriter {
    /// The number of bytes written so far.
    pub bytes_written: usize,
}

impl Default for SizeWriter {
    fn default() -> (w: SizeWriter)
        ensures
            w.bytes_written == 0,
    {
        SizeWriter { bytes_written: 0 }
    }
}

impl Writer for SizeWriter {
    open spec fn modelled() -> bool {
        true
    }

    /// A counting writer keeps no bytes: its output is as long as the count, and its
    /// contents carry no meaning.
    open spec fn output(&self) -> Seq<u8> {
        Seq::new(self.bytes_written as nat, |i: int| 0u8)
    }

    open spec fn retains_bytes() -> bool {
        false
    }

    /// The count may grow up to `usize::MAX`.
    open spec fn room(&self) -> nat {
        (usize::MAX - self.bytes_written) as nat
    }

    fn write(&mut self, bytes: &[u8]) -> (r: Result<(), EncodeError>)
        ensures
            r is Ok <==> old(self).bytes_written + bytes@.len() <= usize::MAX,
            r is Ok ==> final(self).bytes_written == old(self).bytes_written + bytes@.len(),
            r is Err ==> r == Err::<(), EncodeError>(EncodeError::UnexpectedEnd),
            r is Err ==> *final(self) == *old(self),
    {
        match self.bytes_written.checked_add(bytes.len()) {
            Some(n) => {
                self.bytes_written = n;
                Ok(())
            },
            None => Err(EncodeError::UnexpectedEnd),
        }
    }

    fn position(&self) -> (r: Result<usize, EncodeError>)
        ensures
            r == Ok::<usize, EncodeError>(self.bytes_written),
    {
        Ok(self.bytes_written)
    }

    fn overwrite(&mut self, position: usize, bytes: &[u8]) -> (r: Result<(), EncodeError>)
        ensures
            r is Ok <==> position + bytes@.len() <= old(self).bytes_written,
            r is Err ==> r == Err::<(), EncodeError>(EncodeError::UnexpectedEnd),
            *final(self) == *old(self),
    {
        if position > self.bytes_written || bytes.len() > self.bytes_written - position {
            return Err(EncodeError::UnexpectedEnd);
        }
        Ok(())
    }
}

impl<T: Writer> Writer for &mut T {
    open spec fn modelled() -> bool {
        T::modelled()
    }

    open spec fn spare(&self) -> Seq<u8> {
        (**self).spare()
    }

    open spec fn output(&self) -> Seq<u8> {
        (**self).output()
    }

    open spec fn retains_bytes() -> bool {
        T::retains_bytes()
    }

    open spec fn room(&self) -> nat {
        (**self).room()
    }

    /// Forwards to the referenced writer, whose own contract (whichever writer it is)
    /// describes the call; the reference itself stays the same.
    fn write(&mut self, bytes: &[u8]) -> (r: Result<(), EncodeError>)
        ensures
            exists|inner: &mut T|
                mut_ref_current(inner) == **old(self) && mut_ref_future(inner) == **final(self)
                    && call_ensures(T::write, (inner, bytes), r),
            mut_ref_future(*final(self)) == mut_ref_future(*old(self)),
    {
        let f = T::write;
        let inner: &mut T = &mut **self;
        let ghost lent = inner;
        let r = f(inner, bytes);
        assert(mut_ref_future(lent) == **self);
        r
    }

    /// Forwards to the referenced writer, whose own contract describes the call.
    fn position(&self) -> (r: Result<usize, EncodeError>)
        ensures
            call_ensures(T::position, (&*old(*self),), r),
    {
        let inner: &T = &**self;
        let f = T::position;
        f(inner)
    }

    /// Forwards to the referenced writer, whose own contract describes the call; the
    /// reference itself stays the same.
    fn overwrite(&mut self, position: usize, bytes: &[u8]) -> (r: Result<(), EncodeError>)
        ensures
            exists|inner: &mut T|
                mut_ref_current(inner) == **old(self) && mut_ref_future(inner) == **final(self)
                    && call_ensures(T::overwrite, (inner, position, bytes), r),
            mut_ref_future(*final(self)) == mut_ref_future(*old(self)),
    {
        let f = T::overwrite;
        let inner: &mut T = &mut **self;
        let ghost lent = inner;
        let r = f(inner, position, bytes);
        assert(mut_ref_future(lent) == **self);
        r
    }
}

/// Slice-writer writes pass the destination on: after a run of calls of `write` that
/// hand over the front of `bytes` in turn, each starting from the writer the one before
/// left, the destination's contents once the writer is done with are the same, whether
/// seen from the writer before the run or from the writer after it.
pub proof fn lemma_writes_keep_destination<'a>(
    before: SliceWriter<'a>,
    after: SliceWriter<'a>,
    bytes: Seq<u8>,
)
    requires
        exists|lent: Seq<&mut SliceWriter<'a>>, handed: Seq<&[u8]>, results: Seq<Result<(), EncodeError>>|
            #![trigger writes_in_turn(lent, handed, results, bytes)]
            {
                &&& writes_in_turn(lent, handed, results, bytes)
                &&& 1 <= lent.len()
                &&& mut_ref_current(lent[0]) == before
                &&& mut_ref_future(lent.last()) == after
                &&& forall|i: int|
                    0 <= i < lent.len() - 1 ==> mut_ref_future(#[trigger] lent[i])
                        == mut_ref_current(lent[i + 1])
            },
    ensures
        final(after.destination())@ == final(before.destination())@,
{
    let (lent, handed, results) = choose|
        lent: Seq<&mut SliceWriter<'a>>,
        handed: Seq<&[u8]>,
        results: Seq<Result<(), EncodeError>>,
    |
        {
            &&& writes_in_turn(lent, handed, results, bytes)
            &&& 1 <= lent.len()
            &&& mut_ref_current(lent[0]) == before
            &&& mut_ref_future(lent.last()) == after
            &&& forall|i: int|
                0 <= i < lent.len() - 1 ==> mut_ref_future(#[trigger] lent[i])
                    == mut_ref_current(lent[i + 1])
        };
    lemma_destination_kept_upto(lent, handed, results, bytes, lent.len() - 1);
}

/// The destination is passed on through the first `k + 1` calls of a run.
proof fn lemma_destination_kept_upto<'a>(
    lent: Seq<&mut SliceWriter<'a>>,
    handed: Seq<&[u8]>,
    results: Seq<Result<(), EncodeError>>,
    bytes: Seq<u8>,
    k: int,
)
    requires
        writes_in_turn(lent, handed, results, bytes),
        0 <= k < lent.len(),
        forall|i: int|
            0 <= i < lent.len() - 1 ==> mut_ref_future(#[trigger] lent[i]) == mut_ref_current(
                lent[i + 1],
            ),
    ensures
        final(mut_ref_future(lent[k]).destination())@ == final(mut_ref_current(lent[0]).destination())@,
    decreases k,
{
    assert(call_ensures(SliceWriter::<'a>::write, (lent[k], handed[k]), results[k]));
    if k > 0 {
        lemma_destination_kept_upto(lent, handed, results, bytes, k - 1);
        assert(mut_ref_future(lent[k - 1]) == mut_ref_current(lent[k]));
    }
}

/// The run of calls recorded in `lent`, `writes`, `positions`, `handed` and `results`: the
/// `i`-th call is `write(handed[i])` where `writes[i]` holds, and otherwise
/// `overwrite(positions[i], handed[i])`; it is made through the reference `lent[i]`, and
/// `results[i]` is a result that the writer's own method allows for that call.
pub open spec fn calls_made<W: Writer>(
    lent: Seq<&mut W>,
    writes: Seq<bool>,
    positions: Seq<usize>,
    handed: Seq<&[u8]>,
    results: Seq<Result<(), EncodeError>>,
) -> bool {
    &&& writes.len() == lent.len()
    &&& positions.len() == lent.len()
    &&& handed.len() == lent.len()
    &&& results.len() == lent.len()
    &&& forall|i: int|
        0 <= i < lent.len() ==> if writes[i] {
            call_ensures(W::write, (#[trigger] lent[i], handed[i]), results[i])
        } else {
            call_ensures(W::overwrite, (lent[i], positions[i], handed[i]), results[i])
        }
}

/// The number of bytes that the first `n` calls of a run append: the lengths of the
/// slices whose write succeeded. Failed writes and all overwrites add nothing.
pub open spec fn appended_len(
    writes: Seq<bool>,
    handed: Seq<&[u8]>,
    results: Seq<Result<(), EncodeError>>,
    n: nat,
) -> nat
    decreases n,
{
    if n == 0 {
        0
    } else {
        appended_len(writes, handed, results, (n - 1) as nat) + if writes[n - 1] && results[n
            - 1] is Ok {
            handed[n - 1]@.len()
        } else {
            0
        }
    }
}

/// Over any run of calls on a modelled writer, each starting from the writer the one
/// before left, the output grows by exactly the lengths of the slices whose write
/// succeeded: failed writes and all overwrites add nothing to it. (A slice writer's count
/// of bytes written, and a size writer's, is the length of its output.)
pub proof fn lemma_run_appends_accepted_writes<W: Writer>(
    lent: Seq<&mut W>,
    writes: Seq<bool>,
    positions: Seq<usize>,
    handed: Seq<&[u8]>,
    results: Seq<Result<(), EncodeError>>,
)
    requires
        W::modelled(),
        calls_made(lent, writes, positions, handed, results),
        1 <= lent.len(),
        forall|i: int|
            0 <= i < lent.len() - 1 ==> mut_ref_future(#[trigger] lent[i]) == mut_ref_current(
                lent[i + 1],
            ),
    ensures
        mut_ref_future(lent.last()).output().len() == mut_ref_current(lent[0]).output().len()
            + appended_len(writes, handed, results, lent.len()),
{
    lemma_run_appends_upto(lent, writes, positions, handed, results, lent.len() - 1);
}

proof fn lemma_run_appends_upto<W: Writer>(
    lent: Seq<&mut W>,
    writes: Seq<bool>,
    positions: Seq<usize>,
    handed: Seq<&[u8]>,
    results: Seq<Result<(), EncodeError>>,
    k: int,
)
    requires
        W::modelled(),
        calls_made(lent, writes, positions, handed, results),
        0 <= k < lent.len(),
        forall|i: int|
            0 <= i < lent.len() - 1 ==> mut_ref_future(#[trigger] lent[i]) == mut_ref_current(
                lent[i + 1],
            ),
    ensures
        mut_ref_future(lent[k]).output().len() == mut_ref_current(lent[0]).output().len()
            + appended_len(writes, handed, results, (k + 1) as nat),
    decreases k,
{
    let before = mut_ref_current(lent[k]);
    let after = mut_ref_future(lent[k]);
    if writes[k] {
        assert(call_ensures(W::write, (lent[k], handed[k]), results[k]));
        assert(results[k] is Ok ==> after.output().len() == before.output().len() + handed[k]@.len());
        assert(results[k] is Err ==> after.output().len() == before.output().len());
    } else {
        assert(call_ensures(W::overwrite, (lent[k], positions[k], handed[k]), results[k]));
        assert(after.output().len() == before.output().len());
    }
    let added: nat = if writes[k] && results[k] is Ok {
        handed[k]@.len()
    } else {
        0
    };
    assert(after.output().len() == before.output().len() + added);
    assert(appended_len(writes, handed, results, (k + 1) as nat) == appended_len(
        writes,
        handed,
        results,
        k as nat,
    ) + added);
    if k > 0 {
        lemma_run_appends_upto(lent, writes, positions, handed, results, k - 1);
        assert(mut_ref_future(lent[k - 1]) == mut_ref_current(lent[k]));
    } else {
        assert(appended_len(writes, handed, results, 0) == 0);
    }
}

/// A `SizeWriter` tracks a `SliceWriter`: given the same run of writes and overwrites,
/// all of which the slice writer accepts, a size writer that starts at the slice writer's
/// count accepts them all too and ends at the slice writer's count again. So a size
/// writer gives the exact size of the buffer a slice writer needs.
pub proof fn lemma_size_tracks_slice<'a>(
    slices: Seq<&mut SliceWriter<'a>>,
    sizes: Seq<&mut SizeWriter>,
    writes: Seq<bool>,
    positions: Seq<usize>,
    handed: Seq<&[u8]>,
    slice_results: Seq<Result<(), EncodeError>>,
    size_results: Seq<Result<(), EncodeError>>,
)
    requires
        calls_made(slices, writes, positions, handed, slice_results),
        calls_made(sizes, writes, positions, handed, size_results),
        1 <= slices.len(),
        forall|i: int|
            0 <= i < slices.len() - 1 ==> mut_ref_future(#[trigger] slices[i]) == mut_ref_current(
                slices[i + 1],
            ),
        forall|i: int|
            0 <= i < sizes.len() - 1 ==> mut_ref_future(#[trigger] sizes[i]) == mut_ref_current(
                sizes[i + 1],
            ),
        forall|i: int| 0 <= i < slices.len() ==> #[trigger] slice_results[i] is Ok,
        mut_ref_current(slices[0]).written() <= mut_ref_current(slices[0]).storage().len()
            <= usize::MAX,
        mut_ref_current(sizes[0]).bytes_written == mut_ref_current(slices[0]).written(),
    ensures
        forall|i: int| 0 <= i < sizes.len() ==> #[trigger] size_results[i] is Ok,
        mut_ref_future(sizes.last()).bytes_written == mut_ref_future(slices.last()).written(),
{
    lemma_size_tracks_slice_upto(slices, sizes, writes, positions, handed, slice_results, size_results, slices.len() - 1);
}

proof fn lemma_size_tracks_slice_upto<'a>(
    slices: Seq<&mut SliceWriter<'a>>,
    sizes: Seq<&mut SizeWriter>,
    writes: Seq<bool>,
    positions: Seq<usize>,
    handed: Seq<&[u8]>,
    slice_results: Seq<Result<(), EncodeError>>,
    size_results: Seq<Result<(), EncodeError>>,
    k: int,
)
    requires
        calls_made(slices, writes, positions, handed, slice_results),
        calls_made(sizes, writes, positions, handed, size_results),
        0 <= k < slices.len(),
        forall|i: int|
            0 <= i < slices.len() - 1 ==> mut_ref_future(#[trigger] slices[i]) == mut_ref_current(
                slices[i + 1],
            ),
        forall|i: int|
            0 <= i < sizes.len() - 1 ==> mut_ref_future(#[trigger] sizes[i]) == mut_ref_current(
                sizes[i + 1],
            ),
        forall|i: int| 0 <= i < slices.len() ==> #[trigger] slice_results[i] is Ok,
        mut_ref_current(slices[0]).written() <= mut_ref_current(slices[0]).storage().len()
            <= usize::MAX,
        mut_ref_current(sizes[0]).bytes_written == mut_ref_current(slices[0]).written(),
    ensures
        forall|i: int| 0 <= i <= k ==> #[trigger] size_results[i] is Ok,
        mut_ref_future(sizes[k]).bytes_written == mut_ref_future(slices[k]).written(),
        mut_ref_future(slices[k]).written() <= mut_ref_future(slices[k]).storage().len(),
        mut_ref_future(slices[k]).storage().len() == mut_ref_current(slices[0]).storage().len(),
    decreases k,
{
    if k > 0 {
        lemma_size_tracks_slice_upto(slices, sizes, writes, positions, handed, slice_results, size_results, k - 1);
        assert(mut_ref_future(slices[k - 1]) == mut_ref_current(slices[k]));
        assert(mut_ref_future(sizes[k - 1]) == mut_ref_current(sizes[k]));
    }
    assert(slice_results[k] is Ok);
    if writes[k] {
        assert(call_ensures(SliceWriter::<'a>::write, (slices[k], handed[k]), slice_results[k]));
        assert(call_ensures(SizeWriter::write, (sizes[k], handed[k]), size_results[k]));
    } else {
        assert(call_ensures(
            SliceWriter::<'a>::overwrite,
            (slices[k], positions[k], handed[k]),
            slice_results[k],
        ));
        assert(call_ensures(SizeWriter::overwrite, (sizes[k], positions[k], handed[k]), size_results[k]));
    }
}

} // verus!
