//! Bytes: little-endian words, counted sequences, and a reader that answers every malformed input
//! with an error.

use vstd::bytes::{u32_from_le_bytes, u32_to_le_bytes, u64_from_le_bytes, u64_to_le_bytes};
#[allow(unused_imports)]
use vstd::bytes::{
    lemma_auto_spec_u32_to_from_le_bytes, lemma_auto_spec_u64_to_from_le_bytes,
    spec_u32_from_le_bytes, spec_u32_to_le_bytes, spec_u64_from_le_bytes, spec_u64_to_le_bytes,
};
use vstd::prelude::*;

use crate::num::Scalar;
#[allow(unused_imports)]
use crate::num::faithful_bits;
use crate::util::append;

verus! {

/// Why bytes are not what they should be.
#[derive(Clone, Copy, Debug, PartialEq, Eq, Structural)]
pub enum DecodeFault {
    /// The bytes end too early.
    Truncated,
    /// There are bytes after the end.
    Trailing,
    /// The layout's version is unknown.
    Version,
    /// The shape is not that of the reader, in games or in agents.
    Shape,
    /// A byte that is not a truth value.
    NotBool,
    /// Another number of value heads than required.
    Heads,
    /// A row that does not have one number for each action.
    RowWidth,
    /// A number that is not finite.
    NotFinite,
    /// Visits that do not have one count for each action.
    VisitWidth,
    /// Visits where none are kept.
    Visits,
    /// A visit count that is not finite, or below zero.
    VisitCount,
    /// An action that the game does not have.
    ActionRange,
    /// A depth that is out of range.
    Depth,
    /// As many log-probabilities as legal actions are required.
    LegalWidth,
    /// A policy state that is out of range.
    PolicyState,
    /// A state that does not decode.
    State,
    /// A state that is not valid.
    InvalidState,
    /// A tick count at or past the truncation horizon.
    Horizon,
    /// A tick count that no run reaches.
    Ticks,
    /// A trajectory that no run buffers.
    Trajectory,
    /// More buffered decisions than ticks.
    Decisions,
    /// An observation of another width than the encoder's.
    ObsWidth,
    /// A buffered step that ended its episode.
    Terminal,
    /// A start distribution that does not decode.
    Start,
}

/// What is read off the front of some bytes, and the bytes after it.
pub type Read<T> = Result<(T, Seq<u8>), DecodeFault>;

/// A value that is stored in thirty-two bits.
pub trait Word: Copy {
    open spec fn spec_word(self) -> u32 {
        arbitrary()
    }

    fn word(self) -> (r: u32)
        ensures
            r == self.spec_word(),
    ;

    open spec fn spec_from_word(word: u32) -> Self {
        arbitrary()
    }

    fn from_word(word: u32) -> (r: Self)
        ensures
            r == Self::spec_from_word(word),
    ;
}

/// A value is what its word stands for.
pub open spec fn faithful_words<F: Word>() -> bool {
    forall|x: F| F::spec_from_word(#[trigger] x.spec_word()) == x
}

impl Word for u32 {
    open spec fn spec_word(self) -> u32 {
        self
    }

    fn word(self) -> (r: u32) {
        self
    }

    open spec fn spec_from_word(word: u32) -> Self {
        word
    }

    fn from_word(word: u32) -> (r: Self) {
        word
    }
}

/// A number's bytes.
pub open spec fn num_bytes<N: Scalar>(x: N) -> Seq<u8> {
    spec_u64_to_le_bytes(x.spec_bits())
}

/// A signed number's bytes.
pub open spec fn i64_bytes(x: i64) -> Seq<u8> {
    spec_u64_to_le_bytes(x as u64)
}

/// The bytes of the items from the `i`-th on, one after the other.
pub open spec fn joined<T>(xs: Seq<T>, each: spec_fn(T) -> Seq<u8>) -> Seq<u8>
    decreases xs.len(),
{
    if xs.len() == 0 {
        Seq::empty()
    } else {
        joined(xs.drop_last(), each) + each(xs.last())
    }
}

/// A count, and the bytes of so many items.
pub open spec fn counted_bytes<T>(xs: Seq<T>, each: spec_fn(T) -> Seq<u8>) -> Seq<u8> {
    spec_u32_to_le_bytes(xs.len() as u32) + joined(xs, each)
}

/// The bytes of numbers.
pub open spec fn nums_bytes<N: Scalar>(xs: Seq<N>) -> Seq<u8> {
    counted_bytes(xs, |x: N| num_bytes(x))
}

/// The bytes of words.
pub open spec fn words_bytes<F: Word>(xs: Seq<F>) -> Seq<u8> {
    counted_bytes(xs, |x: F| spec_u32_to_le_bytes(x.spec_word()))
}

/// The bytes of sizes.
pub open spec fn sizes_bytes(xs: Seq<usize>) -> Seq<u8> {
    counted_bytes(xs, |x: usize| spec_u64_to_le_bytes(x as u64))
}

/// The bytes of bytes.
pub open spec fn blob_bytes(xs: Seq<u8>) -> Seq<u8> {
    spec_u32_to_le_bytes(xs.len() as u32) + xs
}

pub fn put_u8(out: &mut Vec<u8>, x: u8)
    ensures
        final(out)@ == old(out)@ + seq![x],
{
    out.push(x);
    assert(out@ =~= old(out)@ + seq![x]);
}

pub fn put_u32(out: &mut Vec<u8>, x: u32)
    ensures
        final(out)@ == old(out)@ + spec_u32_to_le_bytes(x),
{
    let bytes = u32_to_le_bytes(x);
    append(out, &bytes);
}

pub fn put_u64(out: &mut Vec<u8>, x: u64)
    ensures
        final(out)@ == old(out)@ + spec_u64_to_le_bytes(x),
{
    let bytes = u64_to_le_bytes(x);
    append(out, &bytes);
}

pub fn put_i64(out: &mut Vec<u8>, x: i64)
    ensures
        final(out)@ == old(out)@ + i64_bytes(x),
{
    put_u64(out, x as u64);
}

pub fn put_num<N: Scalar>(out: &mut Vec<u8>, x: N)
    ensures
        final(out)@ == old(out)@ + num_bytes(x),
{
    put_u64(out, x.bits());
}

pub fn put_blob(out: &mut Vec<u8>, xs: &[u8])
    ensures
        final(out)@ == old(out)@ + blob_bytes(xs@),
{
    put_u32(out, xs.len() as u32);
    append(out, xs);
    assert(out@ =~= old(out)@ + blob_bytes(xs@));
}

pub fn put_nums<N: Scalar>(out: &mut Vec<u8>, xs: &[N])
    ensures
        final(out)@ == old(out)@ + nums_bytes(xs@),
{
    let ghost each = |x: N| num_bytes(x);
    put_u32(out, xs.len() as u32);
    let ghost start = out@;
    let mut i: usize = 0;
    assert(out@ =~= start + joined(xs@.take(0), each));
    while i < xs.len()
        invariant
            i <= xs@.len(),
            each == |x: N| num_bytes(x),
            out@ == start + joined(xs@.take(i as int), each),
        decreases xs@.len() - i,
    {
        put_num(out, xs[i]);
        i = i + 1;
        assert(xs@.take(i as int).drop_last() =~= xs@.take(i - 1));
        assert(out@ =~= start + joined(xs@.take(i as int), each));
    }
    assert(xs@.take(i as int) =~= xs@);
    assert(out@ =~= old(out)@ + nums_bytes(xs@));
}

pub fn put_words<F: Word>(out: &mut Vec<u8>, xs: &[F])
    ensures
        final(out)@ == old(out)@ + words_bytes(xs@),
{
    let ghost each = |x: F| spec_u32_to_le_bytes(x.spec_word());
    put_u32(out, xs.len() as u32);
    let ghost start = out@;
    let mut i: usize = 0;
    assert(out@ =~= start + joined(xs@.take(0), each));
    while i < xs.len()
        invariant
            i <= xs@.len(),
            each == |x: F| spec_u32_to_le_bytes(x.spec_word()),
            out@ == start + joined(xs@.take(i as int), each),
        decreases xs@.len() - i,
    {
        put_u32(out, xs[i].word());
        i = i + 1;
        assert(xs@.take(i as int).drop_last() =~= xs@.take(i - 1));
        assert(out@ =~= start + joined(xs@.take(i as int), each));
    }
    assert(xs@.take(i as int) =~= xs@);
    assert(out@ =~= old(out)@ + words_bytes(xs@));
}

pub fn put_sizes(out: &mut Vec<u8>, xs: &[usize])
    ensures
        final(out)@ == old(out)@ + sizes_bytes(xs@),
{
    let ghost each = |x: usize| spec_u64_to_le_bytes(x as u64);
    put_u32(out, xs.len() as u32);
    let ghost start = out@;
    let mut i: usize = 0;
    assert(out@ =~= start + joined(xs@.take(0), each));
    while i < xs.len()
        invariant
            i <= xs@.len(),
            each == |x: usize| spec_u64_to_le_bytes(x as u64),
            out@ == start + joined(xs@.take(i as int), each),
        decreases xs@.len() - i,
    {
        put_u64(out, xs[i] as u64);
        i = i + 1;
        assert(xs@.take(i as int).drop_last() =~= xs@.take(i - 1));
        assert(out@ =~= start + joined(xs@.take(i as int), each));
    }
    assert(xs@.take(i as int) =~= xs@);
    assert(out@ =~= old(out)@ + sizes_bytes(xs@));
}

/// The first `n` bytes.
pub open spec fn read_bytes(s: Seq<u8>, n: nat) -> Read<Seq<u8>> {
    if s.len() < n {
        Err(DecodeFault::Truncated)
    } else {
        Ok((s.take(n as int), s.skip(n as int)))
    }
}

pub open spec fn read_u8(s: Seq<u8>) -> Read<u8> {
    match read_bytes(s, 1) {
        Err(f) => Err(f),
        Ok((b, rest)) => Ok((b[0], rest)),
    }
}

pub open spec fn read_u32(s: Seq<u8>) -> Read<u32> {
    match read_bytes(s, 4) {
        Err(f) => Err(f),
        Ok((b, rest)) => Ok((spec_u32_from_le_bytes(b), rest)),
    }
}

pub open spec fn read_u64(s: Seq<u8>) -> Read<u64> {
    match read_bytes(s, 8) {
        Err(f) => Err(f),
        Ok((b, rest)) => Ok((spec_u64_from_le_bytes(b), rest)),
    }
}

pub open spec fn read_i64(s: Seq<u8>) -> Read<i64> {
    match read_u64(s) {
        Err(f) => Err(f),
        Ok((x, rest)) => Ok((x as i64, rest)),
    }
}

pub open spec fn read_num<N: Scalar>(s: Seq<u8>) -> Read<N> {
    match read_u64(s) {
        Err(f) => Err(f),
        Ok((x, rest)) => Ok((N::spec_from_bits(x), rest)),
    }
}

pub open spec fn read_word<F: Word>(s: Seq<u8>) -> Read<F> {
    match read_u32(s) {
        Err(f) => Err(f),
        Ok((x, rest)) => Ok((F::spec_from_word(x), rest)),
    }
}

pub open spec fn read_size(s: Seq<u8>) -> Read<usize> {
    match read_u64(s) {
        Err(f) => Err(f),
        Ok((x, rest)) => Ok((x as usize, rest)),
    }
}

pub open spec fn read_blob(s: Seq<u8>) -> Read<Seq<u8>> {
    match read_u32(s) {
        Err(f) => Err(f),
        Ok((n, rest)) => read_bytes(rest, n as nat),
    }
}

/// `n` items, one after the other.
pub open spec fn read_each<T>(s: Seq<u8>, n: nat, one: spec_fn(Seq<u8>) -> Read<T>) -> Read<Seq<T>>
    decreases n,
{
    if n == 0 {
        Ok((Seq::empty(), s))
    } else {
        match read_each(s, (n - 1) as nat, one) {
            Err(f) => Err(f),
            Ok((xs, rest)) => match one(rest) {
                Err(f) => Err(f),
                Ok((x, after)) => Ok((xs.push(x), after)),
            },
        }
    }
}

/// A count, and so many items.
pub open spec fn read_counted<T>(s: Seq<u8>, one: spec_fn(Seq<u8>) -> Read<T>) -> Read<Seq<T>> {
    match read_u32(s) {
        Err(f) => Err(f),
        Ok((n, rest)) => read_each(rest, n as nat, one),
    }
}

pub open spec fn read_nums<N: Scalar>(s: Seq<u8>) -> Read<Seq<N>> {
    read_counted(s, |s: Seq<u8>| read_num::<N>(s))
}

pub open spec fn read_words<F: Word>(s: Seq<u8>) -> Read<Seq<F>> {
    read_counted(s, |s: Seq<u8>| read_word::<F>(s))
}

pub open spec fn read_sizes(s: Seq<u8>) -> Read<Seq<usize>> {
    read_counted(s, |s: Seq<u8>| read_size(s))
}

/// Where one item cannot be read, no more can.
pub proof fn lemma_read_fails<T>(
    s: Seq<u8>,
    i: nat,
    n: nat,
    one: spec_fn(Seq<u8>) -> Read<T>,
    f: DecodeFault,
)
    requires
        i <= n,
        read_each(s, i, one) == Err::<(Seq<T>, Seq<u8>), _>(f),
    ensures
        read_each(s, n, one) == Err::<(Seq<T>, Seq<u8>), _>(f),
    decreases n - i,
{
    if i < n {
        lemma_read_fails(s, i + 1, n, one, f);
    }
}

/// Items are read back as they were written, where each of them is.
pub proof fn lemma_read_joined<T>(
    xs: Seq<T>,
    each: spec_fn(T) -> Seq<u8>,
    one: spec_fn(Seq<u8>) -> Read<T>,
    rest: Seq<u8>,
)
    requires
        forall|i: int, after: Seq<u8>|
            0 <= i < xs.len() ==> one(#[trigger] (each(xs[i]) + after)) == Ok::<_, DecodeFault>(
                (xs[i], after),
            ),
    ensures
        read_each(joined(xs, each) + rest, xs.len(), one) == Ok::<_, DecodeFault>((xs, rest)),
    decreases xs.len(),
{
    if xs.len() == 0 {
        assert(joined(xs, each) + rest =~= rest);
        assert(xs =~= Seq::empty());
    } else {
        let front = xs.drop_last();
        let tail = each(xs.last()) + rest;
        assert(joined(xs, each) + rest =~= joined(front, each) + tail);
        assert forall|i: int, after: Seq<u8>| 0 <= i < front.len() implies one(
            #[trigger] (each(front[i]) + after),
        ) == Ok::<_, DecodeFault>((front[i], after)) by {
            assert(front[i] == xs[i]);
        }
        lemma_read_joined(front, each, one, tail);
        assert(one(each(xs[xs.len() - 1]) + rest) == Ok::<_, DecodeFault>((xs.last(), rest)));
        assert(front.push(xs.last()) =~= xs);
    }
}

/// A word is read back as it was written.
pub proof fn law_u32_round_trip(x: u32, rest: Seq<u8>)
    ensures
        read_u32(spec_u32_to_le_bytes(x) + rest) == Ok::<_, DecodeFault>((x, rest)),
{
    lemma_auto_spec_u32_to_from_le_bytes();
    let b = spec_u32_to_le_bytes(x);
    assert((b + rest).take(4) =~= b);
    assert((b + rest).skip(4) =~= rest);
}

/// A long word is read back as it was written.
pub proof fn law_u64_round_trip(x: u64, rest: Seq<u8>)
    ensures
        read_u64(spec_u64_to_le_bytes(x) + rest) == Ok::<_, DecodeFault>((x, rest)),
{
    lemma_auto_spec_u64_to_from_le_bytes();
    let b = spec_u64_to_le_bytes(x);
    assert((b + rest).take(8) =~= b);
    assert((b + rest).skip(8) =~= rest);
}

/// A byte is read back as it was written.
pub proof fn law_u8_round_trip(x: u8, rest: Seq<u8>)
    ensures
        read_u8(seq![x] + rest) == Ok::<_, DecodeFault>((x, rest)),
{
    let b = seq![x];
    assert((b + rest).take(1) =~= b);
    assert((b + rest).skip(1) =~= rest);
}

/// A signed number is read back as it was written.
pub proof fn law_i64_round_trip(x: i64, rest: Seq<u8>)
    ensures
        read_i64(i64_bytes(x) + rest) == Ok::<_, DecodeFault>((x, rest)),
{
    law_u64_round_trip(x as u64, rest);
    assert((x as u64) as i64 == x) by (bit_vector);
}

/// A number is read back as it was written, where its bits tell it.
pub proof fn law_num_round_trip<N: Scalar>(x: N, rest: Seq<u8>)
    requires
        faithful_bits::<N>(),
    ensures
        read_num::<N>(num_bytes(x) + rest) == Ok::<_, DecodeFault>((x, rest)),
{
    law_u64_round_trip(x.spec_bits(), rest);
}

/// Bytes are read back as they were written, where their count fits.
pub proof fn law_blob_round_trip(xs: Seq<u8>, rest: Seq<u8>)
    requires
        xs.len() <= u32::MAX,
    ensures
        read_blob(blob_bytes(xs) + rest) == Ok::<_, DecodeFault>((xs, rest)),
{
    assert(blob_bytes(xs) + rest =~= spec_u32_to_le_bytes(xs.len() as u32) + (xs + rest));
    law_u32_round_trip(xs.len() as u32, xs + rest);
    assert((xs + rest).take(xs.len() as int) =~= xs);
    assert((xs + rest).skip(xs.len() as int) =~= rest);
}

/// Numbers are read back as they were written, where their bits tell them and their count fits.
pub proof fn law_nums_round_trip<N: Scalar>(xs: Seq<N>, rest: Seq<u8>)
    requires
        faithful_bits::<N>(),
        xs.len() <= u32::MAX,
    ensures
        read_nums::<N>(nums_bytes(xs) + rest) == Ok::<_, DecodeFault>((xs, rest)),
{
    let each = |x: N| num_bytes(x);
    let one = |s: Seq<u8>| read_num::<N>(s);
    assert(nums_bytes(xs) + rest =~= spec_u32_to_le_bytes(xs.len() as u32) + (joined(xs, each)
        + rest));
    law_u32_round_trip(xs.len() as u32, joined(xs, each) + rest);
    assert forall|i: int, after: Seq<u8>| 0 <= i < xs.len() implies one(
        #[trigger] (each(xs[i]) + after),
    ) == Ok::<_, DecodeFault>((xs[i], after)) by {
        law_num_round_trip(xs[i], after);
    }
    lemma_read_joined(xs, each, one, rest);
}

/// Words are read back as they were written, where they tell their values and their count fits.
pub proof fn law_words_round_trip<F: Word>(xs: Seq<F>, rest: Seq<u8>)
    requires
        faithful_words::<F>(),
        xs.len() <= u32::MAX,
    ensures
        read_words::<F>(words_bytes(xs) + rest) == Ok::<_, DecodeFault>((xs, rest)),
{
    let each = |x: F| spec_u32_to_le_bytes(x.spec_word());
    let one = |s: Seq<u8>| read_word::<F>(s);
    assert(words_bytes(xs) + rest =~= spec_u32_to_le_bytes(xs.len() as u32) + (joined(xs, each)
        + rest));
    law_u32_round_trip(xs.len() as u32, joined(xs, each) + rest);
    assert forall|i: int, after: Seq<u8>| 0 <= i < xs.len() implies one(
        #[trigger] (each(xs[i]) + after),
    ) == Ok::<_, DecodeFault>((xs[i], after)) by {
        law_u32_round_trip(xs[i].spec_word(), after);
    }
    lemma_read_joined(xs, each, one, rest);
}

/// Sizes are read back as they were written, where their count fits.
pub proof fn law_sizes_round_trip(xs: Seq<usize>, rest: Seq<u8>)
    requires
        xs.len() <= u32::MAX,
    ensures
        read_sizes(sizes_bytes(xs) + rest) == Ok::<_, DecodeFault>((xs, rest)),
{
    let each = |x: usize| spec_u64_to_le_bytes(x as u64);
    let one = |s: Seq<u8>| read_size(s);
    assert(sizes_bytes(xs) + rest =~= spec_u32_to_le_bytes(xs.len() as u32) + (joined(xs, each)
        + rest));
    law_u32_round_trip(xs.len() as u32, joined(xs, each) + rest);
    assert forall|i: int, after: Seq<u8>| 0 <= i < xs.len() implies one(
        #[trigger] (each(xs[i]) + after),
    ) == Ok::<_, DecodeFault>((xs[i], after)) by {
        law_u64_round_trip(xs[i] as u64, after);
    }
    lemma_read_joined(xs, each, one, rest);
}

/// A reading of `before` that leaves `after`.
pub open spec fn reads<T>(
    r: Result<T, DecodeFault>,
    spec: Read<T>,
    after: Seq<u8>,
) -> bool {
    match r {
        Ok(x) => spec == Ok::<_, DecodeFault>((x, after)),
        Err(f) => spec == Err::<(T, Seq<u8>), _>(f),
    }
}

/// A reading whose value is taken by its view.
pub open spec fn reads_view<T: View>(
    r: Result<T, DecodeFault>,
    spec: Read<T::V>,
    after: Seq<u8>,
) -> bool {
    match r {
        Ok(x) => spec == Ok::<_, DecodeFault>((x@, after)),
        Err(f) => spec == Err::<(T::V, Seq<u8>), _>(f),
    }
}

/// Reads bytes from front to back.
pub struct Reader<'a> {
    bytes: &'a [u8],
    pos: usize,
}

impl<'a> View for Reader<'a> {
    type V = Seq<u8>;

    /// The bytes that have not been read.
    closed spec fn view(&self) -> Seq<u8> {
        self.bytes@.skip(self.pos as int)
    }
}

impl<'a> Reader<'a> {
    #[verifier::type_invariant]
    spec fn placed(self) -> bool {
        self.pos <= self.bytes@.len()
    }

    pub fn new(bytes: &'a [u8]) -> (r: Self)
        ensures
            r@ == bytes@,
    {
        let r = Reader { bytes, pos: 0 };
        assert(r@ =~= bytes@);
        r
    }

    /// The next `n` bytes.
    pub fn take(&mut self, n: usize) -> (r: Result<&'a [u8], DecodeFault>)
        ensures
            match r {
                Ok(b) => read_bytes(old(self)@, n as nat) == Ok::<_, DecodeFault>(
                    (b@, final(self)@),
                ),
                Err(f) => read_bytes(old(self)@, n as nat) == Err::<(Seq<u8>, Seq<u8>), _>(f),
            },
    {
        proof {
            use_type_invariant(&*self);
        }
        let left = self.bytes.len() - self.pos;
        if left < n {
            return Err(DecodeFault::Truncated);
        }
        let pos = self.pos;
        let taken = vstd::slice::slice_subrange(self.bytes, pos, pos + n);
        let bytes = self.bytes;
        *self = Reader { bytes, pos: pos + n };
        assert(taken@ =~= old(self)@.take(n as int));
        assert(self@ =~= old(self)@.skip(n as int));
        Ok(taken)
    }

    pub fn u8(&mut self) -> (r: Result<u8, DecodeFault>)
        ensures
            reads(r, read_u8(old(self)@), final(self)@),
    {
        match self.take(1) {
            Ok(b) => Ok(b[0]),
            Err(f) => Err(f),
        }
    }

    pub fn u32(&mut self) -> (r: Result<u32, DecodeFault>)
        ensures
            reads(r, read_u32(old(self)@), final(self)@),
    {
        match self.take(4) {
            Ok(b) => Ok(u32_from_le_bytes(b)),
            Err(f) => Err(f),
        }
    }

    pub fn u64(&mut self) -> (r: Result<u64, DecodeFault>)
        ensures
            reads(r, read_u64(old(self)@), final(self)@),
    {
        match self.take(8) {
            Ok(b) => Ok(u64_from_le_bytes(b)),
            Err(f) => Err(f),
        }
    }

    pub fn i64(&mut self) -> (r: Result<i64, DecodeFault>)
        ensures
            reads(r, read_i64(old(self)@), final(self)@),
    {
        match self.u64() {
            Ok(x) => Ok(x as i64),
            Err(f) => Err(f),
        }
    }

    pub fn size(&mut self) -> (r: Result<usize, DecodeFault>)
        ensures
            reads(r, read_size(old(self)@), final(self)@),
    {
        match self.u64() {
            Ok(x) => Ok(x as usize),
            Err(f) => Err(f),
        }
    }

    pub fn num<N: Scalar>(&mut self) -> (r: Result<N, DecodeFault>)
        ensures
            reads(r, read_num(old(self)@), final(self)@),
    {
        match self.u64() {
            Ok(x) => Ok(N::from_bits(x)),
            Err(f) => Err(f),
        }
    }

    pub fn blob(&mut self) -> (r: Result<&'a [u8], DecodeFault>)
        ensures
            match r {
                Ok(b) => read_blob(old(self)@) == Ok::<_, DecodeFault>((b@, final(self)@)),
                Err(f) => read_blob(old(self)@) == Err::<(Seq<u8>, Seq<u8>), _>(f),
            },
    {
        match self.u32() {
            Ok(n) => self.take(n as usize),
            Err(f) => Err(f),
        }
    }

    /// Everything has been read.
    pub fn done(&self) -> (r: Result<(), DecodeFault>)
        ensures
            match r {
                Ok(_) => self@.len() == 0,
                Err(f) => self@.len() > 0 && f == DecodeFault::Trailing,
            },
    {
        proof {
            use_type_invariant(self);
        }
        if self.pos < self.bytes.len() {
            Err(DecodeFault::Trailing)
        } else {
            Ok(())
        }
    }
}

/// Reads numbers.
pub fn nums<N: Scalar>(r: &mut Reader) -> (out: Result<Vec<N>, DecodeFault>)
    ensures
        reads_view(out, read_nums::<N>(old(r)@), final(r)@),
{
    let ghost one = |s: Seq<u8>| read_num::<N>(s);
    let n = match r.u32() {
        Ok(n) => n,
        Err(f) => return Err(f),
    };
    let ghost start = r@;
    let mut out: Vec<N> = Vec::new();
    let mut i: u32 = 0;
    assert(out@ =~= Seq::empty());
    while i < n
        invariant
            i <= n,
            one == |s: Seq<u8>| read_num::<N>(s),
            read_each(start, i as nat, one) == Ok::<_, DecodeFault>((out@, r@)),
            read_nums::<N>(old(r)@) == read_each(start, n as nat, one),
        decreases n - i,
    {
        match r.num::<N>() {
            Ok(x) => out.push(x),
            Err(f) => {
                proof {
                    lemma_read_fails(start, (i + 1) as nat, n as nat, one, f);
                }
                return Err(f);
            },
        }
        i = i + 1;
    }
    Ok(out)
}

/// Reads words.
pub fn words<F: Word>(r: &mut Reader) -> (out: Result<Vec<F>, DecodeFault>)
    ensures
        reads_view(out, read_words::<F>(old(r)@), final(r)@),
{
    let ghost one = |s: Seq<u8>| read_word::<F>(s);
    let n = match r.u32() {
        Ok(n) => n,
        Err(f) => return Err(f),
    };
    let ghost start = r@;
    let mut out: Vec<F> = Vec::new();
    let mut i: u32 = 0;
    assert(out@ =~= Seq::empty());
    while i < n
        invariant
            i <= n,
            one == |s: Seq<u8>| read_word::<F>(s),
            read_each(start, i as nat, one) == Ok::<_, DecodeFault>((out@, r@)),
            read_words::<F>(old(r)@) == read_each(start, n as nat, one),
        decreases n - i,
    {
        match r.u32() {
            Ok(x) => out.push(F::from_word(x)),
            Err(f) => {
                proof {
                    lemma_read_fails(start, (i + 1) as nat, n as nat, one, f);
                }
                return Err(f);
            },
        }
        i = i + 1;
    }
    Ok(out)
}

/// Reads sizes.
pub fn sizes(r: &mut Reader) -> (out: Result<Vec<usize>, DecodeFault>)
    ensures
        reads_view(out, read_sizes(old(r)@), final(r)@),
{
    let ghost one = |s: Seq<u8>| read_size(s);
    let n = match r.u32() {
        Ok(n) => n,
        Err(f) => return Err(f),
    };
    let ghost start = r@;
    let mut out: Vec<usize> = Vec::new();
    let mut i: u32 = 0;
    assert(out@ =~= Seq::empty());
    while i < n
        invariant
            i <= n,
            one == |s: Seq<u8>| read_size(s),
            read_each(start, i as nat, one) == Ok::<_, DecodeFault>((out@, r@)),
            read_sizes(old(r)@) == read_each(start, n as nat, one),
        decreases n - i,
    {
        match r.size() {
            Ok(x) => out.push(x),
            Err(f) => {
                proof {
                    lemma_read_fails(start, (i + 1) as nat, n as nat, one, f);
                }
                return Err(f);
            },
        }
        i = i + 1;
    }
    Ok(out)
}

} // verus!
