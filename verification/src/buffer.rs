//! Writing text into a caller's buffer.
//!
//! A writer only ever sets bytes: what it leaves in a buffer is the text it
//! wrote and, everywhere else, the bytes that were there before.

use vstd::prelude::*;

verus! {

/// What a buffer holds after `text` was written from index `at` on: the
/// text there, and around it the bytes that were there before.
#[verifier::opaque]
pub open spec fn spec_written_at(before: Seq<u8>, at: int, text: Seq<u8>) -> Seq<u8> {
    before.subrange(0, at) + text + before.subrange(at + text.len(), before.len() as int)
}

/// What a buffer holds after `text` was written at its start.
pub open spec fn spec_written(before: Seq<u8>, text: Seq<u8>) -> Seq<u8> {
    spec_written_at(before, 0, text)
}

/// `count` times the byte `c`.
pub open spec fn spec_repeat(c: u8, count: int) -> Seq<u8> {
    Seq::new(
        if count < 0 {
            0nat
        } else {
            count as nat
        },
        |i: int| c,
    )
}

/// Writing a text and then another right behind it is writing the two as
/// one.
pub proof fn lemma_written_append(before: Seq<u8>, at: int, text: Seq<u8>, more: Seq<u8>)
    requires
        0 <= at,
        at + text.len() + more.len() <= before.len(),
    ensures
        spec_written_at(spec_written_at(before, at, text), at + text.len(), more)
            == spec_written_at(before, at, text + more),
{
    reveal(spec_written_at);
    assert(spec_written_at(spec_written_at(before, at, text), at + text.len(), more)
        =~= spec_written_at(before, at, text + more));
}

/// Setting the byte behind a text that was written is writing the text with
/// that byte added.
pub proof fn lemma_written_push(before: Seq<u8>, at: int, text: Seq<u8>, c: u8)
    requires
        0 <= at,
        at + text.len() < before.len(),
    ensures
        spec_written_at(before, at, text).update(at + text.len(), c) == spec_written_at(
            before,
            at,
            text.push(c),
        ),
{
    reveal(spec_written_at);
    assert(spec_written_at(before, at, text).update(at + text.len(), c) =~= spec_written_at(
        before,
        at,
        text.push(c),
    ));
}

/// A write keeps the buffer's length, leaves the text in its place and
/// changes no byte outside it. Writing the same text again changes
/// nothing, whatever the buffer held at first.
pub proof fn lemma_written_twice(before: Seq<u8>, at: int, text: Seq<u8>)
    requires
        0 <= at,
        at + text.len() <= before.len(),
    ensures
        spec_written_at(before, at, text).len() == before.len(),
        spec_written_at(before, at, text).subrange(at, at + text.len()) == text,
        forall|i: int|
            0 <= i < before.len() && !(at <= i < at + text.len()) ==> spec_written_at(
                before,
                at,
                text,
            )[i] == before[i],
        spec_written_at(spec_written_at(before, at, text), at, text) == spec_written_at(
            before,
            at,
            text,
        ),
{
    reveal(spec_written_at);
    assert(spec_written_at(before, at, text).subrange(at, at + text.len()) =~= text);
    assert(spec_written_at(spec_written_at(before, at, text), at, text) =~= spec_written_at(
        before,
        at,
        text,
    ));
}

/// What is written does not depend on what the buffer held where the text
/// goes: two buffers that differ only there hold the same afterwards.
pub proof fn lemma_written_ignores_target(a: Seq<u8>, b: Seq<u8>, at: int, text: Seq<u8>)
    requires
        0 <= at,
        at + text.len() <= a.len(),
        a.len() == b.len(),
        forall|i: int| 0 <= i < a.len() && !(at <= i < at + text.len()) ==> a[i] == b[i],
    ensures
        spec_written_at(a, at, text) == spec_written_at(b, at, text),
{
    reveal(spec_written_at);
    assert(spec_written_at(a, at, text) =~= spec_written_at(b, at, text));
}

/// Writing nothing leaves a buffer as it was.
pub proof fn lemma_written_nothing(before: Seq<u8>, at: int)
    requires
        0 <= at <= before.len(),
    ensures
        spec_written_at(before, at, Seq::empty()) == before,
{
    reveal(spec_written_at);
    assert(spec_written_at(before, at, Seq::empty()) =~= before);
}

/// Writing at the start of what lies behind the first `at` bytes of a
/// buffer is writing from index `at` on.
pub proof fn lemma_written_behind(before: Seq<u8>, at: int, text: Seq<u8>)
    requires
        0 <= at,
        at + text.len() <= before.len(),
    ensures
        before.subrange(0, at) + spec_written_at(
            before.subrange(at, before.len() as int),
            0,
            text,
        ) == spec_written_at(before, at, text),
{
    reveal(spec_written_at);
    assert(before.subrange(0, at) + spec_written_at(
        before.subrange(at, before.len() as int),
        0,
        text,
    ) =~= spec_written_at(before, at, text));
}

/// Whether `bytes` is the buffer `before` with `text` written from index
/// `at` on.
pub open spec fn spec_holds(bytes: Seq<u8>, before: Seq<u8>, at: int, text: Seq<u8>) -> bool {
    &&& 0 <= at
    &&& at + text.len() <= before.len()
    &&& bytes.len() == before.len()
    &&& bytes == spec_written_at(before, at, text)
}

/// Copies `src` into `dst` from index `at` on and returns its length.
pub fn copy_to_dst(dst: &mut [u8], at: usize, src: &[u8]) -> (count: usize)
    requires
        at + src@.len() <= old(dst)@.len(),
    ensures
        count == src@.len(),
        final(dst)@.len() == old(dst)@.len(),
        final(dst)@ == spec_written_at(old(dst)@, at as int, src@),
{
    let count = src.len();
    let len = dst.len();
    let mut i: usize = 0;
    proof {
        lemma_written_nothing(dst@, at as int);
        assert(src@.subrange(0, 0) == Seq::<u8>::empty());
    }
    while i < count
        invariant
            0 <= i <= count,
            count == src@.len(),
            len == dst@.len(),
            at + count <= dst@.len(),
            dst@.len() == old(dst)@.len(),
            dst@ == spec_written_at(old(dst)@, at as int, src@.subrange(0, i as int)),
        decreases count - i,
    {
        proof {
            lemma_written_push(old(dst)@, at as int, src@.subrange(0, i as int), src@[i as int]);
            assert(src@.subrange(0, i as int).push(src@[i as int]) == src@.subrange(
                0,
                i as int + 1,
            ));
        }
        dst[at + i] = src[i];
        i = i + 1;
    }
    assert(src@.subrange(0, count as int) == src@);
    count
}

/// Sets `count` bytes of `dst` from index `at` on to `c`.
pub fn fill(dst: &mut [u8], at: usize, count: usize, c: u8)
    requires
        at + count <= old(dst)@.len(),
    ensures
        final(dst)@.len() == old(dst)@.len(),
        final(dst)@ == spec_written_at(old(dst)@, at as int, spec_repeat(c, count as int)),
{
    let len = dst.len();
    let mut i: usize = 0;
    proof {
        lemma_written_nothing(dst@, at as int);
        assert(spec_repeat(c, 0) == Seq::<u8>::empty());
    }
    while i < count
        invariant
            0 <= i <= count,
            len == dst@.len(),
            at + count <= dst@.len(),
            dst@.len() == old(dst)@.len(),
            dst@ == spec_written_at(old(dst)@, at as int, spec_repeat(c, i as int)),
        decreases count - i,
    {
        proof {
            lemma_written_push(old(dst)@, at as int, spec_repeat(c, i as int), c);
            assert(spec_repeat(c, i as int).push(c) == spec_repeat(c, i as int + 1));
        }
        dst[at + i] = c;
        i = i + 1;
    }
}

/// Sets the byte behind the text that `bytes` holds.
pub(crate) fn put(
    bytes: &mut [u8],
    cursor: usize,
    c: u8,
    Ghost(before): Ghost<Seq<u8>>,
    Ghost(at): Ghost<int>,
    Ghost(text): Ghost<Seq<u8>>,
) -> (next: usize)
    requires
        spec_holds(old(bytes)@, before, at, text),
        cursor == at + text.len(),
        cursor < old(bytes)@.len(),
    ensures
        next == cursor + 1,
        spec_holds(final(bytes)@, before, at, text.push(c)),
{
    proof {
        lemma_written_push(before, at, text, c);
    }
    bytes[cursor] = c;
    cursor + 1
}

/// Copies `src` behind the text that `bytes` holds.
pub(crate) fn append(
    bytes: &mut [u8],
    cursor: usize,
    src: &[u8],
    Ghost(before): Ghost<Seq<u8>>,
    Ghost(at): Ghost<int>,
    Ghost(text): Ghost<Seq<u8>>,
) -> (next: usize)
    requires
        spec_holds(old(bytes)@, before, at, text),
        cursor == at + text.len(),
        cursor + src@.len() <= old(bytes)@.len(),
    ensures
        next == cursor + src@.len(),
        spec_holds(final(bytes)@, before, at, text + src@),
{
    proof {
        lemma_written_append(before, at, text, src@);
    }
    let len = bytes.len();
    let count = copy_to_dst(bytes, cursor, src);
    cursor + count
}

/// Sets `count` bytes behind the text that `bytes` holds to `c`.
pub(crate) fn pad(
    bytes: &mut [u8],
    cursor: usize,
    count: usize,
    c: u8,
    Ghost(before): Ghost<Seq<u8>>,
    Ghost(at): Ghost<int>,
    Ghost(text): Ghost<Seq<u8>>,
) -> (next: usize)
    requires
        spec_holds(old(bytes)@, before, at, text),
        cursor == at + text.len(),
        cursor + count <= old(bytes)@.len(),
    ensures
        next == cursor + count,
        spec_holds(final(bytes)@, before, at, text + spec_repeat(c, count as int)),
{
    proof {
        lemma_written_append(before, at, text, spec_repeat(c, count as int));
    }
    let len = bytes.len();
    fill(bytes, cursor, count, c);
    cursor + count
}

} // verus!
