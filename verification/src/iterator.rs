//! What every cursor over the bytes of a number offers, and the model that
//! says where digit separators are skipped.

use crate::digit::{spec_char_is_digit, spec_to_ascii_lowercase, to_ascii_lowercase};
use crate::format::SeparatorRules;
use vstd::prelude::*;

verus! {

/// What a section of a number is made of: its digit separator (0 for none),
/// the radix of its digits, and where the separator may stand.
#[derive(Clone, Copy, PartialEq, Eq, Structural, Debug)]
pub struct DigitSyntax {
    pub separator: u8,
    pub radix: u32,
    pub rules: SeparatorRules,
}

/// Whether `c` is the digit separator `separator`; 0 stands for no
/// separator and matches nothing.
pub open spec fn spec_is_separator(c: u8, separator: u8) -> bool {
    separator != 0 && c == separator
}

/// The first index at or behind `from` that holds no separator, or the
/// buffer's length where only separators follow.
pub open spec fn spec_run_end(buffer: Seq<u8>, separator: u8, from: int) -> int
    decreases buffer.len() - from,
{
    if from < 0 || from >= buffer.len() || !spec_is_separator(buffer[from], separator) {
        from
    } else {
        spec_run_end(buffer, separator, from + 1)
    }
}

/// The first index of the run of separators that ends just before `at`;
/// `at` itself where no separator stands before it.
pub open spec fn spec_run_start(buffer: Seq<u8>, separator: u8, at: int) -> int
    decreases at,
{
    if at <= 0 || at > buffer.len() || !spec_is_separator(buffer[at - 1], separator) {
        at
    } else {
        spec_run_start(buffer, separator, at - 1)
    }
}

/// Whether the separator at `index` is leading: before the run of
/// separators it stands in there is no digit.
pub open spec fn spec_is_leading(buffer: Seq<u8>, syntax: DigitSyntax, index: int) -> bool {
    let start = spec_run_start(buffer, syntax.separator, index);
    start <= 0 || !spec_char_is_digit(buffer[start - 1], syntax.radix as int)
}

/// Whether the separator at `index` is trailing: behind the run of
/// separators it stands in there is no digit.
pub open spec fn spec_is_trailing(buffer: Seq<u8>, syntax: DigitSyntax, index: int) -> bool {
    let end = spec_run_end(buffer, syntax.separator, index + 1);
    end >= buffer.len() || !spec_char_is_digit(buffer[end], syntax.radix as int)
}

/// Whether the separator at `index` stands where the rules let one stand:
/// leading where leading ones are allowed, trailing where trailing ones are,
/// or between digits where internal ones are.
pub open spec fn spec_is_skippable(buffer: Seq<u8>, syntax: DigitSyntax, index: int) -> bool {
    let leading = spec_is_leading(buffer, syntax, index);
    let trailing = spec_is_trailing(buffer, syntax, index);
    ||| syntax.rules.leading && leading
    ||| syntax.rules.trailing && trailing
    ||| syntax.rules.internal && !leading && !trailing
}

/// Where a cursor at `cursor` stands after a peek. It moves only from a
/// separator that the rules let it skip: behind the whole run where
/// separators may stand together. Where they may not, it moves behind
/// that one separator, and not at all from a separator that directly
/// follows another: of a run only the first separator is passed, so that
/// a peek after a peek stays where the first one came to stand.
pub open spec fn spec_peek_cursor(buffer: Seq<u8>, syntax: DigitSyntax, cursor: int) -> int {
    if 0 <= cursor < buffer.len() && spec_is_separator(buffer[cursor], syntax.separator)
        && spec_is_skippable(buffer, syntax, cursor) {
        if syntax.rules.consecutive {
            spec_run_end(buffer, syntax.separator, cursor + 1)
        } else if cursor > 0 && spec_is_separator(buffer[cursor - 1], syntax.separator) {
            cursor
        } else {
            cursor + 1
        }
    } else {
        cursor
    }
}

/// The byte that a peek at `cursor` yields, if any.
pub open spec fn spec_peek(buffer: Seq<u8>, syntax: DigitSyntax, cursor: int) -> Option<u8> {
    let at = spec_peek_cursor(buffer, syntax, cursor);
    if 0 <= at < buffer.len() {
        Some(buffer[at])
    } else {
        None
    }
}

/// Where a cursor at `cursor` stands once the zeros before it were skipped:
/// as long as a peek yields `0` that byte is taken, and the last peek's
/// move stays.
pub open spec fn spec_zeros_end(buffer: Seq<u8>, syntax: DigitSyntax, cursor: int) -> int
    decreases buffer.len() - cursor,
{
    let at = spec_peek_cursor(buffer, syntax, cursor);
    if cursor <= at < buffer.len() && buffer[at] == 48 {
        spec_zeros_end(buffer, syntax, at + 1)
    } else {
        at
    }
}

/// How many zeros are taken on the way to `spec_zeros_end`.
pub open spec fn spec_zeros_count(buffer: Seq<u8>, syntax: DigitSyntax, cursor: int) -> int
    decreases buffer.len() - cursor,
{
    let at = spec_peek_cursor(buffer, syntax, cursor);
    if cursor <= at < buffer.len() && buffer[at] == 48 {
        1 + spec_zeros_count(buffer, syntax, at + 1)
    } else {
        0
    }
}

/// The number that the four bytes from `at` on hold, lowest byte first.
pub open spec fn spec_le_u32(buffer: Seq<u8>, at: int) -> int {
    buffer[at] + 0x100 * buffer[at + 1] + 0x1_0000 * buffer[at + 2] + 0x100_0000 * buffer[at + 3]
}

/// The number that the eight bytes from `at` on hold, lowest byte first.
pub open spec fn spec_le_u64(buffer: Seq<u8>, at: int) -> int {
    spec_le_u32(buffer, at) + 0x1_0000_0000 * spec_le_u32(buffer, at + 4)
}

/// A run of separators ends inside the buffer or at its end, never before
/// its start, and holds separators only.
pub proof fn lemma_run_end(buffer: Seq<u8>, separator: u8, from: int)
    requires
        0 <= from <= buffer.len(),
    ensures
        from <= spec_run_end(buffer, separator, from) <= buffer.len(),
        forall|i: int|
            from <= i < spec_run_end(buffer, separator, from) ==> spec_is_separator(
                #[trigger] buffer[i],
                separator,
            ),
        spec_run_end(buffer, separator, from) < buffer.len() ==> !spec_is_separator(
            buffer[spec_run_end(buffer, separator, from)],
            separator,
        ),
    decreases buffer.len() - from,
{
    if from < buffer.len() && spec_is_separator(buffer[from], separator) {
        lemma_run_end(buffer, separator, from + 1);
    }
}

/// A run of separators starts inside the buffer, never behind its end, and
/// holds separators only.
pub proof fn lemma_run_start(buffer: Seq<u8>, separator: u8, at: int)
    requires
        0 <= at <= buffer.len(),
    ensures
        0 <= spec_run_start(buffer, separator, at) <= at,
        forall|i: int|
            spec_run_start(buffer, separator, at) <= i < at ==> spec_is_separator(
                #[trigger] buffer[i],
                separator,
            ),
        spec_run_start(buffer, separator, at) > 0 ==> !spec_is_separator(
            buffer[spec_run_start(buffer, separator, at) - 1],
            separator,
        ),
    decreases at,
{
    if at > 0 && spec_is_separator(buffer[at - 1], separator) {
        lemma_run_start(buffer, separator, at - 1);
    }
}

/// A peek never moves the cursor back nor out of the buffer, and without a
/// separator it does not move it at all.
pub proof fn lemma_peek_cursor(buffer: Seq<u8>, syntax: DigitSyntax, cursor: int)
    requires
        0 <= cursor <= buffer.len(),
    ensures
        cursor <= spec_peek_cursor(buffer, syntax, cursor) <= buffer.len(),
        syntax.separator == 0 ==> spec_peek_cursor(buffer, syntax, cursor) == cursor,
{
    if cursor < buffer.len() {
        lemma_run_end(buffer, syntax.separator, cursor + 1);
    }
}

/// A second peek yields the same byte from the same place as the first:
/// a peek moves the cursor once, and a peek from where it came to stand
/// moves it no further.
pub proof fn lemma_peek_twice(buffer: Seq<u8>, syntax: DigitSyntax, cursor: int)
    requires
        0 <= cursor <= buffer.len(),
    ensures
        spec_peek_cursor(buffer, syntax, spec_peek_cursor(buffer, syntax, cursor))
            == spec_peek_cursor(buffer, syntax, cursor),
        spec_peek(buffer, syntax, spec_peek_cursor(buffer, syntax, cursor)) == spec_peek(
            buffer,
            syntax,
            cursor,
        ),
{
    lemma_peek_cursor(buffer, syntax, cursor);
    if cursor < buffer.len() {
        lemma_run_end(buffer, syntax.separator, cursor + 1);
    }
}

/// Skipping zeros never moves the cursor back nor out of the buffer, and
/// takes no more zeros than it passes bytes.
pub proof fn lemma_zeros_end(buffer: Seq<u8>, syntax: DigitSyntax, cursor: int)
    requires
        0 <= cursor <= buffer.len(),
    ensures
        cursor <= spec_zeros_end(buffer, syntax, cursor) <= buffer.len(),
        0 <= spec_zeros_count(buffer, syntax, cursor) <= spec_zeros_end(buffer, syntax, cursor)
            - cursor,
        syntax.separator == 0 ==> spec_zeros_count(buffer, syntax, cursor) == spec_zeros_end(
            buffer,
            syntax,
            cursor,
        ) - cursor,
    decreases buffer.len() - cursor,
{
    lemma_peek_cursor(buffer, syntax, cursor);
    let at = spec_peek_cursor(buffer, syntax, cursor);
    if at < buffer.len() && buffer[at] == 48 {
        lemma_zeros_end(buffer, syntax, at + 1);
    }
}

/// A cursor over a buffer of bytes.
pub trait Iter<'a> {
    /// The whole buffer under the cursor.
    spec fn spec_buffer(&self) -> Seq<u8>;

    /// The index of the next byte.
    spec fn spec_cursor(&self) -> int;

    /// How many bytes the cursor has yielded.
    spec fn spec_current_count(&self) -> int;

    /// The digit separator that the cursor knows, 0 for none.
    spec fn spec_separator(&self) -> u8;

    /// The cursor stands inside the buffer or at its end and has yielded no
    /// more bytes than lie behind it; without a separator it has yielded
    /// them all.
    open spec fn spec_wf(&self) -> bool {
        &&& 0 <= self.spec_current_count() <= self.spec_cursor() <= self.spec_buffer().len()
        &&& self.spec_separator() == 0 ==> self.spec_current_count() == self.spec_cursor()
    }

    /// Whether the cursor may be moved on by `count` bytes at once. Without
    /// a separator any number of bytes that are left; with one, at most one
    /// byte, which is no separator.
    open spec fn spec_may_step(&self, count: int) -> bool {
        &&& 0 <= count
        &&& self.spec_cursor() + count <= self.spec_buffer().len()
        &&& self.spec_separator() != 0 ==> count <= 1
        &&& self.spec_separator() != 0 && count == 1 ==> self.spec_buffer()[self.spec_cursor()]
            != self.spec_separator()
    }

    /// Whether the bytes lie side by side, with no separator to skip.
    fn is_contiguous(&self) -> (contiguous: bool)
        ensures
            contiguous == (self.spec_separator() == 0),
    ;

    /// The whole buffer under the cursor.
    fn get_buffer(&self) -> (buffer: &'a [u8])
        ensures
            buffer@ == self.spec_buffer(),
    ;

    /// The bytes from the cursor to the end of the buffer.
    fn as_slice(&self) -> (rest: &'a [u8])
        requires
            self.spec_wf(),
        ensures
            rest@ == self.spec_buffer().subrange(
                self.spec_cursor(),
                self.spec_buffer().len() as int,
            ),
    ;

    /// The length of the buffer.
    fn length(&self) -> (len: usize)
        ensures
            len == self.spec_buffer().len(),
    {
        self.get_buffer().len()
    }

    /// The index of the next byte.
    fn cursor(&self) -> (index: usize)
        ensures
            index == self.spec_cursor(),
    ;

    /// Puts the cursor at `index`. With a separator the cursor cannot go
    /// back behind the bytes it has yielded.
    fn set_cursor(&mut self, index: usize)
        requires
            old(self).spec_wf(),
            index <= old(self).spec_buffer().len(),
            old(self).spec_separator() != 0 ==> old(self).spec_current_count() <= index,
        ensures
            final(self).spec_wf(),
            final(self).spec_cursor() == index,
            final(self).spec_buffer() == old(self).spec_buffer(),
            final(self).spec_separator() == old(self).spec_separator(),
            final(self).spec_separator() != 0 ==> final(self).spec_current_count()
                == old(self).spec_current_count(),
    ;

    /// How many bytes the cursor has yielded.
    fn current_count(&self) -> (count: usize)
        requires
            self.spec_wf(),
        ensures
            count == self.spec_current_count(),
    ;

    /// Whether no byte is left in the buffer.
    fn is_empty(&self) -> (empty: bool)
        requires
            self.spec_wf(),
        ensures
            empty == (self.spec_cursor() >= self.spec_buffer().len()),
    {
        self.cursor() >= self.length()
    }

    /// The next byte of the buffer, whether or not it is a separator.
    fn first(&self) -> (byte: Option<&'a u8>)
        requires
            self.spec_wf(),
        ensures
            self.spec_cursor() < self.spec_buffer().len() ==> byte == Some(
                &self.spec_buffer()[self.spec_cursor()],
            ),
            self.spec_cursor() >= self.spec_buffer().len() ==> byte is None,
    ;

    /// Whether the next byte of the buffer is `value`.
    fn first_is_cased(&self, value: u8) -> (found: bool)
        requires
            self.spec_wf(),
        ensures
            found <==> self.spec_cursor() < self.spec_buffer().len()
                && self.spec_buffer()[self.spec_cursor()] == value,
    {
        match self.first() {
            Some(c) => *c == value,
            None => false,
        }
    }

    /// Whether the next byte of the buffer is `value`, letters compared
    /// without their case.
    fn first_is_uncased(&self, value: u8) -> (found: bool)
        requires
            self.spec_wf(),
        ensures
            found <==> self.spec_cursor() < self.spec_buffer().len() && spec_to_ascii_lowercase(
                self.spec_buffer()[self.spec_cursor()],
            ) == spec_to_ascii_lowercase(value),
    {
        match self.first() {
            Some(c) => to_ascii_lowercase(*c) == to_ascii_lowercase(value),
            None => false,
        }
    }

    /// Moves the cursor on by `count` bytes and counts them as yielded.
    fn step_by_unchecked(&mut self, count: usize)
        requires
            old(self).spec_wf(),
            old(self).spec_may_step(count as int),
        ensures
            final(self).spec_wf(),
            final(self).spec_cursor() == old(self).spec_cursor() + count,
            final(self).spec_current_count() == old(self).spec_current_count() + count,
            final(self).spec_buffer() == old(self).spec_buffer(),
            final(self).spec_separator() == old(self).spec_separator(),
    ;

    /// Moves the cursor on by one byte and counts it as yielded.
    fn step_unchecked(&mut self)
        requires
            old(self).spec_wf(),
            old(self).spec_may_step(1),
        ensures
            final(self).spec_wf(),
            final(self).spec_cursor() == old(self).spec_cursor() + 1,
            final(self).spec_current_count() == old(self).spec_current_count() + 1,
            final(self).spec_buffer() == old(self).spec_buffer(),
            final(self).spec_separator() == old(self).spec_separator(),
    ;

    /// The next four bytes as one number, lowest byte first, where the bytes
    /// lie side by side and four are left. The cursor stays.
    fn read_u32(&self) -> (word: Option<u32>)
        requires
            self.spec_wf(),
        ensures
            word is Some <==> self.spec_separator() == 0 && self.spec_cursor() + 4
                <= self.spec_buffer().len(),
            word is Some ==> word->0 == spec_le_u32(self.spec_buffer(), self.spec_cursor()),
    ;

    /// The next eight bytes as one number, lowest byte first, where the
    /// bytes lie side by side and eight are left. The cursor stays.
    fn read_u64(&self) -> (word: Option<u64>)
        requires
            self.spec_wf(),
        ensures
            word is Some <==> self.spec_separator() == 0 && self.spec_cursor() + 8
                <= self.spec_buffer().len(),
            word is Some ==> word->0 == spec_le_u64(self.spec_buffer(), self.spec_cursor()),
    ;
}

/// A cursor that yields the digits of one section of a number and skips the
/// digit separators that the section's rules allow.
pub trait DigitsIter<'a>: Iter<'a> {
    /// The section's separator, radix and rules.
    spec fn spec_syntax(&self) -> DigitSyntax;

    /// The cursor is well formed, knows the separator of its section, and
    /// the section's rules can be met.
    open spec fn spec_digits_wf(&self) -> bool {
        &&& self.spec_wf()
        &&& self.spec_syntax().separator == self.spec_separator()
        &&& self.spec_syntax().rules.spec_is_reachable()
    }

    /// The byte that the next peek yields.
    open spec fn spec_peeked(&self) -> Option<u8> {
        spec_peek(self.spec_buffer(), self.spec_syntax(), self.spec_cursor())
    }

    /// Where the cursor stands after the next peek.
    open spec fn spec_peeked_cursor(&self) -> int {
        spec_peek_cursor(self.spec_buffer(), self.spec_syntax(), self.spec_cursor())
    }

    /// This cursor is `before` moved to `cursor` after `yielded` more bytes:
    /// the buffer and the section are the same, and with a separator the
    /// count has grown by `yielded`.
    open spec fn spec_moved(&self, before: &Self, cursor: int, yielded: int) -> bool {
        &&& self.spec_digits_wf()
        &&& self.spec_buffer() == before.spec_buffer()
        &&& self.spec_syntax() == before.spec_syntax()
        &&& self.spec_cursor() == cursor
        &&& self.spec_separator() != 0 ==> self.spec_current_count()
            == before.spec_current_count() + yielded
    }

    /// A peek from here yields what a peek from `before` yields, and moves
    /// the cursor no further: this cursor stands where a peek left it.
    open spec fn spec_peeks_as(&self, before: &Self) -> bool {
        &&& self.spec_peeked() == before.spec_peeked()
        &&& self.spec_peeked_cursor() == self.spec_cursor()
    }

    /// Whether no byte is left to yield. Like `peek`, this may move the
    /// cursor over separators.
    fn is_consumed(&mut self) -> (consumed: bool)
        requires
            old(self).spec_digits_wf(),
        ensures
            consumed == (old(self).spec_peeked() is None),
            final(self).spec_moved(old(self), old(self).spec_peeked_cursor(), 0),
            final(self).spec_peeks_as(old(self)),
    ;

    /// Whether the cursor stands at the end of the buffer.
    fn is_done(&self) -> (done: bool)
        requires
            self.spec_wf(),
        ensures
            done == (self.spec_cursor() >= self.spec_buffer().len()),
    ;

    /// The next byte that is not a separator to skip, without taking it.
    /// The cursor moves over the separators that were skipped, and a
    /// second peek yields the same byte from where the first left the
    /// cursor.
    fn peek(&mut self) -> (byte: Option<&'a u8>)
        requires
            old(self).spec_digits_wf(),
        ensures
            byte is Some == old(self).spec_peeked() is Some,
            byte is Some ==> *byte->0 == old(self).spec_peeked()->0,
            final(self).spec_moved(old(self), old(self).spec_peeked_cursor(), 0),
            final(self).spec_peeks_as(old(self)),
    ;

    /// Takes the byte that a peek yields: the cursor moves behind it and the
    /// byte counts as yielded.
    fn next(&mut self) -> (byte: Option<&'a u8>)
        requires
            old(self).spec_digits_wf(),
        ensures
            byte is Some == old(self).spec_peeked() is Some,
            byte is Some ==> *byte->0 == old(self).spec_peeked()->0,
            byte is Some ==> final(self).spec_moved(
                old(self),
                old(self).spec_peeked_cursor() + 1,
                1,
            ),
            byte is None ==> final(self).spec_moved(old(self), old(self).spec_peeked_cursor(), 0),
            byte is None ==> final(self).spec_peeks_as(old(self)),
    ;

    /// Takes the byte that a peek yields, which must be no separator, by a
    /// step of the cursor.
    fn try_read(&mut self) -> (byte: Option<&'a u8>)
        requires
            old(self).spec_digits_wf(),
            old(self).spec_peeked() is Some ==> !spec_is_separator(
                old(self).spec_peeked()->0,
                old(self).spec_separator(),
            ),
        ensures
            byte is Some == old(self).spec_peeked() is Some,
            byte is Some ==> *byte->0 == old(self).spec_peeked()->0,
            byte is Some ==> final(self).spec_moved(
                old(self),
                old(self).spec_peeked_cursor() + 1,
                1,
            ),
            byte is None ==> final(self).spec_moved(old(self), old(self).spec_peeked_cursor(), 0),
            byte is None ==> final(self).spec_peeks_as(old(self)),
    ;

    /// Whether a peek yields `value`.
    fn peek_is_cased(&mut self, value: u8) -> (found: bool)
        requires
            old(self).spec_digits_wf(),
        ensures
            found == (old(self).spec_peeked() == Some(value)),
            final(self).spec_moved(old(self), old(self).spec_peeked_cursor(), 0),
            final(self).spec_peeks_as(old(self)),
    ;

    /// Whether a peek yields `value`, letters compared without their case.
    fn peek_is_uncased(&mut self, value: u8) -> (found: bool)
        requires
            old(self).spec_digits_wf(),
        ensures
            found == (old(self).spec_peeked() is Some && spec_to_ascii_lowercase(
                old(self).spec_peeked()->0,
            ) == spec_to_ascii_lowercase(value)),
            final(self).spec_moved(old(self), old(self).spec_peeked_cursor(), 0),
            final(self).spec_peeks_as(old(self)),
    ;

    /// Whether a peek yields `value`, letters compared with their case only
    /// where `is_cased` says so.
    fn peek_is(&mut self, value: u8, is_cased: bool) -> (found: bool)
        requires
            old(self).spec_digits_wf(),
        ensures
            is_cased ==> found == (old(self).spec_peeked() == Some(value)),
            !is_cased ==> found == (old(self).spec_peeked() is Some && spec_to_ascii_lowercase(
                old(self).spec_peeked()->0,
            ) == spec_to_ascii_lowercase(value)),
            final(self).spec_moved(old(self), old(self).spec_peeked_cursor(), 0),
            final(self).spec_peeks_as(old(self)),
    ;

    /// Takes the byte that a peek yields if `pred` accepts it. A byte that
    /// `pred` accepts must be no separator, as it is taken by a step of the
    /// cursor. A byte that `pred` refuses stays the byte that a peek
    /// yields.
    fn read_if<Pred: FnOnce(&u8) -> bool>(&mut self, pred: Pred) -> (byte: Option<&'a u8>)
        requires
            old(self).spec_digits_wf(),
            old(self).spec_peeked() is Some ==> call_requires(
                pred,
                (&old(self).spec_peeked()->0,),
            ),
            old(self).spec_peeked() is Some && call_ensures(
                pred,
                (&old(self).spec_peeked()->0,),
                true,
            ) ==> !spec_is_separator(old(self).spec_peeked()->0, old(self).spec_separator()),
        ensures
            byte is Some ==> old(self).spec_peeked() == Some(*byte->0) && call_ensures(
                pred,
                (&old(self).spec_peeked()->0,),
                true,
            ),
            byte is None ==> old(self).spec_peeked() is None || call_ensures(
                pred,
                (&old(self).spec_peeked()->0,),
                false,
            ),
            byte is Some ==> final(self).spec_moved(
                old(self),
                old(self).spec_peeked_cursor() + 1,
                1,
            ),
            byte is None ==> final(self).spec_moved(old(self), old(self).spec_peeked_cursor(), 0),
            byte is None ==> final(self).spec_peeks_as(old(self)),
    ;

    /// Takes zeros as long as a peek yields one, and returns how far the
    /// cursor has moved.
    fn skip_zeros(&mut self) -> (skipped: usize)
        requires
            old(self).spec_digits_wf(),
        ensures
            skipped == spec_zeros_end(
                old(self).spec_buffer(),
                old(self).spec_syntax(),
                old(self).spec_cursor(),
            ) - old(self).spec_cursor(),
            final(self).spec_moved(
                old(self),
                spec_zeros_end(
                    old(self).spec_buffer(),
                    old(self).spec_syntax(),
                    old(self).spec_cursor(),
                ),
                spec_zeros_count(
                    old(self).spec_buffer(),
                    old(self).spec_syntax(),
                    old(self).spec_cursor(),
                ),
            ),
    ;

    /// Whether `value` is a digit of the section.
    fn is_digit(&self, value: u8) -> (digit: bool)
        ensures
            digit == spec_char_is_digit(value, self.spec_syntax().radix as int),
    ;
}

} // verus!
