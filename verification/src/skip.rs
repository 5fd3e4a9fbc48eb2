//! A cursor over the bytes of a number that can skip digit separators.
//!
//! Separators stand before, between or after the digits of a section, alone
//! or together, and each section of a format says which of these it lets
//! pass. A cursor skips a separator only where its section allows one; any
//! other separator is yielded like every other byte, for the reader to
//! refuse.

use crate::digit::char_is_digit;
use crate::format::{
    digit_separator, exponent_radix, mantissa_radix, separator_rules, spec_digit_separator,
    spec_exponent_radix, spec_mantissa_radix, spec_separator_rules, Section,
};
use crate::iterator::{
    lemma_peek_cursor, lemma_peek_twice, lemma_run_end, spec_is_leading, spec_is_separator,
    spec_is_skippable, spec_is_trailing, spec_run_end, spec_run_start, spec_zeros_count,
    spec_zeros_end, DigitSyntax, DigitsIter, Iter,
};
use vstd::prelude::*;

verus! {

/// The separator, radix and rules of a section of a format. The exponent's
/// digits have the exponent's radix, all others the mantissa's.
pub open spec fn spec_section_syntax(format: u128, section: Section) -> DigitSyntax {
    DigitSyntax {
        separator: spec_digit_separator(format),
        radix: if section == Section::Exponent {
            spec_exponent_radix(format)
        } else {
            spec_mantissa_radix(format)
        },
        rules: spec_separator_rules(format, section),
    }
}

/// Reads the separator, radix and rules of a section from a format.
pub fn section_syntax(format: u128, section: Section) -> (syntax: DigitSyntax)
    ensures
        syntax == spec_section_syntax(format, section),
{
    let radix = match section {
        Section::Exponent => exponent_radix(format),
        _ => mantissa_radix(format),
    };
    DigitSyntax {
        separator: digit_separator(format),
        radix,
        rules: separator_rules(format, section),
    }
}

/// Finds the first index at or behind `from` that holds no separator.
fn run_end(slc: &[u8], separator: u8, from: usize) -> (end: usize)
    requires
        from <= slc@.len(),
    ensures
        end == spec_run_end(slc@, separator, from as int),
        from <= end <= slc@.len(),
{
    let mut index = from;
    proof {
        lemma_run_end(slc@, separator, from as int);
    }
    while index < slc.len() && separator != 0 && slc[index] == separator
        invariant
            from <= index <= slc@.len(),
            spec_run_end(slc@, separator, from as int) == spec_run_end(
                slc@,
                separator,
                index as int,
            ),
        decreases slc@.len() - index,
    {
        index = index + 1;
    }
    index
}

/// Finds the first index of the run of separators that ends before `at`.
fn run_start(slc: &[u8], separator: u8, at: usize) -> (start: usize)
    requires
        at <= slc@.len(),
    ensures
        start == spec_run_start(slc@, separator, at as int),
        start <= at,
{
    let mut index = at;
    while index > 0 && separator != 0 && slc[index - 1] == separator
        invariant
            index <= at <= slc@.len(),
            spec_run_start(slc@, separator, at as int) == spec_run_start(
                slc@,
                separator,
                index as int,
            ),
        decreases index,
    {
        index = index - 1;
    }
    index
}

/// Tells whether the separator at `index` has no digit before its run.
fn is_leading(slc: &[u8], syntax: &DigitSyntax, index: usize) -> (leading: bool)
    requires
        index < slc@.len(),
    ensures
        leading == spec_is_leading(slc@, *syntax, index as int),
{
    let start = run_start(slc, syntax.separator, index);
    start == 0 || !char_is_digit(slc[start - 1], syntax.radix)
}

/// Tells whether the separator at `index` has no digit behind its run.
fn is_trailing(slc: &[u8], syntax: &DigitSyntax, index: usize) -> (trailing: bool)
    requires
        index < slc@.len(),
    ensures
        trailing == spec_is_trailing(slc@, *syntax, index as int),
{
    let len = slc.len();
    let end = run_end(slc, syntax.separator, index + 1);
    end >= len || !char_is_digit(slc[end], syntax.radix)
}

/// Tells whether the separator at `index` stands where the rules let one
/// stand. The neighbours are looked at only where the rules depend on them.
fn is_skippable(slc: &[u8], syntax: &DigitSyntax, index: usize) -> (skippable: bool)
    requires
        index < slc@.len(),
    ensures
        skippable == spec_is_skippable(slc@, *syntax, index as int),
{
    let rules = syntax.rules;
    if rules.internal && rules.leading && rules.trailing {
        true
    } else if !rules.internal && !rules.leading && !rules.trailing {
        false
    } else {
        let leading = is_leading(slc, syntax, index);
        if leading && rules.leading {
            true
        } else {
            let trailing = is_trailing(slc, syntax, index);
            (rules.trailing && trailing) || (rules.internal && !leading && !trailing)
        }
    }
}

/// The cursor over the bytes of one number. `FORMAT` says what the digit
/// separator is and where the sections let it stand.
#[derive(Clone, Copy)]
pub struct Bytes<'a, const FORMAT: u128> {
    /// The buffer under the cursor.
    slc: &'a [u8],
    /// The index of the next byte.
    index: usize,
    /// The bytes yielded so far; kept only where there is a separator.
    count: usize,
}

impl<'a, const FORMAT: u128> Bytes<'a, FORMAT> {
    /// A cursor at the start of `slc`.
    pub fn new(slc: &'a [u8]) -> (bytes: Self)
        ensures
            bytes.spec_wf(),
            bytes.spec_buffer() == slc@,
            bytes.spec_cursor() == 0,
            bytes.spec_current_count() == 0,
    {
        Self { slc, index: 0, count: 0 }
    }

    /// A cursor at `index` of `slc` that has yielded nothing.
    fn from_parts(slc: &'a [u8], index: usize) -> (bytes: Self)
        requires
            index <= slc@.len(),
        ensures
            bytes.spec_buffer() == slc@,
            bytes.spec_cursor() == index,
            bytes.count == 0,
    {
        Self { slc, index, count: 0 }
    }

    /// Whether the cursor stands at the end of the buffer.
    pub fn is_done(&self) -> (done: bool)
        ensures
            done == (self.spec_cursor() >= self.spec_buffer().len()),
    {
        self.index >= self.slc.len()
    }

    /// Whether the next byte of the buffer is `value`. No separator is
    /// skipped.
    pub fn peek_is_cased(&mut self, value: u8) -> (found: bool)
        requires
            old(self).spec_wf(),
        ensures
            found <==> old(self).spec_cursor() < old(self).spec_buffer().len() && old(
                self,
            ).spec_buffer()[old(self).spec_cursor()] == value,
            *final(self) == *old(self),
    {
        match self.first() {
            Some(c) => *c == value,
            None => false,
        }
    }

    /// The cursor as one over the integer digits.
    pub fn integer_iter<'b>(&'b mut self) -> (iter: DigitsIterator<'a, 'b, FORMAT>)
        ensures
            *iter.byte == *old(self),
            *final(iter.byte) == *final(self),
            iter.section == Section::Integer,
    {
        DigitsIterator { byte: self, section: Section::Integer }
    }

    /// The cursor as one over the fraction digits.
    pub fn fraction_iter<'b>(&'b mut self) -> (iter: DigitsIterator<'a, 'b, FORMAT>)
        ensures
            *iter.byte == *old(self),
            *final(iter.byte) == *final(self),
            iter.section == Section::Fraction,
    {
        DigitsIterator { byte: self, section: Section::Fraction }
    }

    /// The cursor as one over the exponent digits.
    pub fn exponent_iter<'b>(&'b mut self) -> (iter: DigitsIterator<'a, 'b, FORMAT>)
        ensures
            *iter.byte == *old(self),
            *final(iter.byte) == *final(self),
            iter.section == Section::Exponent,
    {
        DigitsIterator { byte: self, section: Section::Exponent }
    }

    /// The cursor as one over the characters of a special literal.
    pub fn special_iter<'b>(&'b mut self) -> (iter: DigitsIterator<'a, 'b, FORMAT>)
        ensures
            *iter.byte == *old(self),
            *final(iter.byte) == *final(self),
            iter.section == Section::Special,
    {
        DigitsIterator { byte: self, section: Section::Special }
    }
}

impl<'a, const FORMAT: u128> Iter<'a> for Bytes<'a, FORMAT> {
    closed spec fn spec_buffer(&self) -> Seq<u8> {
        self.slc@
    }

    closed spec fn spec_cursor(&self) -> int {
        self.index as int
    }

    closed spec fn spec_current_count(&self) -> int {
        if spec_digit_separator(FORMAT) == 0 {
            self.index as int
        } else {
            self.count as int
        }
    }

    open spec fn spec_separator(&self) -> u8 {
        spec_digit_separator(FORMAT)
    }

    fn is_contiguous(&self) -> (contiguous: bool) {
        digit_separator(FORMAT) == 0
    }

    fn get_buffer(&self) -> (buffer: &'a [u8]) {
        self.slc
    }

    fn as_slice(&self) -> (rest: &'a [u8]) {
        let slc: &'a [u8] = self.slc;
        &slc[self.index..slc.len()]
    }

    fn cursor(&self) -> (index: usize) {
        self.index
    }

    fn set_cursor(&mut self, index: usize) {
        self.index = index;
    }

    fn current_count(&self) -> (count: usize) {
        if digit_separator(FORMAT) == 0 {
            self.index
        } else {
            self.count
        }
    }

    fn first(&self) -> (byte: Option<&'a u8>) {
        let slc: &'a [u8] = self.slc;
        if self.index < slc.len() {
            Some(&slc[self.index])
        } else {
            None
        }
    }

    fn step_by_unchecked(&mut self, count: usize) {
        let len = self.slc.len();
        assert(self.spec_may_step(count as int));
        assert(self.index + count <= len);
        self.index = self.index + count;
        if digit_separator(FORMAT) != 0 {
            self.count = self.count + count;
        }
    }

    fn step_unchecked(&mut self) {
        self.step_by_unchecked(1);
    }

    fn read_u32(&self) -> (word: Option<u32>) {
        let slc: &'a [u8] = self.slc;
        if digit_separator(FORMAT) == 0 && slc.len() - self.index >= 4 {
            let at = self.index;
            Some(
                slc[at] as u32 + 0x100 * (slc[at + 1] as u32) + 0x1_0000 * (slc[at + 2] as u32)
                    + 0x100_0000 * (slc[at + 3] as u32),
            )
        } else {
            None
        }
    }

    fn read_u64(&self) -> (word: Option<u64>) {
        let slc: &'a [u8] = self.slc;
        if digit_separator(FORMAT) == 0 && slc.len() - self.index >= 8 {
            let at = self.index;
            let low: u64 = slc[at] as u64 + 0x100 * (slc[at + 1] as u64) + 0x1_0000 * (slc[at
                + 2] as u64) + 0x100_0000 * (slc[at + 3] as u64);
            let high: u64 = slc[at + 4] as u64 + 0x100 * (slc[at + 5] as u64) + 0x1_0000 * (slc[at
                + 6] as u64) + 0x100_0000 * (slc[at + 7] as u64);
            Some(low + 0x1_0000_0000 * high)
        } else {
            None
        }
    }
}

/// Makes a cursor over a value's bytes.
pub trait AsBytes<'a> {
    /// The bytes that the cursor will run over.
    spec fn spec_bytes(&self) -> Seq<u8>;

    /// A cursor at the start of the bytes.
    fn bytes<const FORMAT: u128>(&'a self) -> (bytes: Bytes<'a, FORMAT>)
        ensures
            bytes.spec_wf(),
            bytes.spec_buffer() == self.spec_bytes(),
            bytes.spec_cursor() == 0,
            bytes.spec_current_count() == 0,
    ;
}

impl<'a> AsBytes<'a> for [u8] {
    open spec fn spec_bytes(&self) -> Seq<u8> {
        self@
    }

    fn bytes<const FORMAT: u128>(&'a self) -> (bytes: Bytes<'a, FORMAT>) {
        Bytes::new(self)
    }
}

/// A cursor over the digits of one section. It moves the `Bytes` it was
/// made from.
pub struct DigitsIterator<'a, 'b, const FORMAT: u128> {
    /// The cursor that is moved.
    pub byte: &'b mut Bytes<'a, FORMAT>,
    /// The section whose rules decide which separators are skipped.
    pub section: Section,
}

impl<'a, 'b, const FORMAT: u128> DigitsIterator<'a, 'b, FORMAT> {
    /// A cursor over the digits of `section` that moves `byte`.
    pub fn new(byte: &'b mut Bytes<'a, FORMAT>, section: Section) -> (iter: Self)
        ensures
            *iter.byte == *old(byte),
            *final(iter.byte) == *final(byte),
            iter.section == section,
    {
        Self { byte, section }
    }

    /// Whether `value` is the digit separator.
    pub fn is_digit_separator(&self, value: u8) -> (separator: bool)
        ensures
            separator == spec_is_separator(value, spec_digit_separator(FORMAT)),
    {
        let separator = digit_separator(FORMAT);
        separator != 0 && value == separator
    }

    /// Where the bytes lie side by side: takes the next `n` bytes, or all
    /// that are left if they are fewer, as a cursor of their own over the
    /// buffer up to their end, and moves behind them. With a separator
    /// nothing is taken.
    pub fn take_n(&mut self, n: usize) -> (taken: Option<Bytes<'a, FORMAT>>)
        requires
            old(self).spec_wf(),
        ensures
            final(self).section == old(self).section,
            *final(final(self).byte) == *final(old(self).byte),
            final(self).spec_wf(),
            final(self).spec_buffer() == old(self).spec_buffer(),
            old(self).spec_separator() != 0 ==> taken is None && final(self).spec_cursor() == old(
                self,
            ).spec_cursor() && final(self).spec_current_count() == old(
                self,
            ).spec_current_count(),
            old(self).spec_separator() == 0 ==> taken is Some && final(self).spec_cursor()
                == spec_take_end(old(self).spec_buffer().len() as int, old(self).spec_cursor(), n as int)
                && taken->0.spec_wf() && taken->0.spec_cursor() == old(self).spec_cursor()
                && taken->0.spec_buffer() == old(self).spec_buffer().subrange(
                0,
                final(self).spec_cursor(),
            ),
    {
        if digit_separator(FORMAT) == 0 {
            let slc: &'a [u8] = self.byte.slc;
            let cursor = self.byte.index;
            let end = if n >= slc.len() - cursor {
                slc.len()
            } else {
                cursor + n
            };
            let taken = Bytes::from_parts(&slc[0..end], cursor);
            self.byte.index = end;
            Some(taken)
        } else {
            None
        }
    }
}

/// Where taking `n` bytes from `cursor` ends in a buffer of `len` bytes.
pub open spec fn spec_take_end(len: int, cursor: int, n: int) -> int {
    if cursor + n <= len {
        cursor + n
    } else {
        len
    }
}

impl<'a, 'b, const FORMAT: u128> Iter<'a> for DigitsIterator<'a, 'b, FORMAT> {
    open spec fn spec_buffer(&self) -> Seq<u8> {
        self.byte.spec_buffer()
    }

    open spec fn spec_cursor(&self) -> int {
        self.byte.spec_cursor()
    }

    open spec fn spec_current_count(&self) -> int {
        self.byte.spec_current_count()
    }

    open spec fn spec_separator(&self) -> u8 {
        self.byte.spec_separator()
    }

    fn is_contiguous(&self) -> (contiguous: bool) {
        self.byte.is_contiguous()
    }

    fn get_buffer(&self) -> (buffer: &'a [u8]) {
        self.byte.get_buffer()
    }

    fn as_slice(&self) -> (rest: &'a [u8]) {
        self.byte.as_slice()
    }

    fn cursor(&self) -> (index: usize) {
        self.byte.cursor()
    }

    fn set_cursor(&mut self, index: usize)
        ensures
            final(self).section == old(self).section,
            *final(final(self).byte) == *final(old(self).byte),
    {
        self.byte.set_cursor(index);
    }

    fn current_count(&self) -> (count: usize) {
        self.byte.current_count()
    }

    fn first(&self) -> (byte: Option<&'a u8>) {
        self.byte.first()
    }

    fn step_by_unchecked(&mut self, count: usize)
        ensures
            final(self).section == old(self).section,
            *final(final(self).byte) == *final(old(self).byte),
    {
        self.byte.step_by_unchecked(count);
    }

    fn step_unchecked(&mut self)
        ensures
            final(self).section == old(self).section,
            *final(final(self).byte) == *final(old(self).byte),
    {
        self.byte.step_by_unchecked(1);
    }

    fn read_u32(&self) -> (word: Option<u32>) {
        self.byte.read_u32()
    }

    fn read_u64(&self) -> (word: Option<u64>) {
        self.byte.read_u64()
    }
}

impl<'a, 'b, const FORMAT: u128> DigitsIter<'a> for DigitsIterator<'a, 'b, FORMAT> {
    open spec fn spec_syntax(&self) -> DigitSyntax {
        spec_section_syntax(FORMAT, self.section)
    }

    fn is_consumed(&mut self) -> (consumed: bool)
        ensures
            final(self).section == old(self).section,
            *final(final(self).byte) == *final(old(self).byte),
    {
        self.peek().is_none()
    }

    fn is_done(&self) -> (done: bool) {
        self.byte.is_done()
    }

    fn peek(&mut self) -> (byte: Option<&'a u8>)
        ensures
            final(self).section == old(self).section,
            *final(final(self).byte) == *final(old(self).byte),
    {
        let slc: &'a [u8] = self.byte.slc;
        let index = self.byte.index;
        proof {
            lemma_peek_twice(self.spec_buffer(), self.spec_syntax(), self.spec_cursor());
        }
        if index >= slc.len() {
            return None;
        }
        let value: &'a u8 = &slc[index];
        let syntax = section_syntax(FORMAT, self.section);
        if syntax.separator == 0 || *value != syntax.separator {
            return Some(value);
        }
        if !syntax.rules.consecutive && index > 0 && slc[index - 1] == syntax.separator {
            // Of a run only the first separator is passed.
            return Some(value);
        }
        if !is_skippable(slc, &syntax, index) {
            return Some(value);
        }
        let next = if syntax.rules.consecutive {
            run_end(slc, syntax.separator, index + 1)
        } else {
            index + 1
        };
        self.byte.index = next;
        if next < slc.len() {
            Some(&slc[next])
        } else {
            None
        }
    }

    fn next(&mut self) -> (byte: Option<&'a u8>)
        ensures
            final(self).section == old(self).section,
            *final(final(self).byte) == *final(old(self).byte),
    {
        proof {
            lemma_peek_cursor(self.spec_buffer(), self.spec_syntax(), self.spec_cursor());
        }
        match self.peek() {
            Some(value) => {
                let _ = self.byte.slc.len();
                self.byte.index = self.byte.index + 1;
                if digit_separator(FORMAT) != 0 {
                    self.byte.count = self.byte.count + 1;
                }
                Some(value)
            },
            None => None,
        }
    }

    fn try_read(&mut self) -> (byte: Option<&'a u8>)
        ensures
            final(self).section == old(self).section,
            *final(final(self).byte) == *final(old(self).byte),
    {
        proof {
            lemma_peek_cursor(self.spec_buffer(), self.spec_syntax(), self.spec_cursor());
        }
        match self.peek() {
            Some(value) => {
                self.step_unchecked();
                Some(value)
            },
            None => None,
        }
    }

    fn peek_is_cased(&mut self, value: u8) -> (found: bool)
        ensures
            final(self).section == old(self).section,
            *final(final(self).byte) == *final(old(self).byte),
    {
        match self.peek() {
            Some(c) => *c == value,
            None => false,
        }
    }

    fn peek_is_uncased(&mut self, value: u8) -> (found: bool)
        ensures
            final(self).section == old(self).section,
            *final(final(self).byte) == *final(old(self).byte),
    {
        match self.peek() {
            Some(c) => crate::digit::to_ascii_lowercase(*c) == crate::digit::to_ascii_lowercase(
                value,
            ),
            None => false,
        }
    }

    fn peek_is(&mut self, value: u8, is_cased: bool) -> (found: bool)
        ensures
            final(self).section == old(self).section,
            *final(final(self).byte) == *final(old(self).byte),
    {
        match self.peek() {
            Some(c) => {
                if is_cased {
                    *c == value
                } else {
                    crate::digit::to_ascii_lowercase(*c) == crate::digit::to_ascii_lowercase(value)
                }
            },
            None => false,
        }
    }

    fn read_if<Pred: FnOnce(&u8) -> bool>(&mut self, pred: Pred) -> (byte: Option<&'a u8>)
        ensures
            final(self).section == old(self).section,
            *final(final(self).byte) == *final(old(self).byte),
    {
        proof {
            lemma_peek_cursor(self.spec_buffer(), self.spec_syntax(), self.spec_cursor());
        }
        match self.peek() {
            Some(peeked) => {
                if pred(peeked) {
                    self.step_unchecked();
                    Some(peeked)
                } else {
                    None
                }
            },
            None => None,
        }
    }

    fn skip_zeros(&mut self) -> (skipped: usize)
        ensures
            final(self).section == old(self).section,
            *final(final(self).byte) == *final(old(self).byte),
    {
        let start = self.cursor();
        let ghost buffer = self.spec_buffer();
        let ghost syntax = self.spec_syntax();
        let ghost first = self.spec_cursor();
        let ghost count = self.spec_current_count();
        let mut taken: usize = 0;
        loop
            invariant_except_break
                spec_zeros_end(buffer, syntax, first) == spec_zeros_end(
                    buffer,
                    syntax,
                    self.spec_cursor(),
                ),
                spec_zeros_count(buffer, syntax, first) == taken + spec_zeros_count(
                    buffer,
                    syntax,
                    self.spec_cursor(),
                ),
            invariant
                self.spec_digits_wf(),
                self.section == old(self).section,
                *final(self.byte) == *final(old(self).byte),
                self.spec_buffer() == buffer,
                self.spec_syntax() == syntax,
                buffer == old(self).spec_buffer(),
                syntax == old(self).spec_syntax(),
                first == old(self).spec_cursor(),
                count == old(self).spec_current_count(),
                start == first,
                first <= self.spec_cursor(),
                taken <= self.spec_cursor() - first,
                self.spec_separator() != 0 ==> self.spec_current_count() == count + taken,
            ensures
                self.spec_digits_wf(),
                self.section == old(self).section,
                *final(self.byte) == *final(old(self).byte),
                self.spec_buffer() == buffer,
                self.spec_syntax() == syntax,
                self.spec_cursor() == spec_zeros_end(buffer, syntax, first),
                spec_zeros_count(buffer, syntax, first) == taken,
                self.spec_separator() != 0 ==> self.spec_current_count() == count + taken,
            decreases buffer.len() - self.spec_cursor(),
        {
            proof {
                lemma_peek_cursor(buffer, syntax, self.spec_cursor());
            }
            let zero = match self.peek() {
                Some(c) => *c == 48,
                None => false,
            };
            if !zero {
                break ;
            }
            let _ = self.byte.slc.len();
            self.byte.index = self.byte.index + 1;
            if digit_separator(FORMAT) != 0 {
                self.byte.count = self.byte.count + 1;
            }
            taken = taken + 1;
        }
        self.cursor() - start
    }

    fn is_digit(&self, value: u8) -> (digit: bool) {
        char_is_digit(value, section_syntax(FORMAT, self.section).radix)
    }
}

} // verus!
