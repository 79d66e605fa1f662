//! Text selections, expressed in byte offsets into the edited text.

use vstd::prelude::*;
use vstd::std_specs::iter::IteratorSpec;
use vstd::string::StringSliceAdditionalSpecFns;
use vstd::utf8::{decode_utf8, encode_scalar, encode_utf8, is_char_boundary};

verus! {

broadcast use {vstd::utf8::group_utf8_lib, vstd::string::group_string_axioms};

/// A selection in a text, with the caret at `end`.
///
/// `start` is where the selection gesture began and `end` is where the caret
/// is now, so `start > end` is a valid selection made backwards.
#[derive(Copy, Clone, Debug, PartialEq, Eq, Hash, Structural)]
pub struct Selection {
    pub start: usize,
    pub end: usize,
}

/// The value of a custom axis of a variable font.
#[derive(Copy, Clone, Debug, PartialEq, Eq, PartialOrd, Ord, Hash, Structural)]
pub struct CustomFontAxisValue(pub u32);

/// A step of the caret.
#[derive(Copy, Clone, Debug, PartialEq, Eq, Structural)]
pub enum Movement {
    Left,
    Right,
    LeftWord,
    RightWord,
}

impl Default for Selection {
    fn default() -> (r: Selection)
        ensures
            r.start == 0,
            r.end == 0,
    {
        Selection { start: 0, end: 0 }
    }
}

impl Selection {
    /// The smaller of the two ends.
    pub open spec fn spec_min(self) -> usize {
        if self.start <= self.end {
            self.start
        } else {
            self.end
        }
    }

    /// The larger of the two ends.
    pub open spec fn spec_max(self) -> usize {
        if self.start <= self.end {
            self.end
        } else {
            self.start
        }
    }

    /// Byte offset of the first selected byte.
    pub fn min(&self) -> (r: usize)
        ensures
            r == self.spec_min(),
    {
        if self.start <= self.end {
            self.start
        } else {
            self.end
        }
    }

    /// Byte offset one past the last selected byte.
    pub fn max(&self) -> (r: usize)
        ensures
            r == self.spec_max(),
    {
        if self.start <= self.end {
            self.end
        } else {
            self.start
        }
    }

    /// Whether nothing is selected (the selection is a bare caret).
    pub fn is_empty(&self) -> (r: bool)
        ensures
            r == (self.start == self.end),
    {
        self.start == self.end
    }

    /// The selected bytes: from the smaller end up to the larger one.
    pub fn byte_range(&self) -> (r: std::ops::Range<usize>)
        ensures
            r.start == self.spec_min(),
            r.end == self.spec_max(),
    {
        std::ops::Range { start: self.min(), end: self.max() }
    }

    /// A caret at `at` with nothing selected.
    pub fn empty(at: usize) -> (r: Selection)
        ensures
            r.start == at,
            r.end == at,
    {
        Selection { start: at, end: at }
    }
}

/// Whether a character is white space, as Unicode has it.
pub uninterp spec fn char_is_whitespace(c: char) -> bool;

/// Whether a character is a letter or a number, as Unicode has it.
pub uninterp spec fn char_is_alphanumeric(c: char) -> bool;

/// `char::is_whitespace`: a property of the character alone, to which the
/// contract gives the name [`char_is_whitespace`]. Nothing else is claimed
/// of it.
#[verifier::external_body]
fn is_whitespace(c: char) -> (r: bool)
    ensures
        r == char_is_whitespace(c),
{
    c.is_whitespace()
}

/// `char::is_alphanumeric`: a property of the character alone, to which the
/// contract gives the name [`char_is_alphanumeric`]. Nothing else is claimed
/// of it.
#[verifier::external_body]
fn is_alphanumeric(c: char) -> (r: bool)
    ensures
        r == char_is_alphanumeric(c),
{
    c.is_alphanumeric()
}

/// The number of bytes that the character takes in UTF-8: one to four, by
/// the size of its code point.
pub fn len_utf8(c: char) -> (r: usize)
    ensures
        r == encode_scalar(c as u32).len(),
        1 <= r <= 4,
{
    let code = c as u32;
    proof {
        vstd::utf8::char_is_scalar(c);
    }
    if code < 0x80 {
        1
    } else if code < 0x800 {
        2
    } else if code < 0x10000 {
        3
    } else {
        4
    }
}

/// Where a scan for a word boundary stands.
#[derive(Copy, Clone, Debug, PartialEq, Eq, Structural)]
pub enum Scan {
    /// In the white space before the word.
    LeadingWhitespace,
    /// In a word of letters and numbers.
    Alnum,
    /// Behind a single character that is neither white space nor letter nor
    /// number.
    NotAlnum,
}

/// The number of bytes that the characters take in UTF-8.
pub open spec fn utf8_len(chars: Seq<char>) -> nat
    decreases chars.len(),
{
    if chars.len() == 0 {
        0
    } else {
        utf8_len(chars.drop_last()) + encode_scalar(chars.last() as u32).len()
    }
}

/// What a scan in state `state` does with a character, of which it is
/// known whether it is white space and whether it is a letter or a number:
/// the state in which the scan passes the character, or `None` where the
/// scan stops in front of it.
///
/// In leading white space the scan passes every character, and goes on in
/// white space, into a word, or behind the one other character. In a word
/// it passes letters and numbers and stops in front of anything else.
/// Behind the one other character it stops.
pub open spec fn scan_next(state: Scan, is_whitespace: bool, is_alphanumeric: bool) -> Option<
    Scan,
> {
    match state {
        Scan::LeadingWhitespace => Some(
            if is_whitespace {
                Scan::LeadingWhitespace
            } else if is_alphanumeric {
                Scan::Alnum
            } else {
                Scan::NotAlnum
            },
        ),
        Scan::Alnum => if is_alphanumeric {
            Some(Scan::Alnum)
        } else {
            None
        },
        Scan::NotAlnum => None,
    }
}

/// What a scan in state `state` does with the character `c`.
pub open spec fn scan_char(state: Scan, c: char) -> Option<Scan> {
    scan_next(state, char_is_whitespace(c), char_is_alphanumeric(c))
}

/// How many characters of `chars` a scan in state `state` passes before it
/// stands at a word boundary: the white space in front, and then either a
/// run of letters and numbers or one other character.
pub open spec fn word_len(chars: Seq<char>, state: Scan) -> nat
    decreases chars.len(),
{
    if chars.len() == 0 {
        0
    } else {
        match scan_char(state, chars[0]) {
            Some(next) => 1 + word_len(chars.drop_first(), next),
            None => 0,
        }
    }
}

/// The characters of a text from the byte offset `offset` on.
pub open spec fn chars_from(bytes: Seq<u8>, offset: int) -> Seq<char> {
    decode_utf8(bytes.subrange(offset, bytes.len() as int))
}

/// The characters of a text before the byte offset `offset`, last first.
pub open spec fn chars_back_from(bytes: Seq<u8>, offset: int) -> Seq<char> {
    decode_utf8(bytes.subrange(0, offset)).reverse()
}

/// The byte length adds up over a concatenation.
pub proof fn lemma_utf8_len_concat(a: Seq<char>, b: Seq<char>)
    ensures
        utf8_len(a + b) == utf8_len(a) + utf8_len(b),
    decreases b.len(),
{
    if b.len() == 0 {
        assert(a + b =~= a);
    } else {
        assert((a + b).drop_last() =~= a + b.drop_last());
        assert((a + b).last() == b.last());
        lemma_utf8_len_concat(a, b.drop_last());
    }
}

/// The byte length of a sequence of characters is the length of its UTF-8
/// encoding.
pub proof fn lemma_utf8_len_is_encoded_len(chars: Seq<char>)
    ensures
        utf8_len(chars) == encode_utf8(chars).len(),
    decreases chars.len(),
{
    if chars.len() > 0 {
        let rest = chars.drop_first();
        lemma_utf8_len_is_encoded_len(rest);
        assert(chars =~= seq![chars[0]] + rest);
        lemma_utf8_len_concat(seq![chars[0]], rest);
        assert(seq![chars[0]].drop_last() =~= Seq::<char>::empty());
        assert(utf8_len(seq![chars[0]]) == encode_scalar(chars[0] as u32).len()) by {
            reveal_with_fuel(utf8_len, 2);
        }
    }
}

/// The byte length of the reverse is the byte length.
pub proof fn lemma_utf8_len_reverse(chars: Seq<char>)
    ensures
        utf8_len(chars.reverse()) == utf8_len(chars),
    decreases chars.len(),
{
    if chars.len() > 0 {
        let front = chars.drop_last();
        lemma_utf8_len_reverse(front);
        assert(chars.reverse() =~= seq![chars.last()] + front.reverse());
        lemma_utf8_len_concat(seq![chars.last()], front.reverse());
        assert(seq![chars.last()].drop_last() =~= Seq::<char>::empty());
        assert(utf8_len(seq![chars.last()]) == encode_scalar(chars.last() as u32).len()) by {
            reveal_with_fuel(utf8_len, 2);
        }
    }
}

/// A scan passes no more characters than there are.
pub proof fn lemma_word_len_bound(chars: Seq<char>, state: Scan)
    ensures
        word_len(chars, state) <= chars.len(),
    decreases chars.len(),
{
    if chars.len() > 0 {
        match scan_char(state, chars[0]) {
            Some(next) => {
                lemma_word_len_bound(chars.drop_first(), next);
            },
            None => {},
        }
    }
}

/// One step of a scan for a word boundary: what a scan in state `state`
/// does with a character that is white space or not, and a letter or a
/// number or not. Gives the state in which the scan passes the character,
/// or `None` where the scan stops in front of it.
pub fn scan_step(state: Scan, is_whitespace: bool, is_alphanumeric: bool) -> (r: Option<Scan>)
    ensures
        r == scan_next(state, is_whitespace, is_alphanumeric),
{
    match state {
        Scan::LeadingWhitespace => {
            if !is_whitespace {
                if is_alphanumeric {
                    Some(Scan::Alnum)
                } else {
                    Some(Scan::NotAlnum)
                }
            } else {
                Some(Scan::LeadingWhitespace)
            }
        },
        Scan::Alnum => {
            if !is_alphanumeric {
                None
            } else {
                Some(Scan::Alnum)
            }
        },
        Scan::NotAlnum => None,
    }
}

/// One step of a scan over the character `c`.
fn scan_over(state: Scan, c: char) -> (r: Option<Scan>)
    ensures
        r == scan_char(state, c),
{
    scan_step(state, is_whitespace(c), is_alphanumeric(c))
}

/// The byte offset of the word boundary after `offset`: behind the white
/// space that follows `offset` and then behind the run of letters and
/// numbers, or the one other character, that follows the white space.
///
/// `offset` must lie on a character boundary of `text`.
pub fn next_word_boundary(text: &str, offset: usize) -> (r: usize)
    requires
        is_char_boundary(text.spec_bytes(), offset as int),
    ensures
        ({
            let chars = chars_from(text.spec_bytes(), offset as int);
            r == offset + utf8_len(chars.take(word_len(chars, Scan::LeadingWhitespace) as int))
        }),
        offset <= r <= text.spec_bytes().len(),
{
    let total = text.as_bytes().len();
    if offset >= total {
        proof {
            let rest = chars_from(text.spec_bytes(), offset as int);
            assert(rest.take(word_len(rest, Scan::LeadingWhitespace) as int).len() == 0) by {
                lemma_word_len_bound(rest, Scan::LeadingWhitespace);
                assert(text.spec_bytes().subrange(offset as int, total as int).len() == 0);
            }
        }
        return offset;
    }
    let (_, tail) = text.split_at(offset);
    let ghost chars = tail@;
    proof {
        assert(chars == chars_from(text.spec_bytes(), offset as int));
        lemma_utf8_len_is_encoded_len(chars);
        assert(chars.take(0) =~= Seq::<char>::empty());
        assert(chars.skip(0) =~= chars);
    }
    let mut it = tail.chars();
    let mut pos = offset;
    let mut state = Scan::LeadingWhitespace;
    let ghost mut k: int = 0;
    loop
        invariant_except_break
            0 <= k <= chars.len(),
            it.remaining() == chars.skip(k),
            pos == offset + utf8_len(chars.take(k)),
            word_len(chars, Scan::LeadingWhitespace) == k + word_len(chars.skip(k), state),
        invariant
            utf8_len(chars) == text.spec_bytes().len() - offset,
            offset <= text.spec_bytes().len() <= usize::MAX,
        ensures
            pos == offset + utf8_len(chars.take(word_len(chars, Scan::LeadingWhitespace) as int)),
            offset <= pos <= text.spec_bytes().len(),
        decreases chars.len() - k,
    {
        proof {
            assert(chars =~= chars.take(k) + chars.skip(k));
            lemma_utf8_len_concat(chars.take(k), chars.skip(k));
        }
        match it.next() {
            Some(ch) => {
                proof {
                    assert(ch == chars[k]);
                    assert(chars.skip(k).drop_first() =~= chars.skip(k + 1));
                    assert(chars.take(k + 1).drop_last() =~= chars.take(k));
                    assert(chars =~= chars.take(k + 1) + chars.skip(k + 1));
                    lemma_utf8_len_concat(chars.take(k + 1), chars.skip(k + 1));
                }
                match scan_over(state, ch) {
                    Some(next) => {
                        state = next;
                    },
                    None => {
                        break;
                    },
                }
                pos = pos + len_utf8(ch);
                proof {
                    k = k + 1;
                }
            },
            None => {
                break;
            },
        }
    }
    pos
}

/// The characters of a text, first to last.
fn collect_chars(text: &str) -> (r: Vec<char>)
    ensures
        r@ == text@,
{
    let mut out: Vec<char> = Vec::new();
    let mut it = text.chars();
    loop
        invariant_except_break
            out@ + it.remaining() == text@,
        ensures
            out@ == text@,
        decreases text@.len() - out@.len(),
    {
        let ghost rest = it.remaining();
        match it.next() {
            Some(ch) => {
                out.push(ch);
                assert(out@ + rest.drop_first() =~= (out@.drop_last() + rest));
            },
            None => {
                assert(out@ + rest =~= out@);
                break;
            },
        }
    }
    out
}

/// The byte offset of the word boundary before `offset`: in front of the
/// white space that precedes `offset` and then in front of the run of
/// letters and numbers, or the one other character, that precedes the white
/// space.
///
/// `offset` must lie on a character boundary of `text`.
pub fn prev_word_boundary(text: &str, offset: usize) -> (r: usize)
    requires
        is_char_boundary(text.spec_bytes(), offset as int),
    ensures
        ({
            let chars = chars_back_from(text.spec_bytes(), offset as int);
            r == offset - utf8_len(chars.take(word_len(chars, Scan::LeadingWhitespace) as int))
        }),
        r <= offset,
{
    let (head, _) = text.split_at(offset);
    let before = collect_chars(head);
    let ghost chars = before@.reverse();
    proof {
        assert(before@ == decode_utf8(text.spec_bytes().subrange(0, offset as int)));
        assert(chars == chars_back_from(text.spec_bytes(), offset as int));
        lemma_utf8_len_is_encoded_len(before@);
        lemma_utf8_len_reverse(before@);
        assert(chars.take(0) =~= Seq::<char>::empty());
        assert(chars.skip(0) =~= chars);
    }
    let mut pos = offset;
    let mut state = Scan::LeadingWhitespace;
    let mut k: usize = 0;
    while k < before.len()
        invariant_except_break
            0 <= k <= chars.len(),
            pos == offset - utf8_len(chars.take(k as int)),
            word_len(chars, Scan::LeadingWhitespace) == k + word_len(chars.skip(k as int), state),
        invariant
            chars == before@.reverse(),
            utf8_len(chars) == offset,
        ensures
            pos == offset - utf8_len(chars.take(word_len(chars, Scan::LeadingWhitespace) as int)),
            pos <= offset,
        decreases chars.len() - k,
    {
        let ch = before[before.len() - 1 - k];
        proof {
            assert(ch == chars[k as int]);
            assert(chars.take(k + 1).drop_last() =~= chars.take(k as int));
            assert(chars.skip(k as int).drop_first() =~= chars.skip(k + 1));
            assert(chars =~= chars.take(k + 1) + chars.skip(k + 1));
            lemma_utf8_len_concat(chars.take(k + 1), chars.skip(k + 1));
            assert(chars =~= chars.take(k as int) + chars.skip(k as int));
            lemma_utf8_len_concat(chars.take(k as int), chars.skip(k as int));
        }
        match scan_over(state, ch) {
            Some(next) => {
                state = next;
            },
            None => {
                break;
            },
        }
        pos = pos - len_utf8(ch);
        k = k + 1;
    }
    proof {
        if k == before.len() {
            assert(chars.skip(k as int) =~= Seq::<char>::empty());
            assert(chars.take(k as int) =~= chars);
        }
    }
    pos
}

} // verus!
