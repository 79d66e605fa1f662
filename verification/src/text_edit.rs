//! What a text editor holds and how the caret moves through it.

use crate::text::{
    chars_back_from, chars_from, next_word_boundary, prev_word_boundary, utf8_len, word_len, Scan,
    Selection,
};
use unicode_segmentation::GraphemeCursor;
use vstd::prelude::*;
use vstd::string::StringSliceAdditionalSpecFns;
use vstd::utf8::{encode_utf8, is_char_boundary, valid_utf8};

verus! {

broadcast use {vstd::utf8::group_utf8_lib, vstd::string::group_string_axioms};

/// The end of the grapheme cluster that begins at a byte offset of a text,
/// `None` at the end of the text.
pub uninterp spec fn grapheme_after(text: Seq<char>, offset: usize) -> Option<usize>;

/// The beginning of the grapheme cluster that ends at a byte offset of a
/// text, `None` at the beginning of the text.
pub uninterp spec fn grapheme_before(text: Seq<char>, offset: usize) -> Option<usize>;

/// `GraphemeCursor::next_boundary` of a cursor made at `offset` for extended
/// grapheme clusters, given the whole text: the next boundary between
/// grapheme clusters after `offset`, which must lie on a character boundary.
/// It is a function of the text and the offset, to which the contract gives
/// the name [`grapheme_after`]. There is none at the end of the text, and
/// only there; a boundary lies behind `offset`, on a character boundary of
/// the text.
#[verifier::external_body]
fn next_grapheme_cluster(text: &str, offset: usize) -> (r: Option<usize>)
    requires
        is_char_boundary(text.spec_bytes(), offset as int),
    ensures
        r == grapheme_after(text@, offset),
        r is None <==> offset == text.spec_bytes().len(),
        r is Some ==> offset < r->0 <= text.spec_bytes().len() && is_char_boundary(
            text.spec_bytes(),
            r->0 as int,
        ),
{
    let mut c = GraphemeCursor::new(offset, text.len(), true);
    c.next_boundary(text, 0).unwrap()
}

/// `GraphemeCursor::prev_boundary` of a cursor made at `offset` for extended
/// grapheme clusters, given the whole text: the last boundary between
/// grapheme clusters before `offset`, which must lie on a character
/// boundary. It is a function of the text and the offset, to which the
/// contract gives the name [`grapheme_before`]. There is none at the
/// beginning of the text, and only there; a boundary lies before `offset`,
/// on a character boundary of the text.
#[verifier::external_body]
fn prev_grapheme_cluster(text: &str, offset: usize) -> (r: Option<usize>)
    requires
        is_char_boundary(text.spec_bytes(), offset as int),
    ensures
        r == grapheme_before(text@, offset),
        r is None <==> offset == 0,
        r is Some ==> r->0 < offset && is_char_boundary(text.spec_bytes(), r->0 as int),
{
    let mut c = GraphemeCursor::new(offset, text.len(), true);
    c.prev_boundary(text, 0).unwrap()
}

/// `String::replace_range`: takes the bytes from `start` up to `end` out of
/// the text and puts `with` in their place. Both offsets must lie on
/// character boundaries of the text. The text that results is a string, so
/// its length in bytes fits a `usize`.
#[verifier::external_body]
fn replace_range(text: &mut String, start: usize, end: usize, with: &str)
    requires
        start <= end,
        is_char_boundary(encode_utf8(old(text)@), start as int),
        is_char_boundary(encode_utf8(old(text)@), end as int),
    ensures
        encode_utf8(final(text)@) == encode_utf8(old(text)@).subrange(0, start as int)
            + with.spec_bytes() + encode_utf8(old(text)@).subrange(
            end as int,
            encode_utf8(old(text)@).len() as int,
        ),
        encode_utf8(final(text)@).len() <= usize::MAX,
{
    text.replace_range(start..end, with)
}

/// The byte that ends a line.
pub const NEWLINE: u8 = 10;

/// The offset at which the line begins that holds the offset `i`: behind the
/// last line end before `i`, or the beginning of the text.
pub open spec fn line_start(bytes: Seq<u8>, i: int) -> int
    decreases i,
{
    if i <= 0 {
        0
    } else if bytes[i - 1] == NEWLINE {
        i
    } else {
        line_start(bytes, i - 1)
    }
}

/// The offset at which the line ends that holds the offset `i`: the first
/// line end at or after `i`, or the end of the text.
pub open spec fn line_end(bytes: Seq<u8>, i: int) -> int
    decreases bytes.len() - i,
{
    if i >= bytes.len() {
        bytes.len() as int
    } else if bytes[i] == NEWLINE {
        i
    } else {
        line_end(bytes, i + 1)
    }
}

/// A key, as far as a text editor tells keys apart.
pub enum Key {
    ArrowLeft,
    ArrowRight,
    /// A key that types text.
    Character(String),
    /// Any other key.
    Other,
}

/// What a text editor holds: the text and the selection in it, in byte
/// offsets.
pub struct TextEditState {
    pub text: String,
    pub selection: Selection,
}

impl TextEditState {
    /// The bytes of the text.
    pub open spec fn bytes(&self) -> Seq<u8> {
        encode_utf8(self.text@)
    }

    /// Whether the caret stands on a character boundary of the text.
    pub open spec fn caret_ok(&self) -> bool {
        is_char_boundary(self.bytes(), self.selection.end as int)
    }

    /// The selection with the caret moved to `end`: the anchor stays where
    /// it is if it is kept, and follows the caret if not.
    pub open spec fn moved(selection: Selection, end: usize, keep_anchor: bool) -> Selection {
        Selection {
            start: if keep_anchor {
                selection.start
            } else {
                end
            },
            end,
        }
    }

    /// An editor with no text and the caret at the beginning.
    pub fn new() -> (r: TextEditState)
        ensures
            r.text@.len() == 0,
            r.selection == (Selection { start: 0, end: 0 }),
            r.caret_ok(),
    {
        TextEditState { text: String::new(), selection: Selection::empty(0) }
    }

    /// The current selection.
    pub fn selection(&self) -> (r: Selection)
        ensures
            r == self.selection,
    {
        self.selection
    }

    /// Sets the selection. Says whether it changed.
    pub fn set_selection(&mut self, selection: Selection) -> (changed: bool)
        ensures
            final(self).selection == selection,
            final(self).text == old(self).text,
            changed == (selection != old(self).selection),
    {
        let changed = self.selection.start != selection.start || self.selection.end
            != selection.end;
        self.selection = selection;
        changed
    }

    /// The current text.
    pub fn text(&self) -> (r: String)
        ensures
            r@ == self.text@,
    {
        self.text.clone()
    }

    /// Sets the text. The selection stays as it is.
    pub fn set_text(&mut self, text: String)
        ensures
            final(self).text == text,
            final(self).selection == old(self).selection,
    {
        self.text = text;
    }

    /// Moves the caret to the next word boundary.
    pub fn move_cursor_to_next_word(&mut self, keep_anchor: bool)
        requires
            old(self).caret_ok(),
        ensures
            final(self).text == old(self).text,
            final(self).caret_ok(),
            ({
                let chars = chars_from(old(self).bytes(), old(self).selection.end as int);
                let end = old(self).selection.end + utf8_len(
                    chars.take(word_len(chars, Scan::LeadingWhitespace) as int),
                );
                end <= usize::MAX && final(self).selection == Self::moved(
                    old(self).selection,
                    end as usize,
                    keep_anchor,
                )
            }),
    {
        let end = next_word_boundary(self.text.as_str(), self.selection.end);
        proof {
            lemma_next_boundary(self.bytes(), self.selection.end as int);
        }
        self.selection.end = end;
        if !keep_anchor {
            self.selection.start = end;
        }
    }

    /// Moves the caret to the previous word boundary.
    pub fn move_cursor_to_prev_word(&mut self, keep_anchor: bool)
        requires
            old(self).caret_ok(),
        ensures
            final(self).text == old(self).text,
            final(self).caret_ok(),
            ({
                let chars = chars_back_from(old(self).bytes(), old(self).selection.end as int);
                let end = old(self).selection.end - utf8_len(
                    chars.take(word_len(chars, Scan::LeadingWhitespace) as int),
                );
                0 <= end && final(self).selection == Self::moved(
                    old(self).selection,
                    end as usize,
                    keep_anchor,
                )
            }),
    {
        let end = prev_word_boundary(self.text.as_str(), self.selection.end);
        proof {
            lemma_prev_boundary(self.bytes(), self.selection.end as int);
        }
        self.selection.end = end;
        if !keep_anchor {
            self.selection.start = end;
        }
    }

    /// Moves the caret behind the grapheme cluster that follows it. At the
    /// end of the text the caret stays.
    pub fn move_cursor_to_next_grapheme(&mut self, keep_anchor: bool)
        requires
            old(self).caret_ok(),
        ensures
            final(self).text == old(self).text,
            final(self).caret_ok(),
            final(self).selection == Self::moved(
                old(self).selection,
                match grapheme_after(old(self).text@, old(self).selection.end) {
                    Some(end) => end,
                    None => old(self).selection.end,
                },
                keep_anchor,
            ),
            old(self).selection.end <= final(self).selection.end <= old(self).bytes().len(),
            final(self).selection.end == old(self).selection.end <==> old(self).selection.end
                == old(self).bytes().len(),
    {
        let end = match next_grapheme_cluster(self.text.as_str(), self.selection.end) {
            Some(end) => end,
            None => self.selection.end,
        };
        self.selection.end = end;
        if !keep_anchor {
            self.selection.start = end;
        }
    }

    /// Moves the caret in front of the grapheme cluster that precedes it. At
    /// the beginning of the text the caret stays.
    pub fn move_cursor_to_prev_grapheme(&mut self, keep_anchor: bool)
        requires
            old(self).caret_ok(),
        ensures
            final(self).text == old(self).text,
            final(self).caret_ok(),
            final(self).selection == Self::moved(
                old(self).selection,
                match grapheme_before(old(self).text@, old(self).selection.end) {
                    Some(end) => end,
                    None => old(self).selection.end,
                },
                keep_anchor,
            ),
            final(self).selection.end <= old(self).selection.end,
            final(self).selection.end == old(self).selection.end <==> old(self).selection.end == 0,
    {
        let end = match prev_grapheme_cluster(self.text.as_str(), self.selection.end) {
            Some(end) => end,
            None => self.selection.end,
        };
        self.selection.end = end;
        if !keep_anchor {
            self.selection.start = end;
        }
    }

    /// Selects the line that the caret stands in, without the byte that
    /// ends it.
    pub fn select_line_under_cursor(&mut self)
        requires
            old(self).selection.end <= old(self).bytes().len(),
        ensures
            final(self).text == old(self).text,
            final(self).selection.start == line_start(
                old(self).bytes(),
                old(self).selection.end as int,
            ),
            final(self).selection.end == line_end(
                old(self).bytes(),
                old(self).selection.end as int,
            ),
    {
        let bytes = self.text.as_str().as_bytes();
        let at = self.selection.end;
        let mut start = at;
        while start > 0 && bytes[start - 1] != NEWLINE
            invariant
                0 <= start <= at <= bytes@.len(),
                line_start(bytes@, at as int) == line_start(bytes@, start as int),
            decreases start,
        {
            start = start - 1;
        }
        let mut end = at;
        while end < bytes.len() && bytes[end] != NEWLINE
            invariant
                at <= end <= bytes@.len(),
                line_end(bytes@, at as int) == line_end(bytes@, end as int),
            decreases bytes@.len() - end,
        {
            end = end + 1;
        }
        self.selection = Selection { start, end };
    }

    /// Types `typed` over the selection: the selected text gives way to it
    /// and the caret comes to stand behind it. Both ends of the selection
    /// must lie on character boundaries.
    pub fn insert(&mut self, typed: &str)
        requires
            is_char_boundary(old(self).bytes(), old(self).selection.spec_min() as int),
            is_char_boundary(old(self).bytes(), old(self).selection.spec_max() as int),
        ensures
            final(self).bytes() == old(self).bytes().subrange(
                0,
                old(self).selection.spec_min() as int,
            ) + typed.spec_bytes() + old(self).bytes().subrange(
                old(self).selection.spec_max() as int,
                old(self).bytes().len() as int,
            ),
            final(self).selection.start == final(self).selection.end,
            final(self).selection.end == old(self).selection.spec_min() + typed.spec_bytes().len(),
    {
        let from = self.selection.min();
        let to = self.selection.max();
        replace_range(&mut self.text, from, to, typed);
        let added = typed.as_bytes().len();
        assert(from + added <= encode_utf8(self.text@).len());
        self.selection = Selection::empty(from + added);
    }

    /// Takes a key in that went down, with the shift and control keys held
    /// or not. The arrow keys move the caret, by words while control is
    /// held, and keep the anchor while shift is held; a key that types text
    /// types it over the selection. Says whether the selection changed hands,
    /// which it does for every key but the others.
    pub fn key_down(&mut self, key: &Key, shift: bool, ctrl: bool) -> (selection_changed: bool)
        requires
            old(self).caret_ok(),
            key is Character ==> is_char_boundary(
                old(self).bytes(),
                old(self).selection.start as int,
            ),
        ensures
            selection_changed == !(key is Other),
            key is Other ==> final(self).text == old(self).text && final(self).selection == old(
                self,
            ).selection,
            key is ArrowLeft || key is ArrowRight ==> final(self).text == old(self).text
                && final(self).caret_ok() && (shift ==> final(self).selection.start == old(
                self,
            ).selection.start) && (!shift ==> final(self).selection.start
                == final(self).selection.end),
            key is ArrowRight && !ctrl ==> final(self).selection.end == match grapheme_after(
                old(self).text@,
                old(self).selection.end,
            ) {
                Some(end) => end,
                None => old(self).selection.end,
            },
            key is ArrowLeft && !ctrl ==> final(self).selection.end == match grapheme_before(
                old(self).text@,
                old(self).selection.end,
            ) {
                Some(end) => end,
                None => old(self).selection.end,
            },
            key is ArrowRight && ctrl ==> ({
                let chars = chars_from(old(self).bytes(), old(self).selection.end as int);
                final(self).selection.end == old(self).selection.end + utf8_len(
                    chars.take(word_len(chars, Scan::LeadingWhitespace) as int),
                )
            }),
            key is ArrowLeft && ctrl ==> ({
                let chars = chars_back_from(old(self).bytes(), old(self).selection.end as int);
                final(self).selection.end == old(self).selection.end - utf8_len(
                    chars.take(word_len(chars, Scan::LeadingWhitespace) as int),
                )
            }),
            key matches Key::Character(typed) ==> {
                &&& final(self).bytes() == old(self).bytes().subrange(
                    0,
                    old(self).selection.spec_min() as int,
                ) + encode_utf8(typed@) + old(self).bytes().subrange(
                    old(self).selection.spec_max() as int,
                    old(self).bytes().len() as int,
                )
                &&& final(self).selection.start == final(self).selection.end
                &&& final(self).selection.end == old(self).selection.spec_min()
                    + encode_utf8(typed@).len()
            },
    {
        match key {
            Key::ArrowLeft => {
                if ctrl {
                    self.move_cursor_to_prev_word(shift);
                } else {
                    self.move_cursor_to_prev_grapheme(shift);
                }
                true
            },
            Key::ArrowRight => {
                if ctrl {
                    self.move_cursor_to_next_word(shift);
                } else {
                    self.move_cursor_to_next_grapheme(shift);
                }
                true
            },
            Key::Character(typed) => {
                self.insert(typed.as_str());
                true
            },
            Key::Other => false,
        }
    }
}

/// The word boundary after a character boundary is a character boundary.
pub proof fn lemma_next_boundary(bytes: Seq<u8>, offset: int)
    requires
        valid_utf8(bytes),
        is_char_boundary(bytes, offset),
    ensures
        ({
            let chars = chars_from(bytes, offset);
            is_char_boundary(
                bytes,
                offset + utf8_len(chars.take(word_len(chars, Scan::LeadingWhitespace) as int)),
            )
        }),
{
    let chars = chars_from(bytes, offset);
    let n = word_len(chars, Scan::LeadingWhitespace) as int;
    crate::text::lemma_word_len_bound(chars, Scan::LeadingWhitespace);
    lemma_prefix_boundary(bytes, offset, n);
}

/// The word boundary before a character boundary is a character boundary.
pub proof fn lemma_prev_boundary(bytes: Seq<u8>, offset: int)
    requires
        valid_utf8(bytes),
        is_char_boundary(bytes, offset),
    ensures
        ({
            let chars = chars_back_from(bytes, offset);
            is_char_boundary(
                bytes,
                offset - utf8_len(chars.take(word_len(chars, Scan::LeadingWhitespace) as int)),
            )
        }),
{
    let chars = chars_back_from(bytes, offset);
    let n = word_len(chars, Scan::LeadingWhitespace) as int;
    crate::text::lemma_word_len_bound(chars, Scan::LeadingWhitespace);
    lemma_suffix_boundary(bytes, offset, n);
}

/// The offset behind the first `n` characters after a character boundary is
/// a character boundary.
proof fn lemma_prefix_boundary(bytes: Seq<u8>, offset: int, n: int)
    requires
        valid_utf8(bytes),
        is_char_boundary(bytes, offset),
        0 <= n <= chars_from(bytes, offset).len(),
    ensures
        is_char_boundary(bytes, offset + utf8_len(chars_from(bytes, offset).take(n))),
{
    let tail = bytes.subrange(offset, bytes.len() as int);
    let head = bytes.subrange(0, offset);
    let chars = chars_from(bytes, offset);
    let first = chars.take(n);
    let rest = chars.skip(n);
    assert(chars =~= first + rest);
    crate::text::lemma_utf8_len_is_encoded_len(first);
    lemma_encode_concat(first, rest);
    assert(0 <= offset <= bytes.len());
    assert(encode_utf8(chars) == tail);
    assert(tail == encode_utf8(first) + encode_utf8(rest));
    let cut = offset + utf8_len(first);
    assert(cut <= bytes.len());
    assert forall|i: int| offset <= i < bytes.len() implies bytes[i] == tail[i - offset] by {}
    assert(bytes.subrange(0, cut) =~= head + encode_utf8(first));
    assert(bytes.subrange(cut, bytes.len() as int) =~= encode_utf8(rest));
    lemma_boundary_of_valid_parts(bytes, cut);
}

/// The offset in front of the last `n` characters before a character
/// boundary is a character boundary.
proof fn lemma_suffix_boundary(bytes: Seq<u8>, offset: int, n: int)
    requires
        valid_utf8(bytes),
        is_char_boundary(bytes, offset),
        0 <= n <= chars_back_from(bytes, offset).len(),
    ensures
        is_char_boundary(bytes, offset - utf8_len(chars_back_from(bytes, offset).take(n))),
        offset - utf8_len(chars_back_from(bytes, offset).take(n)) >= 0,
{
    let head = bytes.subrange(0, offset);
    let tail = bytes.subrange(offset, bytes.len() as int);
    let forward = vstd::utf8::decode_utf8(head);
    let back = chars_back_from(bytes, offset);
    let last = forward.skip(forward.len() - n);
    let first = forward.take(forward.len() - n);
    assert(back.take(n) =~= last.reverse());
    crate::text::lemma_utf8_len_reverse(last);
    crate::text::lemma_utf8_len_is_encoded_len(last);
    assert(forward =~= first + last);
    lemma_encode_concat(first, last);
    assert(0 <= offset <= bytes.len());
    assert(encode_utf8(forward) == head);
    assert(head == encode_utf8(first) + encode_utf8(last));
    let cut = offset - utf8_len(back.take(n));
    assert(cut == encode_utf8(first).len());
    assert forall|i: int| 0 <= i < offset implies bytes[i] == head[i] by {}
    assert forall|i: int| offset <= i < bytes.len() implies bytes[i] == tail[i - offset] by {}
    assert(bytes.subrange(0, cut) =~= encode_utf8(first));
    assert(bytes.subrange(cut, bytes.len() as int) =~= encode_utf8(last) + tail);
    lemma_boundary_of_valid_parts(bytes, cut);
}

/// The encoding of a concatenation is the concatenation of the encodings.
proof fn lemma_encode_concat(a: Seq<char>, b: Seq<char>)
    ensures
        encode_utf8(a + b) == encode_utf8(a) + encode_utf8(b),
    decreases a.len(),
{
    if a.len() == 0 {
        assert(a + b =~= b);
        assert(encode_utf8(a) + encode_utf8(b) =~= encode_utf8(
            b,
        ));
    } else {
        assert((a + b).drop_first() =~= a.drop_first() + b);
        lemma_encode_concat(a.drop_first(), b);
        assert(encode_utf8(a + b) =~= encode_utf8(a)
            + encode_utf8(b));
    }
}

/// An offset that parts valid UTF-8 into two valid parts is a character
/// boundary.
proof fn lemma_boundary_of_valid_parts(bytes: Seq<u8>, cut: int)
    requires
        valid_utf8(bytes),
        0 <= cut <= bytes.len(),
        valid_utf8(bytes.subrange(0, cut)),
        valid_utf8(bytes.subrange(cut, bytes.len() as int)),
    ensures
        is_char_boundary(bytes, cut),
{
    if cut < bytes.len() {
        let tail = bytes.subrange(cut, bytes.len() as int);
        assert(tail[0] == bytes[cut]);
        vstd::utf8::is_char_boundary_iff_is_leading_byte(bytes, cut);
        vstd::utf8::is_char_boundary_start_end_of_seq(tail);
        vstd::utf8::is_char_boundary_iff_is_leading_byte(tail, 0);
    } else {
        vstd::utf8::is_char_boundary_start_end_of_seq(bytes);
    }
}

} // verus!
