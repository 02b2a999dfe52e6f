//! Markup: the tags, comments, instructions and references that XML documents are made of.
//!
//! The rules are those that the `plist` crate's reader goes by, also where they are wider or
//! narrower than XML's own.

use vstd::prelude::*;

use crate::scalars::{digits, radix_value, read_digits, small, small_of};
use crate::text::chars_of;

verus! {

/// How many bytes the reader gets at a time: as many as a `std::io::BufReader` holds.
pub const CHUNK: usize = 8192;

/// Whether a word of ASCII characters stands in the bytes at `i`.
pub open spec fn spelled(bytes: Seq<u8>, i: int, word: Seq<char>) -> bool {
    0 <= i && i + word.len() <= bytes.len() && forall|k: int|
        0 <= k < word.len() ==> bytes[i + k] as char == #[trigger] word[k]
}

/// Whether the bytes from `from` to `to` are a word of ASCII characters.
pub open spec fn spells(bytes: Seq<u8>, from: int, to: int, word: Seq<char>) -> bool {
    to - from == word.len() && spelled(bytes, from, word)
}

/// What is behind the first place from `i` on where a word stands.
pub open spec fn behind(bytes: Seq<u8>, i: int, word: Seq<char>) -> Option<int>
    decreases bytes.len() - i,
{
    if i < 0 || i >= bytes.len() {
        None
    } else if spelled(bytes, i, word) {
        Some(i + word.len())
    } else {
        behind(bytes, i + 1, word)
    }
}

/// Whether a byte is a blank, a tab or a line end.
pub open spec fn blank(b: u8) -> bool {
    b == 32 || b == 9 || b == 10 || b == 13
}

/// Where a tag ends that goes on at `i`: at the first `>` outside of quotes. `quote` is the
/// quote that is open, or 0.
pub open spec fn tag_end(bytes: Seq<u8>, i: int, quote: u8) -> Option<int>
    decreases bytes.len() - i,
{
    if i < 0 || i >= bytes.len() {
        None
    } else if quote != 0 {
        tag_end(
            bytes,
            i + 1,
            if bytes[i] == quote {
                0
            } else {
                quote
            },
        )
    } else if bytes[i] == '>' as u8 {
        Some(i)
    } else if bytes[i] == '\'' as u8 || bytes[i] == '"' as u8 {
        tag_end(bytes, i + 1, bytes[i])
    } else {
        tag_end(bytes, i + 1, 0)
    }
}

/// Where the name ends that goes on at `i` and ends at `end` at the latest: at the first blank.
pub open spec fn name_end(bytes: Seq<u8>, i: int, end: int) -> int
    decreases end - i,
{
    if i >= end || blank(bytes[i]) {
        i
    } else {
        name_end(bytes, i + 1, end)
    }
}

/// Where what stands from `from` to `end` ends without the blanks at its end, the bytes from `i`
/// on being blanks; at `end` if all of it is blank.
pub open spec fn trimmed_end(bytes: Seq<u8>, from: int, i: int, end: int) -> int
    decreases i - from,
{
    if i <= from {
        end
    } else if !blank(bytes[i - 1]) {
        i
    } else {
        trimmed_end(bytes, from, i - 1, end)
    }
}

/// Where the local part starts of a name from `from` to `end`, which goes on at `i`: behind its
/// first colon, or at its start if it has none.
pub open spec fn local_start(bytes: Seq<u8>, from: int, i: int, end: int) -> int
    decreases end - i,
{
    if i >= end {
        from
    } else if bytes[i] == ':' as u8 {
        i + 1
    } else {
        local_start(bytes, from, i + 1, end)
    }
}

/// Where the head of a document type ends that goes on at `i`: at the first `>` or `[` outside of
/// quotes. `quote` is the quote that is open, or 0.
pub open spec fn type_head_end(bytes: Seq<u8>, i: int, quote: u8) -> Option<int>
    decreases bytes.len() - i,
{
    if i < 0 || i >= bytes.len() {
        None
    } else if quote != 0 {
        type_head_end(
            bytes,
            i + 1,
            if bytes[i] == quote {
                0
            } else {
                quote
            },
        )
    } else if bytes[i] == '>' as u8 || bytes[i] == '[' as u8 {
        Some(i)
    } else if bytes[i] == '\'' as u8 || bytes[i] == '"' as u8 {
        type_head_end(bytes, i + 1, bytes[i])
    } else {
        type_head_end(bytes, i + 1, 0)
    }
}

/// Whether a `>` at `j` ends a comment in a document type whose text starts at `from`: two dashes
/// stand before it. At the start of a chunk one dash does too, if the chunk before it, all of it
/// in the comment, follows a dash.
pub open spec fn ends_comment(bytes: Seq<u8>, from: int, j: int) -> bool {
    ||| from <= j - 2 && bytes[j - 1] == '-' as u8 && bytes[j - 2] == '-' as u8
    ||| j % CHUNK as int == 0 && from < j - CHUNK && bytes[j - 1] == '-' as u8 && bytes[j - CHUNK
        - 1] == '-' as u8
}

/// What is behind a comment in a document type, if it goes on at `j`.
pub open spec fn behind_type_comment(bytes: Seq<u8>, from: int, j: int) -> Option<int>
    decreases bytes.len() - j,
{
    if j < 0 || j >= bytes.len() {
        None
    } else if bytes[j] == '>' as u8 && ends_comment(bytes, from, j) {
        Some(j + 1)
    } else {
        behind_type_comment(bytes, from, j + 1)
    }
}

/// What is behind a tag that goes on at `i`.
pub open spec fn behind_tag(bytes: Seq<u8>, i: int) -> Option<int> {
    match tag_end(bytes, i, 0) {
        Some(end) => Some(end + 1),
        None => None,
    }
}

/// What is behind the declaration at `i` in a document type.
pub open spec fn behind_declaration(bytes: Seq<u8>, i: int) -> Option<int> {
    if spelled(bytes, i + 1, "?"@) {
        behind(bytes, i + 2, "?>"@)
    } else if spelled(bytes, i + 1, "!--"@) {
        behind_type_comment(bytes, i + 4, i + 4)
    } else if spelled(bytes, i + 1, "!ENTITY"@) {
        behind_tag(bytes, i + 8)
    } else if spelled(bytes, i + 1, "!ATTLIST"@) {
        behind_tag(bytes, i + 9)
    } else if spelled(bytes, i + 1, "!NOTATION"@) {
        behind_tag(bytes, i + 10)
    } else {
        behind(bytes, i + 1, ">"@)
    }
}

/// What is behind the declarations of a document type that go on at `i`: behind the `]`.
pub open spec fn behind_declarations(bytes: Seq<u8>, i: int) -> Option<int>
    decreases bytes.len() - i,
    via declarations_end
{
    if i < 0 || i >= bytes.len() {
        None
    } else if bytes[i] == ']' as u8 {
        Some(i + 1)
    } else if bytes[i] == '<' as u8 {
        match behind_declaration(bytes, i) {
            Some(j) => behind_declarations(bytes, j),
            None => None,
        }
    } else {
        behind_declarations(bytes, i + 1)
    }
}

#[via_fn]
proof fn declarations_end(bytes: Seq<u8>, i: int) {
    if 0 <= i < bytes.len() && bytes[i] == '<' as u8 {
        lemma_behind_declaration(bytes, i);
    }
}

/// What is behind the document type whose head starts at `i`.
pub open spec fn behind_type(bytes: Seq<u8>, i: int) -> Option<int> {
    match type_head_end(bytes, i, 0) {
        Some(j) => if bytes[j] == '>' as u8 {
            Some(j + 1)
        } else {
            match behind_declarations(bytes, j + 1) {
                Some(k) => behind(bytes, k, ">"@),
                None => None,
            }
        },
        None => None,
    }
}

/// Whether what stands from `i` to `end` starts like a document type with a name.
pub open spec fn names_type(bytes: Seq<u8>, i: int, end: int) -> bool {
    &&& i + 10 <= end
    &&& forall|k: int|
        0 <= k < "doctype"@.len() ==> small(bytes[i + 2 + k]) as char
            == #[trigger] "doctype"@[k]
    &&& exists|k: int| i + 9 <= k < end - 1 && !blank(#[trigger] bytes[k])
}

/// A piece of markup.
pub enum TokenModel {
    /// Markup that is skipped: a comment, a section of raw characters, an instruction or a
    /// document type.
    Skip { end: int },
    /// A tag that opens an element, or stands for one without content, with its name.
    Open { from: int, to: int, empty: bool, end: int },
    /// A tag that closes an element, with its name.
    Close { from: int, to: int, end: int },
    /// Markup that is faulty.
    Broken,
}

/// A piece of markup that is skipped, if it has an end.
pub open spec fn skipped(end: Option<int>) -> TokenModel {
    match end {
        Some(end) => TokenModel::Skip { end },
        None => TokenModel::Broken,
    }
}

/// The markup that starts with `<!` at `i`.
pub open spec fn bang_token(bytes: Seq<u8>, i: int) -> TokenModel {
    if spelled(bytes, i + 2, "--"@) {
        skipped(behind(bytes, i + 4, "-->"@))
    } else if spelled(bytes, i + 2, "[CDATA["@) {
        skipped(behind(bytes, i + 9, "]]>"@))
    } else if spelled(bytes, i + 2, "D"@) || spelled(bytes, i + 2, "d"@) {
        match behind_type(bytes, i + 2) {
            Some(end) => if names_type(bytes, i, end) {
                TokenModel::Skip { end }
            } else {
                TokenModel::Broken
            },
            None => TokenModel::Broken,
        }
    } else {
        TokenModel::Broken
    }
}

/// The markup that starts at `i`.
pub open spec fn token(bytes: Seq<u8>, i: int) -> TokenModel {
    if i + 1 >= bytes.len() {
        TokenModel::Broken
    } else if bytes[i + 1] == '!' as u8 {
        bang_token(bytes, i)
    } else if bytes[i + 1] == '?' as u8 {
        match behind(bytes, i + 1, "?>"@) {
            Some(end) => if end == i + 3 {
                TokenModel::Broken
            } else {
                TokenModel::Skip { end }
            },
            None => TokenModel::Broken,
        }
    } else {
        match tag_end(bytes, i + 1, 0) {
            Some(end) => if bytes[i + 1] == '/' as u8 {
                TokenModel::Close {
                    from: i + 2,
                    to: trimmed_end(bytes, i + 2, end, end),
                    end: end + 1,
                }
            } else if bytes[end - 1] == '/' as u8 {
                TokenModel::Open {
                    from: i + 1,
                    to: name_end(bytes, i + 1, end - 1),
                    empty: true,
                    end: end + 1,
                }
            } else {
                TokenModel::Open {
                    from: i + 1,
                    to: name_end(bytes, i + 1, end),
                    empty: false,
                    end: end + 1,
                }
            },
            None => TokenModel::Broken,
        }
    }
}

/// Where a reference ends that goes on at `i`: at the `;`, before which neither `&` nor `<` may
/// stand.
pub open spec fn reference_end(bytes: Seq<u8>, i: int) -> Option<int>
    decreases bytes.len() - i,
{
    if i < 0 || i >= bytes.len() || bytes[i] == '&' as u8 || bytes[i] == '<' as u8 {
        None
    } else if bytes[i] == ';' as u8 {
        Some(i)
    } else {
        reference_end(bytes, i + 1)
    }
}

/// The character that a reference by number stands for, its number reaching from `from` to `to`.
pub open spec fn referred_code(bytes: Seq<u8>, from: int, to: int) -> Option<int> {
    let hex = from < to && bytes[from] == 'x' as u8;
    let start = if hex {
        from + 1
    } else {
        from
    };
    let base = if hex {
        16nat
    } else {
        10
    };
    let code = radix_value(bytes, start, to, base) as int;
    if digits(bytes, start, to, base as int) && 0 < code <= 0x10_ffff && !(0xd800 <= code
        <= 0xdfff) {
        Some(code)
    } else {
        None
    }
}

/// The bytes of a character. Beyond ASCII there are more than one, and which does not matter:
/// no number, data or date holds them.
pub open spec fn bytes_of_code(code: int) -> Seq<u8> {
    if code < 128 {
        seq![code as u8]
    } else {
        seq![128u8, 128u8]
    }
}

/// The text that a reference by name stands for: one of five characters, or nothing.
pub open spec fn referred_name(bytes: Seq<u8>, from: int, to: int) -> Seq<u8> {
    if spells(bytes, from, to, "lt"@) {
        seq!['<' as u8]
    } else if spells(bytes, from, to, "gt"@) {
        seq!['>' as u8]
    } else if spells(bytes, from, to, "amp"@) {
        seq!['&' as u8]
    } else if spells(bytes, from, to, "apos"@) {
        seq!['\'' as u8]
    } else if spells(bytes, from, to, "quot"@) {
        seq!['"' as u8]
    } else {
        Seq::empty()
    }
}

/// The text that the reference from `from` to `to` stands for, if it stands for any.
pub open spec fn referred_text(bytes: Seq<u8>, from: int, to: int) -> Option<Seq<u8>> {
    if from < to && bytes[from] == '#' as u8 {
        match referred_code(bytes, from + 1, to) {
            Some(code) => Some(bytes_of_code(code)),
            None => None,
        }
    } else {
        Some(referred_name(bytes, from, to))
    }
}

/// The content of an element without elements in it: its text, joined across markup that is
/// skipped and across references, and the tag that closes it.
pub struct ContentModel {
    pub text: Seq<u8>,
    pub from: int,
    pub to: int,
    pub end: int,
}

/// The content of an element that goes on at `i`, if it has no fault.
pub open spec fn content(bytes: Seq<u8>, i: int, so_far: Seq<u8>) -> Option<ContentModel>
    decreases bytes.len() - i,
    via content_ends
{
    if i < 0 || i >= bytes.len() {
        None
    } else if bytes[i] == '<' as u8 {
        match token(bytes, i) {
            TokenModel::Skip { end } => content(bytes, end, so_far),
            TokenModel::Close { from, to, end } => Some(
                ContentModel { text: so_far, from, to, end },
            ),
            _ => None,
        }
    } else if bytes[i] == '&' as u8 {
        match reference_end(bytes, i + 1) {
            Some(end) => match referred_text(bytes, i + 1, end) {
                Some(text) => content(bytes, end + 1, so_far + text),
                None => None,
            },
            None => None,
        }
    } else {
        content(bytes, i + 1, so_far.push(bytes[i]))
    }
}

#[via_fn]
proof fn content_ends(bytes: Seq<u8>, i: int, so_far: Seq<u8>) {
    if 0 <= i < bytes.len() {
        if bytes[i] == '<' as u8 {
            lemma_token(bytes, i);
        }
        lemma_reference_end(bytes, i + 1);
    }
}

proof fn lemma_behind(bytes: Seq<u8>, i: int, word: Seq<char>)
    ensures
        behind(bytes, i, word) matches Some(j) ==> 0 <= i && i + word.len() <= j <= bytes.len(),
    decreases bytes.len() - i,
{
    if 0 <= i < bytes.len() && !spelled(bytes, i, word) {
        lemma_behind(bytes, i + 1, word);
    }
}

proof fn lemma_tag_end(bytes: Seq<u8>, i: int, quote: u8)
    ensures
        tag_end(bytes, i, quote) matches Some(j) ==> 0 <= i <= j < bytes.len(),
    decreases bytes.len() - i,
{
    if 0 <= i < bytes.len() {
        if quote != 0 {
            lemma_tag_end(
                bytes,
                i + 1,
                if bytes[i] == quote {
                    0
                } else {
                    quote
                },
            );
        } else if bytes[i] == '\'' as u8 || bytes[i] == '"' as u8 {
            lemma_tag_end(bytes, i + 1, bytes[i]);
        } else if bytes[i] != '>' as u8 {
            lemma_tag_end(bytes, i + 1, 0);
        }
    }
}

proof fn lemma_type_head_end(bytes: Seq<u8>, i: int, quote: u8)
    ensures
        type_head_end(bytes, i, quote) matches Some(j) ==> 0 <= i <= j < bytes.len(),
    decreases bytes.len() - i,
{
    if 0 <= i < bytes.len() {
        if quote != 0 {
            lemma_type_head_end(
                bytes,
                i + 1,
                if bytes[i] == quote {
                    0
                } else {
                    quote
                },
            );
        } else if bytes[i] == '\'' as u8 || bytes[i] == '"' as u8 {
            lemma_type_head_end(bytes, i + 1, bytes[i]);
        } else if bytes[i] != '>' as u8 && bytes[i] != '[' as u8 {
            lemma_type_head_end(bytes, i + 1, 0);
        }
    }
}

proof fn lemma_behind_type_comment(bytes: Seq<u8>, from: int, j: int)
    ensures
        behind_type_comment(bytes, from, j) matches Some(k) ==> j < k <= bytes.len(),
    decreases bytes.len() - j,
{
    if 0 <= j < bytes.len() && !(bytes[j] == '>' as u8 && ends_comment(bytes, from, j)) {
        lemma_behind_type_comment(bytes, from, j + 1);
    }
}

proof fn lemma_behind_declaration(bytes: Seq<u8>, i: int)
    ensures
        behind_declaration(bytes, i) matches Some(j) ==> i < j <= bytes.len(),
{
    lemma_behind(bytes, i + 2, "?>"@);
    lemma_behind_type_comment(bytes, i + 4, i + 4);
    lemma_tag_end(bytes, i + 8, 0);
    lemma_tag_end(bytes, i + 9, 0);
    lemma_tag_end(bytes, i + 10, 0);
    lemma_behind(bytes, i + 1, ">"@);
}

proof fn lemma_behind_declarations(bytes: Seq<u8>, i: int)
    ensures
        behind_declarations(bytes, i) matches Some(j) ==> i < j <= bytes.len(),
    decreases bytes.len() - i,
{
    if 0 <= i < bytes.len() && bytes[i] != ']' as u8 {
        if bytes[i] == '<' as u8 {
            lemma_behind_declaration(bytes, i);
            if let Some(j) = behind_declaration(bytes, i) {
                lemma_behind_declarations(bytes, j);
            }
        } else {
            lemma_behind_declarations(bytes, i + 1);
        }
    }
}

proof fn lemma_behind_type(bytes: Seq<u8>, i: int)
    ensures
        behind_type(bytes, i) matches Some(j) ==> i < j <= bytes.len(),
{
    lemma_type_head_end(bytes, i, 0);
    if let Some(j) = type_head_end(bytes, i, 0) {
        lemma_behind_declarations(bytes, j + 1);
        if let Some(k) = behind_declarations(bytes, j + 1) {
            lemma_behind(bytes, k, ">"@);
        }
    }
}

proof fn lemma_name_end(bytes: Seq<u8>, i: int, end: int)
    requires
        i <= end,
    ensures
        i <= name_end(bytes, i, end) <= end,
    decreases end - i,
{
    if i < end && !blank(bytes[i]) {
        lemma_name_end(bytes, i + 1, end);
    }
}

proof fn lemma_trimmed_end(bytes: Seq<u8>, from: int, i: int, end: int)
    requires
        from <= i <= end,
    ensures
        from <= trimmed_end(bytes, from, i, end) <= end,
    decreases i - from,
{
    if i > from && blank(bytes[i - 1]) {
        lemma_trimmed_end(bytes, from, i - 1, end);
    }
}

/// Markup takes at least one byte, and its names lie in it.
pub proof fn lemma_token(bytes: Seq<u8>, i: int)
    requires
        0 <= i < bytes.len(),
        bytes[i] == '<' as u8,
    ensures
        match token(bytes, i) {
            TokenModel::Skip { end } => i < end <= bytes.len(),
            TokenModel::Open { from, to, end, .. } => i < from <= to < end <= bytes.len(),
            TokenModel::Close { from, to, end } => i < from <= to < end <= bytes.len(),
            TokenModel::Broken => true,
        },
{
    lemma_behind(bytes, i + 4, "-->"@);
    lemma_behind(bytes, i + 9, "]]>"@);
    lemma_behind_type(bytes, i + 2);
    lemma_behind(bytes, i + 1, "?>"@);
    lemma_tag_end(bytes, i + 1, 0);
    if let Some(end) = tag_end(bytes, i + 1, 0) {
        if bytes[i + 1] == '/' as u8 {
            lemma_tag_end(bytes, i + 2, 0);
            lemma_trimmed_end(bytes, i + 2, end, end);
        } else if bytes[end - 1] == '/' as u8 {
            lemma_name_end(bytes, i + 1, end - 1);
        } else {
            lemma_name_end(bytes, i + 1, end);
        }
    }
}

/// A reference ends in the bytes.
pub proof fn lemma_reference_end(bytes: Seq<u8>, i: int)
    ensures
        reference_end(bytes, i) matches Some(j) ==> 0 <= i <= j < bytes.len(),
    decreases bytes.len() - i,
{
    if 0 <= i < bytes.len() && bytes[i] != '&' as u8 && bytes[i] != '<' as u8 && bytes[i]
        != ';' as u8 {
        lemma_reference_end(bytes, i + 1);
    }
}

/// Content takes at least one byte, and the name that closes it lies in it.
pub proof fn lemma_content(bytes: Seq<u8>, i: int, so_far: Seq<u8>)
    ensures
        content(bytes, i, so_far) matches Some(c) ==> i < c.from <= c.to < c.end <= bytes.len(),
    decreases bytes.len() - i,
{
    if 0 <= i < bytes.len() {
        if bytes[i] == '<' as u8 {
            lemma_token(bytes, i);
            if let TokenModel::Skip { end } = token(bytes, i) {
                lemma_content(bytes, end, so_far);
            }
        } else if bytes[i] == '&' as u8 {
            lemma_reference_end(bytes, i + 1);
            if let Some(end) = reference_end(bytes, i + 1) {
                if let Some(text) = referred_text(bytes, i + 1, end) {
                    lemma_content(bytes, end + 1, so_far + text);
                }
            }
        } else {
            lemma_content(bytes, i + 1, so_far.push(bytes[i]));
        }
    }
}

/// Whether a word stands in the bytes at `i`.
fn is_spelled(bytes: &[u8], i: usize, word: &Vec<char>) -> (r: bool)
    ensures
        r == spelled(bytes@, i as int, word@),
{
    let len: usize = bytes.len();
    if i > len || len - i < word.len() {
        return false;
    }
    for k in 0..word.len()
        invariant
            len == bytes@.len(),
            i + word@.len() <= len,
            forall|j: int| 0 <= j < k ==> bytes@[i + j] as char == #[trigger] word@[j],
    {
        if bytes[i + k] as char != word[k] {
            assert(bytes@[i + k] as char != word@[k as int]);
            return false;
        }
    }
    true
}

/// Whether a word stands in the bytes at `i`.
pub fn is_spelled_text(bytes: &[u8], i: usize, word: &str) -> (r: bool)
    ensures
        r == spelled(bytes@, i as int, word@),
{
    is_spelled(bytes, i, &chars_of(word))
}

fn is_spelled_behind(bytes: &[u8], i: usize, gap: usize, word: &str) -> (r: bool)
    requires
        i <= bytes@.len(),
    ensures
        r == spelled(bytes@, i + gap, word@),
{
    bytes.len() - i >= gap && is_spelled_text(bytes, i + gap, word)
}

fn find_behind(bytes: &[u8], i: usize, gap: usize, word: &str) -> (r: Option<usize>)
    requires
        i <= bytes@.len(),
    ensures
        as_place(r) == behind(bytes@, i + gap, word@),
{
    let len: usize = bytes.len();
    if len - i < gap {
        return None;
    }
    let chars = chars_of(word);
    let mut at: usize = i + gap;
    while at < len
        invariant
            len == bytes@.len(),
            chars@ == word@,
            behind(bytes@, i + gap, word@) == behind(bytes@, at as int, word@),
        decreases len - at,
    {
        if is_spelled(bytes, at, &chars) {
            return Some(at + chars.len());
        }
        at += 1;
    }
    None
}

/// A place in the bytes as a number.
pub open spec fn as_place(place: Option<usize>) -> Option<int> {
    match place {
        Some(i) => Some(i as int),
        None => None,
    }
}

fn find_tag_end(bytes: &[u8], i: usize, gap: usize) -> (r: Option<usize>)
    requires
        i <= bytes@.len(),
    ensures
        as_place(r) == tag_end(bytes@, i + gap, 0),
{
    let len: usize = bytes.len();
    if len - i < gap {
        return None;
    }
    let mut at: usize = i + gap;
    let mut quote: u8 = 0;
    while at < len
        invariant
            len == bytes@.len(),
            tag_end(bytes@, i + gap, 0) == tag_end(bytes@, at as int, quote),
        decreases len - at,
    {
        let b: u8 = bytes[at];
        if quote != 0 {
            if b == quote {
                quote = 0;
            }
        } else if b == '>' as u8 {
            return Some(at);
        } else if b == '\'' as u8 || b == '"' as u8 {
            quote = b;
        }
        at += 1;
    }
    None
}

fn find_type_head_end(bytes: &[u8], i: usize) -> (r: Option<usize>)
    ensures
        as_place(r) == type_head_end(bytes@, i as int, 0),
{
    let len: usize = bytes.len();
    let mut at: usize = i;
    let mut quote: u8 = 0;
    while at < len
        invariant
            len == bytes@.len(),
            type_head_end(bytes@, i as int, 0) == type_head_end(bytes@, at as int, quote),
        decreases len - at,
    {
        let b: u8 = bytes[at];
        if quote != 0 {
            if b == quote {
                quote = 0;
            }
        } else if b == '>' as u8 || b == '[' as u8 {
            return Some(at);
        } else if b == '\'' as u8 || b == '"' as u8 {
            quote = b;
        }
        at += 1;
    }
    None
}

fn is_blank(b: u8) -> (r: bool)
    ensures
        r == blank(b),
{
    b == 32 || b == 9 || b == 10 || b == 13
}

fn find_name_end(bytes: &[u8], from: usize, end: usize) -> (r: usize)
    requires
        from <= end <= bytes@.len(),
    ensures
        r == name_end(bytes@, from as int, end as int),
        from <= r <= end,
{
    let mut i: usize = from;
    while i < end && !is_blank(bytes[i])
        invariant
            from <= i <= end <= bytes@.len(),
            name_end(bytes@, from as int, end as int) == name_end(bytes@, i as int, end as int),
        decreases end - i,
    {
        i += 1;
    }
    i
}

fn find_trimmed_end(bytes: &[u8], from: usize, end: usize) -> (r: usize)
    requires
        from <= end <= bytes@.len(),
    ensures
        r == trimmed_end(bytes@, from as int, end as int, end as int),
        from <= r <= end,
{
    let mut i: usize = end;
    while i > from
        invariant
            from <= i <= end <= bytes@.len(),
            trimmed_end(bytes@, from as int, end as int, end as int) == trimmed_end(
                bytes@,
                from as int,
                i as int,
                end as int,
            ),
        decreases i,
    {
        if !is_blank(bytes[i - 1]) {
            return i;
        }
        i -= 1;
    }
    end
}

/// Finds the start of a name's local part.
pub fn find_local_start(bytes: &[u8], from: usize, end: usize) -> (r: usize)
    requires
        from <= end <= bytes@.len(),
    ensures
        r == local_start(bytes@, from as int, from as int, end as int),
        from <= r <= end,
{
    let mut i: usize = from;
    while i < end
        invariant
            from <= i <= end <= bytes@.len(),
            local_start(bytes@, from as int, from as int, end as int) == local_start(
                bytes@,
                from as int,
                i as int,
                end as int,
            ),
        decreases end - i,
    {
        if bytes[i] == ':' as u8 {
            return i + 1;
        }
        i += 1;
    }
    from
}

fn find_behind_type_comment(bytes: &[u8], i: usize, gap: usize) -> (r: Option<usize>)
    requires
        i <= bytes@.len(),
    ensures
        as_place(r) == behind_type_comment(bytes@, i + gap, i + gap),
{
    let len: usize = bytes.len();
    if len - i < gap {
        return None;
    }
    let from: usize = i + gap;
    let mut j: usize = from;
    while j < len
        invariant
            len == bytes@.len(),
            from == i + gap,
            from <= j,
            behind_type_comment(bytes@, from as int, from as int) == behind_type_comment(
                bytes@,
                from as int,
                j as int,
            ),
        decreases len - j,
    {
        if bytes[j] == '>' as u8 {
            let plain: bool = j - from >= 2 && bytes[j - 1] == '-' as u8 && bytes[j - 2]
                == '-' as u8;
            let split: bool = j % CHUNK == 0 && j - from > CHUNK && bytes[j - 1] == '-' as u8
                && bytes[j - CHUNK - 1] == '-' as u8;
            if plain || split {
                return Some(j + 1);
            }
        }
        j += 1;
    }
    None
}

fn find_behind_tag(bytes: &[u8], i: usize, gap: usize) -> (r: Option<usize>)
    requires
        i <= bytes@.len(),
    ensures
        as_place(r) == behind_tag(bytes@, i + gap),
{
    let len: usize = bytes.len();
    proof {
        lemma_tag_end(bytes@, i + gap, 0);
    }
    match find_tag_end(bytes, i, gap) {
        Some(end) => Some(end + 1),
        None => None,
    }
}

fn find_behind_declaration(bytes: &[u8], i: usize) -> (r: Option<usize>)
    requires
        i <= bytes@.len(),
    ensures
        as_place(r) == behind_declaration(bytes@, i as int),
{
    if is_spelled_behind(bytes, i, 1, "?") {
        find_behind(bytes, i, 2, "?>")
    } else if is_spelled_behind(bytes, i, 1, "!--") {
        find_behind_type_comment(bytes, i, 4)
    } else if is_spelled_behind(bytes, i, 1, "!ENTITY") {
        find_behind_tag(bytes, i, 8)
    } else if is_spelled_behind(bytes, i, 1, "!ATTLIST") {
        find_behind_tag(bytes, i, 9)
    } else if is_spelled_behind(bytes, i, 1, "!NOTATION") {
        find_behind_tag(bytes, i, 10)
    } else {
        find_behind(bytes, i, 1, ">")
    }
}

fn find_behind_declarations(bytes: &[u8], i: usize) -> (r: Option<usize>)
    requires
        i <= bytes@.len(),
    ensures
        as_place(r) == behind_declarations(bytes@, i as int),
{
    let len: usize = bytes.len();
    let mut at: usize = i;
    while at < len
        invariant
            len == bytes@.len(),
            at <= len,
            behind_declarations(bytes@, i as int) == behind_declarations(bytes@, at as int),
        decreases len - at,
    {
        let b: u8 = bytes[at];
        if b == ']' as u8 {
            return Some(at + 1);
        } else if b == '<' as u8 {
            proof {
                lemma_behind_declaration(bytes@, at as int);
            }
            match find_behind_declaration(bytes, at) {
                Some(j) => {
                    at = j;
                },
                None => {
                    return None;
                },
            }
        } else {
            at += 1;
        }
    }
    None
}

fn find_behind_type(bytes: &[u8], i: usize) -> (r: Option<usize>)
    ensures
        as_place(r) == behind_type(bytes@, i as int),
{
    proof {
        lemma_type_head_end(bytes@, i as int, 0);
    }
    match find_type_head_end(bytes, i) {
        Some(j) => {
            if bytes[j] == '>' as u8 {
                Some(j + 1)
            } else {
                proof {
                    lemma_behind_declarations(bytes@, j + 1);
                }
                match find_behind_declarations(bytes, j + 1) {
                    Some(k) => find_behind(bytes, k, 0, ">"),
                    None => None,
                }
            }
        },
        None => None,
    }
}

fn does_name_type(bytes: &[u8], i: usize, end: usize) -> (r: bool)
    requires
        i <= end <= bytes@.len(),
    ensures
        r == names_type(bytes@, i as int, end as int),
{
    if end - i < 10 {
        return false;
    }
    let word = chars_of("doctype");
    proof {
        reveal_strlit("doctype");
    }
    for k in 0..word.len()
        invariant
            word@ == "doctype"@,
            word@.len() == 7,
            i + 10 <= end <= bytes@.len(),
            forall|j: int|
                0 <= j < k ==> small(bytes@[i + 2 + j]) as char == #[trigger] "doctype"@[j],
    {
        if small_of(bytes[i + 2 + k]) as char != word[k] {
            assert(small(bytes@[i + 2 + k]) as char != "doctype"@[k as int]);
            return false;
        }
    }
    let mut at: usize = i + 9;
    while at < end - 1
        invariant
            i + 10 <= end <= bytes@.len(),
            i + 9 <= at,
            forall|k: int| i + 9 <= k < at ==> blank(#[trigger] bytes@[k]),
            forall|j: int|
                0 <= j < "doctype"@.len() ==> small(bytes@[i + 2 + j]) as char
                    == #[trigger] "doctype"@[j],
        decreases end - at,
    {
        if !is_blank(bytes[at]) {
            assert(!blank(bytes@[at as int]));
            return true;
        }
        at += 1;
    }
    false
}

/// A piece of markup, with places in the bytes.
pub enum Token {
    Skip { end: usize },
    Open { from: usize, to: usize, empty: bool, end: usize },
    Close { from: usize, to: usize, end: usize },
    Broken,
}

impl View for Token {
    type V = TokenModel;

    open spec fn view(&self) -> TokenModel {
        match *self {
            Token::Skip { end } => TokenModel::Skip { end: end as int },
            Token::Open { from, to, empty, end } => TokenModel::Open {
                from: from as int,
                to: to as int,
                empty,
                end: end as int,
            },
            Token::Close { from, to, end } => TokenModel::Close {
                from: from as int,
                to: to as int,
                end: end as int,
            },
            Token::Broken => TokenModel::Broken,
        }
    }
}

fn read_skipped(end: Option<usize>) -> (r: Token)
    ensures
        r@ == skipped(as_place(end)),
{
    match end {
        Some(end) => Token::Skip { end },
        None => Token::Broken,
    }
}

fn read_bang_token(bytes: &[u8], i: usize) -> (r: Token)
    requires
        i < bytes@.len(),
    ensures
        r@ == bang_token(bytes@, i as int),
{
    let len: usize = bytes.len();
    if is_spelled_behind(bytes, i, 2, "--") {
        read_skipped(find_behind(bytes, i, 4, "-->"))
    } else if is_spelled_behind(bytes, i, 2, "[CDATA[") {
        read_skipped(find_behind(bytes, i, 9, "]]>"))
    } else if is_spelled_behind(bytes, i, 2, "D") || is_spelled_behind(bytes, i, 2, "d") {
        proof {
            reveal_strlit("D");
            reveal_strlit("d");
            lemma_behind_type(bytes@, i + 2);
        }
        assert(i + 3 <= len);
        match find_behind_type(bytes, i + 2) {
            Some(end) => {
                if does_name_type(bytes, i, end) {
                    Token::Skip { end }
                } else {
                    Token::Broken
                }
            },
            None => Token::Broken,
        }
    } else {
        Token::Broken
    }
}

/// Reads the markup that starts at `i`.
pub fn read_token(bytes: &[u8], i: usize) -> (r: Token)
    requires
        i < bytes@.len(),
        bytes@[i as int] == '<' as u8,
    ensures
        r@ == token(bytes@, i as int),
        match r@ {
            TokenModel::Skip { end } => i < end <= bytes@.len(),
            TokenModel::Open { from, to, end, .. } => i < from <= to < end <= bytes@.len(),
            TokenModel::Close { from, to, end } => i < from <= to < end <= bytes@.len(),
            TokenModel::Broken => true,
        },
{
    proof {
        lemma_token(bytes@, i as int);
        lemma_tag_end(bytes@, i + 1, 0);
    }
    if bytes.len() - i < 2 {
        Token::Broken
    } else if bytes[i + 1] == '!' as u8 {
        read_bang_token(bytes, i)
    } else if bytes[i + 1] == '?' as u8 {
        proof {
            lemma_behind(bytes@, i + 1, "?>"@);
        }
        match find_behind(bytes, i, 1, "?>") {
            Some(end) => if end - i == 3 {
                Token::Broken
            } else {
                Token::Skip { end }
            },
            None => Token::Broken,
        }
    } else {
        match find_tag_end(bytes, i, 1) {
            Some(end) => if bytes[i + 1] == '/' as u8 {
                proof {
                    lemma_tag_end(bytes@, i + 2, 0);
                }
                let to: usize = find_trimmed_end(bytes, i + 2, end);
                Token::Close { from: i + 2, to, end: end + 1 }
            } else if bytes[end - 1] == '/' as u8 {
                let to: usize = find_name_end(bytes, i + 1, end - 1);
                Token::Open { from: i + 1, to, empty: true, end: end + 1 }
            } else {
                let to: usize = find_name_end(bytes, i + 1, end);
                Token::Open { from: i + 1, to, empty: false, end: end + 1 }
            },
            None => Token::Broken,
        }
    }
}

/// Finds the end of a reference that goes on at `i`.
pub fn find_reference_end(bytes: &[u8], i: usize) -> (r: Option<usize>)
    ensures
        as_place(r) == reference_end(bytes@, i as int),
{
    let len: usize = bytes.len();
    let mut at: usize = i;
    while at < len
        invariant
            len == bytes@.len(),
            reference_end(bytes@, i as int) == reference_end(bytes@, at as int),
        decreases len - at,
    {
        let b: u8 = bytes[at];
        if b == '&' as u8 || b == '<' as u8 {
            return None;
        } else if b == ';' as u8 {
            return Some(at);
        }
        at += 1;
    }
    None
}

/// Reads the number of a reference by number.
pub fn read_code(bytes: &[u8], from: usize, to: usize) -> (r: Option<u32>)
    requires
        from <= to <= bytes@.len(),
    ensures
        r is Some <==> referred_code(bytes@, from as int, to as int) is Some,
        r matches Some(code) ==> referred_code(bytes@, from as int, to as int) == Some(
            code as int,
        ),
{
    let hex: bool = from < to && bytes[from] == 'x' as u8;
    let number: Option<u128> = if hex {
        read_digits(bytes, from + 1, to, 16)
    } else {
        read_digits(bytes, from, to, 10)
    };
    match number {
        Some(n) => if 0 < n && n <= 0x10_ffff && !(0xd800 <= n && n <= 0xdfff) {
            Some(n as u32)
        } else {
            None
        },
        None => None,
    }
}

/// Whether the bytes from `from` to `to` are a word.
pub fn is_spelled_out(bytes: &[u8], from: usize, to: usize, word: &str) -> (r: bool)
    requires
        from <= to,
    ensures
        r == spells(bytes@, from as int, to as int, word@),
{
    let chars = chars_of(word);
    to - from == chars.len() && is_spelled(bytes, from, &chars)
}

/// Adds the text that a reference stands for. False if it stands for none.
fn push_referred(bytes: &[u8], from: usize, to: usize, text: &mut Vec<u8>) -> (r: bool)
    requires
        from <= to <= bytes@.len(),
    ensures
        r == (referred_text(bytes@, from as int, to as int) is Some),
        r ==> final(text)@ == old(text)@ + referred_text(bytes@, from as int, to as int)->0,
{
    if from < to && bytes[from] == '#' as u8 {
        match read_code(bytes, from + 1, to) {
            Some(code) => {
                if code < 128 {
                    text.push(code as u8);
                } else {
                    text.push(128);
                    text.push(128);
                }
                true
            },
            None => false,
        }
    } else {
        if is_spelled_out(bytes, from, to, "lt") {
            text.push('<' as u8);
        } else if is_spelled_out(bytes, from, to, "gt") {
            text.push('>' as u8);
        } else if is_spelled_out(bytes, from, to, "amp") {
            text.push('&' as u8);
        } else if is_spelled_out(bytes, from, to, "apos") {
            text.push('\'' as u8);
        } else if is_spelled_out(bytes, from, to, "quot") {
            text.push('"' as u8);
        }
        true
    }
}

/// The content of an element, with places in the bytes.
pub struct Content {
    pub text: Vec<u8>,
    pub from: usize,
    pub to: usize,
    pub end: usize,
}

impl View for Content {
    type V = ContentModel;

    open spec fn view(&self) -> ContentModel {
        ContentModel {
            text: self.text@,
            from: self.from as int,
            to: self.to as int,
            end: self.end as int,
        }
    }
}

/// Reads the content of an element that starts at `i`.
pub fn read_content(bytes: &[u8], i: usize) -> (r: Option<Content>)
    requires
        i <= bytes@.len(),
    ensures
        r is Some <==> content(bytes@, i as int, Seq::empty()) is Some,
        r matches Some(c) ==> content(bytes@, i as int, Seq::empty()) == Some(c@) && i < c.from
            <= c.to < c.end <= bytes@.len(),
{
    let len: usize = bytes.len();
    let mut at: usize = i;
    let mut text: Vec<u8> = Vec::new();
    while at < len
        invariant
            i <= at <= len == bytes@.len(),
            content(bytes@, i as int, Seq::empty()) == content(bytes@, at as int, text@),
        decreases len - at,
    {
        let b: u8 = bytes[at];
        if b == '<' as u8 {
            match read_token(bytes, at) {
                Token::Skip { end } => {
                    at = end;
                },
                Token::Close { from, to, end } => {
                    return Some(Content { text, from, to, end });
                },
                _ => {
                    return None;
                },
            }
        } else if b == '&' as u8 {
            proof {
                lemma_reference_end(bytes@, at + 1);
            }
            match find_reference_end(bytes, at + 1) {
                Some(end) => {
                    if !push_referred(bytes, at + 1, end, &mut text) {
                        return None;
                    }
                    at = end + 1;
                },
                None => {
                    return None;
                },
            }
        } else {
            text.push(b);
            at += 1;
        }
    }
    None
}

/// A tag of letters ends at the `>` behind them, and its name is those letters, which have no part
/// before a colon.
pub proof fn lemma_letters_to_tag_end(bytes: Seq<u8>, i: int, end: int)
    requires
        0 <= i <= end < bytes.len(),
        forall|j: int| i <= j < end ==> 'a' as u8 <= #[trigger] bytes[j] <= 'z' as u8,
        bytes[end] == '>' as u8,
    ensures
        tag_end(bytes, i, 0) == Some(end),
        name_end(bytes, i, end) == end,
        forall|from: int| #[trigger] local_start(bytes, from, i, end) == from,
    decreases end - i,
{
    if i < end {
        lemma_letters_to_tag_end(bytes, i + 1, end);
        assert('a' as u8 <= bytes[i] <= 'z' as u8);
        assert forall|from: int| #[trigger] local_start(bytes, from, i, end) == from by {
            assert(local_start(bytes, from, i + 1, end) == from);
        }
    }
}

/// Text without markup and references stands for itself.
pub proof fn lemma_plain_text_is_content(bytes: Seq<u8>, i: int, end: int, so_far: Seq<u8>)
    requires
        0 <= i <= end <= bytes.len(),
        forall|j: int|
            i <= j < end ==> #[trigger] bytes[j] != '<' as u8 && bytes[j] != '&' as u8,
    ensures
        content(bytes, i, so_far) == content(bytes, end, so_far + bytes.subrange(i, end)),
    decreases end - i,
{
    if i < end {
        lemma_plain_text_is_content(bytes, i + 1, end, so_far.push(bytes[i]));
        assert(so_far.push(bytes[i]) + bytes.subrange(i + 1, end) =~= so_far + bytes.subrange(
            i,
            end,
        ));
        assert(bytes[i] != '<' as u8 && bytes[i] != '&' as u8);
    } else {
        assert(so_far + bytes.subrange(i, end) =~= so_far);
    }
}

/// A word of ASCII characters stands in bytes where each byte is the code of its character.
pub proof fn lemma_words_are_spelled(bytes: Seq<u8>, i: int, word: Seq<char>)
    requires
        forall|k: int| 0 <= k < word.len() ==> (#[trigger] word[k] as int) < 128,
    ensures
        spelled(bytes, i, word) <==> 0 <= i && i + word.len() <= bytes.len() && (forall|k: int|
            0 <= k < word.len() ==> bytes[i + k] == #[trigger] word[k] as int),
{
    if 0 <= i && i + word.len() <= bytes.len() && (forall|k: int|
        0 <= k < word.len() ==> bytes[i + k] == #[trigger] word[k] as int) {
        assert forall|k: int| 0 <= k < word.len() implies bytes[i + k] as char
            == #[trigger] word[k] by {
            assert(bytes[i + k] == word[k] as int);
        }
    }
    if spelled(bytes, i, word) {
        assert forall|k: int| 0 <= k < word.len() implies bytes[i + k]
            == #[trigger] word[k] as int by {
            assert(bytes[i + k] as char == word[k]);
        }
    }
}

/// The first place where a word stands is the one that no other stands before.
pub proof fn lemma_first_word(bytes: Seq<u8>, i: int, word: Seq<char>, at: int)
    requires
        0 <= i <= at < bytes.len(),
        forall|j: int| i <= j < at ==> !#[trigger] spelled(bytes, j, word),
        spelled(bytes, at, word),
    ensures
        behind(bytes, i, word) == Some(at + word.len()),
    decreases at - i,
{
    if i < at {
        assert(!spelled(bytes, i, word));
        lemma_first_word(bytes, i + 1, word, at);
    }
}

/// Comments, raw sections and instructions are passed over as a whole, whatever stands in them, up
/// to the first mark that ends them.
pub proof fn lemma_passed_over_as_a_whole(bytes: Seq<u8>, i: int, at: int)
    requires
        0 <= i < at < bytes.len(),
    ensures
        spelled(bytes, i, "<!--"@) && i + 4 <= at && spelled(bytes, at, "-->"@) && (forall|j: int|
            i + 4 <= j < at ==> !#[trigger] spelled(bytes, j, "-->"@)) ==> token(bytes, i) == (
        TokenModel::Skip { end: at + 3 }),
        spelled(bytes, i, "<![CDATA["@) && i + 9 <= at && spelled(bytes, at, "]]>"@) && (forall|
            j: int,
        |
            i + 9 <= j < at ==> !#[trigger] spelled(bytes, j, "]]>"@)) ==> token(bytes, i) == (
        TokenModel::Skip { end: at + 3 }),
        spelled(bytes, i, "<?"@) && i + 2 <= at && spelled(bytes, at, "?>"@) && (forall|j: int|
            i + 1 <= j < at ==> !#[trigger] spelled(bytes, j, "?>"@)) ==> token(bytes, i) == (
        TokenModel::Skip { end: at + 2 }),
{
    reveal_strlit("<!--");
    reveal_strlit("--");
    reveal_strlit("-->");
    reveal_strlit("<![CDATA[");
    reveal_strlit("[CDATA[");
    reveal_strlit("]]>");
    reveal_strlit("<?");
    reveal_strlit("?>");
    if spelled(bytes, i, "<!--"@) && i + 4 <= at && spelled(bytes, at, "-->"@) && (forall|j: int|
        i + 4 <= j < at ==> !#[trigger] spelled(bytes, j, "-->"@)) {
        lemma_first_word(bytes, i + 4, "-->"@, at);
        assert(bytes[i + 1] as char == "<!--"@[1]);
        assert(bytes[i + 2] as char == "<!--"@[2]);
        assert(bytes[i + 3] as char == "<!--"@[3]);
        assert(bytes[i + 2 + 0] as char == "--"@[0] && bytes[i + 2 + 1] as char == "--"@[1]);
        assert(spelled(bytes, i + 2, "--"@));
    }
    if spelled(bytes, i, "<![CDATA["@) && i + 9 <= at && spelled(bytes, at, "]]>"@) && (forall|
        j: int,
    |
        i + 9 <= j < at ==> !#[trigger] spelled(bytes, j, "]]>"@)) {
        lemma_first_word(bytes, i + 9, "]]>"@, at);
        assert(bytes[i + 1] as char == "<![CDATA["@[1]);
        assert(spelled(bytes, i + 2, "[CDATA["@)) by {
            assert forall|k: int| 0 <= k < 7 implies bytes[i + 2 + k] as char
                == #[trigger] "[CDATA["@[k] by {
                assert(bytes[i + (k + 2)] as char == "<![CDATA["@[k + 2]);
                assert("<![CDATA["@[k + 2] == "[CDATA["@[k]);
            }
        }
        assert(!spelled(bytes, i + 2, "--"@)) by {
            assert(bytes[i + 2 + 0] as char == "[CDATA["@[0]);
            if spelled(bytes, i + 2, "--"@) {
                assert(bytes[i + 2 + 0] as char == "--"@[0]);
            }
        }
    }
    if spelled(bytes, i, "<?"@) && i + 2 <= at && spelled(bytes, at, "?>"@) && (forall|j: int|
        i + 1 <= j < at ==> !#[trigger] spelled(bytes, j, "?>"@)) {
        lemma_first_word(bytes, i + 1, "?>"@, at);
        assert(bytes[i + 1] as char == "<?"@[1]);
    }
}

} // verus!
