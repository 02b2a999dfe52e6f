//! XML documents, as far as it takes to find a date that they cannot be read with.
//!
//! The `plist` crate turns the dates of an XML document into UTC, and panics where that leads
//! behind the year 9999. Such documents are told here, before they are read: the markup is
//! followed from the start, by the rules that the crate reads it by, up to the first date behind
//! that year or to the first fault.

use vstd::prelude::*;
use vstd::slice::slice_subrange;
use vstd::utf8::{decode_utf8, valid_utf8};

use crate::markup::{
    content, find_local_start, find_reference_end, is_spelled_out, is_spelled_text, lemma_content,
    lemma_letters_to_tag_end, lemma_plain_text_is_content, lemma_reference_end, lemma_token, local_start, read_code, read_content, read_token,
    reference_end, referred_code, spelled, spells, tag_end, token, Token, TokenModel,
};
use crate::scalars::{
    data_text, date_kind, integer_text, is_data_text, is_integer_text, is_real_text, judge_date,
    real_text, DateKind,
};
use crate::slots::as_numbers;

verus! {

/// `std::str::Utf8Error`: why bytes are no UTF-8.
#[verifier::external_type_specification]
#[verifier::external_body]
pub struct ExUtf8Error(std::str::Utf8Error);

/// `std::str::from_utf8` gives the text that bytes encode if they are valid UTF-8, and an error if
/// they are not.
pub assume_specification[ std::str::from_utf8 ](v: &[u8]) -> (r: Result<&str, std::str::Utf8Error>)
    ensures
        r is Ok <==> valid_utf8(v@),
        r matches Ok(s) ==> s@ == decode_utf8(v@),
;

/// What an element is for.
#[derive(Debug, Clone, Copy, PartialEq, Eq, Structural)]
pub enum ElementKind {
    /// The document itself.
    Document,
    Array,
    Dictionary,
    /// A string, or a key.
    Text,
    Data,
    Date,
    Integer,
    Real,
    /// True or false.
    Truth,
    Unknown,
}

/// What the element with the name from `from` to `to` is for. What stands before a colon in the
/// name does not count.
pub open spec fn kind_of(bytes: Seq<u8>, from: int, to: int) -> ElementKind {
    let local = local_start(bytes, from, from, to);
    if spells(bytes, local, to, "plist"@) {
        ElementKind::Document
    } else if spells(bytes, local, to, "array"@) {
        ElementKind::Array
    } else if spells(bytes, local, to, "dict"@) {
        ElementKind::Dictionary
    } else if spells(bytes, local, to, "key"@) || spells(bytes, local, to, "string"@) {
        ElementKind::Text
    } else if spells(bytes, local, to, "data"@) {
        ElementKind::Data
    } else if spells(bytes, local, to, "date"@) {
        ElementKind::Date
    } else if spells(bytes, local, to, "integer"@) {
        ElementKind::Integer
    } else if spells(bytes, local, to, "real"@) {
        ElementKind::Real
    } else if spells(bytes, local, to, "true"@) || spells(bytes, local, to, "false"@) {
        ElementKind::Truth
    } else {
        ElementKind::Unknown
    }
}

/// Whether two names are the same.
pub open spec fn same_name(bytes: Seq<u8>, a: (int, int), b: (int, int)) -> bool {
    bytes.subrange(a.0, a.1) == bytes.subrange(b.0, b.1)
}

/// A value that is being built.
#[derive(Debug, Clone, Copy, PartialEq, Eq, Structural)]
pub enum Building {
    /// The document's value, which is complete.
    Root,
    Array,
    /// A dictionary that waits for a key.
    Dictionary,
    /// A dictionary that waits for the value of a key.
    Entry,
}

/// The values being built once a complete value was put to them, or `None` if it has no place.
pub open spec fn put(values: Seq<Building>, text: bool) -> Option<Seq<Building>> {
    if values.len() == 0 {
        Some(seq![Building::Root])
    } else {
        match values.last() {
            Building::Root => None,
            Building::Array => Some(values),
            Building::Dictionary => if text {
                Some(values.drop_last().push(Building::Entry))
            } else {
                None
            },
            Building::Entry => Some(values.drop_last().push(Building::Dictionary)),
        }
    }
}

/// The values being built once the innermost array or dictionary was completed, or `None` if there
/// is none to complete.
pub open spec fn complete(values: Seq<Building>) -> Option<Seq<Building>> {
    if values.len() > 0 && (values.last() == Building::Array || values.last()
        == Building::Dictionary) {
        put(values.drop_last(), false)
    } else {
        None
    }
}

/// How many bytes the white space takes that stands at `i`; 0 if none does.
pub open spec fn space_len(bytes: Seq<u8>, i: int) -> int {
    let a = bytes[i];
    if 9 <= a <= 13 || a == 32 {
        1
    } else if i + 1 < bytes.len() && a == 0xc2 && (bytes[i + 1] == 0x85 || bytes[i + 1] == 0xa0) {
        2
    } else if i + 2 < bytes.len() && wide_space(a, bytes[i + 1], bytes[i + 2]) {
        3
    } else {
        0
    }
}

/// Whether three bytes are white space.
pub open spec fn wide_space(a: u8, b: u8, c: u8) -> bool {
    ||| a == 0xe1 && b == 0x9a && c == 0x80
    ||| a == 0xe2 && b == 0x80 && (0x80 <= c <= 0x8a || c == 0xa8 || c == 0xa9 || c == 0xaf)
    ||| a == 0xe2 && b == 0x81 && c == 0x9f
    ||| a == 0xe3 && b == 0x80 && c == 0x80
}

/// Whether a character is white space.
pub open spec fn space_code(code: int) -> bool {
    ||| 9 <= code <= 13
    ||| code == 32 || code == 0x85 || code == 0xa0 || code == 0x1680
    ||| 0x2000 <= code <= 0x200a
    ||| code == 0x2028 || code == 0x2029 || code == 0x202f || code == 0x205f || code == 0x3000
}

/// What is behind the reference at `i`, if it stands for white space.
pub open spec fn behind_space_reference(bytes: Seq<u8>, i: int) -> Option<int> {
    match reference_end(bytes, i + 1) {
        Some(end) => if i + 1 < end && bytes[i + 1] == '#' as u8 {
            match referred_code(bytes, i + 2, end) {
                Some(code) => if space_code(code) {
                    Some(end + 1)
                } else {
                    None
                },
                None => None,
            }
        } else {
            None
        },
        None => None,
    }
}

/// The text of an element with the given name whose content starts at `start`, and what is behind
/// the element, if it has no fault. An empty element has no text.
pub open spec fn element_text(
    bytes: Seq<u8>,
    name: (int, int),
    empty: bool,
    start: int,
) -> Option<(Seq<u8>, int)> {
    if empty {
        Some((Seq::empty(), start))
    } else {
        match content(bytes, start, Seq::empty()) {
            Some(c) => if same_name(bytes, name, (c.from, c.to)) {
                Some((c.text, c.end))
            } else {
                None
            },
            None => None,
        }
    }
}

/// Whether a text is one that an element of a kind can have.
pub open spec fn text_fits(kind: ElementKind, text: Seq<u8>) -> bool {
    match kind {
        ElementKind::Text => true,
        ElementKind::Data => data_text(text),
        ElementKind::Date => date_kind(text) == DateKind::InRange,
        ElementKind::Integer => integer_text(text),
        ElementKind::Real => real_text(text),
        _ => false,
    }
}

/// How far a document was followed: the place, the names of the elements that are open there,
/// and the values that are being built there, the innermost last.
pub struct WalkModel {
    pub at: int,
    pub open: Seq<(int, int)>,
    pub values: Seq<Building>,
}

/// What following a document a step further leads to.
pub enum WalkStep {
    /// A fault.
    Fault,
    /// A date behind the year 9999, and what is behind its element.
    Behind(int),
    /// A place from which to go on.
    Go(WalkModel),
}

/// A step to a place, with the values that are being built there; a fault if a value had no place.
pub open spec fn go(at: int, open: Seq<(int, int)>, values: Option<Seq<Building>>) -> WalkStep {
    match values {
        Some(values) => WalkStep::Go(WalkModel { at, open, values }),
        None => WalkStep::Fault,
    }
}

/// The values being built once an array or a dictionary was begun, and completed too if it is
/// empty.
pub open spec fn begun(values: Seq<Building>, item: Building, empty: bool) -> Option<
    Seq<Building>,
> {
    if empty {
        complete(values.push(item))
    } else {
        Some(values.push(item))
    }
}

/// The step over an element with text, from the start of its content.
pub open spec fn text_step(
    bytes: Seq<u8>,
    walk: WalkModel,
    kind: ElementKind,
    name: (int, int),
    empty: bool,
    start: int,
) -> WalkStep {
    match element_text(bytes, name, empty, start) {
        Some((text, after)) => if kind == ElementKind::Date && date_kind(text) == DateKind::Behind {
            WalkStep::Behind(after)
        } else if text_fits(kind, text) {
            go(after, walk.open, put(walk.values, kind == ElementKind::Text))
        } else {
            WalkStep::Fault
        },
        None => WalkStep::Fault,
    }
}

/// The step over a tag that opens an element, or over the whole element if it is one with text.
pub open spec fn open_step(
    bytes: Seq<u8>,
    walk: WalkModel,
    name: (int, int),
    empty: bool,
    end: int,
) -> WalkStep {
    let kind = kind_of(bytes, name.0, name.1);
    let open = if empty {
        walk.open
    } else {
        walk.open.push(name)
    };
    match kind {
        ElementKind::Unknown => WalkStep::Fault,
        ElementKind::Document => go(end, open, Some(walk.values)),
        ElementKind::Array => go(end, open, begun(walk.values, Building::Array, empty)),
        ElementKind::Dictionary => go(end, open, begun(walk.values, Building::Dictionary, empty)),
        ElementKind::Truth => go(end, open, put(walk.values, false)),
        _ => text_step(bytes, walk, kind, name, empty, end),
    }
}

/// The step over a tag that closes an element.
pub open spec fn close_step(
    bytes: Seq<u8>,
    walk: WalkModel,
    name: (int, int),
    end: int,
) -> WalkStep {
    let kind = kind_of(bytes, name.0, name.1);
    if walk.open.len() == 0 || !same_name(bytes, walk.open.last(), name) {
        WalkStep::Fault
    } else if kind == ElementKind::Array || kind == ElementKind::Dictionary {
        go(end, walk.open.drop_last(), complete(walk.values))
    } else {
        go(end, walk.open.drop_last(), Some(walk.values))
    }
}

/// The next step: over markup, over an element with text, or over white space between elements.
pub open spec fn step(bytes: Seq<u8>, walk: WalkModel) -> WalkStep {
    let i = walk.at;
    if bytes[i] == '<' as u8 {
        match token(bytes, i) {
            TokenModel::Skip { end } => go(end, walk.open, Some(walk.values)),
            TokenModel::Open { from, to, empty, end } => open_step(
                bytes,
                walk,
                (from, to),
                empty,
                end,
            ),
            TokenModel::Close { from, to, end } => close_step(bytes, walk, (from, to), end),
            TokenModel::Broken => WalkStep::Fault,
        }
    } else if bytes[i] == '&' as u8 {
        match behind_space_reference(bytes, i) {
            Some(end) => go(end, walk.open, Some(walk.values)),
            None => WalkStep::Fault,
        }
    } else if space_len(bytes, i) > 0 {
        go(i + space_len(bytes, i), walk.open, Some(walk.values))
    } else {
        WalkStep::Fault
    }
}

/// What is behind the first date behind the year 9999, if there is one and no fault before it.
pub open spec fn behind_last_date(bytes: Seq<u8>, walk: WalkModel) -> Option<int>
    decreases bytes.len() - walk.at,
    via last_date_ends
{
    if walk.at < 0 || walk.at >= bytes.len() {
        None
    } else {
        match step(bytes, walk) {
            WalkStep::Fault => None,
            WalkStep::Behind(end) => Some(end),
            WalkStep::Go(next) => behind_last_date(bytes, next),
        }
    }
}

#[via_fn]
proof fn last_date_ends(bytes: Seq<u8>, walk: WalkModel) {
    if 0 <= walk.at < bytes.len() {
        lemma_step(bytes, walk);
    }
}

/// A step leads further, and not beyond the end.
proof fn lemma_step(bytes: Seq<u8>, walk: WalkModel)
    requires
        0 <= walk.at < bytes.len(),
    ensures
        step(bytes, walk) matches WalkStep::Go(next) ==> walk.at < next.at <= bytes.len(),
        step(bytes, walk) matches WalkStep::Behind(end) ==> walk.at < end <= bytes.len(),
{
    lemma_reference_end(bytes, walk.at + 1);
    if bytes[walk.at] == '<' as u8 {
        lemma_token(bytes, walk.at);
        if let TokenModel::Open { from, to, empty, end } = token(bytes, walk.at) {
            lemma_content(bytes, end, Seq::empty());
        }
    }
}

/// Whether a document starts like one of the binary encoding, which is not read as XML.
pub open spec fn binary(bytes: Seq<u8>) -> bool {
    spelled(bytes, 0, "bplist00"@)
}

/// Where the text starts: behind a byte order mark, if there is one.
pub open spec fn text_start(bytes: Seq<u8>) -> int {
    if bytes.len() >= 3 && bytes[0] == 0xef && bytes[1] == 0xbb && bytes[2] == 0xbf {
        3
    } else {
        0
    }
}

/// The walk through a document at its start.
pub open spec fn walk_start(bytes: Seq<u8>) -> WalkModel {
    WalkModel { at: text_start(bytes), open: Seq::empty(), values: Seq::empty() }
}

/// Whether reading a document comes to a date behind the year 9999: read as XML it holds one, has
/// no fault before it, and is UTF-8 up to the date's end.
pub open spec fn last_day_date(bytes: Seq<u8>) -> bool {
    !binary(bytes) && match behind_last_date(bytes, walk_start(bytes)) {
        Some(end) => valid_utf8(bytes.subrange(text_start(bytes), end)),
        None => false,
    }
}

fn read_kind(bytes: &[u8], from: usize, to: usize) -> (r: ElementKind)
    requires
        from <= to <= bytes@.len(),
    ensures
        r == kind_of(bytes@, from as int, to as int),
{
    let local: usize = find_local_start(bytes, from, to);
    if is_spelled_out(bytes, local, to, "plist") {
        ElementKind::Document
    } else if is_spelled_out(bytes, local, to, "array") {
        ElementKind::Array
    } else if is_spelled_out(bytes, local, to, "dict") {
        ElementKind::Dictionary
    } else if is_spelled_out(bytes, local, to, "key") || is_spelled_out(
        bytes,
        local,
        to,
        "string",
    ) {
        ElementKind::Text
    } else if is_spelled_out(bytes, local, to, "data") {
        ElementKind::Data
    } else if is_spelled_out(bytes, local, to, "date") {
        ElementKind::Date
    } else if is_spelled_out(bytes, local, to, "integer") {
        ElementKind::Integer
    } else if is_spelled_out(bytes, local, to, "real") {
        ElementKind::Real
    } else if is_spelled_out(bytes, local, to, "true") || is_spelled_out(
        bytes,
        local,
        to,
        "false",
    ) {
        ElementKind::Truth
    } else {
        ElementKind::Unknown
    }
}

fn have_same_name(bytes: &[u8], a: (usize, usize), b: (usize, usize)) -> (r: bool)
    requires
        a.0 <= a.1 <= bytes@.len(),
        b.0 <= b.1 <= bytes@.len(),
    ensures
        r == same_name(bytes@, (a.0 as int, a.1 as int), (b.0 as int, b.1 as int)),
{
    let ghost x = bytes@.subrange(a.0 as int, a.1 as int);
    let ghost y = bytes@.subrange(b.0 as int, b.1 as int);
    let len: usize = a.1 - a.0;
    if len != b.1 - b.0 {
        assert(x.len() != y.len());
        return false;
    }
    for k in 0..len
        invariant
            a.0 + len == a.1 <= bytes@.len(),
            b.0 + len == b.1 <= bytes@.len(),
            x == bytes@.subrange(a.0 as int, a.1 as int),
            y == bytes@.subrange(b.0 as int, b.1 as int),
            forall|j: int| 0 <= j < k ==> x[j] == y[j],
    {
        if bytes[a.0 + k] != bytes[b.0 + k] {
            assert(x[k as int] != y[k as int]);
            return false;
        }
    }
    assert(x =~= y);
    true
}

/// Puts a complete value to those being built. False if it has no place.
fn put_value(values: &mut Vec<Building>, text: bool) -> (r: bool)
    ensures
        r == (put(old(values)@, text) is Some),
        r ==> put(old(values)@, text) == Some(final(values)@),
{
    let len: usize = values.len();
    if len == 0 {
        values.push(Building::Root);
        assert(values@ =~= seq![Building::Root]);
        return true;
    }
    match values[len - 1] {
        Building::Root => false,
        Building::Array => true,
        Building::Dictionary => {
            if text {
                values.set(len - 1, Building::Entry);
                assert(values@ =~= old(values)@.drop_last().push(Building::Entry));
            }
            text
        },
        Building::Entry => {
            values.set(len - 1, Building::Dictionary);
            assert(values@ =~= old(values)@.drop_last().push(Building::Dictionary));
            true
        },
    }
}

/// Completes the innermost array or dictionary. False if there is none to complete.
fn complete_value(values: &mut Vec<Building>) -> (r: bool)
    ensures
        r == (complete(old(values)@) is Some),
        r ==> complete(old(values)@) == Some(final(values)@),
{
    match values.pop() {
        Some(last) => {
            assert(values@ =~= old(values)@.drop_last());
            if last == Building::Array || last == Building::Dictionary {
                put_value(values, false)
            } else {
                false
            }
        },
        None => false,
    }
}

fn find_space_len(bytes: &[u8], i: usize) -> (r: usize)
    requires
        i < bytes@.len(),
    ensures
        r == space_len(bytes@, i as int),
        i + r <= bytes@.len(),
{
    let left: usize = bytes.len() - i;
    let a: u8 = bytes[i];
    if 9 <= a && a <= 13 || a == 32 {
        1
    } else if left > 1 && a == 0xc2 && (bytes[i + 1] == 0x85 || bytes[i + 1] == 0xa0) {
        2
    } else if left > 2 && is_wide_space(a, bytes[i + 1], bytes[i + 2]) {
        3
    } else {
        0
    }
}

fn is_wide_space(a: u8, b: u8, c: u8) -> (r: bool)
    ensures
        r == wide_space(a, b, c),
{
    (a == 0xe1 && b == 0x9a && c == 0x80) || (a == 0xe2 && b == 0x80 && (0x80 <= c && c <= 0x8a
        || c == 0xa8 || c == 0xa9 || c == 0xaf)) || (a == 0xe2 && b == 0x81 && c == 0x9f) || (a
        == 0xe3 && b == 0x80 && c == 0x80)
}

fn is_space_code(code: u32) -> (r: bool)
    ensures
        r == space_code(code as int),
{
    (9 <= code && code <= 13) || code == 32 || code == 0x85 || code == 0xa0 || code == 0x1680 || (
    0x2000 <= code && code <= 0x200a) || code == 0x2028 || code == 0x2029 || code == 0x202f || code
        == 0x205f || code == 0x3000
}

fn find_behind_space_reference(bytes: &[u8], i: usize) -> (r: Option<usize>)
    requires
        i < bytes@.len(),
    ensures
        r is Some <==> behind_space_reference(bytes@, i as int) is Some,
        r matches Some(end) ==> behind_space_reference(bytes@, i as int) == Some(end as int) && i
            < end <= bytes@.len(),
{
    let len: usize = bytes.len();
    proof {
        lemma_reference_end(bytes@, i + 1);
    }
    match find_reference_end(bytes, i + 1) {
        Some(end) => {
            if i + 1 < end && bytes[i + 1] == '#' as u8 {
                match read_code(bytes, i + 2, end) {
                    Some(code) => if is_space_code(code) {
                        Some(end + 1)
                    } else {
                        None
                    },
                    None => None,
                }
            } else {
                None
            }
        },
        None => None,
    }
}

fn does_text_fit(kind: ElementKind, text: &[u8]) -> (r: bool)
    ensures
        r == text_fits(kind, text@),
{
    match kind {
        ElementKind::Text => true,
        ElementKind::Data => is_data_text(text),
        ElementKind::Date => judge_date(text) == DateKind::InRange,
        ElementKind::Integer => is_integer_text(text),
        ElementKind::Real => is_real_text(text),
        _ => false,
    }
}

/// How far a document was followed.
struct Walk {
    at: usize,
    open: Vec<(usize, usize)>,
    values: Vec<Building>,
}

impl View for Walk {
    type V = WalkModel;

    closed spec fn view(&self) -> WalkModel {
        WalkModel { at: self.at as int, open: as_numbers(self.open@), values: self.values@ }
    }
}

impl Walk {
    /// Whether the names of the open elements lie in the bytes.
    spec fn names_lie_in(&self, bytes: Seq<u8>) -> bool {
        forall|k: int|
            0 <= k < self.open@.len() ==> (#[trigger] self.open@[k]).0 <= self.open@[k].1
                <= bytes.len()
    }
}

/// What following a document a step further led to.
enum Progress {
    Fault,
    Behind(usize),
    Go,
}

/// Whether a step led to what it should lead to.
spec fn stepped(bytes: Seq<u8>, r: Progress, after: Walk, should: WalkStep) -> bool {
    match r {
        Progress::Fault => should == WalkStep::Fault,
        Progress::Behind(end) => should == WalkStep::Behind(end as int),
        Progress::Go => should == WalkStep::Go(after@) && after.names_lie_in(bytes),
    }
}

fn read_element_text(bytes: &[u8], name: (usize, usize), empty: bool, start: usize) -> (r: Option<
    (Vec<u8>, usize),
>)
    requires
        name.0 <= name.1 <= bytes@.len(),
        start <= bytes@.len(),
    ensures
        r is Some <==> element_text(
            bytes@,
            (name.0 as int, name.1 as int),
            empty,
            start as int,
        ) is Some,
        r matches Some((text, after)) ==> element_text(
            bytes@,
            (name.0 as int, name.1 as int),
            empty,
            start as int,
        ) == Some((text@, after as int)),
{
    if empty {
        let text: Vec<u8> = Vec::new();
        assert(text@ =~= Seq::<u8>::empty());
        return Some((text, start));
    }
    match read_content(bytes, start) {
        Some(c) => {
            if have_same_name(bytes, name, (c.from, c.to)) {
                Some((c.text, c.end))
            } else {
                None
            }
        },
        None => None,
    }
}

fn take_text_step(
    bytes: &[u8],
    walk: &mut Walk,
    kind: ElementKind,
    name: (usize, usize),
    empty: bool,
    start: usize,
) -> (r: Progress)
    requires
        old(walk).names_lie_in(bytes@),
        name.0 <= name.1 <= bytes@.len(),
        start <= bytes@.len(),
    ensures
        stepped(
            bytes@,
            r,
            *final(walk),
            text_step(
                bytes@,
                old(walk)@,
                kind,
                (name.0 as int, name.1 as int),
                empty,
                start as int,
            ),
        ),
{
    match read_element_text(bytes, name, empty, start) {
        Some((text, after)) => {
            if kind == ElementKind::Date && judge_date(text.as_slice()) == DateKind::Behind {
                Progress::Behind(after)
            } else if does_text_fit(kind, text.as_slice()) && put_value(
                &mut walk.values,
                kind == ElementKind::Text,
            ) {
                walk.at = after;
                Progress::Go
            } else {
                Progress::Fault
            }
        },
        None => Progress::Fault,
    }
}

fn begin_value(values: &mut Vec<Building>, item: Building, empty: bool) -> (r: bool)
    ensures
        r == (begun(old(values)@, item, empty) is Some),
        r ==> begun(old(values)@, item, empty) == Some(final(values)@),
{
    values.push(item);
    !empty || complete_value(values)
}

fn take_open_step(
    bytes: &[u8],
    walk: &mut Walk,
    name: (usize, usize),
    empty: bool,
    end: usize,
) -> (r: Progress)
    requires
        old(walk).names_lie_in(bytes@),
        name.0 <= name.1 <= bytes@.len(),
        end <= bytes@.len(),
    ensures
        stepped(
            bytes@,
            r,
            *final(walk),
            open_step(bytes@, old(walk)@, (name.0 as int, name.1 as int), empty, end as int),
        ),
{
    let kind = read_kind(bytes, name.0, name.1);
    let placed: bool = match kind {
        ElementKind::Unknown => false,
        ElementKind::Document => true,
        ElementKind::Array => begin_value(&mut walk.values, Building::Array, empty),
        ElementKind::Dictionary => begin_value(&mut walk.values, Building::Dictionary, empty),
        ElementKind::Truth => put_value(&mut walk.values, false),
        _ => {
            return take_text_step(bytes, walk, kind, name, empty, end);
        },
    };
    if !placed {
        return Progress::Fault;
    }
    walk.at = end;
    if !empty {
        walk.open.push(name);
        assert(as_numbers(walk.open@) =~= as_numbers(old(walk).open@).push(
            (name.0 as int, name.1 as int),
        ));
    }
    Progress::Go
}

fn take_close_step(bytes: &[u8], walk: &mut Walk, name: (usize, usize), end: usize) -> (r: Progress)
    requires
        old(walk).names_lie_in(bytes@),
        name.0 <= name.1 <= bytes@.len(),
        end <= bytes@.len(),
    ensures
        stepped(
            bytes@,
            r,
            *final(walk),
            close_step(bytes@, old(walk)@, (name.0 as int, name.1 as int), end as int),
        ),
{
    let depth: usize = walk.open.len();
    if depth == 0 || !have_same_name(bytes, walk.open[depth - 1], name) {
        return Progress::Fault;
    }
    let kind = read_kind(bytes, name.0, name.1);
    if (kind == ElementKind::Array || kind == ElementKind::Dictionary) && !complete_value(
        &mut walk.values,
    ) {
        return Progress::Fault;
    }
    walk.open.pop();
    assert(as_numbers(walk.open@) =~= as_numbers(old(walk).open@).drop_last());
    walk.at = end;
    Progress::Go
}

fn take_step(bytes: &[u8], walk: &mut Walk) -> (r: Progress)
    requires
        old(walk).at < bytes@.len(),
        old(walk).names_lie_in(bytes@),
    ensures
        stepped(bytes@, r, *final(walk), step(bytes@, old(walk)@)),
{
    let i: usize = walk.at;
    if bytes[i] == '<' as u8 {
        match read_token(bytes, i) {
            Token::Skip { end } => {
                walk.at = end;
                Progress::Go
            },
            Token::Open { from, to, empty, end } => take_open_step(
                bytes,
                walk,
                (from, to),
                empty,
                end,
            ),
            Token::Close { from, to, end } => take_close_step(bytes, walk, (from, to), end),
            Token::Broken => Progress::Fault,
        }
    } else if bytes[i] == '&' as u8 {
        match find_behind_space_reference(bytes, i) {
            Some(end) => {
                walk.at = end;
                Progress::Go
            },
            None => Progress::Fault,
        }
    } else {
        let len: usize = find_space_len(bytes, i);
        if len > 0 {
            walk.at = i + len;
            Progress::Go
        } else {
            Progress::Fault
        }
    }
}

/// Tells whether reading a document comes to a date behind the year 9999.
pub fn has_last_day_date(bytes: &[u8]) -> (r: bool)
    ensures
        r == last_day_date(bytes@),
{
    let len: usize = bytes.len();
    if is_spelled_text(bytes, 0, "bplist00") {
        return false;
    }
    let start: usize = if len >= 3 && bytes[0] == 0xef && bytes[1] == 0xbb && bytes[2] == 0xbf {
        3
    } else {
        0
    };
    let mut walk = Walk { at: start, open: Vec::new(), values: Vec::new() };
    assert(walk@ == walk_start(bytes@)) by {
        assert(as_numbers(walk.open@) =~= Seq::empty());
        assert(walk.values@ =~= Seq::empty());
    }
    while walk.at < len
        invariant
            len == bytes@.len(),
            start == text_start(bytes@),
            !binary(bytes@),
            start <= walk.at <= len,
            walk.names_lie_in(bytes@),
            behind_last_date(bytes@, walk_start(bytes@)) == behind_last_date(bytes@, walk@),
        decreases len - walk.at,
    {
        proof {
            lemma_step(bytes@, walk@);
        }
        match take_step(bytes, &mut walk) {
            Progress::Fault => {
                return false;
            },
            Progress::Behind(end) => {
                return std::str::from_utf8(slice_subrange(bytes, start, end)).is_ok();
            },
            Progress::Go => {},
        }
    }
    false
}

proof fn lemma_last_date_is_spelled(bytes: Seq<u8>, walk: WalkModel)
    requires
        behind_last_date(bytes, walk) is Some,
    ensures
        exists|i: int|
            0 <= i && i + 4 <= bytes.len() && (#[trigger] bytes[i]) == 'd' as u8 && bytes[i + 1]
                == 'a' as u8 && bytes[i + 2] == 't' as u8 && bytes[i + 3] == 'e' as u8,
    decreases bytes.len() - walk.at,
{
    lemma_step(bytes, walk);
    match step(bytes, walk) {
        WalkStep::Go(next) => {
            lemma_last_date_is_spelled(bytes, next);
        },
        _ => {
            if let TokenModel::Open { from, to, empty, end } = token(bytes, walk.at) {
                let local = local_start(bytes, from, from, to);
                reveal_strlit("date");
                assert(spells(bytes, local, to, "date"@));
                assert("date"@[0] == 'd' && "date"@[1] == 'a' && "date"@[2] == 't' && "date"@[3]
                    == 'e');
                assert(bytes[local + 0] as char == 'd');
                assert(bytes[local + 1] as char == 'a');
                assert(bytes[local + 2] as char == 't');
                assert(bytes[local + 3] as char == 'e');
                assert(bytes[local] == 'd' as u8);
            }
        },
    }
}

/// Only XML documents are refused for a date, and only such as spell out a date element somewhere:
/// none of the binary encoding, and none without those letters.
pub proof fn lemma_refused_documents_spell_date(bytes: Seq<u8>)
    requires
        last_day_date(bytes),
    ensures
        !(bytes.len() >= 8 && bytes[0] == 'b' as u8 && bytes[1] == 'p' as u8 && bytes[2]
            == 'l' as u8 && bytes[3] == 'i' as u8 && bytes[4] == 's' as u8 && bytes[5] == 't' as u8
            && bytes[6] == '0' as u8 && bytes[7] == '0' as u8),
        exists|i: int|
            0 <= i && i + 4 <= bytes.len() && (#[trigger] bytes[i]) == 'd' as u8 && bytes[i + 1]
                == 'a' as u8 && bytes[i + 2] == 't' as u8 && bytes[i + 3] == 'e' as u8,
{
    lemma_last_date_is_spelled(bytes, walk_start(bytes));
    reveal_strlit("bplist00");
}

proof fn lemma_tag_of_letters(bytes: Seq<u8>, i: int, letters: Seq<u8>)
    requires
        0 <= i,
        letters.len() > 0,
        i + letters.len() + 2 <= bytes.len(),
        bytes[i] == '<' as u8,
        forall|k: int|
            0 <= k < letters.len() ==> bytes[i + 1 + k] == letters[k] && 'a' as u8
                <= #[trigger] letters[k] <= 'z' as u8,
        bytes[i + 1 + letters.len()] == '>' as u8,
    ensures
        token(bytes, i) == (TokenModel::Open {
            from: i + 1,
            to: i + 1 + letters.len(),
            empty: false,
            end: i + 2 + letters.len(),
        }),
        local_start(bytes, i + 1, i + 1, i + 1 + letters.len()) == i + 1,
{
    let end = i + 1 + letters.len();
    assert(bytes[i + 1 + 0] == letters[0]);
    assert forall|j: int| i + 1 <= j < end implies 'a' as u8 <= #[trigger] bytes[j]
        <= 'z' as u8 by {
        assert(bytes[i + 1 + (j - i - 1)] == letters[j - i - 1]);
    }
    lemma_letters_to_tag_end(bytes, i + 1, end);
    assert('a' as u8 <= bytes[end - 1] <= 'z' as u8);
}

proof fn lemma_kinds_of_plain_names(bytes: Seq<u8>, from: int)
    requires
        0 <= from,
    ensures
        from + 5 <= bytes.len() && bytes[from] == 'p' as u8 && bytes[from + 1] == 'l' as u8
            && bytes[from + 2] == 'i' as u8 && bytes[from + 3] == 's' as u8 && bytes[from + 4]
            == 't' as u8 && local_start(bytes, from, from, from + 5) == from ==> kind_of(
            bytes,
            from,
            from + 5,
        ) == ElementKind::Document,
        from + 4 <= bytes.len() && bytes[from] == 'd' as u8 && bytes[from + 1] == 'a' as u8
            && bytes[from + 2] == 't' as u8 && bytes[from + 3] == 'e' as u8 && local_start(
            bytes,
            from,
            from,
            from + 4,
        ) == from ==> kind_of(bytes, from, from + 4) == ElementKind::Date,
{
    reveal_strlit("plist");
    reveal_strlit("array");
    reveal_strlit("dict");
    reveal_strlit("key");
    reveal_strlit("string");
    reveal_strlit("data");
    reveal_strlit("date");
    if from + 4 <= bytes.len() && bytes[from] == 'd' as u8 && bytes[from + 1] == 'a' as u8
        && bytes[from + 2] == 't' as u8 && bytes[from + 3] == 'e' as u8 {
        assert("dict"@[1] == 'i' && "data"@[3] == 'a');
        assert(bytes[from + 1] as char == 'a' && bytes[from + 3] as char == 'e');
        assert(!spells(bytes, from, from + 4, "dict"@)) by {
            if spells(bytes, from, from + 4, "dict"@) {
                assert(bytes[from + 1] as char == "dict"@[1]);
            }
        }
        assert(!spells(bytes, from, from + 4, "data"@)) by {
            if spells(bytes, from, from + 4, "data"@) {
                assert(bytes[from + 3] as char == "data"@[3]);
            }
        }
        assert(spells(bytes, from, from + 4, "date"@)) by {
            assert forall|k: int| 0 <= k < 4 implies bytes[from + k] as char
                == #[trigger] "date"@[k] by {
                if k == 0 {
                } else if k == 1 {
                } else if k == 2 {
                }
            }
        }
    }
    if from + 5 <= bytes.len() && bytes[from] == 'p' as u8 && bytes[from + 1] == 'l' as u8
        && bytes[from + 2] == 'i' as u8 && bytes[from + 3] == 's' as u8 && bytes[from + 4]
        == 't' as u8 {
        assert(spells(bytes, from, from + 5, "plist"@)) by {
            assert forall|k: int| 0 <= k < 5 implies bytes[from + k] as char
                == #[trigger] "plist"@[k] by {
                if k == 0 {
                } else if k == 1 {
                } else if k == 2 {
                } else if k == 3 {
                }
            }
        }
    }
}

proof fn lemma_closing_date_tag(bytes: Seq<u8>, i: int)
    requires
        0 <= i,
        i + 7 <= bytes.len(),
        bytes[i] == '<' as u8,
        bytes[i + 1] == '/' as u8,
        bytes[i + 2] == 'd' as u8,
        bytes[i + 3] == 'a' as u8,
        bytes[i + 4] == 't' as u8,
        bytes[i + 5] == 'e' as u8,
        bytes[i + 6] == '>' as u8,
    ensures
        token(bytes, i) == (TokenModel::Close { from: i + 2, to: i + 6, end: i + 7 }),
{
    lemma_letters_to_tag_end(bytes, i + 2, i + 6);
    assert(tag_end(bytes, i + 1, 0) == tag_end(bytes, i + 2, 0));
}

proof fn lemma_walk_over_one_date(bytes: Seq<u8>, text: Seq<u8>)
    requires
        bytes.len() == text.len() + 20,
        bytes[0] == '<' as u8 && bytes[1] == 'p' as u8 && bytes[2] == 'l' as u8 && bytes[3]
            == 'i' as u8 && bytes[4] == 's' as u8 && bytes[5] == 't' as u8 && bytes[6] == '>' as u8,
        bytes[7] == '<' as u8 && bytes[8] == 'd' as u8 && bytes[9] == 'a' as u8 && bytes[10]
            == 't' as u8 && bytes[11] == 'e' as u8 && bytes[12] == '>' as u8,
        bytes.subrange(13, 13int + text.len()) == text,
        forall|j: int|
            13 <= j < 13 + text.len() ==> #[trigger] bytes[j] != '<' as u8 && bytes[j] != '&' as u8,
        bytes[13int + text.len()] == '<' as u8 && bytes[14int + text.len()] == '/' as u8,
        bytes[15int + text.len()] == 'd' as u8 && bytes[16int + text.len()] == 'a' as u8,
        bytes[17int + text.len()] == 't' as u8 && bytes[18int + text.len()] == 'e' as u8,
        bytes[19int + text.len()] == '>' as u8,
    ensures
        behind_last_date(
            bytes,
            WalkModel { at: 0, open: Seq::empty(), values: Seq::empty() },
        ) == (if date_kind(text) == DateKind::Behind {
            Some(bytes.len() as int)
        } else {
            None
        }),
{
    let start = WalkModel { at: 0, open: Seq::empty(), values: Seq::empty() };
    let e = 13 + text.len() as int;
    let plist = seq!['p' as u8, 'l' as u8, 'i' as u8, 's' as u8, 't' as u8];
    let date = seq!['d' as u8, 'a' as u8, 't' as u8, 'e' as u8];
    let next = WalkModel { at: 7, open: start.open.push((1, 6)), values: start.values };
    assert(step(bytes, start) == WalkStep::Go(next)) by {
        lemma_tag_of_letters(bytes, 0, plist);
        lemma_kinds_of_plain_names(bytes, 1);
    }
    assert(step(bytes, next) == text_step(bytes, next, ElementKind::Date, (8, 12), false, 13)) by {
        lemma_tag_of_letters(bytes, 7, date);
        lemma_kinds_of_plain_names(bytes, 8);
    }
    assert(element_text(bytes, (8, 12), false, 13) == Some((text, e + 7))) by {
        lemma_plain_text_is_content(bytes, 13, e, Seq::empty());
        assert(Seq::<u8>::empty() + text =~= text);
        lemma_closing_date_tag(bytes, e);
        assert(bytes.subrange(8, 12) =~= bytes.subrange(e + 2, e + 6));
    }
    assert(behind_last_date(bytes, start) == behind_last_date(bytes, next));
    if date_kind(text) == DateKind::InRange {
        let last = WalkModel { at: e + 7, open: next.open, values: seq![Building::Root] };
        assert(step(bytes, next) == WalkStep::Go(last));
        assert(behind_last_date(bytes, last) is None);
    }
}

/// A property list that holds a date and nothing else is refused if that date lies behind the year
/// 9999, and only then.
pub proof fn lemma_single_dates_are_judged(text: Seq<u8>)
    requires
        forall|j: int|
            0 <= j < text.len() ==> #[trigger] text[j] != '<' as u8 && text[j] != '&' as u8,
        valid_utf8(
            "<plist><date>"@.map_values(|c: char| c as u8) + text + "</date>"@.map_values(
                |c: char| c as u8,
            ),
        ),
    ensures
        last_day_date(
            "<plist><date>"@.map_values(|c: char| c as u8) + text + "</date>"@.map_values(
                |c: char| c as u8,
            ),
        ) <==> date_kind(text) == DateKind::Behind,
{
    let head = "<plist><date>"@.map_values(|c: char| c as u8);
    let tail = "</date>"@.map_values(|c: char| c as u8);
    let bytes = head + text + tail;
    let n = text.len() as int;
    reveal_strlit("<plist><date>");
    reveal_strlit("</date>");
    reveal_strlit("bplist00");
    assert(bytes.len() == n + 20);
    assert(bytes[0] == '<' as u8 && bytes[1] == 'p' as u8 && bytes[2] == 'l' as u8 && bytes[3]
        == 'i' as u8 && bytes[4] == 's' as u8 && bytes[5] == 't' as u8 && bytes[6] == '>' as u8);
    assert(bytes[7] == '<' as u8 && bytes[8] == 'd' as u8 && bytes[9] == 'a' as u8 && bytes[10]
        == 't' as u8 && bytes[11] == 'e' as u8 && bytes[12] == '>' as u8);
    let e = 13 + n;
    assert(bytes[e] == tail[0] && bytes[e + 1] == tail[1] && bytes[e + 2] == tail[2] && bytes[e + 3]
        == tail[3] && bytes[e + 4] == tail[4] && bytes[e + 5] == tail[5] && bytes[e + 6]
        == tail[6]);
    assert(!binary(bytes)) by {
        assert("bplist00"@[0] == 'b');
        assert(bytes[0int + 0int] as char != 'b');
    }
    assert(bytes.subrange(13, e) =~= text);
    assert forall|j: int| 13 <= j < e implies #[trigger] bytes[j] != '<' as u8 && bytes[j]
        != '&' as u8 by {
        assert(bytes[j] == text[j - 13]);
    }
    lemma_walk_over_one_date(bytes, text);
    assert(walk_start(bytes) == (WalkModel { at: 0, open: Seq::empty(), values: Seq::empty() }));
    assert(bytes.subrange(0, bytes.len() as int) =~= bytes);
}

} // verus!
