//! Text: the string operations that names, rows and file names are made with.

use vstd::prelude::*;

verus! {

/// `String::push` appends the given character to the end of the string.
pub assume_specification[ String::push ](s: &mut String, c: char)
    ensures
        final(s)@ == old(s)@.push(c),
;

/// What `str::to_lowercase` returns for a text: its lowercase equivalent by Unicode's tables.
pub uninterp spec fn lowercase_of(s: Seq<char>) -> Seq<char>;

/// Calls `str::to_lowercase`. The result is a function of the characters alone; which
/// characters it holds is left to Unicode's tables and is not stated.
#[verifier::external_body]
pub(crate) fn lowercase(s: &str) -> (r: String)
    ensures
        r@ == lowercase_of(s@),
{
    s.to_lowercase()
}

/// The characters of a text, in order.
pub fn chars_of(s: &str) -> (r: Vec<char>)
    ensures
        r@ == s@,
{
    let mut r: Vec<char> = Vec::new();
    for c in it: s.chars()
        invariant
            it.seq() == s@,
            r@ == s@.take(it.index() as int),
    {
        r.push(c);
    }
    assert(s@.take(s@.len() as int) =~= s@);
    r
}

/// Whether two texts hold the same characters.
pub fn same_text(a: &str, b: &str) -> (r: bool)
    ensures
        r == (a@ == b@),
{
    a.to_owned() == b.to_owned()
}

/// Whether `needle` stands somewhere in `hay`, its characters side by side.
pub open spec fn holds_text(hay: Seq<char>, needle: Seq<char>) -> bool {
    exists|i: int| #[trigger] stands_at(hay, needle, i)
}

/// Whether `needle` stands in `hay` from position `i` on.
pub open spec fn stands_at(hay: Seq<char>, needle: Seq<char>, i: int) -> bool {
    &&& 0 <= i
    &&& i + needle.len() <= hay.len()
    &&& hay.subrange(i, i + needle.len()) == needle
}

fn stands_from(hay: &Vec<char>, needle: &Vec<char>, i: usize) -> (r: bool)
    requires
        i + needle@.len() <= hay@.len(),
    ensures
        r == stands_at(hay@, needle@, i as int),
{
    let end: usize = hay.len();
    let mut k: usize = 0;
    while k < needle.len()
        invariant
            k <= needle@.len(),
            end == hay@.len(),
            i + needle@.len() <= end,
            forall|j: int| 0 <= j < k ==> hay@[i + j] == needle@[j],
        decreases needle@.len() - k,
    {
        if hay[i + k] != needle[k] {
            assert(hay@.subrange(i as int, i + needle@.len())[k as int] != needle@[k as int]);
            return false;
        }
        k += 1;
    }
    assert(hay@.subrange(i as int, i + needle@.len()) =~= needle@);
    true
}

/// Whether `hay` holds `needle`.
pub fn contains_text(hay: &str, needle: &str) -> (r: bool)
    ensures
        r == holds_text(hay@, needle@),
{
    let h = chars_of(hay);
    let n = chars_of(needle);
    if n.len() > h.len() {
        return false;
    }
    let last: usize = h.len() - n.len();
    for i in 0..last
        invariant
            h@ == hay@,
            n@ == needle@,
            last == h@.len() - n@.len(),
            forall|j: int| 0 <= j < i ==> !stands_at(h@, n@, j),
    {
        if stands_from(&h, &n, i) {
            return true;
        }
    }
    stands_from(&h, &n, last)
}

/// Whether `s` begins with `head`.
pub fn begins_with(s: &str, head: &str) -> (r: bool)
    ensures
        r == head@.is_prefix_of(s@),
{
    let h = chars_of(s);
    let n = chars_of(head);
    if n.len() > h.len() {
        return false;
    }
    stands_from(&h, &n, 0)
}

/// Whether `s` ends with `tail`.
pub fn ends_in(s: &str, tail: &str) -> (r: bool)
    ensures
        r == tail@.is_suffix_of(s@),
{
    let h = chars_of(s);
    let n = chars_of(tail);
    if n.len() > h.len() {
        return false;
    }
    let r = stands_from(&h, &n, h.len() - n.len());
    r
}

/// Whether `a` and `b` agree before position `k` and part there, `a` being the lesser: it
/// ends there, or holds the lesser character there.
pub open spec fn parts_lesser_at(a: Seq<char>, b: Seq<char>, k: int) -> bool {
    &&& 0 <= k < b.len()
    &&& k <= a.len()
    &&& forall|i: int| 0 <= i < k ==> a[i] == b[i]
    &&& k == a.len() || a[k] < b[k]
}

/// The order of texts: by their characters' code points, from the front.
pub open spec fn text_before(a: Seq<char>, b: Seq<char>) -> bool {
    exists|k: int| #[trigger] parts_lesser_at(a, b, k)
}

/// No text comes both before and after another.
pub proof fn lemma_text_before_asymmetric(a: Seq<char>, b: Seq<char>)
    ensures
        !(text_before(a, b) && text_before(b, a)),
{
    if text_before(a, b) && text_before(b, a) {
        let k = choose|k: int| #[trigger] parts_lesser_at(a, b, k);
        let l = choose|l: int| #[trigger] parts_lesser_at(b, a, l);
        if k < l {
            assert(a[k] == b[k]);
        } else if l < k {
            assert(a[l] == b[l]);
        }
    }
}

/// The order of texts carries over a middle text.
pub proof fn lemma_text_before_transitive(a: Seq<char>, b: Seq<char>, c: Seq<char>)
    requires
        text_before(a, b),
        text_before(b, c),
    ensures
        text_before(a, c),
{
    let k = choose|k: int| #[trigger] parts_lesser_at(a, b, k);
    let l = choose|l: int| #[trigger] parts_lesser_at(b, c, l);
    if k <= l {
        assert(parts_lesser_at(a, c, k));
    } else {
        assert(parts_lesser_at(a, c, l));
    }
}

/// Of two different texts one comes before the other.
pub proof fn lemma_text_before_total(a: Seq<char>, b: Seq<char>)
    ensures
        a == b || text_before(a, b) || text_before(b, a),
{
    lemma_text_before_total_from(a, b, 0);
}

proof fn lemma_text_before_total_from(a: Seq<char>, b: Seq<char>, k: int)
    requires
        0 <= k <= a.len(),
        k <= b.len(),
        forall|i: int| 0 <= i < k ==> a[i] == b[i],
    ensures
        a == b || text_before(a, b) || text_before(b, a),
    decreases a.len() - k,
{
    if k == a.len() || k == b.len() {
        if a.len() == b.len() {
            assert(a =~= b);
        } else if k == a.len() {
            assert(parts_lesser_at(a, b, k));
        } else {
            assert(parts_lesser_at(b, a, k));
        }
    } else if a[k] == b[k] {
        lemma_text_before_total_from(a, b, k + 1);
    } else if a[k] < b[k] {
        assert(parts_lesser_at(a, b, k));
    } else {
        assert(parts_lesser_at(b, a, k));
    }
}

/// Whether `a` comes before `b`.
pub fn comes_before(a: &str, b: &str) -> (r: bool)
    ensures
        r == text_before(a@, b@),
{
    let x = chars_of(a);
    let y = chars_of(b);
    let mut k: usize = 0;
    while k < x.len() && k < y.len()
        invariant
            x@ == a@,
            y@ == b@,
            k <= x@.len(),
            k <= y@.len(),
            forall|i: int| 0 <= i < k ==> x@[i] == y@[i],
        decreases x@.len() - k,
    {
        if x[k] != y[k] {
            let r = x[k] < y[k];
            proof {
                assert(r ==> parts_lesser_at(a@, b@, k as int));
                if !r {
                    assert(parts_lesser_at(b@, a@, k as int));
                    lemma_text_before_asymmetric(a@, b@);
                }
            }
            return r;
        }
        k += 1;
    }
    let r = k < y.len();
    proof {
        if r {
            assert(parts_lesser_at(a@, b@, k as int));
        } else if k < x@.len() {
            assert(parts_lesser_at(b@, a@, k as int));
            lemma_text_before_asymmetric(a@, b@);
        } else {
            assert(a@ =~= b@);
            lemma_text_before_asymmetric(a@, b@);
        }
    }
    r
}

/// The parts of a text between its commas; a text without one is one part.
pub open spec fn comma_parts(s: Seq<char>) -> Seq<Seq<char>>
    decreases s.len(),
{
    if s.len() == 0 {
        seq![Seq::empty()]
    } else {
        let before = comma_parts(s.drop_last());
        if s.last() == ',' {
            before.push(Seq::empty())
        } else {
            before.update(before.len() - 1, before.last().push(s.last()))
        }
    }
}

/// The texts written one after another with a comma between each two.
pub open spec fn joined_by_comma(parts: Seq<Seq<char>>) -> Seq<char>
    decreases parts.len(),
{
    if parts.len() == 0 {
        Seq::empty()
    } else if parts.len() == 1 {
        parts[0]
    } else {
        joined_by_comma(parts.drop_last()).push(',') + parts.last()
    }
}

/// Splitting loses nothing: the parts of a text hold no comma, and joined by commas they are
/// the text again.
pub proof fn lemma_comma_parts(s: Seq<char>)
    ensures
        comma_parts(s).len() >= 1,
        joined_by_comma(comma_parts(s)) == s,
        forall|i: int, j: int|
            0 <= i < comma_parts(s).len() && 0 <= j < comma_parts(s)[i].len()
                ==> #[trigger] comma_parts(s)[i][j] != ',',
    decreases s.len(),
{
    reveal_with_fuel(joined_by_comma, 2);
    if s.len() > 0 {
        let init = s.drop_last();
        lemma_comma_parts(init);
        let before = comma_parts(init);
        let now = comma_parts(s);
        assert(s =~= init.push(s.last()));
        if s.last() == ',' {
            assert(now.drop_last() =~= before);
            assert(joined_by_comma(now) =~= s);
        } else {
            assert(now.drop_last() =~= before.drop_last());
            assert(joined_by_comma(now) =~= s);
        }
    }
}

/// The views of the texts in a vector.
pub open spec fn texts(v: Seq<String>) -> Seq<Seq<char>> {
    v.map_values(|s: String| s@)
}

/// Splits a text at its commas.
pub fn split_at_commas(s: &str) -> (r: Vec<String>)
    ensures
        texts(r@) == comma_parts(s@),
{
    let chars = chars_of(s);
    let mut done: Vec<String> = Vec::new();
    let mut part = String::new();
    assert(texts(done@).push(part@) =~= comma_parts(chars@.take(0)));
    for i in 0..chars.len()
        invariant
            chars@ == s@,
            texts(done@).push(part@) == comma_parts(chars@.take(i as int)),
    {
        assert(chars@.take(i + 1).drop_last() =~= chars@.take(i as int));
        let ghost before = texts(done@).push(part@);
        if chars[i] == ',' {
            done.push(part);
            part = String::new();
            assert(texts(done@) =~= before);
        } else {
            part.push(chars[i]);
            assert(texts(done@).push(part@) =~= before.update(
                before.len() - 1,
                before.last().push(chars@[i as int]),
            ));
        }
    }
    assert(chars@.take(chars@.len() as int) =~= s@);
    let ghost before = texts(done@).push(part@);
    done.push(part);
    assert(texts(done@) =~= before);
    done
}

/// A text holds another if it is that text with something before and something behind it, both of
/// which may be empty.
pub proof fn lemma_text_is_held(hay: Seq<char>, needle: Seq<char>)
    ensures
        holds_text(hay, needle) <==> exists|before: Seq<char>, after: Seq<char>|
            hay == #[trigger] (before + needle + after),
{
    if holds_text(hay, needle) {
        let i = choose|i: int| #[trigger] stands_at(hay, needle, i);
        let before = hay.subrange(0, i);
        let after = hay.subrange(i + needle.len(), hay.len() as int);
        assert(hay =~= before + needle + after);
    }
    if exists|before: Seq<char>, after: Seq<char>| hay == #[trigger] (before + needle + after) {
        let (before, after) = choose|before: Seq<char>, after: Seq<char>|
            hay == #[trigger] (before + needle + after);
        let at = before.len() as int;
        assert(hay.subrange(at, at + needle.len()) =~= needle);
        assert(stands_at(hay, needle, before.len() as int));
    }
}

/// One text comes before another if it has the lesser character where they first differ, or ends
/// there, and only then.
pub proof fn lemma_order_of_texts(a: Seq<char>, b: Seq<char>, m: int)
    requires
        0 <= m <= a.len(),
        m <= b.len(),
        forall|q: int| 0 <= q < m ==> a[q] == b[q],
        m == a.len() || m == b.len() || a[m] != b[m],
    ensures
        text_before(a, b) <==> m < b.len() && (m == a.len() || a[m] < b[m]),
{
    if m < b.len() && (m == a.len() || a[m] < b[m]) {
        assert(parts_lesser_at(a, b, m));
    }
    if text_before(a, b) {
        let k = choose|k: int| #[trigger] parts_lesser_at(a, b, k);
        if k < m {
            assert(a[k] == b[k]);
        } else if m < k {
            assert(a[m] == b[m]);
        }
    }
}

/// A text without a comma is one part, and one with a comma has the parts of what stands before it
/// and the parts of what stands behind it.
pub proof fn lemma_commas_part_texts(a: Seq<char>, b: Seq<char>)
    ensures
        (forall|i: int| 0 <= i < a.len() ==> #[trigger] a[i] != ',') ==> comma_parts(a) == seq![a],
        comma_parts(a + seq![','] + b) == comma_parts(a) + comma_parts(b),
    decreases a.len() + b.len(),
{
    if forall|i: int| 0 <= i < a.len() ==> #[trigger] a[i] != ',' {
        lemma_one_part(a);
    }
    lemma_parts_join(a, b);
}

proof fn lemma_one_part(a: Seq<char>)
    requires
        forall|i: int| 0 <= i < a.len() ==> #[trigger] a[i] != ',',
    ensures
        comma_parts(a) == seq![a],
    decreases a.len(),
{
    if a.len() == 0 {
        assert(a =~= Seq::empty());
        assert(comma_parts(a) =~= seq![a]);
    } else {
        let init = a.drop_last();
        lemma_one_part(init);
        assert(a[a.len() - 1] != ',');
        assert(init.push(a.last()) =~= a);
        assert(comma_parts(a) =~= seq![a]);
    }
}

proof fn lemma_parts_join(a: Seq<char>, b: Seq<char>)
    ensures
        comma_parts(a + seq![','] + b) == comma_parts(a) + comma_parts(b),
    decreases b.len(),
{
    let whole = a + seq![','] + b;
    if b.len() == 0 {
        assert(whole =~= a.push(','));
        assert(whole.drop_last() =~= a);
        assert(b =~= Seq::empty());
        assert(comma_parts(whole) =~= comma_parts(a) + comma_parts(b));
    } else {
        let init = b.drop_last();
        lemma_parts_join(a, init);
        lemma_comma_parts(init);
        assert(whole.drop_last() =~= a + seq![','] + init);
        assert(whole.last() == b.last());
        assert(comma_parts(whole) =~= comma_parts(a) + comma_parts(b));
    }
}

/// Contracts speak of rows of texts by the texts in their order.
pub proof fn lemma_rows_show_texts(v: Seq<String>, i: int)
    ensures
        texts(v).len() == v.len(),
        0 <= i < v.len() ==> texts(v)[i] == v[i]@,
{
}

} // verus!
