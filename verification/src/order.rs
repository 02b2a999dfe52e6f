//! Order: the one way to line up indices by what they stand for.

use vstd::prelude::*;

verus! {

/// Whether `less` is a strict order in which two indices may rank the same: nothing is less
/// both ways, and what lies below one index lies below or above any third.
pub open spec fn ranks(less: spec_fn(int, int) -> bool) -> bool {
    &&& forall|a: int, b: int| #[trigger] less(a, b) ==> !less(b, a)
    &&& forall|a: int, b: int, c: int|
        #![trigger less(a, c), less(a, b)]
        #![trigger less(a, c), less(b, c)]
        less(a, c) ==> less(a, b) || less(b, c)
}

/// Whether index `a` comes before index `b`: it is less, or ranks the same and is the earlier.
pub open spec fn precedes(less: spec_fn(int, int) -> bool, a: int, b: int) -> bool {
    less(a, b) || (!less(b, a) && a < b)
}

/// Whether `p` lists the indices below `n` by `less`, those that rank the same in their own
/// order.
pub open spec fn lined_up(p: Seq<int>, n: nat, less: spec_fn(int, int) -> bool) -> bool {
    &&& p.len() == n
    &&& forall|i: int| 0 <= i < n ==> 0 <= #[trigger] p[i] < n
    &&& forall|i: int, j: int|
        0 <= i < j < n ==> precedes(less, #[trigger] p[i], #[trigger] p[j])
}

/// The indices below `n` listed by `less`, those that rank the same in their own order.
pub open spec fn line_up(n: nat, less: spec_fn(int, int) -> bool) -> Seq<int> {
    choose|p: Seq<int>| lined_up(p, n, less)
}

/// A line-up holds every index once.
pub proof fn lemma_lined_up_holds_all(p: Seq<int>, n: nat, less: spec_fn(int, int) -> bool)
    requires
        ranks(less),
        lined_up(p, n, less),
    ensures
        p.no_duplicates(),
        forall|a: int| 0 <= a < n ==> p.contains(a),
{
    assert forall|i: int, j: int| 0 <= i < j < n implies p[i] != p[j] by {
        assert(precedes(less, p[i], p[j]));
    }
    assert(p.no_duplicates());
    p.unique_seq_to_set();
    vstd::set_lib::lemma_int_range(0, n as int);
    let all = vstd::set_lib::set_int_range(0, n as int);
    assert(p.to_set().subset_of(all));
    vstd::set_lib::lemma_subset_equality(p.to_set(), all);
    assert forall|a: int| 0 <= a < n implies p.contains(a) by {
        assert(all.contains(a));
        assert(p.to_set().contains(a));
    }
}

/// There is only one line-up.
pub proof fn lemma_lined_up_unique(
    p: Seq<int>,
    q: Seq<int>,
    n: nat,
    less: spec_fn(int, int) -> bool,
)
    requires
        ranks(less),
        lined_up(p, n, less),
        lined_up(q, n, less),
    ensures
        p == q,
{
    lemma_lined_up_holds_all(p, n, less);
    lemma_lined_up_holds_all(q, n, less);
    lemma_agree_up_to(p, q, n, less, n);
    assert(p =~= q);
}

proof fn lemma_agree_up_to(
    p: Seq<int>,
    q: Seq<int>,
    n: nat,
    less: spec_fn(int, int) -> bool,
    k: nat,
)
    requires
        ranks(less),
        lined_up(p, n, less),
        lined_up(q, n, less),
        p.no_duplicates(),
        q.no_duplicates(),
        forall|a: int| 0 <= a < n ==> p.contains(a),
        forall|a: int| 0 <= a < n ==> q.contains(a),
        k <= n,
    ensures
        forall|i: int| 0 <= i < k ==> p[i] == q[i],
    decreases k,
{
    if k > 0 {
        let l = k - 1;
        lemma_agree_up_to(p, q, n, less, l as nat);
        if p[l] != q[l] {
            assert(p.contains(q[l]));
            assert(q.contains(p[l]));
            let i = choose|i: int| 0 <= i < p.len() && p[i] == q[l];
            let j = choose|j: int| 0 <= j < q.len() && q[j] == p[l];
            assert(i > l) by {
                if i < l {
                    assert(q[i] == q[l]);
                }
            }
            assert(j > l) by {
                if j < l {
                    assert(p[j] == p[l]);
                }
            }
            assert(precedes(less, p[l], p[i]));
            assert(precedes(less, q[l], q[j]));
        }
    }
}

/// A line-up is the line-up.
pub proof fn lemma_line_up_is(p: Seq<int>, n: nat, less: spec_fn(int, int) -> bool)
    requires
        ranks(less),
        lined_up(p, n, less),
    ensures
        line_up(n, less) == p,
{
    lemma_lined_up_unique(line_up(n, less), p, n, less);
}

/// Behind the last index that it is not less than, the next index finds its place.
pub proof fn lemma_place_next(
    p: Seq<int>,
    n: nat,
    less: spec_fn(int, int) -> bool,
    pos: int,
)
    requires
        ranks(less),
        lined_up(p, n, less),
        0 <= pos <= n,
        pos > 0 ==> !less(n as int, p[pos - 1]),
        forall|i: int| pos <= i < n ==> less(n as int, #[trigger] p[i]),
    ensures
        lined_up(p.insert(pos, n as int), n + 1, less),
{
    let q = p.insert(pos, n as int);
    assert forall|i: int| 0 <= i < pos implies !less(n as int, #[trigger] p[i]) by {
        if less(n as int, p[i]) && i < pos - 1 {
            assert(precedes(less, p[i], p[pos - 1]));
            assert(less(n as int, p[pos - 1]) || less(p[pos - 1], p[i]));
        }
    }
    assert forall|i: int, j: int| 0 <= i < j < n + 1 implies precedes(
        less,
        #[trigger] q[i],
        #[trigger] q[j],
    ) by {
        let a = if i < pos { i } else { i - 1 };
        let b = if j < pos { j } else { j - 1 };
        if i != pos && j != pos {
            assert(q[i] == p[a] && q[j] == p[b]);
        } else if i == pos {
            assert(q[j] == p[b]);
        } else {
            assert(q[i] == p[a]);
        }
    }
    assert forall|i: int| 0 <= i < n + 1 implies 0 <= #[trigger] q[i] < n + 1 by {
        if i < pos {
            assert(q[i] == p[i]);
        } else if i > pos {
            assert(q[i] == p[i - 1]);
        }
    }
}

/// A line-up exists.
pub proof fn lemma_line_up_exists(n: nat, less: spec_fn(int, int) -> bool)
    requires
        ranks(less),
    ensures
        lined_up(line_up(n, less), n, less),
    decreases n,
{
    if n == 0 {
        assert(lined_up(Seq::<int>::empty(), 0, less));
    } else {
        let m = (n - 1) as nat;
        lemma_line_up_exists(m, less);
        let p = line_up(m, less);
        let pos = place_from(p, m, less, m as int);
        lemma_place_from(p, m, less, m as int);
        lemma_place_next(p, m, less, pos);
        assert(lined_up(p.insert(pos, m as int), n, less));
    }
}

spec fn place_from(p: Seq<int>, n: nat, less: spec_fn(int, int) -> bool, pos: int) -> int
    decreases pos,
{
    if pos > 0 && less(n as int, p[pos - 1]) {
        place_from(p, n, less, pos - 1)
    } else {
        pos
    }
}

proof fn lemma_place_from(p: Seq<int>, n: nat, less: spec_fn(int, int) -> bool, pos: int)
    requires
        p.len() == n,
        0 <= pos <= n,
        forall|i: int| pos <= i < n ==> less(n as int, #[trigger] p[i]),
    ensures
        ({
            let at = place_from(p, n, less, pos);
            &&& 0 <= at <= n
            &&& at > 0 ==> !less(n as int, p[at - 1])
            &&& forall|i: int| at <= i < n ==> less(n as int, #[trigger] p[i])
        }),
    decreases pos,
{
    if pos > 0 && less(n as int, p[pos - 1]) {
        lemma_place_from(p, n, less, pos - 1);
    }
}

} // verus!
