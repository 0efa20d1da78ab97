use vstd::prelude::*;

verus! {

/// `a` comes before `b` in a ranking by key, highest first: a higher key wins, and on equal
/// keys the item that came first in the input stays first.
pub open spec fn ranked_before(keys: Seq<int>, a: int, b: int) -> bool {
    keys[a] > keys[b] || (keys[a] == keys[b] && a < b)
}

/// `r` lists exactly the indices that satisfy `member`, once each, highest key first and
/// equal keys in input order.  There is one such sequence for each key list and member set.
pub open spec fn is_ranking(keys: Seq<int>, member: spec_fn(int) -> bool, r: Seq<usize>) -> bool {
    &&& r.no_duplicates()
    &&& forall|q: int| 0 <= q < r.len() ==> (r[q] as int) < keys.len()
    &&& forall|q: int| #![trigger r[q]] 0 <= q < r.len() ==> member(r[q] as int)
    &&& forall|i: int| 0 <= i < keys.len() && #[trigger] member(i) ==> r.contains(i as usize)
    &&& forall|p: int, q: int|
        #![trigger r[p], r[q]]
        0 <= p < q < r.len() ==> ranked_before(keys, r[p] as int, r[q] as int)
}

/// The keys of a ranking never increase along it.
pub proof fn lemma_ranking_non_increasing(
    keys: Seq<int>,
    member: spec_fn(int) -> bool,
    r: Seq<usize>,
)
    requires
        is_ranking(keys, member, r),
    ensures
        forall|p: int, q: int| 0 <= p <= q < r.len() ==> keys[r[p] as int] >= keys[r[q] as int],
{
    assert forall|p: int, q: int| 0 <= p <= q < r.len() implies keys[r[p] as int] >= keys[
        r[q] as int] by {
        if p < q {
            assert(ranked_before(keys, r[p] as int, r[q] as int));
        }
    }
}

proof fn lemma_rankings_agree_below(keys: Seq<int>, member: spec_fn(int) -> bool, r1: Seq<usize>, r2: Seq<usize>, k: int)
    requires
        is_ranking(keys, member, r1),
        is_ranking(keys, member, r2),
        r1.len() == r2.len(),
        0 <= k <= r1.len(),
    ensures
        forall|p: int| 0 <= p < k ==> r1[p] == r2[p],
    decreases k,
{
    if k > 0 {
        lemma_rankings_agree_below(keys, member, r1, r2, k - 1);
        let p = k - 1;
        let a = r1[p];
        let b = r2[p];
        if a != b {
            assert(member(a as int));
            assert(member(b as int));
            lemma_ranking_complete(keys, member, r2, a as int);
            lemma_ranking_complete(keys, member, r1, b as int);
            let q = choose|q: int| 0 <= q < r2.len() && r2[q] == a;
            let q2 = choose|q2: int| 0 <= q2 < r1.len() && r1[q2] == b;
            if q < p {
                assert(r1[q] == r2[q]);
            }
            if q2 < p {
                assert(r1[q2] == r2[q2]);
            }
            assert(ranked_before(keys, r2[p] as int, r2[q] as int));
            assert(ranked_before(keys, r1[p] as int, r1[q2] as int));
        }
    }
}

/// A ranking is unique: two rankings of the same members by the same keys are equal.
pub proof fn lemma_ranking_unique(keys: Seq<int>, member: spec_fn(int) -> bool, r1: Seq<usize>, r2: Seq<usize>)
    requires
        is_ranking(keys, member, r1),
        is_ranking(keys, member, r2),
    ensures
        r1 == r2,
{
    assert(r1.to_set() =~= r2.to_set()) by {
        assert forall|x: usize| r1.to_set().contains(x) implies r2.to_set().contains(x) by {
            let q = choose|q: int| 0 <= q < r1.len() && r1[q] == x;
            lemma_ranking_complete(keys, member, r2, x as int);
        }
        assert forall|x: usize| r2.to_set().contains(x) implies r1.to_set().contains(x) by {
            let q = choose|q: int| 0 <= q < r2.len() && r2[q] == x;
            lemma_ranking_complete(keys, member, r1, x as int);
        }
    }
    r1.unique_seq_to_set();
    r2.unique_seq_to_set();
    lemma_rankings_agree_below(keys, member, r1, r2, r1.len() as int);
    assert(r1 =~= r2);
}

/// Every member is in the ranking.
pub proof fn lemma_ranking_complete(keys: Seq<int>, member: spec_fn(int) -> bool, r: Seq<usize>, i: int)
    requires
        is_ranking(keys, member, r),
        0 <= i < keys.len(),
        member(i),
    ensures
        r.contains(i as usize),
{
}

/// Index `i` is one of those listed in `s`.
pub open spec fn listed(s: Seq<usize>, i: int) -> bool {
    0 <= i <= usize::MAX && s.contains(i as usize)
}

/// A ranking stays one for any description of the same members.
pub proof fn lemma_ranking_same_members(
    keys: Seq<int>,
    m1: spec_fn(int) -> bool,
    m2: spec_fn(int) -> bool,
    r: Seq<usize>,
)
    requires
        is_ranking(keys, m1, r),
        forall|i: int| 0 <= i < keys.len() ==> #[trigger] m1(i) == m2(i),
    ensures
        is_ranking(keys, m2, r),
{
    assert forall|q: int| #![trigger r[q]] 0 <= q < r.len() implies m2(r[q] as int) by {
        assert(m1(r[q] as int));
    }
    assert forall|i: int| 0 <= i < keys.len() && #[trigger] m2(i) implies r.contains(i as usize) by {
        assert(m1(i));
    }
}

/// Ranks the indices listed in `members` by `keys`, highest first; equal keys keep the order
/// of their indices, which is the order of the input.
pub(crate) fn rank_by<F: Fn(usize, usize) -> bool>(keys: Ghost<Seq<int>>, before: F, members: &Vec<usize>) -> (r: Vec<usize>)
    requires
        forall|a: usize, b: usize| (a as int) < keys@.len() && (b as int) < keys@.len() ==> #[trigger] before.requires((a, b)),
        forall|a: usize, b: usize, r: bool| #[trigger] before.ensures((a, b), r) ==> r == ranked_before(keys@, a as int, b as int),
        members@.no_duplicates(),
        forall|q: int| 0 <= q < members@.len() ==> (members@[q] as int) < keys@.len(),
    ensures
        r@.len() == members@.len(),
        is_ranking(keys@, |i: int| listed(members@, i), r@),
{
    let ghost member = |i: int| listed(members@, i);
    let mut r: Vec<usize> = Vec::new();
    let mut k: usize = 0;
    while k < members.len()
        invariant
            k <= members@.len(),
            r@.len() == k,
            forall|a: usize, b: usize| (a as int) < keys@.len() && (b as int) < keys@.len() ==> #[trigger] before.requires((a, b)),
            forall|a: usize, b: usize, r: bool| #[trigger] before.ensures((a, b), r) ==> r == ranked_before(keys@, a as int, b as int),
            members@.no_duplicates(),
            forall|q: int| 0 <= q < members@.len() ==> (members@[q] as int) < keys@.len(),
            r@.no_duplicates(),
            forall|q: int| 0 <= q < r@.len() ==> (r@[q] as int) < keys@.len(),
            forall|q: int| 0 <= q < r@.len() ==> #[trigger] members@.subrange(0, k as int).contains(r@[q]),
            forall|q: int| 0 <= q < k ==> r@.contains(#[trigger] members@[q]),
            forall|p: int, q: int|
                #![trigger r@[p], r@[q]]
                0 <= p < q < r@.len() ==> ranked_before(keys@, r@[p] as int, r@[q] as int),
        decreases members@.len() - k,
    {
        let m = members[k];
        let mut pos: usize = 0;
        let mut found = false;
        while !found && pos < r.len()
            invariant
                pos <= r@.len(),
                (m as int) < keys@.len(),
                forall|a: usize, b: usize| (a as int) < keys@.len() && (b as int) < keys@.len() ==> #[trigger] before.requires((a, b)),
                forall|a: usize, b: usize, r: bool| #[trigger] before.ensures((a, b), r) ==> r == ranked_before(keys@, a as int, b as int),
                forall|q: int| 0 <= q < r@.len() ==> (r@[q] as int) < keys@.len(),
                found ==> pos < r@.len() && ranked_before(keys@, m as int, r@[pos as int] as int),
                forall|q: int| 0 <= q < pos ==> !ranked_before(keys@, m as int, #[trigger] r@[q] as int),
            decreases r@.len() - pos + (if found { 0int } else { 1int }),
        {
            let other = r[pos];
            if before(m, other) {
                found = true;
            } else {
                pos = pos + 1;
            }
        }
        proof {
            assert forall|q: int| 0 <= q < r@.len() implies r@[q] != m by {
                assert(members@.subrange(0, k as int).contains(r@[q]));
                let j = choose|j: int| 0 <= j < k && members@.subrange(0, k as int)[j] == r@[q];
                assert(members@[j] == r@[q]);
            }
        }
        let ghost old_r = r@;
        r.insert(pos, m);
        proof {
            assert(r@ == old_r.insert(pos as int, m));
            assert forall|q: int| 0 <= q < r@.len() implies #[trigger] members@.subrange(0, k + 1).contains(r@[q]) by {
                if q == pos {
                    assert(members@.subrange(0, k + 1)[k as int] == m);
                } else {
                    let q2 = if q < pos { q } else { q - 1 };
                    assert(r@[q] == old_r[q2]);
                    assert(members@.subrange(0, k as int).contains(old_r[q2]));
                    let j = choose|j: int| 0 <= j < k && members@.subrange(0, k as int)[j] == old_r[q2];
                    assert(members@.subrange(0, k + 1)[j] == old_r[q2]);
                }
            }
            assert forall|q: int| 0 <= q < k + 1 implies r@.contains(#[trigger] members@[q]) by {
                if q == k {
                    assert(r@[pos as int] == m);
                } else {
                    assert(old_r.contains(members@[q]));
                    let j = choose|j: int| 0 <= j < old_r.len() && old_r[j] == members@[q];
                    if j < pos {
                        assert(r@[j] == members@[q]);
                    } else {
                        assert(r@[j + 1] == members@[q]);
                    }
                }
            }
            assert forall|p: int, q: int|
                #![trigger r@[p], r@[q]]
                0 <= p < q < r@.len() implies ranked_before(keys@, r@[p] as int, r@[q] as int) by {
                if q < pos {
                } else if q == pos {
                    assert(r@[q] == m);
                    assert(r@[p] == old_r[p]);
                    assert(!ranked_before(keys@, m as int, old_r[p] as int));
                    assert(old_r[p] != m);
                } else if p < pos {
                    assert(r@[q] == old_r[q - 1]);
                    assert(r@[p] == old_r[p]);
                } else if p == pos {
                    assert(r@[q] == old_r[q - 1]);
                    if q - 1 > pos {
                        assert(ranked_before(keys@, old_r[pos as int] as int, old_r[q - 1] as int));
                    }
                } else {
                    assert(r@[q] == old_r[q - 1]);
                    assert(r@[p] == old_r[p - 1]);
                }
            }
            assert forall|p: int, q: int|
                #![trigger r@[p], r@[q]]
                0 <= p < q < r@.len() implies r@[p] != r@[q] by {
                assert(ranked_before(keys@, r@[p] as int, r@[q] as int));
            }
        }
        k = k + 1;
    }
    proof {
        assert(members@.subrange(0, k as int) =~= members@);
        assert forall|q: int| 0 <= q < r@.len() implies (r@[q] as int) < keys@.len() by {
            assert(members@.contains(r@[q]));
        }
        assert forall|q: int| #![trigger r@[q]] 0 <= q < r@.len() implies member(r@[q] as int) by {
            assert(members@.contains(r@[q]));
        }
        assert forall|i: int| 0 <= i < keys@.len() && #[trigger] member(i) implies r@.contains(
            i as usize,
        ) by {
            let j = choose|j: int| 0 <= j < members@.len() && members@[j] == i as usize;
            assert(r@.contains(members@[j]));
        }
    }
    r
}

/// The keys as mathematical integers.
pub open spec fn wide(keys: Seq<i128>) -> Seq<int> {
    keys.map_values(|k: i128| k as int)
}

/// Ranks the indices listed in `members` by `keys`, highest first; equal keys keep the order
/// of their indices, which is the order of the input.
pub fn rank_indices(keys: &Vec<i128>, members: &Vec<usize>) -> (r: Vec<usize>)
    requires
        members@.no_duplicates(),
        forall|q: int| 0 <= q < members@.len() ==> (members@[q] as int) < keys@.len(),
    ensures
        r@.len() == members@.len(),
        is_ranking(wide(keys@), |i: int| listed(members@, i), r@),
{
    let before = |a: usize, b: usize| -> (r: bool)
        requires
            (a as int) < keys@.len(),
            (b as int) < keys@.len(),
        ensures
            r == ranked_before(wide(keys@), a as int, b as int),
        { keys[a] > keys[b] || (keys[a] == keys[b] && a < b) };
    rank_by(Ghost(wide(keys@)), before, members)
}

} // verus!
