use vstd::prelude::*;

use crate::parse::{parse_results, spec_candidates, str_eq};

verus! {

/// Aggregate over the candidates whose suffix text equals the queried
/// digest's suffix: how many records matched and how often the password was
/// seen, the completed lookup's immutable result.
#[derive(Clone, Copy, Debug)]
pub struct BreachResult {
    /// Number of matching candidate records.
    pub sites: usize,
    /// Total of the matching records' counts, clipped to what a u64 carries.
    pub occurrences: u64,
}

/// The candidates whose suffix text equals `sfx`, in their order.
pub open spec fn matching(cands: Seq<(Seq<char>, u64)>, sfx: Seq<char>) -> Seq<(Seq<char>, u64)>
    decreases cands.len(),
{
    if cands.len() == 0 {
        Seq::empty()
    } else {
        (if cands[0].0 == sfx {
            seq![cands[0]]
        } else {
            Seq::empty()
        }) + matching(cands.drop_first(), sfx)
    }
}

/// Sum of the counts of a candidate list.
pub open spec fn sum_counts(cands: Seq<(Seq<char>, u64)>) -> int
    decreases cands.len(),
{
    if cands.len() == 0 {
        0
    } else {
        cands[0].1 + sum_counts(cands.drop_first())
    }
}

/// A total clipped to what a u64 can carry.
pub open spec fn saturated(total: int) -> int {
    if total <= u64::MAX {
        total
    } else {
        u64::MAX as int
    }
}

/// Filtering for a suffix distributes over concatenation.
pub proof fn lemma_matching_add(a: Seq<(Seq<char>, u64)>, b: Seq<(Seq<char>, u64)>, sfx: Seq<char>)
    ensures
        matching(a + b, sfx) == matching(a, sfx) + matching(b, sfx),
    decreases a.len(),
{
    if a.len() == 0 {
        assert(a + b =~= b);
        assert(matching(a, sfx) + matching(b, sfx) =~= matching(b, sfx));
    } else {
        assert((a + b).drop_first() =~= a.drop_first() + b);
        assert((a + b)[0] == a[0]);
        lemma_matching_add(a.drop_first(), b, sfx);
        let head = if a[0].0 == sfx {
            seq![a[0]]
        } else {
            Seq::<(Seq<char>, u64)>::empty()
        };
        assert(matching(a + b, sfx) == head + (matching(a.drop_first(), sfx) + matching(b, sfx)));
        assert(head + (matching(a.drop_first(), sfx) + matching(b, sfx)) =~= (head + matching(
            a.drop_first(),
            sfx,
        )) + matching(b, sfx));
    }
}

/// Summing counts distributes over concatenation.
pub proof fn lemma_sum_counts_add(a: Seq<(Seq<char>, u64)>, b: Seq<(Seq<char>, u64)>)
    ensures
        sum_counts(a + b) == sum_counts(a) + sum_counts(b),
    decreases a.len(),
{
    if a.len() == 0 {
        assert(a + b =~= b);
    } else {
        assert((a + b).drop_first() =~= a.drop_first() + b);
        assert((a + b)[0] == a[0]);
        lemma_sum_counts_add(a.drop_first(), b);
    }
}

/// What one candidate contributes: itself when its suffix matches, nothing
/// otherwise.
proof fn lemma_matching_single(e: (Seq<char>, u64), sfx: Seq<char>)
    ensures
        matching(seq![e], sfx) == (if e.0 == sfx {
            seq![e]
        } else {
            Seq::<(Seq<char>, u64)>::empty()
        }),
        matching(seq![e], sfx).len() == (if e.0 == sfx {
            1int
        } else {
            0int
        }),
        sum_counts(matching(seq![e], sfx)) == (if e.0 == sfx {
            e.1 as int
        } else {
            0int
        }),
{
    let empty = Seq::<(Seq<char>, u64)>::empty();
    assert(seq![e].drop_first() =~= empty);
    assert(matching(empty, sfx) == empty);
    assert(sum_counts(empty) == 0);
    let step = if e.0 == sfx {
        seq![e]
    } else {
        empty
    };
    assert(step + empty =~= step);
    if e.0 == sfx {
        assert(step.drop_first() =~= empty);
        assert(sum_counts(step) == e.1 + sum_counts(empty));
    }
}

/// The matcher is order-independent: two candidate lists holding the same
/// records, in whatever order, agree on the number of matching records and
/// on their total count.
pub proof fn lemma_match_order_independent(
    a: Seq<(Seq<char>, u64)>,
    b: Seq<(Seq<char>, u64)>,
    sfx: Seq<char>,
)
    requires
        a.to_multiset() == b.to_multiset(),
    ensures
        matching(a, sfx).len() == matching(b, sfx).len(),
        sum_counts(matching(a, sfx)) == sum_counts(matching(b, sfx)),
    decreases a.len(),
{
    broadcast use vstd::seq_lib::group_to_multiset_ensures;

    if a.len() == 0 {
        assert(a.to_multiset().len() == a.len());
        assert(b.to_multiset().len() == b.len());
        assert(b.len() == 0);
    } else {
        let x = a[0];
        assert(a.contains(x));
        assert(a.to_multiset().count(x) > 0);
        assert(b.to_multiset().count(x) > 0);
        assert(b.contains(x));
        let j = choose|k: int| 0 <= k < b.len() && b[k] == x;
        assert(0 <= j < b.len() && b[j] == x);
        assert(a.drop_first() =~= a.remove(0));
        assert(a.remove(0).to_multiset() =~= a.to_multiset().remove(x));
        assert(b.remove(j).to_multiset() =~= b.to_multiset().remove(x));
        lemma_match_order_independent(a.remove(0), b.remove(j), sfx);
        lemma_matching_single(x, sfx);
        // a is its head plus its tail
        assert(a =~= seq![x] + a.drop_first());
        lemma_matching_add(seq![x], a.drop_first(), sfx);
        lemma_sum_counts_add(matching(seq![x], sfx), matching(a.drop_first(), sfx));
        // b is everything before j, then x, then everything after
        assert(b =~= b.take(j) + (seq![x] + b.skip(j + 1)));
        assert(b.remove(j) =~= b.take(j) + b.skip(j + 1));
        lemma_matching_add(b.take(j), seq![x] + b.skip(j + 1), sfx);
        lemma_matching_add(seq![x], b.skip(j + 1), sfx);
        lemma_matching_add(b.take(j), b.skip(j + 1), sfx);
        lemma_sum_counts_add(
            matching(b.take(j), sfx),
            matching(seq![x], sfx) + matching(b.skip(j + 1), sfx),
        );
        lemma_sum_counts_add(matching(seq![x], sfx), matching(b.skip(j + 1), sfx));
        lemma_sum_counts_add(matching(b.take(j), sfx), matching(b.skip(j + 1), sfx));
    }
}

/// The matcher is a pure function of its inputs: any two results its
/// contract admits for the same candidates and suffix are identical, so a
/// second run changes nothing.
pub proof fn lemma_match_deterministic(
    r1: BreachResult,
    r2: BreachResult,
    cands: Seq<(Seq<char>, u64)>,
    sfx: Seq<char>,
)
    requires
        r1.sites == matching(cands, sfx).len(),
        r1.occurrences == saturated(sum_counts(matching(cands, sfx))),
        r2.sites == matching(cands, sfx).len(),
        r2.occurrences == saturated(sum_counts(matching(cands, sfx))),
    ensures
        r1 == r2,
{
}

/// A list in which no candidate carries the suffix matches nothing.
pub proof fn lemma_matching_none(cands: Seq<(Seq<char>, u64)>, sfx: Seq<char>)
    requires
        forall|i: int| 0 <= i < cands.len() ==> (#[trigger] cands[i]).0 != sfx,
    ensures
        matching(cands, sfx) == Seq::<(Seq<char>, u64)>::empty(),
    decreases cands.len(),
{
    if cands.len() > 0 {
        assert(forall|i: int|
            0 <= i < cands.drop_first().len() ==> (#[trigger] cands.drop_first()[i]) == cands[i
                + 1]);
        lemma_matching_none(cands.drop_first(), sfx);
        assert(Seq::<(Seq<char>, u64)>::empty() + Seq::<(Seq<char>, u64)>::empty() =~= Seq::<(
            Seq<char>,
            u64,
        )>::empty());
    }
}

/// No matching candidate leaves the result at zero sites and zero
/// occurrences: the safe-password case, not an error.
pub proof fn lemma_no_match_is_zero(r: BreachResult, cands: Seq<(Seq<char>, u64)>, sfx: Seq<char>)
    requires
        forall|i: int| 0 <= i < cands.len() ==> (#[trigger] cands[i]).0 != sfx,
        r.sites == matching(cands, sfx).len(),
        r.occurrences == saturated(sum_counts(matching(cands, sfx))),
    ensures
        r.sites == 0,
        r.occurrences == 0,
{
    lemma_matching_none(cands, sfx);
    assert(sum_counts(Seq::<(Seq<char>, u64)>::empty()) == 0);
}

impl BreachResult {
    /// Parses a raw range response and aggregates the candidates that match
    /// the digest's suffix (everything after its five-character prefix):
    /// `sites` counts the matching records, `occurrences` sums their counts,
    /// and an absent match leaves both at zero.
    pub fn new(input: &str, hash: &str) -> (r: Self)
        requires
            hash@.len() >= 5,
        ensures
            r.sites == matching(spec_candidates(input@), hash@.skip(5)).len(),
            r.occurrences == saturated(
                sum_counts(matching(spec_candidates(input@), hash@.skip(5))),
            ),
    {
        let cands = parse_results(input);
        let n = hash.unicode_len();
        let suffix = hash.substring_char(5, n);
        proof {
            assert(suffix@ =~= hash@.skip(5));
        }
        let ghost sc = spec_candidates(input@);
        let ghost sfx = hash@.skip(5);
        let mut sites: usize = 0;
        let mut occurrences: u64 = 0;
        let mut i: usize = 0;
        while i < cands.len()
            invariant
                0 <= i <= cands.len(),
                cands@.len() == sc.len(),
                forall|k: int|
                    0 <= k < cands@.len() ==> (#[trigger] cands@[k]).0@ == sc[k].0 && cands@[k].1
                        == sc[k].1,
                suffix@ == sfx,
                sites == matching(sc.take(i as int), sfx).len(),
                sites <= i,
                occurrences == saturated(sum_counts(matching(sc.take(i as int), sfx))),
            decreases cands.len() - i,
        {
            let ghost prev = matching(sc.take(i as int), sfx);
            let ghost step = if sc[i as int].0 == sfx {
                seq![sc[i as int]]
            } else {
                Seq::<(Seq<char>, u64)>::empty()
            };
            proof {
                assert(sc.take(i + 1) =~= sc.take(i as int) + seq![sc[i as int]]);
                lemma_matching_add(sc.take(i as int), seq![sc[i as int]], sfx);
                assert(matching(seq![sc[i as int]], sfx) == step) by {
                    assert(seq![sc[i as int]].drop_first() =~= Seq::<(Seq<char>, u64)>::empty());
                    assert(matching(Seq::<(Seq<char>, u64)>::empty(), sfx) == Seq::<(
                        Seq<char>,
                        u64,
                    )>::empty());
                    assert(step + Seq::<(Seq<char>, u64)>::empty() =~= step);
                }
                assert(matching(sc.take(i + 1), sfx) == prev + step);
                lemma_sum_counts_add(prev, step);
                if sc[i as int].0 == sfx {
                    assert(step.len() == 1 && step[0] == sc[i as int]);
                    assert(step.drop_first() =~= Seq::<(Seq<char>, u64)>::empty());
                    assert(sum_counts(Seq::<(Seq<char>, u64)>::empty()) == 0);
                    assert(sum_counts(step) == sc[i as int].1);
                }
            }
            let entry = cands[i];
            if str_eq(entry.0, suffix) {
                proof {
                    assert(cands@[i as int].0@ == sc[i as int].0);
                }
                sites = sites + 1;
                occurrences = if entry.1 > u64::MAX - occurrences {
                    u64::MAX
                } else {
                    occurrences + entry.1
                };
            }
            i += 1;
        }
        proof {
            assert(sc.take(sc.len() as int) =~= sc);
        }
        BreachResult { sites, occurrences }
    }
}

} // verus!
