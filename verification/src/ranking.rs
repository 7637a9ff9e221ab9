use vstd::prelude::*;
use vstd::seq_lib::{to_multiset_contains, to_multiset_insert, to_multiset_len, to_multiset_remove};
use crate::activity::{distinct_helpers, total_tickets};
use crate::payout::{common_denominator, shares_of, sum_numerators, tallies_in, Payout, Reward, Share};
use crate::text::{lemma_lex_irreflexive, lemma_lex_transitive, lemma_lex_trichotomy, lex_less, str_less};

verus! {

/// The order in which payouts are shown: the greater reward first, and of
/// two equal rewards the one whose helper identifier comes first.
pub open spec fn ranks_before(a: Share, b: Share) -> bool {
    a.reward.value() > b.reward.value() || (a.reward.value() == b.reward.value() && lex_less(
        a.helper_id,
        b.helper_id,
    ))
}

/// Every share stands before all that follow it.
pub open spec fn is_ranked(shares: Seq<Share>) -> bool {
    forall|i: int, j: int| 0 <= i < j < shares.len() ==> ranks_before(shares[i], shares[j])
}

/// No share stands before itself.
pub proof fn lemma_ranks_irreflexive(a: Share)
    ensures
        !ranks_before(a, a),
{
    lemma_lex_irreflexive(a.helper_id);
}

/// Of two shares at most one stands before the other.
pub proof fn lemma_ranks_asymmetric(a: Share, b: Share)
    ensures
        !(ranks_before(a, b) && ranks_before(b, a)),
{
    lemma_lex_trichotomy(a.helper_id, b.helper_id);
}

/// The order is transitive.
pub proof fn lemma_ranks_transitive(a: Share, b: Share, c: Share)
    requires
        ranks_before(a, b),
        ranks_before(b, c),
    ensures
        ranks_before(a, c),
{
    if a.reward.value() == b.reward.value() && b.reward.value() == c.reward.value() {
        lemma_lex_transitive(a.helper_id, b.helper_id, c.helper_id);
    }
}

/// The order is total: two shares of different helpers are always ordered,
/// and two shares that are not ordered have the same helper and the same
/// reward.
pub proof fn lemma_ranks_total(a: Share, b: Share)
    ensures
        ranks_before(a, b) || ranks_before(b, a) || (a.helper_id == b.helper_id
            && a.reward.value() == b.reward.value()),
{
    lemma_lex_trichotomy(a.helper_id, b.helper_id);
}

/// There is one way only to rank given shares: two ranked sequences with the
/// same members are the same sequence.
pub proof fn lemma_ranked_unique(x: Seq<Share>, y: Seq<Share>)
    requires
        is_ranked(x),
        is_ranked(y),
        x.to_multiset() == y.to_multiset(),
    ensures
        x == y,
    decreases x.len(),
{
    to_multiset_len(x);
    to_multiset_len(y);
    if x.len() > 0 {
        let head = x[0];
        to_multiset_contains(x, head);
        to_multiset_contains(y, head);
        to_multiset_contains(x, y[0]);
        to_multiset_contains(y, y[0]);
        assert(x.contains(head));
        assert(y.contains(y[0]));
        let k = choose|k: int| 0 <= k < y.len() && y[k] == head;
        let m = choose|m: int| 0 <= m < x.len() && x[m] == y[0];
        if k > 0 {
            assert(ranks_before(y[0], y[k]));
            if m > 0 {
                assert(ranks_before(x[0], x[m]));
                lemma_ranks_asymmetric(x[0], x[m]);
            } else {
                lemma_ranks_irreflexive(head);
            }
        }
        assert(y[0] == head);
        to_multiset_remove(x, 0);
        to_multiset_remove(y, 0);
        assert(x.remove(0) =~= x.drop_first());
        assert(y.remove(0) =~= y.drop_first());
        lemma_ranked_unique(x.drop_first(), y.drop_first());
        assert(x =~= seq![head] + x.drop_first());
        assert(y =~= seq![head] + y.drop_first());
    } else {
        assert(x =~= y);
    }
}

/// Every member of `part` is a member of `whole`.
pub open spec fn drawn_from(part: Seq<Share>, whole: Seq<Share>) -> bool {
    forall|j: int| 0 <= j < part.len() ==> whole.contains(#[trigger] part[j])
}

/// A share put in at any place adds its tickets and its numerator to the
/// sums.
pub proof fn lemma_sums_insert(shares: Seq<Share>, k: int, share: Share)
    requires
        0 <= k <= shares.len(),
    ensures
        sum_numerators(shares.insert(k, share)) == sum_numerators(shares) + share.reward.numerator,
        total_tickets(tallies_in(shares.insert(k, share))) == total_tickets(tallies_in(shares))
            + share.tickets,
    decreases shares.len(),
{
    let longer = shares.insert(k, share);
    if k == shares.len() {
        assert(longer.drop_last() =~= shares);
        assert(tallies_in(longer).drop_last() =~= tallies_in(shares));
    } else {
        lemma_sums_insert(shares.drop_last(), k, share);
        assert(longer.drop_last() =~= shares.drop_last().insert(k, share));
        assert(tallies_in(longer).drop_last() =~= tallies_in(shares.drop_last().insert(k, share)));
        assert(tallies_in(shares).drop_last() =~= tallies_in(shares.drop_last()));
        assert(longer.last() == shares.last());
    }
}

/// Whether `a` is shown before `b`, for two rewards over one denominator.
pub(crate) fn payout_before(a: &Payout, b: &Payout) -> (before: bool)
    requires
        a.reward.denominator == b.reward.denominator,
        a.reward.denominator > 0,
    ensures
        before == ranks_before(a@, b@),
{
    proof {
        a.reward@.lemma_same_denominator(b.reward@);
        b.reward@.lemma_same_denominator(a.reward@);
    }
    if a.reward.numerator != b.reward.numerator {
        a.reward.numerator > b.reward.numerator
    } else {
        str_less(a.helper_id.as_str(), b.helper_id.as_str())
    }
}

/// The payouts in the order in which they are shown. Payouts that are in
/// that order already come back as they are.
pub(crate) fn sort_payouts(payouts: &Vec<Payout>, denominator: u128) -> (sorted: Vec<Payout>)
    requires
        denominator > 0,
        common_denominator(shares_of(payouts@), denominator as nat),
        distinct_helpers(tallies_in(shares_of(payouts@))),
    ensures
        is_ranked(shares_of(sorted@)),
        shares_of(sorted@).to_multiset() == shares_of(payouts@).to_multiset(),
        is_ranked(shares_of(payouts@)) ==> shares_of(sorted@) == shares_of(payouts@),
        common_denominator(shares_of(sorted@), denominator as nat),
        distinct_helpers(tallies_in(shares_of(sorted@))),
        sum_numerators(shares_of(sorted@)) == sum_numerators(shares_of(payouts@)),
        total_tickets(tallies_in(shares_of(sorted@))) == total_tickets(
            tallies_in(shares_of(payouts@)),
        ),
{
    let ghost given = shares_of(payouts@);
    let mut sorted: Vec<Payout> = Vec::new();
    let mut i: usize = 0;
    proof {
        assert(given.take(0) =~= Seq::<Share>::empty());
        assert(shares_of(sorted@) =~= Seq::<Share>::empty());
        assert(tallies_in(shares_of(sorted@)) =~= tallies_in(given.take(0)));
    }
    while i < payouts.len()
        invariant
            i <= payouts.len(),
            denominator > 0,
            given == shares_of(payouts@),
            common_denominator(given, denominator as nat),
            distinct_helpers(tallies_in(given)),
            is_ranked(shares_of(sorted@)),
            shares_of(sorted@).to_multiset() == given.take(i as int).to_multiset(),
            drawn_from(shares_of(sorted@), given.take(i as int)),
            common_denominator(shares_of(sorted@), denominator as nat),
            distinct_helpers(tallies_in(shares_of(sorted@))),
            sum_numerators(shares_of(sorted@)) == sum_numerators(given.take(i as int)),
            total_tickets(tallies_in(shares_of(sorted@))) == total_tickets(
                tallies_in(given.take(i as int)),
            ),
        decreases payouts.len() - i,
    {
        let next = Payout {
            helper_id: payouts[i].helper_id.clone(),
            tickets: payouts[i].tickets,
            reward: Reward {
                numerator: payouts[i].reward.numerator,
                denominator: payouts[i].reward.denominator,
            },
        };
        let ghost share = next@;
        let ghost before = shares_of(sorted@);
        assert(share == given[i as int]);
        assert(share.reward.denominator == denominator);
        proof {
            assert forall|j: int| 0 <= j < before.len() implies (#[trigger] before[j]).helper_id
                != share.helper_id by {
                let member = before[j];
                assert(given.take(i as int).contains(member));
                let k = choose|k: int| 0 <= k < i && given.take(i as int)[k] == member;
                assert(given[k] == member);
                assert(tallies_in(given)[k].0 != tallies_in(given)[i as int].0);
            }
        }
        let mut k: usize = 0;
        let mut found: bool = false;
        while k < sorted.len() && !found
            invariant
                k <= sorted.len(),
                before == shares_of(sorted@),
                share == next@,
                denominator > 0,
                share.reward.denominator == denominator,
                common_denominator(before, denominator as nat),
                forall|j: int| 0 <= j < k ==> !ranks_before(share, #[trigger] before[j]),
                found ==> k < sorted.len() && ranks_before(share, before[k as int]),
            decreases sorted.len() - k + if found { 0int } else { 1int },
        {
            assert(before[k as int].reward.denominator == denominator);
            if payout_before(&next, &sorted[k]) {
                found = true;
            } else {
                k += 1;
            }
        }
        sorted.insert(k, next);
        proof {
            let after = shares_of(sorted@);
            assert(after =~= before.insert(k as int, share));
            assert forall|a: int, b: int| 0 <= a < b < after.len() implies ranks_before(
                after[a],
                after[b],
            ) by {
                if b == k {
                    assert(!ranks_before(share, before[a]));
                    lemma_ranks_total(share, before[a]);
                } else if a == k {
                    assert(ranks_before(share, before[k as int]));
                    if b - 1 > k {
                        assert(ranks_before(before[k as int], before[b - 1]));
                        lemma_ranks_transitive(share, before[k as int], before[b - 1]);
                    }
                } else {
                    let a0 = if a < k { a } else { a - 1 };
                    let b0 = if b < k { b } else { b - 1 };
                    assert(ranks_before(before[a0], before[b0]));
                }
            }
            to_multiset_insert(before, k as int, share);
            let part = given.take(i as int);
            let more = given.take(i + 1);
            assert(more =~= part.insert(i as int, share));
            to_multiset_insert(part, i as int, share);
            lemma_sums_insert(before, k as int, share);
            lemma_sums_insert(part, i as int, share);
            assert forall|j: int| 0 <= j < after.len() implies more.contains(
                #[trigger] after[j],
            ) by {
                if j == k {
                    assert(more[i as int] == share);
                } else {
                    let j0 = if j < k { j } else { j - 1 };
                    assert(part.contains(before[j0]));
                    let w = choose|w: int| 0 <= w < part.len() && part[w] == before[j0];
                    assert(more[w] == before[j0]);
                }
            }
            assert forall|a: int, b: int| 0 <= a < b < after.len() implies tallies_in(after)[a].0
                != tallies_in(after)[b].0 by {
                let a0 = if a < k { a } else { a - 1 };
                let b0 = if b < k { b } else { b - 1 };
                if a != k && b != k {
                    assert(tallies_in(before)[a0].0 != tallies_in(before)[b0].0);
                } else if a == k {
                    assert(before[b0].helper_id != share.helper_id);
                } else {
                    assert(before[a0].helper_id != share.helper_id);
                }
            }
        }
        i += 1;
    }
    proof {
        assert(given.take(i as int) =~= given);
        if is_ranked(given) {
            lemma_ranked_unique(shares_of(sorted@), given);
        }
    }
    sorted
}

} // verus!
