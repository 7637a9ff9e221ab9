use vstd::prelude::*;
use vstd::seq_lib::to_multiset_contains;
use crate::activity::{as_mapping, distinct_helpers, lemma_mapping_entries, lemma_total_prefix, lemma_total_take, place_of, total_tickets, HelperActivity, Tallies};
use crate::text::str_equal;
use crate::error::PayoutError;
use crate::policy::{PayoutPolicy, PayoutPolicyView, Rate, Ratio};
use crate::ranking::{is_ranked, sort_payouts};

verus! {

/// An exact number of cookies, as a fraction. Two rewards are equal where
/// both parts are.
#[derive(Clone, Copy, Debug, PartialEq, Eq, Structural)]
pub struct Reward {
    pub numerator: u128,
    pub denominator: u128,
}

impl View for Reward {
    type V = Ratio;

    open spec fn view(&self) -> Ratio {
        Ratio { numerator: self.numerator as nat, denominator: self.denominator as nat }
    }
}

/// What one helper is paid, as a plain value.
pub struct Share {
    pub helper_id: Seq<char>,
    pub tickets: nat,
    pub reward: Ratio,
}

/// What one helper is paid.
#[derive(Debug)]
pub struct Payout {
    pub helper_id: String,
    pub tickets: u64,
    pub reward: Reward,
}

impl View for Payout {
    type V = Share;

    open spec fn view(&self) -> Share {
        Share { helper_id: self.helper_id@, tickets: self.tickets as nat, reward: self.reward@ }
    }
}

/// The shares that a sequence of payouts stands for.
pub open spec fn shares_of(payouts: Seq<Payout>) -> Seq<Share> {
    payouts.map_values(|p: Payout| p@)
}

/// The share of a helper with `tally` under a rate: `tickets * rate`.
pub open spec fn fixed_rate_share(tally: (Seq<char>, nat), rate: Ratio) -> Share {
    Share { helper_id: tally.0, tickets: tally.1, reward: rate.times(tally.1) }
}

/// The share of a helper with `tally` of a pool of `pool` cookies, where
/// all helpers together closed `all_tickets` tickets:
/// `tickets / all_tickets * pool`.
pub open spec fn pool_share(tally: (Seq<char>, nat), pool: nat, all_tickets: nat) -> Share {
    Share {
        helper_id: tally.0,
        tickets: tally.1,
        reward: Ratio { numerator: tally.1 * pool, denominator: all_tickets },
    }
}

/// The payouts of an activity at a fixed rate, helper by helper.
pub open spec fn fixed_rate_shares(tallies: Tallies, rate: Ratio) -> Seq<Share> {
    tallies.map_values(|tally: (Seq<char>, nat)| fixed_rate_share(tally, rate))
}

/// The payouts of an activity from a pool, helper by helper.
pub open spec fn pool_shares(tallies: Tallies, pool: nat) -> Seq<Share> {
    tallies.map_values(|tally: (Seq<char>, nat)| pool_share(tally, pool, total_tickets(tallies)))
}

/// What a policy pays for an activity: the shares, or the error.
pub open spec fn allocation(tallies: Tallies, policy: PayoutPolicyView) -> Result<
    Seq<Share>,
    PayoutError,
> {
    match policy {
        PayoutPolicyView::FixedRate { rate } => Ok(fixed_rate_shares(tallies, rate)),
        PayoutPolicyView::Pool { total } => if total_tickets(tallies) == 0 {
            Err(PayoutError::EmptyPoolDivision)
        } else {
            Ok(pool_shares(tallies, total))
        },
    }
}

/// The helpers of the shares with their tickets, in the same order.
pub open spec fn tallies_in(shares: Seq<Share>) -> Tallies {
    shares.map_values(|s: Share| (s.helper_id, s.tickets))
}

/// The numerators of all rewards together.
pub open spec fn sum_numerators(shares: Seq<Share>) -> nat
    decreases shares.len(),
{
    if shares.len() == 0 {
        0
    } else {
        sum_numerators(shares.drop_last()) + shares.last().reward.numerator
    }
}

/// The cookies of all rewards together.
pub open spec fn total_value(shares: Seq<Share>) -> real
    decreases shares.len(),
{
    if shares.len() == 0 {
        0real
    } else {
        total_value(shares.drop_last()) + shares.last().reward.value()
    }
}

/// Every reward is a fraction over `denominator`.
pub open spec fn common_denominator(shares: Seq<Share>, denominator: nat) -> bool {
    forall|i: int| 0 <= i < shares.len() ==> (#[trigger] shares[i]).reward.denominator == denominator
}

/// The helpers of the shares with their rewards, in the same order.
pub open spec fn rewards_in(shares: Seq<Share>) -> Seq<(Seq<char>, Ratio)> {
    shares.map_values(|s: Share| (s.helper_id, s.reward))
}

/// The shares as a mapping from helper to reward.
pub open spec fn rewards_of(shares: Seq<Share>) -> Map<Seq<char>, Ratio> {
    as_mapping(rewards_in(shares))
}

/// Where no helper occurs twice, the mapping gives every helper of the
/// shares their reward, and knows no one else.
pub proof fn lemma_rewards_of(shares: Seq<Share>)
    requires
        distinct_helpers(tallies_in(shares)),
    ensures
        forall|i: int|
            0 <= i < shares.len() ==> rewards_of(shares).contains_key(
                (#[trigger] shares[i]).helper_id,
            ) && rewards_of(shares)[shares[i].helper_id] == shares[i].reward,
        forall|h: Seq<char>| #[trigger]
            rewards_of(shares).contains_key(h) ==> exists|i: int|
                0 <= i < shares.len() && (#[trigger] shares[i]).helper_id == h,
{
    let pairs = rewards_in(shares);
    assert forall|i: int, j: int| 0 <= i < j < pairs.len() implies pairs[i].0 != pairs[j].0 by {
        assert(tallies_in(shares)[i].0 != tallies_in(shares)[j].0);
    }
    lemma_mapping_entries(pairs);
    assert forall|i: int| 0 <= i < shares.len() implies rewards_of(shares).contains_key(
        (#[trigger] shares[i]).helper_id,
    ) && rewards_of(shares)[shares[i].helper_id] == shares[i].reward by {
        assert(pairs[i].0 == shares[i].helper_id);
        assert(as_mapping(pairs)[pairs[i].0] == pairs[i].1);
    }
    assert forall|h: Seq<char>| #[trigger] rewards_of(shares).contains_key(h) implies exists|i: int|
        0 <= i < shares.len() && (#[trigger] shares[i]).helper_id == h by {
        let i = place_of(pairs, h);
        assert(shares[i].helper_id == h);
    }
}

/// The order of the shares does not matter to the mapping: shares with the
/// same members give every helper the same reward.
pub proof fn lemma_rewards_of_members(x: Seq<Share>, y: Seq<Share>)
    requires
        distinct_helpers(tallies_in(x)),
        distinct_helpers(tallies_in(y)),
        x.to_multiset() == y.to_multiset(),
    ensures
        rewards_of(x) == rewards_of(y),
{
    lemma_rewards_of(x);
    lemma_rewards_of(y);
    assert forall|h: Seq<char>| rewards_of(x).contains_key(h) implies rewards_of(y).contains_key(h)
        && rewards_of(y)[h] == rewards_of(x)[h] by {
        let i = choose|i: int| 0 <= i < x.len() && (#[trigger] x[i]).helper_id == h;
        assert(x.contains(x[i]));
        to_multiset_contains(x, x[i]);
        to_multiset_contains(y, x[i]);
        let j = choose|j: int| 0 <= j < y.len() && y[j] == x[i];
        assert(y[j].helper_id == h);
    }
    assert forall|h: Seq<char>| rewards_of(y).contains_key(h) implies rewards_of(x).contains_key(
        h,
    ) by {
        let j = choose|j: int| 0 <= j < y.len() && (#[trigger] y[j]).helper_id == h;
        assert(y.contains(y[j]));
        to_multiset_contains(y, y[j]);
        to_multiset_contains(x, y[j]);
        let i = choose|i: int| 0 <= i < x.len() && x[i] == y[j];
        assert(x[i].helper_id == h);
    }
    assert(rewards_of(x) =~= rewards_of(y));
}

/// The shares in which every helper's reward is `tickets * factor` over
/// `denominator`.
pub open spec fn scaled_shares(tallies: Tallies, factor: nat, denominator: nat) -> Seq<Share> {
    tallies.map_values(
        |tally: (Seq<char>, nat)|
            Share {
                helper_id: tally.0,
                tickets: tally.1,
                reward: Ratio { numerator: tally.1 * factor, denominator },
            },
    )
}

/// The rewards of `scaled_shares` together are the tickets of all helpers
/// together, times the factor.
pub proof fn lemma_scaled_sum(tallies: Tallies, factor: nat, denominator: nat)
    ensures
        sum_numerators(scaled_shares(tallies, factor, denominator)) == total_tickets(tallies)
            * factor,
    decreases tallies.len(),
{
    let shares = scaled_shares(tallies, factor, denominator);
    assert(shares.len() == tallies.len());
    if tallies.len() == 0 {
        assert(total_tickets(tallies) * factor == 0) by (nonlinear_arith)
            requires
                total_tickets(tallies) == 0,
        ;
    } else {
        lemma_scaled_sum(tallies.drop_last(), factor, denominator);
        assert(shares.drop_last() =~= scaled_shares(tallies.drop_last(), factor, denominator));
        assert(shares.last().reward.numerator == tallies.last().1 * factor);
        assert((total_tickets(tallies.drop_last()) + tallies.last().1) * factor == total_tickets(
            tallies.drop_last(),
        ) * factor + tallies.last().1 * factor) by (nonlinear_arith);
    }
}

/// Rewards over one denominator add up to the sum of their numerators
/// over that denominator.
pub proof fn lemma_total_value(shares: Seq<Share>, denominator: nat)
    requires
        denominator > 0,
        common_denominator(shares, denominator),
    ensures
        total_value(shares) == sum_numerators(shares) as real / denominator as real,
    decreases shares.len(),
{
    if shares.len() == 0 {
        assert(0nat as real / denominator as real == 0real) by (nonlinear_arith)
            requires
                denominator > 0,
        ;
    } else {
        let front = shares.drop_last();
        assert forall|i: int| 0 <= i < front.len() implies (#[trigger] front[i]).reward.denominator
            == denominator by {
            assert(front[i] == shares[i]);
        }
        lemma_total_value(front, denominator);
        let a = sum_numerators(front);
        let b = shares.last().reward.numerator;
        assert(shares.last().reward.denominator == denominator);
        assert((a + b) as real / denominator as real == a as real / denominator as real + b as real
            / denominator as real) by (nonlinear_arith)
            requires
                denominator > 0,
        ;
    }
}

/// The rewards from a pool add up to the pool, exactly: nothing is left
/// over and nothing is handed out twice.
pub proof fn lemma_pool_is_exhausted(tallies: Tallies, pool: nat)
    requires
        total_tickets(tallies) > 0,
    ensures
        total_value(pool_shares(tallies, pool)) == pool as real,
{
    let all = total_tickets(tallies);
    let shares = pool_shares(tallies, pool);
    assert(shares =~= scaled_shares(tallies, pool, all));
    lemma_scaled_sum(tallies, pool, all);
    lemma_total_value(shares, all);
    assert((all * pool) as real / all as real == pool as real) by (nonlinear_arith)
        requires
            all > 0,
    ;
}

/// `scaled_shares` rewards exactly the helpers of the tallies, each with
/// their tickets times the factor.
pub proof fn lemma_scaled_rewards(tallies: Tallies, factor: nat, denominator: nat)
    ensures
        rewards_of(scaled_shares(tallies, factor, denominator)).dom() == as_mapping(tallies).dom(),
        forall|h: Seq<char>| #[trigger]
            as_mapping(tallies).contains_key(h) ==> rewards_of(
                scaled_shares(tallies, factor, denominator),
            )[h] == (Ratio { numerator: as_mapping(tallies)[h] * factor, denominator }),
    decreases tallies.len(),
{
    let shares = scaled_shares(tallies, factor, denominator);
    assert(shares.len() == tallies.len());
    if tallies.len() == 0 {
        assert(rewards_of(shares).dom() =~= as_mapping(tallies).dom());
    } else {
        let front = tallies.drop_last();
        lemma_scaled_rewards(front, factor, denominator);
        assert(shares.drop_last() =~= scaled_shares(front, factor, denominator));
        assert(rewards_in(shares).drop_last() =~= rewards_in(shares.drop_last()));
        assert(rewards_in(shares).last() == (shares.last().helper_id, shares.last().reward));
        assert(shares.last().helper_id == tallies.last().0);
        assert(rewards_of(shares).dom() =~= as_mapping(tallies).dom());
        assert forall|h: Seq<char>| #[trigger] as_mapping(tallies).contains_key(h) implies rewards_of(
            shares,
        )[h] == (Ratio { numerator: as_mapping(tallies)[h] * factor, denominator }) by {
            if h != tallies.last().0 {
                assert(as_mapping(front).contains_key(h));
            }
        }
    }
}

/// The rewards that a policy gave to the helpers of an activity. No helper
/// occurs twice, and all rewards are fractions over one denominator.
#[derive(Debug)]
pub struct PayoutResult {
    payouts: Vec<Payout>,
    denominator: u128,
    total_tickets: u64,
    total_numerator: u128,
}

impl View for PayoutResult {
    type V = Map<Seq<char>, Ratio>;

    open spec fn view(&self) -> Map<Seq<char>, Ratio> {
        rewards_of(self.shares())
    }
}

impl PayoutResult {
    /// The shares, in the order of the activity that they were computed for.
    pub closed spec fn shares(&self) -> Seq<Share> {
        shares_of(self.payouts@)
    }

    /// The denominator of every reward.
    pub closed spec fn denominator(&self) -> nat {
        self.denominator as nat
    }

    #[verifier::type_invariant]
    pub closed spec fn well_formed(&self) -> bool {
        &&& distinct_helpers(tallies_in(self.shares()))
        &&& self.denominator > 0
        &&& common_denominator(self.shares(), self.denominator as nat)
        &&& self.total_tickets == total_tickets(tallies_in(self.shares()))
        &&& self.total_numerator == sum_numerators(self.shares())
    }

    /// What the invariant of the type says of the shares.
    pub proof fn lemma_well_formed(&self)
        requires
            self.well_formed(),
        ensures
            distinct_helpers(tallies_in(self.shares())),
            self.denominator() > 0,
            common_denominator(self.shares(), self.denominator()),
            total_tickets(tallies_in(self.shares())) <= u64::MAX,
            sum_numerators(self.shares()) <= u128::MAX,
    {
    }

    /// The number of helpers that are paid.
    pub fn len(&self) -> (n: usize)
        ensures
            n == self.shares().len(),
    {
        self.payouts.len()
    }

    /// The payout at place `i`.
    pub fn payout(&self, i: usize) -> (payout: &Payout)
        requires
            i < self.shares().len(),
        ensures
            payout@ == self.shares()[i as int],
    {
        &self.payouts[i]
    }

    /// The reward of a helper; `None` for one who is not paid.
    pub fn reward_of(&self, helper_id: &str) -> (reward: Option<Reward>)
        ensures
            reward is Some <==> self@.contains_key(helper_id@),
            reward matches Some(r) ==> r@ == self@[helper_id@],
    {
        proof {
            use_type_invariant(self);
        }
        let mut i: usize = 0;
        while i < self.payouts.len()
            invariant
                i <= self.payouts.len(),
                distinct_helpers(tallies_in(self.shares())),
                forall|k: int| 0 <= k < i ==> (#[trigger] self.shares()[k]).helper_id != helper_id@,
            decreases self.payouts.len() - i,
        {
            if str_equal(self.payouts[i].helper_id.as_str(), helper_id) {
                proof {
                    lemma_rewards_of(self.shares());
                    assert(self.shares()[i as int].helper_id == helper_id@);
                }
                return Some(self.payouts[i].reward);
            }
            i += 1;
        }
        proof {
            lemma_rewards_of(self.shares());
        }
        None
    }

    /// The tickets closed by all helpers together.
    pub fn total_tickets(&self) -> (total: u64)
        ensures
            total == total_tickets(tallies_in(self.shares())),
    {
        proof {
            use_type_invariant(self);
        }
        self.total_tickets
    }

    /// The cookies handed out to all helpers together: the sum of the
    /// rewards, none of them rounded.
    pub fn total_reward(&self) -> (total: Reward)
        ensures
            total@ == (Ratio {
                numerator: sum_numerators(self.shares()),
                denominator: self.denominator(),
            }),
    {
        proof {
            use_type_invariant(self);
        }
        Reward { numerator: self.total_numerator, denominator: self.denominator }
    }

    /// The same payouts in the order in which they are shown: the greater
    /// reward first, equal rewards by helper identifier. A result that is
    /// in that order already comes back unchanged, so ranking twice gives
    /// what ranking once gives.
    pub fn ranked(&self) -> (sorted: PayoutResult)
        ensures
            is_ranked(sorted.shares()),
            sorted.shares().to_multiset() == self.shares().to_multiset(),
            is_ranked(self.shares()) ==> sorted.shares() == self.shares(),
            sorted.denominator() == self.denominator(),
            sum_numerators(sorted.shares()) == sum_numerators(self.shares()),
            total_value(sorted.shares()) == total_value(self.shares()),
            total_tickets(tallies_in(sorted.shares())) == total_tickets(tallies_in(self.shares())),
            sorted@ == self@,
            sorted.well_formed(),
    {
        proof {
            use_type_invariant(self);
        }
        let payouts = sort_payouts(&self.payouts, self.denominator);
        proof {
            lemma_rewards_of_members(shares_of(payouts@), self.shares());
            lemma_total_value(shares_of(payouts@), self.denominator as nat);
            lemma_total_value(self.shares(), self.denominator as nat);
        }
        PayoutResult {
            payouts,
            denominator: self.denominator,
            total_tickets: self.total_tickets,
            total_numerator: self.total_numerator,
        }
    }

    /// Pays every helper `tickets * factor / denominator`.
    fn pay_each(activity: &HelperActivity, factor: u64, denominator: u128) -> (result: PayoutResult)
        requires
            denominator > 0,
        ensures
            result.shares() == scaled_shares(
                activity.tallies(),
                factor as nat,
                denominator as nat,
            ),
            result.denominator() == denominator,
            result.well_formed(),
    {
        let ghost tallies = activity.tallies();
        let ghost wanted = scaled_shares(tallies, factor as nat, denominator as nat);
        let n: usize = activity.len();
        let total: u64 = activity.total_tickets();
        let mut payouts: Vec<Payout> = Vec::new();
        let mut tickets_so_far: u64 = 0;
        let mut numerators: u128 = 0;
        let mut i: usize = 0;
        proof {
            use_type_invariant(activity);
            activity.lemma_well_formed();
            assert(shares_of(payouts@) =~= wanted.take(0));
            assert(tallies.take(0) =~= Tallies::empty());
        }
        while i < n
            invariant
                i <= n,
                n == tallies.len(),
                tallies == activity.tallies(),
                wanted == scaled_shares(tallies, factor as nat, denominator as nat),
                total == total_tickets(tallies),
                shares_of(payouts@) == wanted.take(i as int),
                tickets_so_far == total_tickets(tallies.take(i as int)),
                numerators == tickets_so_far * factor,
            decreases n - i,
        {
            let tickets: u64 = activity.tickets(i);
            proof {
                lemma_total_take(tallies, i as int);
                lemma_total_prefix(tallies, i + 1);
                assert(tickets * factor <= u64::MAX * u64::MAX) by (nonlinear_arith)
                    requires
                        tickets <= u64::MAX,
                        factor <= u64::MAX,
                ;
                assert((tickets_so_far + tickets) * factor <= u64::MAX * u64::MAX)
                    by (nonlinear_arith)
                    requires
                        tickets_so_far + tickets <= u64::MAX,
                        factor <= u64::MAX,
                ;
                assert((tickets_so_far + tickets) * factor == tickets_so_far * factor + tickets
                    * factor) by (nonlinear_arith);
            }
            let numerator: u128 = (tickets as u128) * (factor as u128);
            let payout = Payout {
                helper_id: activity.helper_id(i).clone(),
                tickets,
                reward: Reward { numerator, denominator },
            };
            let ghost before = payouts@;
            let ghost share = payout@;
            payouts.push(payout);
            tickets_so_far = tickets_so_far + tickets;
            numerators = numerators + numerator;
            i += 1;
            proof {
                assert(share == wanted[i - 1]);
                assert(shares_of(payouts@) =~= shares_of(before).push(share));
                assert(wanted.take(i as int) =~= wanted.take(i - 1).push(wanted[i - 1]));
            }
        }
        proof {
            assert(wanted.take(n as int) =~= wanted);
            assert(tallies.take(n as int) =~= tallies);
            assert(tallies_in(wanted) =~= tallies);
            lemma_scaled_sum(tallies, factor as nat, denominator as nat);
        }
        PayoutResult { payouts, denominator, total_tickets: tickets_so_far, total_numerator: numerators }
    }
}

/// Pays every helper of the activity `tickets * rate` cookies. An empty
/// activity gives an empty result.
pub fn do_static_rate_payouts(activity: &HelperActivity, rate: &Rate) -> (result: PayoutResult)
    ensures
        result.shares() == fixed_rate_shares(activity.tallies(), rate@),
        result.denominator() == rate@.denominator,
        result@.dom() == activity@.dom(),
        forall|h: Seq<char>| #[trigger]
            activity@.contains_key(h) ==> result@[h] == rate@.times(activity@[h]) && result@[h].value()
                == activity@[h] as real * rate@.value(),
        result.well_formed(),
{
    let result = PayoutResult::pay_each(activity, rate.numerator(), rate.denominator());
    proof {
        let tallies = activity.tallies();
        assert(scaled_shares(tallies, rate@.numerator, rate@.denominator) =~= fixed_rate_shares(
            tallies,
            rate@,
        )) by {
            assert forall|i: int| 0 <= i < tallies.len() implies scaled_shares(
                tallies,
                rate@.numerator,
                rate@.denominator,
            )[i] == fixed_rate_shares(tallies, rate@)[i] by {
                assert(tallies[i].1 * rate@.numerator == rate@.numerator * tallies[i].1)
                    by (nonlinear_arith);
            }
        }
        lemma_scaled_rewards(tallies, rate@.numerator, rate@.denominator);
        assert forall|h: Seq<char>| #[trigger] activity@.contains_key(h) implies result@[h]
            == rate@.times(activity@[h]) && result@[h].value() == activity@[h] as real
            * rate@.value() by {
            assert(activity@[h] * rate@.numerator == rate@.numerator * activity@[h])
                by (nonlinear_arith);
            rate@.lemma_times(activity@[h]);
        }
    }
    result
}

/// Shares a pool of `pool` cookies among the helpers of the activity, in
/// proportion to their tickets: each gets `tickets / all_tickets * pool`.
/// Where no ticket was closed at all there is nothing to divide by, and the
/// answer is `EmptyPoolDivision`. Otherwise the rewards add up to the pool:
/// they are fractions over the number of all tickets, and their numerators
/// together are `pool` times that number.
pub fn do_pool_payouts(activity: &HelperActivity, pool: u32) -> (result: Result<
    PayoutResult,
    PayoutError,
>)
    ensures
        total_tickets(activity.tallies()) == 0 ==> result matches Err(
            PayoutError::EmptyPoolDivision,
        ),
        total_tickets(activity.tallies()) > 0 ==> result is Ok,
        result matches Ok(paid) ==> {
            &&& paid.shares() == pool_shares(activity.tallies(), pool as nat)
            &&& paid.denominator() == total_tickets(activity.tallies())
            &&& sum_numerators(paid.shares()) == pool * paid.denominator()
            &&& total_value(paid.shares()) == pool as real
            &&& paid@.dom() == activity@.dom()
            &&& forall|h: Seq<char>| #[trigger]
                activity@.contains_key(h) ==> paid@[h] == (Ratio {
                    numerator: activity@[h] * (pool as nat),
                    denominator: total_tickets(activity.tallies()),
                }) && paid@[h].value() == activity@[h] as real / total_tickets(
                    activity.tallies(),
                ) as real * pool as real
            &&& paid.well_formed()
        },
{
    let all_tickets: u64 = activity.total_tickets();
    if all_tickets == 0 {
        return Err(PayoutError::EmptyPoolDivision);
    }
    let paid = PayoutResult::pay_each(activity, pool as u64, all_tickets as u128);
    proof {
        let tallies = activity.tallies();
        assert(scaled_shares(tallies, pool as nat, all_tickets as nat) =~= pool_shares(
            tallies,
            pool as nat,
        ));
        lemma_scaled_sum(tallies, pool as nat, all_tickets as nat);
        lemma_scaled_rewards(tallies, pool as nat, all_tickets as nat);
        assert(total_tickets(tallies) * pool == pool * total_tickets(tallies))
            by (nonlinear_arith);
        lemma_pool_is_exhausted(tallies, pool as nat);
        assert forall|h: Seq<char>| #[trigger] activity@.contains_key(h) implies paid@[h].value()
            == activity@[h] as real / all_tickets as real * pool as real by {
            let t = activity@[h];
            assert((t * (pool as nat)) as real / all_tickets as real == t as real
                / all_tickets as real * pool as real) by (nonlinear_arith)
                requires
                    all_tickets > 0,
            ;
        }
    }
    Ok(paid)
}

/// What a result holds, or the error, as a plain value.
pub open spec fn outcome_of(result: Result<PayoutResult, PayoutError>) -> Result<
    Seq<Share>,
    PayoutError,
> {
    match result {
        Ok(paid) => Ok(paid.shares()),
        Err(e) => Err(e),
    }
}

/// Applies a policy to an activity.
pub fn allocate(activity: &HelperActivity, policy: &PayoutPolicy) -> (result: Result<
    PayoutResult,
    PayoutError,
>)
    ensures
        outcome_of(result) == allocation(activity.tallies(), policy@),
        result matches Ok(paid) ==> paid@.dom() == activity@.dom() && paid.well_formed(),
{
    match policy {
        PayoutPolicy::FixedRate { rate } => Ok(do_static_rate_payouts(activity, rate)),
        PayoutPolicy::Pool { total } => do_pool_payouts(activity, *total),
    }
}

/// A policy applied twice to the same tallies pays the same both times:
/// whatever two runs of `allocate` come back with, it is the same shares,
/// helper by helper and fraction by fraction, or the same error.
pub proof fn lemma_allocation_repeatable(
    tallies: Tallies,
    policy: PayoutPolicyView,
    first: Result<PayoutResult, PayoutError>,
    second: Result<PayoutResult, PayoutError>,
)
    requires
        outcome_of(first) == allocation(tallies, policy),
        outcome_of(second) == allocation(tallies, policy),
    ensures
        first is Ok <==> second is Ok,
        first is Ok ==> first->Ok_0.shares() == second->Ok_0.shares() && first->Ok_0@
            == second->Ok_0@,
        first is Err ==> first->Err_0 == second->Err_0,
{
}

/// No tickets at all means that every helper has none, and the other way
/// round.
pub proof fn lemma_no_tickets(tallies: Tallies)
    ensures
        total_tickets(tallies) == 0 <==> forall|i: int|
            0 <= i < tallies.len() ==> (#[trigger] tallies[i]).1 == 0,
    decreases tallies.len(),
{
    if tallies.len() > 0 {
        let front = tallies.drop_last();
        lemma_no_tickets(front);
        if total_tickets(tallies) == 0 {
            assert forall|i: int| 0 <= i < tallies.len() implies (#[trigger] tallies[i]).1 == 0 by {
                if i < front.len() {
                    assert(front[i] == tallies[i]);
                }
            }
        } else if total_tickets(front) > 0 {
            let i = choose|i: int| 0 <= i < front.len() && (#[trigger] front[i]).1 != 0;
            assert(tallies[i] == front[i]);
        }
    }
}

/// A pool cannot be shared where nobody closed a ticket: over an empty
/// activity, and over one in which every helper has no tickets, the pool
/// policy answers `EmptyPoolDivision`. A fixed rate over an empty activity
/// pays nobody and is no error.
pub proof fn lemma_empty_pool_division(tallies: Tallies, pool: nat, rate: Ratio)
    ensures
        (forall|i: int| 0 <= i < tallies.len() ==> (#[trigger] tallies[i]).1 == 0) ==> allocation(
            tallies,
            PayoutPolicyView::Pool { total: pool },
        ) == Err::<Seq<Share>, PayoutError>(PayoutError::EmptyPoolDivision),
        tallies.len() == 0 ==> allocation(tallies, PayoutPolicyView::FixedRate { rate }) == Ok::<
            Seq<Share>,
            PayoutError,
        >(Seq::<Share>::empty()),
{
    lemma_no_tickets(tallies);
    if tallies.len() == 0 {
        assert(fixed_rate_shares(tallies, rate) =~= Seq::<Share>::empty());
    }
}

} // verus!
