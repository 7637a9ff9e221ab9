use vstd::prelude::*;
use crate::activity::total_tickets;
use crate::directory::{resolution, resolve, DirectoryReply, IdentityView};
use crate::error::PayoutError;
use crate::payout::{lemma_total_value, sum_numerators, tallies_in, total_value, PayoutResult, Reward, Share};
use crate::policy::Ratio;
use crate::ranking::{is_ranked, ranks_before};

verus! {

/// One line of the report: who is paid, where their profile is, what they
/// get and for how many tickets. The reward is exact; rounding it for
/// display is left to whoever prints the line.
#[derive(Debug)]
pub struct ReportRow {
    pub display_name: String,
    pub profile_url: String,
    pub reward: Reward,
    pub tickets: u64,
}

/// A line of the report as a plain value.
pub struct RowView {
    pub display_name: Seq<char>,
    pub profile_url: Seq<char>,
    pub reward: Ratio,
    pub tickets: nat,
}

impl View for ReportRow {
    type V = RowView;

    open spec fn view(&self) -> RowView {
        RowView {
            display_name: self.display_name@,
            profile_url: self.profile_url@,
            reward: self.reward@,
            tickets: self.tickets as nat,
        }
    }
}

/// The lines that a sequence of rows stands for.
pub open spec fn rows_of(rows: Seq<ReportRow>) -> Seq<RowView> {
    rows.map_values(|row: ReportRow| row@)
}

/// The line of a share whose helper was resolved to `identity`.
pub open spec fn row_of(share: Share, identity: IdentityView) -> RowView {
    RowView {
        display_name: identity.display_name,
        profile_url: identity.profile_url,
        reward: share.reward,
        tickets: share.tickets,
    }
}

/// The lines tell what the shares tell, place by place, as far as they go.
pub open spec fn rows_follow(rows: Seq<RowView>, shares: Seq<Share>) -> bool {
    &&& rows.len() <= shares.len()
    &&& forall|i: int|
        0 <= i < rows.len() ==> (#[trigger] rows[i]).reward == shares[i].reward && rows[i].tickets
            == shares[i].tickets
}

/// The finished report: one line for every helper, the greatest reward
/// first, and the totals of the run.
#[derive(Debug)]
pub struct PayoutReport {
    pub rows: Vec<ReportRow>,
    pub total_tickets: u64,
    pub total_reward: Reward,
}

/// The making of a report. It asks for one lookup in the directory at a
/// time, in the order in which the helpers are shown, and takes the
/// reply. The first reply that names nobody ends it: a run that failed is
/// gone, with the lines it had, so that no part of a report is ever seen.
#[derive(Debug)]
pub struct ReportRun {
    ranked: PayoutResult,
    rows: Vec<ReportRow>,
}

impl ReportRun {
    /// The shares of the run, in the order in which they are shown.
    pub closed spec fn ranking(&self) -> Seq<Share> {
        self.ranked.shares()
    }

    /// The denominator of every reward of the run.
    pub closed spec fn denominator(&self) -> nat {
        self.ranked.denominator()
    }

    /// The lines that are made so far.
    pub closed spec fn rows(&self) -> Seq<RowView> {
        rows_of(self.rows@)
    }

    #[verifier::type_invariant]
    closed spec fn well_formed(&self) -> bool {
        &&& self.ranked.well_formed()
        &&& is_ranked(self.ranked.shares())
        &&& rows_follow(rows_of(self.rows@), self.ranked.shares())
    }

    /// Every helper has a line.
    pub open spec fn complete(&self) -> bool {
        self.rows().len() == self.ranking().len()
    }

    /// Begins the report of a result: ranks the payouts. No line is made
    /// yet.
    pub fn start(result: &PayoutResult) -> (run: ReportRun)
        ensures
            is_ranked(run.ranking()),
            run.ranking().to_multiset() == result.shares().to_multiset(),
            is_ranked(result.shares()) ==> run.ranking() == result.shares(),
            run.denominator() == result.denominator(),
            sum_numerators(run.ranking()) == sum_numerators(result.shares()),
            total_value(run.ranking()) == total_value(result.shares()),
            total_tickets(tallies_in(run.ranking())) == total_tickets(tallies_in(result.shares())),
            run.rows() == Seq::<RowView>::empty(),
    {
        let ranked = result.ranked();
        let rows: Vec<ReportRow> = Vec::new();
        assert(rows_of(rows@) =~= Seq::<RowView>::empty());
        ReportRun { ranked, rows }
    }

    /// The helper to look up next: the first in the order of the report
    /// that has no line yet. `None` once every helper has one.
    pub fn next_lookup(&self) -> (helper_id: Option<&String>)
        ensures
            self.complete() <==> helper_id is None,
            helper_id matches Some(id) ==> id@ == self.ranking()[self.rows().len() as int].helper_id,
    {
        proof {
            use_type_invariant(self);
        }
        let done: usize = self.rows.len();
        if done < self.ranked.len() {
            Some(&self.ranked.payout(done).helper_id)
        } else {
            None
        }
    }

    /// Takes the directory's reply to the lookup that `next_lookup` asked
    /// for. Where the reply resolves the helper, their line is added.
    /// Where it does not, the run ends with the error and nothing is left
    /// of it. A reply that nothing asked for changes nothing.
    pub fn supply(self, reply: &DirectoryReply) -> (outcome: Result<ReportRun, PayoutError>)
        ensures
            self.complete() ==> outcome is Ok && outcome->Ok_0.ranking() == self.ranking()
                && outcome->Ok_0.rows() == self.rows(),
            !self.complete() ==> match resolution(
                self.ranking()[self.rows().len() as int].helper_id,
                reply@,
            ) {
                Ok(identity) => outcome is Ok && outcome->Ok_0.ranking() == self.ranking()
                    && outcome->Ok_0.rows() == self.rows().push(
                    row_of(self.ranking()[self.rows().len() as int], identity),
                ),
                Err(e) => outcome == Err::<ReportRun, PayoutError>(e),
            },
            outcome matches Ok(run) ==> run.denominator() == self.denominator(),
    {
        proof {
            use_type_invariant(&self);
        }
        let done: usize = self.rows.len();
        if done >= self.ranked.len() {
            return Ok(self);
        }
        let ReportRun { ranked, rows } = self;
        let mut rows = rows;
        let payout = ranked.payout(done);
        match resolve(payout.helper_id.as_str(), reply) {
            Ok(identity) => {
                let ghost before = rows_of(rows@);
                let row = ReportRow {
                    display_name: identity.display_name,
                    profile_url: identity.profile_url,
                    reward: payout.reward,
                    tickets: payout.tickets,
                };
                let ghost line = row@;
                rows.push(row);
                assert(rows_of(rows@) =~= before.push(line));
                Ok(ReportRun { ranked, rows })
            },
            Err(e) => Err(e),
        }
    }

    /// The report, once every helper has a line; `None` before that.
    pub fn finish(self) -> (report: Option<PayoutReport>)
        ensures
            self.complete() <==> report is Some,
            report matches Some(r) ==> {
                &&& rows_of(r.rows@) == self.rows()
                &&& rows_follow(self.rows(), self.ranking())
                &&& r.total_tickets == total_tickets(tallies_in(self.ranking()))
                &&& r.total_reward@ == (Ratio {
                    numerator: sum_numerators(self.ranking()),
                    denominator: self.denominator(),
                })
                &&& r.total_reward@.value() == total_value(self.ranking())
                &&& forall|i: int, j: int|
                    0 <= i < j < r.rows@.len() ==> r.rows@[i]@.reward.value()
                        >= r.rows@[j]@.reward.value()
            },
    {
        proof {
            use_type_invariant(&self);
            use_type_invariant(&self.ranked);
            self.ranked.lemma_well_formed();
            lemma_total_value(self.ranked.shares(), self.ranked.denominator());
            assert forall|i: int, j: int| 0 <= i < j < self.rows@.len() implies self.rows@[i]@.reward.value()
                >= self.rows@[j]@.reward.value() by {
                assert(rows_of(self.rows@)[i].reward == self.ranked.shares()[i].reward);
                assert(rows_of(self.rows@)[j].reward == self.ranked.shares()[j].reward);
                assert(ranks_before(self.ranked.shares()[i], self.ranked.shares()[j]));
            }
        }
        if self.rows.len() < self.ranked.len() {
            return None;
        }
        let total_tickets: u64 = self.ranked.total_tickets();
        let total_reward: Reward = self.ranked.total_reward();
        Some(PayoutReport { rows: self.rows, total_tickets, total_reward })
    }
}

} // verus!
