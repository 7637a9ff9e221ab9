use vstd::prelude::*;
use vstd::string::StringExecFns;
use crate::error::PayoutError;
use crate::text::str_equal;

verus! {

/// What an activity holds, in the order in which the helpers were first
/// recorded: each helper's identifier and the number of tickets they closed.
pub type Tallies = Seq<(Seq<char>, nat)>;

/// No identifier occurs twice.
pub open spec fn distinct_helpers<V>(tallies: Seq<(Seq<char>, V)>) -> bool {
    forall|i: int, j: int| 0 <= i < j < tallies.len() ==> tallies[i].0 != tallies[j].0
}

/// The number of tickets closed by all helpers together.
pub open spec fn total_tickets(tallies: Tallies) -> nat
    decreases tallies.len(),
{
    if tallies.len() == 0 {
        0
    } else {
        total_tickets(tallies.drop_last()) + tallies.last().1
    }
}

/// Whether a helper occurs in the tallies.
pub open spec fn has_helper<V>(tallies: Seq<(Seq<char>, V)>, helper_id: Seq<char>) -> bool {
    exists|i: int| 0 <= i < tallies.len() && #[trigger] tallies[i].0 == helper_id
}

/// The tallies as a mapping from helper to what stands beside them.
pub open spec fn as_mapping<V>(tallies: Seq<(Seq<char>, V)>) -> Map<Seq<char>, V>
    decreases tallies.len(),
{
    if tallies.len() == 0 {
        Map::empty()
    } else {
        as_mapping(tallies.drop_last()).insert(tallies.last().0, tallies.last().1)
    }
}

/// The place of a helper in the tallies; meaningful where the helper occurs.
pub open spec fn place_of<V>(tallies: Seq<(Seq<char>, V)>, helper_id: Seq<char>) -> int {
    choose|i: int| 0 <= i < tallies.len() && #[trigger] tallies[i].0 == helper_id
}

/// The tallies after a helper's count was set: in place where the helper
/// occurred already, at the end where they did not.
pub open spec fn recorded(tallies: Tallies, helper_id: Seq<char>, tickets: nat) -> Tallies {
    if has_helper(tallies, helper_id) {
        tallies.update(place_of(tallies, helper_id), (helper_id, tickets))
    } else {
        tallies.push((helper_id, tickets))
    }
}

/// The tickets that the tallies give a helper: none where the helper does
/// not occur.
pub open spec fn count_of(tallies: Tallies, helper_id: Seq<char>) -> nat {
    if has_helper(tallies, helper_id) {
        tallies[place_of(tallies, helper_id)].1
    } else {
        0
    }
}

/// The tallies after one more ticket was counted for a helper.
pub open spec fn credited(tallies: Tallies, helper_id: Seq<char>) -> Tallies {
    recorded(tallies, helper_id, count_of(tallies, helper_id) + 1)
}

/// The rows of a store's answer as plain values: helper and count.
pub open spec fn rows_view(rows: Seq<(String, i64)>) -> Seq<(Seq<char>, int)> {
    rows.map_values(|row: (String, i64)| (row.0@, row.1 as int))
}

/// Every helper of the tallies has closed at least one ticket.
pub open spec fn all_positive(tallies: Tallies) -> bool {
    forall|i: int| 0 <= i < tallies.len() ==> (#[trigger] tallies[i]).1 > 0
}

/// The tallies that the rows of a store's answer make, taken one after the
/// other; a later row for the same helper replaces the earlier one. A
/// leaderboard holds only helpers who closed a ticket, so the answer is
/// `None` where a count is zero or negative, and also where the tickets
/// together no longer fit in 64 bits.
pub open spec fn tallies_from(rows: Seq<(Seq<char>, int)>) -> Option<Tallies>
    decreases rows.len(),
{
    if rows.len() == 0 {
        Some(Tallies::empty())
    } else {
        match tallies_from(rows.drop_last()) {
            None => None,
            Some(tallies) => {
                let row = rows.last();
                if row.1 <= 0 || total_tickets(recorded(tallies, row.0, row.1 as nat)) > u64::MAX {
                    None
                } else {
                    Some(recorded(tallies, row.0, row.1 as nat))
                }
            },
        }
    }
}

/// Every single count is part of the total.
pub proof fn lemma_total_bounds_each(tallies: Tallies, i: int)
    requires
        0 <= i < tallies.len(),
    ensures
        tallies[i].1 <= total_tickets(tallies),
    decreases tallies.len(),
{
    if i < tallies.len() - 1 {
        lemma_total_bounds_each(tallies.drop_last(), i);
    }
}

/// Setting one count changes the total by the difference.
pub proof fn lemma_total_update(tallies: Tallies, i: int, entry: (Seq<char>, nat))
    requires
        0 <= i < tallies.len(),
    ensures
        total_tickets(tallies.update(i, entry)) == total_tickets(tallies) - tallies[i].1 + entry.1,
    decreases tallies.len(),
{
    let updated = tallies.update(i, entry);
    if i < tallies.len() - 1 {
        lemma_total_update(tallies.drop_last(), i, entry);
        assert(updated.drop_last() =~= tallies.drop_last().update(i, entry));
    } else {
        assert(updated.drop_last() =~= tallies.drop_last());
    }
}

/// The total of the first `i + 1` tallies is that of the first `i` and
/// the count of the next.
pub proof fn lemma_total_take(tallies: Tallies, i: int)
    requires
        0 <= i < tallies.len(),
    ensures
        total_tickets(tallies.take(i + 1)) == total_tickets(tallies.take(i)) + tallies[i].1,
{
    assert(tallies.take(i + 1).drop_last() =~= tallies.take(i));
}

/// No part of the tallies has more tickets than the whole.
pub proof fn lemma_total_prefix(tallies: Tallies, i: int)
    requires
        0 <= i <= tallies.len(),
    ensures
        total_tickets(tallies.take(i)) <= total_tickets(tallies),
    decreases tallies.len() - i,
{
    if i == tallies.len() {
        assert(tallies.take(i) =~= tallies);
    } else {
        lemma_total_take(tallies, i);
        lemma_total_prefix(tallies, i + 1);
    }
}

/// A new last entry adds its count to the total.
pub proof fn lemma_total_push(tallies: Tallies, entry: (Seq<char>, nat))
    ensures
        total_tickets(tallies.push(entry)) == total_tickets(tallies) + entry.1,
{
    assert(tallies.push(entry).drop_last() =~= tallies);
}

/// The mapping knows exactly the helpers that occur, and where no helper
/// occurs twice it gives each what stands beside them.
pub proof fn lemma_mapping_entries<V>(tallies: Seq<(Seq<char>, V)>)
    ensures
        forall|id: Seq<char>| #[trigger]
            as_mapping(tallies).contains_key(id) <==> has_helper(tallies, id),
        distinct_helpers(tallies) ==> forall|i: int|
            0 <= i < tallies.len() ==> as_mapping(tallies)[#[trigger] tallies[i].0]
                == tallies[i].1,
    decreases tallies.len(),
{
    if tallies.len() > 0 {
        let front = tallies.drop_last();
        lemma_mapping_entries(front);
        assert forall|id: Seq<char>| #[trigger]
            as_mapping(tallies).contains_key(id) <==> has_helper(tallies, id) by {
            assert(as_mapping(tallies) == as_mapping(front).insert(
                tallies.last().0,
                tallies.last().1,
            ));
            assert(as_mapping(front).contains_key(id) <==> has_helper(front, id));
            if has_helper(tallies, id) {
                let i = place_of(tallies, id);
                if i < tallies.len() - 1 {
                    assert(front[i].0 == id);
                }
            }
            if has_helper(front, id) {
                let i = place_of(front, id);
                assert(tallies[i].0 == id);
            }
            if id == tallies.last().0 {
                assert(tallies[tallies.len() - 1].0 == id);
            }
        }
        if distinct_helpers(tallies) {
            assert(distinct_helpers(front));
            assert forall|i: int| 0 <= i < tallies.len() implies as_mapping(tallies)[#[trigger] tallies[i].0]
                == tallies[i].1 by {
                if i < tallies.len() - 1 {
                    assert(front[i] == tallies[i]);
                    assert(tallies[i].0 != tallies[tallies.len() - 1].0);
                }
            }
        }
    }
}

/// Setting a helper's count is an insertion into the mapping, and keeps
/// the helpers distinct.
pub proof fn lemma_recorded(tallies: Tallies, helper_id: Seq<char>, tickets: nat)
    requires
        distinct_helpers(tallies),
    ensures
        distinct_helpers(recorded(tallies, helper_id, tickets)),
        as_mapping(recorded(tallies, helper_id, tickets)) == as_mapping(tallies).insert(
            helper_id,
            tickets,
        ),
{
    let after = recorded(tallies, helper_id, tickets);
    lemma_mapping_entries(tallies);
    if has_helper(tallies, helper_id) {
        assert forall|i: int, j: int| 0 <= i < j < after.len() implies after[i].0 != after[j].0 by {
            assert(after[i].0 == tallies[i].0);
            assert(after[j].0 == tallies[j].0);
        }
    } else {
        assert forall|i: int, j: int| 0 <= i < j < after.len() implies after[i].0 != after[j].0 by {
            if j == tallies.len() {
                assert(tallies[i].0 != helper_id);
            }
        }
    }
    lemma_mapping_entries(after);
    let wanted = as_mapping(tallies).insert(helper_id, tickets);
    assert forall|id: Seq<char>| as_mapping(after).contains_key(id) <==> wanted.contains_key(
        id,
    ) by {
        if has_helper(after, id) {
            let i = place_of(after, id);
            if i < tallies.len() {
                assert(tallies[i].0 == id || id == helper_id);
            }
        }
        if has_helper(tallies, id) {
            let i = place_of(tallies, id);
            assert(after[i].0 == id);
        }
        if id == helper_id {
            if has_helper(tallies, helper_id) {
                assert(after[place_of(tallies, helper_id)].0 == id);
            } else {
                assert(after[tallies.len() as int].0 == id);
            }
        }
    }
    assert forall|id: Seq<char>| as_mapping(after).contains_key(id) implies as_mapping(after)[id]
        == wanted[id] by {
        let i = place_of(after, id);
        assert(as_mapping(after)[after[i].0] == after[i].1);
        if id != helper_id {
            assert(tallies[i].0 == id);
            assert(as_mapping(tallies)[tallies[i].0] == tallies[i].1);
        } else if has_helper(tallies, helper_id) {
            if i != place_of(tallies, helper_id) {
                assert(tallies[i].0 == id);
            }
        } else {
            if i < tallies.len() {
                assert(tallies[i].0 == id);
            }
        }
    }
    assert(as_mapping(after) =~= wanted);
}

/// One more ticket for a helper is one more ticket in all.
pub proof fn lemma_credited_total(tallies: Tallies, helper_id: Seq<char>)
    ensures
        total_tickets(credited(tallies, helper_id)) == total_tickets(tallies) + 1,
{
    if has_helper(tallies, helper_id) {
        let p = place_of(tallies, helper_id);
        lemma_total_update(tallies, p, (helper_id, count_of(tallies, helper_id) + 1));
    } else {
        lemma_total_push(tallies, (helper_id, 1nat));
    }
}

/// Where no helper occurs twice, the count of a helper is what the mapping
/// gives them.
pub proof fn lemma_count_of(tallies: Tallies, helper_id: Seq<char>)
    requires
        distinct_helpers(tallies),
    ensures
        as_mapping(tallies).contains_key(helper_id) <==> has_helper(tallies, helper_id),
        has_helper(tallies, helper_id) ==> as_mapping(tallies)[helper_id] == count_of(
            tallies,
            helper_id,
        ),
{
    lemma_mapping_entries(tallies);
    if has_helper(tallies, helper_id) {
        let p = place_of(tallies, helper_id);
        assert(as_mapping(tallies)[tallies[p].0] == tallies[p].1);
    }
}

/// The tallies made of a store's rows give every helper at least one
/// ticket.
pub proof fn lemma_tallies_from_positive(rows: Seq<(Seq<char>, int)>)
    ensures
        tallies_from(rows) matches Some(tallies) ==> all_positive(tallies),
    decreases rows.len(),
{
    if rows.len() > 0 {
        lemma_tallies_from_positive(rows.drop_last());
        if tallies_from(rows) is Some {
            let before = tallies_from(rows.drop_last())->0;
            let row = rows.last();
            let after = recorded(before, row.0, row.1 as nat);
            assert forall|i: int| 0 <= i < after.len() implies (#[trigger] after[i]).1 > 0 by {
                if i < before.len() && after[i] != (row.0, row.1 as nat) {
                    assert(after[i] == before[i]);
                }
            }
        }
    }
}

/// Rows that fail up to some place fail as a whole.
pub proof fn lemma_tallies_from_fails(rows: Seq<(Seq<char>, int)>, i: int)
    requires
        0 <= i <= rows.len(),
        tallies_from(rows.take(i)) is None,
    ensures
        tallies_from(rows) is None,
    decreases rows.len() - i,
{
    if i == rows.len() {
        assert(rows.take(i) =~= rows);
    } else {
        assert(rows.take(i + 1).drop_last() =~= rows.take(i));
        lemma_tallies_from_fails(rows, i + 1);
    }
}

/// One helper's line of a leaderboard.
#[derive(Debug)]
struct HelperTickets {
    helper_id: String,
    tickets: u64,
}

/// The tallies that a sequence of lines stands for.
spec fn tallies_of(entries: Seq<HelperTickets>) -> Tallies {
    entries.map_values(|e: HelperTickets| (e.helper_id@, e.tickets as nat))
}

/// The leaderboard of one time window: for each helper that occurs, the
/// number of tickets they closed. No helper occurs twice, and the tickets
/// of all helpers together fit in 64 bits.
#[derive(Debug)]
pub struct HelperActivity {
    entries: Vec<HelperTickets>,
    total: u64,
}

impl HelperActivity {
    /// The tallies, in the order in which the helpers were first recorded.
    pub closed spec fn tallies(&self) -> Tallies {
        tallies_of(self.entries@)
    }

    #[verifier::type_invariant]
    pub closed spec fn well_formed(&self) -> bool {
        &&& distinct_helpers(self.tallies())
        &&& self.total == total_tickets(self.tallies())
    }
}

impl View for HelperActivity {
    type V = Map<Seq<char>, nat>;

    open spec fn view(&self) -> Map<Seq<char>, nat> {
        as_mapping(self.tallies())
    }
}

impl HelperActivity {
    /// An activity in which no helper occurs.
    pub fn new() -> (activity: HelperActivity)
        ensures
            activity.tallies() == Tallies::empty(),
            activity.well_formed(),
    {
        let activity = HelperActivity { entries: Vec::new(), total: 0 };
        assert(activity.tallies() =~= Tallies::empty());
        activity
    }

    /// The number of helpers that occur.
    pub fn len(&self) -> (n: usize)
        ensures
            n == self.tallies().len(),
    {
        self.entries.len()
    }

    /// What the invariant of the type says of the tallies.
    pub proof fn lemma_well_formed(&self)
        requires
            self.well_formed(),
        ensures
            distinct_helpers(self.tallies()),
            total_tickets(self.tallies()) <= u64::MAX,
    {
    }

    /// The helper recorded at place `i`.
    pub fn helper_id(&self, i: usize) -> (helper_id: &String)
        requires
            i < self.tallies().len(),
        ensures
            helper_id@ == self.tallies()[i as int].0,
    {
        &self.entries[i].helper_id
    }

    /// The tickets closed by the helper recorded at place `i`.
    pub fn tickets(&self, i: usize) -> (tickets: u64)
        requires
            i < self.tallies().len(),
        ensures
            tickets == self.tallies()[i as int].1,
    {
        self.entries[i].tickets
    }

    /// The tickets closed by all helpers together.
    pub fn total_tickets(&self) -> (total: u64)
        ensures
            total == total_tickets(self.tallies()),
    {
        proof {
            use_type_invariant(self);
        }
        self.total
    }

    /// The place at which a helper is recorded, if they occur.
    pub fn find(&self, helper_id: &str) -> (place: Option<usize>)
        ensures
            match place {
                Some(i) => i < self.tallies().len() && self.tallies()[i as int].0 == helper_id@
                    && i == place_of(self.tallies(), helper_id@),
                None => !has_helper(self.tallies(), helper_id@),
            },
    {
        proof {
            use_type_invariant(self);
        }
        let mut i: usize = 0;
        while i < self.entries.len()
            invariant
                i <= self.entries.len(),
                distinct_helpers(self.tallies()),
                forall|k: int| 0 <= k < i ==> self.tallies()[k].0 != helper_id@,
            decreases self.entries.len() - i,
        {
            if str_equal(self.entries[i].helper_id.as_str(), helper_id) {
                proof {
                    let p = place_of(self.tallies(), helper_id@);
                    assert(self.tallies()[i as int].0 == helper_id@);
                    if i < p {
                        assert(self.tallies()[i as int].0 != self.tallies()[p].0);
                    } else if p < i {
                        assert(self.tallies()[p].0 != helper_id@);
                    }
                }
                return Some(i);
            }
            i += 1;
        }
        None
    }

    /// The tickets closed by a helper; `None` for one who does not occur.
    pub fn tickets_of(&self, helper_id: &str) -> (tickets: Option<u64>)
        ensures
            tickets is Some <==> self@.contains_key(helper_id@),
            tickets is Some ==> tickets->0 == self@[helper_id@],
    {
        proof {
            use_type_invariant(self);
            lemma_mapping_entries(self.tallies());
        }
        match self.find(helper_id) {
            Some(i) => Some(self.entries[i].tickets),
            None => None,
        }
    }

    /// Sets the number of tickets that a helper closed: in place where the
    /// helper occurs already, as a new last entry where they do not. An
    /// activity whose tickets together would no longer fit in 64 bits is
    /// refused with `QueryError` and left as it was.
    pub fn record(&mut self, helper_id: String, tickets: u64) -> (outcome: Result<(), PayoutError>)
        ensures
            outcome is Ok <==> total_tickets(
                recorded(old(self).tallies(), helper_id@, tickets as nat),
            ) <= u64::MAX,
            outcome is Ok ==> final(self).tallies() == recorded(
                old(self).tallies(),
                helper_id@,
                tickets as nat,
            ) && final(self)@ == old(self)@.insert(helper_id@, tickets as nat),
            outcome is Err ==> outcome == Err::<(), PayoutError>(PayoutError::QueryError)
                && final(self).tallies() == old(self).tallies(),
            final(self).well_formed(),
    {
        proof {
            use_type_invariant(&*self);
            lemma_recorded(self.tallies(), helper_id@, tickets as nat);
        }
        let ghost before = self.tallies();
        let place = self.find(helper_id.as_str());
        match place {
            Some(i) => {
                proof {
                    lemma_total_bounds_each(before, i as int);
                    lemma_total_update(before, i as int, (helper_id@, tickets as nat));
                }
                let others: u64 = self.total - self.entries[i].tickets;
                if tickets > u64::MAX - others {
                    return Err(PayoutError::QueryError);
                }
                let mut taken = HelperActivity::new();
                std::mem::swap(self, &mut taken);
                let HelperActivity { entries, total } = taken;
                let mut entries = entries;
                entries[i] = HelperTickets { helper_id, tickets };
                assert(tallies_of(entries@) =~= recorded(before, helper_id@, tickets as nat));
                *self = HelperActivity { entries, total: others + tickets };
                Ok(())
            },
            None => {
                proof {
                    lemma_total_push(before, (helper_id@, tickets as nat));
                }
                if tickets > u64::MAX - self.total {
                    return Err(PayoutError::QueryError);
                }
                let mut taken = HelperActivity::new();
                std::mem::swap(self, &mut taken);
                let HelperActivity { entries, total } = taken;
                let mut entries = entries;
                entries.push(HelperTickets { helper_id, tickets });
                assert(tallies_of(entries@) =~= recorded(before, helper_id@, tickets as nat));
                *self = HelperActivity { entries, total: total + tickets };
                Ok(())
            },
        }
    }

    /// Counts one more ticket for a helper, who is added with one ticket
    /// where they did not occur. An activity whose tickets together would
    /// no longer fit in 64 bits is refused with `QueryError` and left as it
    /// was.
    pub fn credit(&mut self, helper_id: &str) -> (outcome: Result<(), PayoutError>)
        ensures
            outcome is Ok <==> total_tickets(old(self).tallies()) < u64::MAX,
            outcome is Ok ==> final(self).tallies() == credited(old(self).tallies(), helper_id@),
            outcome is Err ==> outcome == Err::<(), PayoutError>(PayoutError::QueryError)
                && final(self).tallies() == old(self).tallies(),
            final(self).well_formed(),
    {
        proof {
            use_type_invariant(&*self);
            lemma_credited_total(self.tallies(), helper_id@);
        }
        if self.total == u64::MAX {
            return Err(PayoutError::QueryError);
        }
        let so_far: u64 = match self.find(helper_id) {
            Some(i) => {
                proof {
                    lemma_total_bounds_each(self.tallies(), i as int);
                }
                self.entries[i].tickets
            },
            None => 0,
        };
        self.record(String::from_str(helper_id), so_far + 1)
    }

    /// The activity that the rows of a store's answer make, each a helper
    /// and their count. The rows are taken in their order, and a later row
    /// for the same helper replaces the earlier one. A helper without a
    /// ticket does not occur in a leaderboard: a count that is zero or
    /// negative is refused with `QueryError`, and so are tickets that
    /// together no longer fit in 64 bits.
    pub fn from_rows(rows: &Vec<(String, i64)>) -> (outcome: Result<HelperActivity, PayoutError>)
        ensures
            match tallies_from(rows_view(rows@)) {
                Some(tallies) => outcome is Ok && outcome->Ok_0.tallies() == tallies
                    && outcome->Ok_0.well_formed(),
                None => outcome matches Err(PayoutError::QueryError),
            },
            outcome matches Ok(activity) ==> all_positive(activity.tallies()),
    {
        let ghost plain = rows_view(rows@);
        proof {
            lemma_tallies_from_positive(plain);
        }
        let mut activity = HelperActivity::new();
        let mut i: usize = 0;
        assert(plain.take(0) =~= Seq::<(Seq<char>, int)>::empty());
        while i < rows.len()
            invariant
                i <= rows.len(),
                plain == rows_view(rows@),
                tallies_from(plain.take(i as int)) == Some(activity.tallies()),
                activity.well_formed(),
            decreases rows.len() - i,
        {
            let count: i64 = rows[i].1;
            proof {
                assert(plain.take(i + 1).drop_last() =~= plain.take(i as int));
                assert(plain.take(i + 1).last() == (rows@[i as int].0@, count as int));
            }
            if count <= 0 {
                proof {
                    lemma_tallies_from_fails(plain, i + 1);
                }
                return Err(PayoutError::QueryError);
            }
            match activity.record(rows[i].0.clone(), count as u64) {
                Ok(()) => {},
                Err(_) => {
                    proof {
                        lemma_tallies_from_fails(plain, i + 1);
                    }
                    return Err(PayoutError::QueryError);
                },
            }
            i += 1;
        }
        assert(plain.take(i as int) =~= plain);
        Ok(activity)
    }
}

} // verus!
