//! Proposals (`Vote`), per-participant indexes (`Voter`) and their views.
use vstd::prelude::*;

use crate::identity::opt_view;
use crate::types::{Choose, ContractError, Timestamp, VoteId};
use crate::{same_id,
    has_titled, has_vote, has_voter, mirrored, vote_index, voter_index, votes_distinct,
    voters_distinct, LedgerView, YesOrNoContract,
};

verus! {

/// One proposal: its content, its threshold, the ballots cast so far and the
/// participants who still owe one.
pub struct Vote {
    pub id: VoteId,
    pub initiator: String,
    pub title: String,
    pub desc: Option<String>,
    /// Link to an additional description or introduction.
    pub link: Option<String>,
    /// Whether the proposal still takes ballots.
    pub active: bool,
    /// The number of affirmative ballots needed to pass.
    pub threshold: u64,
    /// The number of affirmative ballots cast so far.
    pub count: u64,
    /// The ballots cast, in the order they were cast: participant, choice, time.
    pub finish: Vec<(String, Choose, Timestamp)>,
    /// The participants who have not voted yet, in the order they were named.
    pub thinking: Vec<String>,
    pub create_time: Timestamp,
    /// When the proposal was resolved, if it has been.
    pub finish_time: Option<Timestamp>,
    /// The electorate the proposal was created with.
    pub electorate: Ghost<Seq<Seq<char>>>,
}

/// A participant's index: the proposals they owe a ballot on, and the ballots
/// they have cast, each in the order it arose.
pub struct Voter {
    pub thinking: Vec<(VoteId, String)>,
    pub finish: Vec<(VoteId, String, Choose, Timestamp)>,
}

/// The request to open a proposal. `active` is not read: a new proposal's
/// status follows from its threshold.
pub struct InputVote {
    pub title: String,
    pub desc: Option<String>,
    /// Link to an additional description or introduction.
    pub link: Option<String>,
    pub active: bool,
    /// The number of affirmative ballots needed to pass.
    pub threshold: u64,
    /// The electorate; a name given twice counts once.
    pub thinking: Vec<String>,
}

/// A cast ballot as a mathematical value: participant, choice, time.
pub type BallotView = (Seq<char>, bool, u64);

/// A pending entry of a participant's index: proposal id and title.
pub type PendingView = (Seq<u8>, Seq<char>);

/// A settled entry of a participant's index: proposal id, title, choice, time.
pub type SettledView = (Seq<u8>, Seq<char>, bool, u64);

/// A proposal as a mathematical value.
pub struct VoteView {
    pub id: Seq<u8>,
    pub initiator: Seq<char>,
    pub title: Seq<char>,
    pub desc: Option<Seq<char>>,
    pub link: Option<Seq<char>>,
    pub active: bool,
    pub threshold: u64,
    pub count: u64,
    pub finish: Seq<BallotView>,
    pub thinking: Seq<Seq<char>>,
    pub create_time: u64,
    pub finish_time: Option<u64>,
    pub electorate: Seq<Seq<char>>,
}

/// A participant's index as a mathematical value.
pub struct VoterView {
    pub thinking: Seq<PendingView>,
    pub finish: Seq<SettledView>,
}

pub open spec fn names_view(v: Seq<String>) -> Seq<Seq<char>> {
    v.map_values(|s: String| s@)
}

pub open spec fn ballots_view(v: Seq<(String, Choose, Timestamp)>) -> Seq<BallotView> {
    v.map_values(|e: (String, Choose, Timestamp)| (e.0@, e.1, e.2))
}

pub open spec fn pending_view(v: Seq<(VoteId, String)>) -> Seq<PendingView> {
    v.map_values(|e: (VoteId, String)| (e.0@, e.1@))
}

pub open spec fn settled_view(v: Seq<(VoteId, String, Choose, Timestamp)>) -> Seq<SettledView> {
    v.map_values(|e: (VoteId, String, Choose, Timestamp)| (e.0@, e.1@, e.2, e.3))
}

impl View for Vote {
    type V = VoteView;

    open spec fn view(&self) -> VoteView {
        VoteView {
            id: self.id@,
            initiator: self.initiator@,
            title: self.title@,
            desc: opt_view(self.desc),
            link: opt_view(self.link),
            active: self.active,
            threshold: self.threshold,
            count: self.count,
            finish: ballots_view(self.finish@),
            thinking: names_view(self.thinking@),
            create_time: self.create_time,
            finish_time: self.finish_time,
            electorate: self.electorate@,
        }
    }
}

impl View for Voter {
    type V = VoterView;

    open spec fn view(&self) -> VoterView {
        VoterView { thinking: pending_view(self.thinking@), finish: settled_view(self.finish@) }
    }
}

impl InputVote {
    /// The electorate as named, repeats included.
    pub open spec fn named(&self) -> Seq<Seq<char>> {
        names_view(self.thinking@)
    }
}

/// The members of `s` in order of first appearance, each once.
pub open spec fn distinct(s: Seq<Seq<char>>) -> Seq<Seq<char>>
    decreases s.len(),
{
    if s.len() == 0 {
        Seq::empty()
    } else {
        let d = distinct(s.drop_last());
        if d.contains(s.last()) {
            d
        } else {
            d.push(s.last())
        }
    }
}

/// The number of affirmative ballots among `b`.
pub open spec fn count_yes(b: Seq<BallotView>) -> nat
    decreases b.len(),
{
    if b.len() == 0 {
        0
    } else {
        count_yes(b.drop_last()) + if b.last().1 {
            1nat
        } else {
            0nat
        }
    }
}

/// The resolution rule: a proposal is decided once its affirmative ballots
/// reach the threshold, or once even all pending ballots could not reach it.
pub open spec fn resolved(count: int, pending: int, threshold: int) -> bool {
    count >= threshold || pending + count < threshold
}

/// Whether `who` has a ballot among `b`.
pub open spec fn has_ballot(b: Seq<BallotView>, who: Seq<char>) -> bool {
    exists|k: int| 0 <= k < b.len() && (#[trigger] b[k]).0 == who
}

/// No participant has two ballots among `b`.
pub open spec fn ballots_distinct(b: Seq<BallotView>) -> bool {
    forall|k: int, m: int| 0 <= k < b.len() && 0 <= m < b.len() && k != m ==> (#[trigger] b[k]).0 != (#[trigger] b[m]).0
}

impl VoteView {
    /// The bookkeeping of one proposal is consistent.
    pub open spec fn wf(self) -> bool {
        &&& self.electorate.no_duplicates()
        &&& self.thinking.no_duplicates()
        &&& ballots_distinct(self.finish)
        &&& self.thinking.len() + self.finish.len() == self.electorate.len()
        &&& forall|x: Seq<char>| #![trigger self.electorate.contains(x)]
            self.electorate.contains(x) <==> (self.thinking.contains(x) || has_ballot(self.finish, x))
        &&& forall|x: Seq<char>| !(#[trigger] self.thinking.contains(x) && has_ballot(self.finish, x))
        &&& self.count == count_yes(self.finish)
        &&& self.threshold <= self.electorate.len()
        &&& self.active == !resolved(self.count as int, self.thinking.len() as int, self.threshold as int)
        &&& (self.finish_time is Some <==> !self.active)
    }
}

} // verus!

verus! {

/// Removing the element at `a` from a sequence without repeats removes
/// exactly that value.
pub proof fn lemma_remove_unique<A>(s: Seq<A>, a: int)
    requires
        s.no_duplicates(),
        0 <= a < s.len(),
    ensures
        s.remove(a).no_duplicates(),
        s.remove(a).len() == s.len() - 1,
        forall|x: A| #[trigger] s.remove(a).contains(x) <==> (s.contains(x) && x != s[a]),
{
    let r = s.remove(a);
    assert forall|x: A| #[trigger] r.contains(x) <==> (s.contains(x) && x != s[a]) by {
        if r.contains(x) {
            let k = choose|k: int| 0 <= k < r.len() && r[k] == x;
            if k < a {
                assert(s[k] == x);
            } else {
                assert(s[k + 1] == x);
            }
        }
        if s.contains(x) && x != s[a] {
            let k = choose|k: int| 0 <= k < s.len() && s[k] == x;
            if k < a {
                assert(r[k] == x);
            } else {
                assert(k != a);
                assert(r[k - 1] == x);
            }
        }
    }
}

/// One more ballot adds one affirmative ballot to the count exactly when it
/// is affirmative.
pub proof fn lemma_count_yes_push(b: Seq<BallotView>, e: BallotView)
    ensures
        count_yes(b.push(e)) == count_yes(b) + if e.1 {
            1nat
        } else {
            0nat
        },
{
    assert(b.push(e).drop_last() =~= b);
}

} // verus!

verus! {

/// What a ballot on `id` cast by `who` is answered with.
pub open spec fn vote_outcome(l: LedgerView, id: Seq<u8>, who: Seq<char>) -> Result<(), ContractError> {
    if !has_vote(l.votes, id) {
        Err(ContractError::ProposalNotFound)
    } else if !has_voter(l.voters, who) {
        Err(ContractError::VoterNotFound)
    } else {
        let v = l.votes[vote_index(l.votes, id)];
        let p = l.voters[voter_index(l.voters, who)].1;
        if !p.thinking.contains((id, v.title)) {
            Err(ContractError::AlreadySettled)
        } else if !v.active {
            Err(ContractError::ProposalClosed)
        } else {
            Ok(())
        }
    }
}

/// A proposal after `who`'s ballot: `who` moves from pending to settled, an
/// affirmative ballot counts, and the resolution rule is applied.
pub open spec fn ballot_cast(v: VoteView, who: Seq<char>, choose: bool, now: u64) -> VoteView {
    let thinking = v.thinking.remove(v.thinking.index_of(who));
    let count = if choose {
        v.count + 1
    } else {
        v.count as int
    };
    let done = resolved(count, thinking.len() as int, v.threshold as int);
    VoteView {
        thinking,
        finish: v.finish.push((who, choose, now)),
        count: count as u64,
        active: !done,
        finish_time: if done {
            Some(now)
        } else {
            v.finish_time
        },
        ..v
    }
}

/// A participant's index after their ballot on (`id`, `title`).
pub open spec fn ballot_recorded(p: VoterView, id: Seq<u8>, title: Seq<char>, choose: bool, now: u64) -> VoterView {
    VoterView {
        thinking: p.thinking.remove(p.thinking.index_of((id, title))),
        finish: p.finish.push((id, title, choose, now)),
    }
}

/// The ledger after an accepted ballot.
pub open spec fn vote_post(l: LedgerView, id: Seq<u8>, who: Seq<char>, choose: bool, now: u64) -> LedgerView {
    let i = vote_index(l.votes, id);
    let j = voter_index(l.voters, who);
    LedgerView {
        votes: l.votes.update(i, ballot_cast(l.votes[i], who, choose, now)),
        voters: l.voters.update(j, (who, ballot_recorded(l.voters[j].1, id, l.votes[i].title, choose, now))),
        items: l.items,
    }
}

pub proof fn lemma_vote_index(votes: Seq<VoteView>, i: int)
    requires
        votes_distinct(votes),
        0 <= i < votes.len(),
    ensures
        vote_index(votes, votes[i].id) == i,
{
    assert(has_vote(votes, votes[i].id));
}

pub proof fn lemma_voter_index(voters: Seq<(Seq<char>, VoterView)>, j: int)
    requires
        voters_distinct(voters),
        0 <= j < voters.len(),
    ensures
        voter_index(voters, voters[j].0) == j,
{
    assert(has_voter(voters, voters[j].0));
}

/// An accepted ballot keeps the ledger's invariant.
pub proof fn lemma_vote_post_wf(l: LedgerView, id: Seq<u8>, who: Seq<char>, choose: bool, now: u64)
    requires
        l.wf(),
        vote_outcome(l, id, who) is Ok,
    ensures
        vote_post(l, id, who, choose, now).wf(),
{
    let i0 = vote_index(l.votes, id);
    let j0 = voter_index(l.voters, who);
    let v = l.votes[i0];
    let p = l.voters[j0].1;
    let title = v.title;
    let n = vote_post(l, id, who, choose, now);
    let v2 = n.votes[i0];
    let p2 = n.voters[j0].1;
    assert(l.votes[i0].wf());
    assert(p.thinking.contains((id, title)));
    assert(v.thinking.contains(who));
    let a = v.thinking.index_of(who);
    let b = p.thinking.index_of((id, title));
    lemma_remove_unique(v.thinking, a);
    lemma_remove_unique(p.thinking, b);
    lemma_count_yes_push(v.finish, (who, choose, now));
    assert(!has_ballot(v.finish, who));
    assert forall|x: Seq<char>| has_ballot(v2.finish, x) <==> (has_ballot(v.finish, x) || x == who) by {
        if has_ballot(v2.finish, x) {
            let k = choose|k: int| 0 <= k < v2.finish.len() && (#[trigger] v2.finish[k]).0 == x;
            if k < v.finish.len() {
                assert(v.finish[k] == v2.finish[k]);
            }
        }
        if has_ballot(v.finish, x) {
            let k = choose|k: int| 0 <= k < v.finish.len() && (#[trigger] v.finish[k]).0 == x;
            assert(v2.finish[k] == v.finish[k]);
        }
        if x == who {
            assert(v2.finish[v.finish.len() as int].0 == who);
        }
    }
    assert(ballots_distinct(v2.finish)) by {
        assert forall|k: int, m: int| 0 <= k < v2.finish.len() && 0 <= m < v2.finish.len() && k != m
            implies (#[trigger] v2.finish[k]).0 != (#[trigger] v2.finish[m]).0 by {
            if k < v.finish.len() && m < v.finish.len() {
                assert(v2.finish[k] == v.finish[k] && v2.finish[m] == v.finish[m]);
            } else if k < v.finish.len() {
                assert(v2.finish[k] == v.finish[k]);
            } else {
                assert(v2.finish[m] == v.finish[m]);
            }
        }
    }
    assert(v2.wf());
    assert forall|i: int| 0 <= i < n.votes.len() implies (#[trigger] n.votes[i]).wf() by {
        if i != i0 {
            assert(n.votes[i] == l.votes[i]);
        }
    }
    assert forall|j: int| 0 <= j < n.voters.len() implies (#[trigger] n.voters[j]).1.thinking.no_duplicates() by {
        if j != j0 {
            assert(n.voters[j] == l.voters[j]);
        }
    }
    // proposals keep their ids and titles, participants their names
    assert forall|i: int| 0 <= i < n.votes.len() implies (#[trigger] n.votes[i]).id == l.votes[i].id && n.votes[i].title == l.votes[i].title
        && n.votes[i].electorate == l.votes[i].electorate by {}
    assert forall|j: int| 0 <= j < n.voters.len() implies (#[trigger] n.voters[j]).0 == l.voters[j].0 by {
        assert(l.voters[j0].0 == who);
    }
    assert forall|xid: Seq<u8>, xt: Seq<char>| has_titled(n.votes, xid, xt) <==> has_titled(l.votes, xid, xt) by {
        if has_titled(l.votes, xid, xt) {
            let i = choose|i: int| 0 <= i < l.votes.len() && (#[trigger] l.votes[i]).id == xid && l.votes[i].title == xt;
            assert(n.votes[i].id == xid);
        }
        if has_titled(n.votes, xid, xt) {
            let i = choose|i: int| 0 <= i < n.votes.len() && (#[trigger] n.votes[i]).id == xid && n.votes[i].title == xt;
            assert(l.votes[i].id == xid);
        }
    }
    assert forall|x: Seq<char>| has_voter(n.voters, x) <==> has_voter(l.voters, x) by {
        if has_voter(l.voters, x) {
            let j = choose|j: int| 0 <= j < l.voters.len() && (#[trigger] l.voters[j]).0 == x;
            assert(n.voters[j].0 == x);
        }
        if has_voter(n.voters, x) {
            let j = choose|j: int| 0 <= j < n.voters.len() && (#[trigger] n.voters[j]).0 == x;
            assert(l.voters[j].0 == x);
        }
    }
    assert(mirrored(n.votes, n.voters)) by {
        assert forall|i: int, j: int| 0 <= i < n.votes.len() && 0 <= j < n.voters.len() implies
            (n.voters[j].1.thinking.contains((n.votes[i].id, n.votes[i].title)) <==> n.votes[i].thinking.contains(n.voters[j].0)) by {
            let li = l.votes[i];
            let lj = l.voters[j];
            assert(lj.1.thinking.contains((li.id, li.title)) <==> li.thinking.contains(lj.0));
            if i != i0 {
                assert(li.id != id);
            }
            if j != j0 {
                assert(lj.0 != who);
            }
        }
        assert forall|i: int, j: int, c: bool, t: u64| 0 <= i < n.votes.len() && 0 <= j < n.voters.len() implies
            (n.voters[j].1.finish.contains((n.votes[i].id, n.votes[i].title, c, t)) <==> n.votes[i].finish.contains((n.voters[j].0, c, t))) by {
            let li = l.votes[i];
            let lj = l.voters[j];
            assert(lj.1.finish.contains((li.id, li.title, c, t)) <==> li.finish.contains((lj.0, c, t)));
            if i != i0 {
                assert(li.id != id);
            }
            if j != j0 {
                assert(lj.0 != who);
            }
            if i == i0 {
                if n.votes[i].finish.contains((n.voters[j].0, c, t)) {
                    let k = choose|k: int| 0 <= k < v2.finish.len() && v2.finish[k] == (n.voters[j].0, c, t);
                    if k < v.finish.len() {
                        assert(v.finish[k] == v2.finish[k]);
                    }
                }
                if li.finish.contains((lj.0, c, t)) {
                    let k = choose|k: int| 0 <= k < v.finish.len() && v.finish[k] == (lj.0, c, t);
                    assert(v2.finish[k] == v.finish[k]);
                }
                if j == j0 && c == choose && t == now {
                    assert(v2.finish[v.finish.len() as int] == (who, choose, now));
                    assert(p2.finish[p.finish.len() as int] == (id, title, choose, now));
                }
            }
            if j == j0 {
                if n.voters[j].1.finish.contains((n.votes[i].id, n.votes[i].title, c, t)) {
                    let k = choose|k: int| 0 <= k < p2.finish.len() && p2.finish[k] == (n.votes[i].id, n.votes[i].title, c, t);
                    if k < p.finish.len() {
                        assert(p.finish[k] == p2.finish[k]);
                    }
                }
                if lj.1.finish.contains((li.id, li.title, c, t)) {
                    let k = choose|k: int| 0 <= k < p.finish.len() && p.finish[k] == (li.id, li.title, c, t);
                    assert(p2.finish[k] == p.finish[k]);
                }
            }
        }
        assert forall|j: int, k: int| 0 <= j < n.voters.len() && 0 <= k < n.voters[j].1.thinking.len() implies
            has_titled(n.votes, (#[trigger] n.voters[j].1.thinking[k]).0, n.voters[j].1.thinking[k].1) by {
            if j == j0 {
                assert(p.thinking.contains(p2.thinking[k]));
                let m = choose|m: int| 0 <= m < p.thinking.len() && p.thinking[m] == p2.thinking[k];
                assert(has_titled(l.votes, p.thinking[m].0, p.thinking[m].1));
            } else {
                assert(n.voters[j] == l.voters[j]);
                assert(has_titled(l.votes, l.voters[j].1.thinking[k].0, l.voters[j].1.thinking[k].1));
            }
        }
        assert forall|j: int, k: int| 0 <= j < n.voters.len() && 0 <= k < n.voters[j].1.finish.len() implies
            has_titled(n.votes, (#[trigger] n.voters[j].1.finish[k]).0, n.voters[j].1.finish[k].1) by {
            if j == j0 {
                if k < p.finish.len() {
                    assert(p2.finish[k] == p.finish[k]);
                    assert(has_titled(l.votes, p.finish[k].0, p.finish[k].1));
                } else {
                    assert(l.votes[i0].id == id);
                    assert(has_titled(l.votes, id, title));
                }
            } else {
                assert(n.voters[j] == l.voters[j]);
                assert(has_titled(l.votes, l.voters[j].1.finish[k].0, l.voters[j].1.finish[k].1));
            }
        }
        assert forall|i: int, x: Seq<char>| 0 <= i < n.votes.len() && (#[trigger] n.votes[i].electorate.contains(x)) implies has_voter(n.voters, x) by {
            assert(has_voter(l.voters, x));
        }
    }
    assert(votes_distinct(n.votes));
    assert(voters_distinct(n.voters));
}

} // verus!

verus! {

/// The position of `who` in `names`, if it is there.
pub(crate) fn position_of_name(names: &Vec<String>, who: &String) -> (r: Option<usize>)
    ensures
        match r {
            Some(k) => k < names@.len() && names_view(names@)[k as int] == who@,
            None => !names_view(names@).contains(who@),
        },
{
    let mut k: usize = 0;
    while k < names.len()
        invariant
            0 <= k <= names.len(),
            forall|m: int| 0 <= m < k ==> (#[trigger] names_view(names@)[m]) != who@,
        decreases names.len() - k,
    {
        if names[k] == *who {
            return Some(k);
        }
        k = k + 1;
    }
    None
}

/// The position of the pending entry (`id`, `title`) in `entries`, if it is there.
fn position_of_pending(entries: &Vec<(VoteId, String)>, id: &VoteId, title: &String) -> (r: Option<usize>)
    ensures
        match r {
            Some(k) => k < entries@.len() && pending_view(entries@)[k as int] == (id@, title@),
            None => !pending_view(entries@).contains((id@, title@)),
        },
{
    let mut k: usize = 0;
    while k < entries.len()
        invariant
            0 <= k <= entries.len(),
            forall|m: int| 0 <= m < k ==> (#[trigger] pending_view(entries@)[m]) != (id@, title@),
        decreases entries.len() - k,
    {
        if same_id(&entries[k].0, id) && entries[k].1 == *title {
            return Some(k);
        }
        k = k + 1;
    }
    None
}

impl YesOrNoContract {
    /// Casts `account_id`'s ballot `choose` on proposal `id` at time `now`.
    /// The ballot moves the caller from pending to settled on both sides,
    /// counts if affirmative, and resolves the proposal once the resolution
    /// rule holds.
    pub fn vote(&mut self, id: VoteId, choose: Choose, account_id: &String, now: Timestamp) -> (r: Result<(), ContractError>)
        requires
            old(self).wf(),
        ensures
            final(self).wf(),
            r == vote_outcome(old(self)@, id@, account_id@),
            final(self)@ == if r is Ok {
                vote_post(old(self)@, id@, account_id@, choose, now)
            } else {
                old(self)@
            },
    {
        let ghost l = self@;
        let vi = match self.find_vote(&id) {
            Some(i) => i,
            None => return Err(ContractError::ProposalNotFound),
        };
        proof {
            lemma_vote_index(l.votes, vi as int);
        }
        let pi = match self.find_voter(account_id) {
            Some(j) => j,
            None => return Err(ContractError::VoterNotFound),
        };
        proof {
            lemma_voter_index(l.voters, pi as int);
        }
        let title = self.vote[vi].title.clone();
        let k = match position_of_pending(&self.voter[pi].1.thinking, &id, &title) {
            Some(k) => k,
            None => return Err(ContractError::AlreadySettled),
        };
        if !self.vote[vi].active {
            return Err(ContractError::ProposalClosed);
        }
        proof {
            assert(l.voters[pi as int].1.thinking[k as int] == (id@, title@));
            assert(l.voters[pi as int].1.thinking.contains((id@, title@)));
            assert(l.votes[vi as int].thinking.contains(account_id@));
            assert(l.votes[vi as int].wf());
            assert(l.voters[pi as int].1.thinking.no_duplicates());
        }
        let j = match position_of_name(&self.vote[vi].thinking, account_id) {
            Some(j) => j,
            None => {
                proof {
                    assert(false);
                }
                return Err(ContractError::AlreadySettled);
            },
        };
        proof {
            assert(l.votes[vi as int].thinking.index_of(account_id@) == j as int);
            assert(l.voters[pi as int].1.thinking.index_of((id@, title@)) == k as int);
        }
        let ghost old_v = self.vote[vi as int];
        let ghost old_p = self.voter[pi as int].1;
        {
            let rec = &mut self.voter[pi];
            rec.1.thinking.remove(k);
            rec.1.finish.push((id, title, choose, now));
        }
        {
            let v = &mut self.vote[vi];
            v.thinking.remove(j);
            v.finish.push((account_id.clone(), choose, now));
            if choose {
                v.count = v.count + 1;
            }
            // passed: the affirmative ballots reach the threshold
            if v.count >= v.threshold {
                v.active = false;
                v.finish_time = Some(now);
            }
            // failed: even every pending ballot could no longer reach it
            if v.count < v.threshold && (v.thinking.len() as u64) < v.threshold - v.count {
                v.active = false;
                v.finish_time = Some(now);
            }
        }
        proof {
            let n = vote_post(l, id@, account_id@, choose, now);
            let new_v = self.vote[vi as int];
            let new_p = self.voter[pi as int].1;
            assert(names_view(new_v.thinking@) =~= names_view(old_v.thinking@).remove(j as int));
            assert(ballots_view(new_v.finish@) =~= ballots_view(old_v.finish@).push((account_id@, choose, now)));
            assert(pending_view(new_p.thinking@) =~= pending_view(old_p.thinking@).remove(k as int));
            assert(settled_view(new_p.finish@) =~= settled_view(old_p.finish@).push((id@, title@, choose, now)));
            assert(self@.votes[vi as int] == n.votes[vi as int]);
            assert(self@.voters[pi as int] == n.voters[pi as int]);
            assert(self@.votes =~= n.votes);
            assert(self@.voters =~= n.voters);
            assert(self@.items =~= n.items);
            lemma_vote_post_wf(l, id@, account_id@, choose, now);
        }
        Ok(())
    }
}

} // verus!

verus! {

/// A copy of an optional text.
pub(crate) fn clone_opt(o: &Option<String>) -> (r: Option<String>)
    ensures
        opt_view(r) == opt_view(*o),
{
    match o {
        Some(s) => Some(s.clone()),
        None => None,
    }
}

/// A copy of a list of names.
pub(crate) fn clone_names(v: &Vec<String>) -> (r: Vec<String>)
    ensures
        names_view(r@) == names_view(v@),
{
    let mut r: Vec<String> = Vec::new();
    let mut i: usize = 0;
    while i < v.len()
        invariant
            0 <= i <= v.len(),
            names_view(r@) == names_view(v@).take(i as int),
        decreases v.len() - i,
    {
        let ghost before = r@;
        r.push(v[i].clone());
        proof {
            assert(names_view(r@) =~= names_view(before).push(v@[i as int]@));
            assert(names_view(v@).take(i + 1) =~= names_view(v@).take(i as int).push(v@[i as int]@));
        }
        i = i + 1;
    }
    proof {
        assert(names_view(v@).take(v.len() as int) =~= names_view(v@));
    }
    r
}

/// A copy of a list of ballots.
fn clone_ballots(v: &Vec<(String, Choose, Timestamp)>) -> (r: Vec<(String, Choose, Timestamp)>)
    ensures
        ballots_view(r@) == ballots_view(v@),
{
    let mut r: Vec<(String, Choose, Timestamp)> = Vec::new();
    let mut i: usize = 0;
    while i < v.len()
        invariant
            0 <= i <= v.len(),
            ballots_view(r@) == ballots_view(v@).take(i as int),
        decreases v.len() - i,
    {
        let ghost before = r@;
        r.push((v[i].0.clone(), v[i].1, v[i].2));
        proof {
            let e = v@[i as int];
            assert(ballots_view(r@) =~= ballots_view(before).push((e.0@, e.1, e.2)));
            assert(ballots_view(v@).take(i + 1) =~= ballots_view(v@).take(i as int).push((e.0@, e.1, e.2)));
        }
        i = i + 1;
    }
    proof {
        assert(ballots_view(v@).take(v.len() as int) =~= ballots_view(v@));
    }
    r
}

impl Clone for Vote {
    fn clone(&self) -> (r: Self)
        ensures
            r@ == self@,
    {
        Vote {
            id: self.id,
            initiator: self.initiator.clone(),
            title: self.title.clone(),
            desc: clone_opt(&self.desc),
            link: clone_opt(&self.link),
            active: self.active,
            threshold: self.threshold,
            count: self.count,
            finish: clone_ballots(&self.finish),
            thinking: clone_names(&self.thinking),
            create_time: self.create_time,
            finish_time: self.finish_time,
            electorate: self.electorate,
        }
    }
}

/// The window of `s` that starts at `index` and holds at most `limit`
/// elements; empty when `index` is past the end.
pub open spec fn page<A>(s: Seq<A>, index: u64, limit: u64) -> Seq<A> {
    if index >= s.len() {
        Seq::empty()
    } else if index + limit >= s.len() {
        s.subrange(index as int, s.len() as int)
    } else {
        s.subrange(index as int, index + limit)
    }
}

/// The proposals `who` owes a ballot on; none if `who` has no index.
pub open spec fn pending_of(l: LedgerView, who: Seq<char>) -> Seq<PendingView> {
    if has_voter(l.voters, who) {
        l.voters[voter_index(l.voters, who)].1.thinking
    } else {
        Seq::empty()
    }
}

/// The ballots `who` has cast; none if `who` has no index.
pub open spec fn settled_of(l: LedgerView, who: Seq<char>) -> Seq<SettledView> {
    if has_voter(l.voters, who) {
        l.voters[voter_index(l.voters, who)].1.finish
    } else {
        Seq::empty()
    }
}

/// The bounds of the window that `page` describes, over a sequence of length `len`.
fn page_bounds(len: usize, index: u64, limit: u64) -> (r: (usize, usize))
    ensures
        r.0 <= r.1 <= len,
        index >= len ==> r.0 == r.1,
        index < len ==> r.0 == index && r.1 <= len && r.1 == if index + limit >= len {
            len as int
        } else {
            index + limit
        },
{
    let n = len as u64;
    if index >= n {
        (0, 0)
    } else if limit >= n - index {
        (index as usize, len)
    } else {
        (index as usize, (index + limit) as usize)
    }
}

impl YesOrNoContract {
    /// The proposal with id `vote_id`, if there is one.
    pub fn get_vote(&self, vote_id: VoteId) -> (r: Option<Vote>)
        requires
            self.wf(),
        ensures
            match r {
                Some(v) => has_vote(self@.votes, vote_id@) && v@ == self@.votes[vote_index(self@.votes, vote_id@)],
                None => !has_vote(self@.votes, vote_id@),
            },
    {
        match self.find_vote(&vote_id) {
            Some(i) => {
                proof {
                    lemma_vote_index(self@.votes, i as int);
                }
                Some(self.vote[i].clone())
            },
            None => None,
        }
    }

    /// A page of the proposals `account_id` still owes a ballot on, in the
    /// order they were opened: at most `limit` entries from position `index`.
    pub fn get_active_vote_list(&self, index: u64, limit: u64, account_id: &String) -> (r: Vec<(VoteId, String)>)
        requires
            self.wf(),
        ensures
            pending_view(r@) == page(pending_of(self@, account_id@), index, limit),
    {
        let mut r: Vec<(VoteId, String)> = Vec::new();
        let j = match self.find_voter(account_id) {
            Some(j) => j,
            None => {
                proof {
                    assert(pending_view(r@) =~= Seq::<PendingView>::empty());
                }
                return r;
            },
        };
        proof {
            lemma_voter_index(self@.voters, j as int);
        }
        let t = &self.voter[j].1.thinking;
        let (start, end) = page_bounds(t.len(), index, limit);
        let mut i: usize = start;
        proof {
            assert(pending_view(r@) =~= pending_view(t@).subrange(start as int, start as int));
        }
        while i < end
            invariant
                start <= i <= end,
                end <= t.len(),
                pending_view(r@) == pending_view(t@).subrange(start as int, i as int),
            decreases end - i,
        {
            let ghost before = r@;
            r.push((t[i].0, t[i].1.clone()));
            proof {
                let e = t@[i as int];
                assert(pending_view(r@) =~= pending_view(before).push((e.0@, e.1@)));
                assert(pending_view(t@).subrange(start as int, i + 1) =~= pending_view(t@).subrange(start as int, i as int).push((e.0@, e.1@)));
            }
            i = i + 1;
        }
        proof {
            assert(pending_view(r@) =~= page(pending_of(self@, account_id@), index, limit));
        }
        r
    }

    /// A page of the ballots `account_id` has cast, in the order they were
    /// cast: at most `limit` entries from position `index`.
    pub fn get_finish_vote_list(&self, index: u64, limit: u64, account_id: &String) -> (r: Vec<(VoteId, String, Choose, Timestamp)>)
        requires
            self.wf(),
        ensures
            settled_view(r@) == page(settled_of(self@, account_id@), index, limit),
    {
        let mut r: Vec<(VoteId, String, Choose, Timestamp)> = Vec::new();
        let j = match self.find_voter(account_id) {
            Some(j) => j,
            None => {
                proof {
                    assert(settled_view(r@) =~= Seq::<SettledView>::empty());
                }
                return r;
            },
        };
        proof {
            lemma_voter_index(self@.voters, j as int);
        }
        let f = &self.voter[j].1.finish;
        let (start, end) = page_bounds(f.len(), index, limit);
        let mut i: usize = start;
        proof {
            assert(settled_view(r@) =~= settled_view(f@).subrange(start as int, start as int));
        }
        while i < end
            invariant
                start <= i <= end,
                end <= f.len(),
                settled_view(r@) == settled_view(f@).subrange(start as int, i as int),
            decreases end - i,
        {
            let ghost before = r@;
            r.push((f[i].0, f[i].1.clone(), f[i].2, f[i].3));
            proof {
                let e = f@[i as int];
                assert(settled_view(r@) =~= settled_view(before).push((e.0@, e.1@, e.2, e.3)));
                assert(settled_view(f@).subrange(start as int, i + 1) =~= settled_view(f@).subrange(start as int, i as int).push((e.0@, e.1@, e.2, e.3)));
            }
            i = i + 1;
        }
        proof {
            assert(settled_view(r@) =~= page(settled_of(self@, account_id@), index, limit));
        }
        r
    }
}

} // verus!
