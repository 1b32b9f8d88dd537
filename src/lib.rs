//! A threshold voting and item-review ledger.
use vstd::prelude::*;

pub mod create;
pub mod identity;
pub mod key;
pub mod laws;
pub mod review;
pub mod types;
pub mod vote;

pub use crate::key::{ContractKeys, ItemKeys, VoteKeys};
pub use crate::review::{Item, ItemView};
pub use crate::types::{Choose, ContractError, ItemId, Timestamp, VoteId};
pub use crate::vote::{InputVote, Vote, VoteView, Voter, VoterView};

verus! {

/// The ledger's whole state: proposals by id, participants' indexes by
/// account, review items by id.
pub struct YesOrNoContract {
    vote: Vec<Vote>,
    voter: Vec<(String, Voter)>,
    review: Vec<Item>,
}

/// The ledger as a mathematical value: its three tables in storage order.
pub struct LedgerView {
    pub votes: Seq<VoteView>,
    pub voters: Seq<(Seq<char>, VoterView)>,
    pub items: Seq<ItemView>,
}

impl View for YesOrNoContract {
    type V = LedgerView;

    open(crate) spec fn view(&self) -> LedgerView {
        LedgerView {
            votes: self.vote@.map_values(|v: Vote| v@),
            voters: self.voter@.map_values(|e: (String, Voter)| (e.0@, e.1@)),
            items: self.review@.map_values(|i: Item| i@),
        }
    }
}

/// Some proposal has id `id`.
pub open spec fn has_vote(votes: Seq<VoteView>, id: Seq<u8>) -> bool {
    exists|i: int| 0 <= i < votes.len() && (#[trigger] votes[i]).id == id
}

/// Some proposal has id `id` and title `title`.
pub open spec fn has_titled(votes: Seq<VoteView>, id: Seq<u8>, title: Seq<char>) -> bool {
    exists|i: int| 0 <= i < votes.len() && (#[trigger] votes[i]).id == id && votes[i].title == title
}

/// Some participant's index belongs to `who`.
pub open spec fn has_voter(voters: Seq<(Seq<char>, VoterView)>, who: Seq<char>) -> bool {
    exists|j: int| 0 <= j < voters.len() && (#[trigger] voters[j]).0 == who
}

/// Some review item has id `id`.
pub open spec fn has_item(items: Seq<ItemView>, id: Seq<u8>) -> bool {
    exists|i: int| 0 <= i < items.len() && (#[trigger] items[i]).id == id
}

/// The position of the proposal with id `id`.
pub open spec fn vote_index(votes: Seq<VoteView>, id: Seq<u8>) -> int {
    choose|i: int| 0 <= i < votes.len() && (#[trigger] votes[i]).id == id
}

/// The position of `who`'s index.
pub open spec fn voter_index(voters: Seq<(Seq<char>, VoterView)>, who: Seq<char>) -> int {
    choose|j: int| 0 <= j < voters.len() && (#[trigger] voters[j]).0 == who
}

/// The position of the item with id `id`.
pub open spec fn item_index(items: Seq<ItemView>, id: Seq<u8>) -> int {
    choose|i: int| 0 <= i < items.len() && (#[trigger] items[i]).id == id
}

pub open spec fn votes_distinct(votes: Seq<VoteView>) -> bool {
    forall|i: int, k: int| 0 <= i < votes.len() && 0 <= k < votes.len() && i != k ==> (#[trigger] votes[i]).id != (#[trigger] votes[k]).id
}

pub open spec fn voters_distinct(voters: Seq<(Seq<char>, VoterView)>) -> bool {
    forall|j: int, k: int| 0 <= j < voters.len() && 0 <= k < voters.len() && j != k ==> (#[trigger] voters[j]).0 != (#[trigger] voters[k]).0
}

pub open spec fn items_distinct(items: Seq<ItemView>) -> bool {
    forall|i: int, k: int| 0 <= i < items.len() && 0 <= k < items.len() && i != k ==> (#[trigger] items[i]).id != (#[trigger] items[k]).id
}

/// Every proposal and every participant's index agree: a participant owes a
/// ballot on a proposal exactly when the proposal lists them as pending, and
/// holds a settled entry exactly when the proposal holds the same ballot.
pub open spec fn mirrored(votes: Seq<VoteView>, voters: Seq<(Seq<char>, VoterView)>) -> bool {
    &&& forall|i: int, j: int|
        #![trigger voters[j].1.thinking.contains((votes[i].id, votes[i].title))]
        #![trigger votes[i].thinking.contains(voters[j].0)]
        0 <= i < votes.len() && 0 <= j < voters.len() ==>
            (voters[j].1.thinking.contains((votes[i].id, votes[i].title)) <==> votes[i].thinking.contains(voters[j].0))
    &&& forall|i: int, j: int, c: bool, t: u64|
        #![trigger voters[j].1.finish.contains((votes[i].id, votes[i].title, c, t))]
        #![trigger votes[i].finish.contains((voters[j].0, c, t))]
        0 <= i < votes.len() && 0 <= j < voters.len() ==>
            (voters[j].1.finish.contains((votes[i].id, votes[i].title, c, t)) <==> votes[i].finish.contains((voters[j].0, c, t)))
    &&& forall|j: int, k: int| 0 <= j < voters.len() && 0 <= k < voters[j].1.thinking.len() ==>
        has_titled(votes, (#[trigger] voters[j].1.thinking[k]).0, voters[j].1.thinking[k].1)
    &&& forall|j: int, k: int| 0 <= j < voters.len() && 0 <= k < voters[j].1.finish.len() ==>
        has_titled(votes, (#[trigger] voters[j].1.finish[k]).0, voters[j].1.finish[k].1)
    &&& forall|i: int, x: Seq<char>| 0 <= i < votes.len() && (#[trigger] votes[i].electorate.contains(x)) ==> has_voter(voters, x)
}

impl LedgerView {
    /// The ledger's invariant.
    pub open spec fn wf(self) -> bool {
        &&& votes_distinct(self.votes)
        &&& voters_distinct(self.voters)
        &&& items_distinct(self.items)
        &&& forall|i: int| 0 <= i < self.votes.len() ==> (#[trigger] self.votes[i]).wf()
        &&& forall|i: int| 0 <= i < self.items.len() ==> (#[trigger] self.items[i]).wf()
        &&& forall|j: int| 0 <= j < self.voters.len() ==> (#[trigger] self.voters[j]).1.thinking.no_duplicates()
        &&& mirrored(self.votes, self.voters)
    }
}

impl YesOrNoContract {
    /// The ledger's invariant, which every operation keeps.
    pub open spec fn wf(&self) -> bool {
        self@.wf()
    }

    /// An empty ledger.
    pub fn new() -> (r: Self)
        ensures
            r.wf(),
            r@.votes.len() == 0,
            r@.voters.len() == 0,
            r@.items.len() == 0,
    {
        let r = YesOrNoContract { vote: Vec::new(), voter: Vec::new(), review: Vec::new() };
        assert(r@.votes =~= Seq::empty());
        assert(r@.voters =~= Seq::empty());
        assert(r@.items =~= Seq::empty());
        r
    }

    /// The position of the proposal with id `id`, if there is one.
    fn find_vote(&self, id: &VoteId) -> (r: Option<usize>)
        ensures
            match r {
                Some(i) => i < self@.votes.len() && self@.votes[i as int].id == id@,
                None => !has_vote(self@.votes, id@),
            },
    {
        let mut i: usize = 0;
        while i < self.vote.len()
            invariant
                0 <= i <= self.vote.len(),
                forall|k: int| 0 <= k < i ==> (#[trigger] self@.votes[k]).id != id@,
            decreases self.vote.len() - i,
        {
            if same_id(&self.vote[i].id, id) {
                return Some(i);
            }
            i = i + 1;
        }
        None
    }

    /// The position of `who`'s index, if there is one.
    fn find_voter(&self, who: &String) -> (r: Option<usize>)
        ensures
            match r {
                Some(j) => j < self@.voters.len() && self@.voters[j as int].0 == who@,
                None => !has_voter(self@.voters, who@),
            },
    {
        let mut j: usize = 0;
        while j < self.voter.len()
            invariant
                0 <= j <= self.voter.len(),
                forall|k: int| 0 <= k < j ==> (#[trigger] self@.voters[k]).0 != who@,
            decreases self.voter.len() - j,
        {
            if self.voter[j].0 == *who {
                return Some(j);
            }
            j = j + 1;
        }
        None
    }

    /// The position of the item with id `id`, if there is one.
    fn find_item(&self, id: &ItemId) -> (r: Option<usize>)
        ensures
            match r {
                Some(i) => i < self@.items.len() && self@.items[i as int].id == id@,
                None => !has_item(self@.items, id@),
            },
    {
        let mut i: usize = 0;
        while i < self.review.len()
            invariant
                0 <= i <= self.review.len(),
                forall|k: int| 0 <= k < i ==> (#[trigger] self@.items[k]).id != id@,
            decreases self.review.len() - i,
        {
            if same_id(&self.review[i].id, id) {
                return Some(i);
            }
            i = i + 1;
        }
        None
    }
}

/// Whether two identities are the same.
pub(crate) fn same_id(a: &[u8; 32], b: &[u8; 32]) -> (r: bool)
    ensures
        r == (a@ == b@),
{
    let mut i: usize = 0;
    while i < 32
        invariant
            0 <= i <= 32,
            a@.len() == 32,
            b@.len() == 32,
            forall|k: int| 0 <= k < i ==> a@[k] == b@[k],
        decreases 32 - i,
    {
        if a[i] != b[i] {
            return false;
        }
        i = i + 1;
    }
    assert(a@ =~= b@);
    true
}

} // verus!
