//! Properties of the ledger as a whole, stated over the same spec functions
//! that the operations' contracts use.
use vstd::prelude::*;

use crate::create::{create_vote_outcome, create_vote_post, opened};
use crate::identity::opt_view;
use crate::review::{create_review_outcome, new_item, reviewed, with, without, ItemView};
use crate::types::ContractError;
use crate::vote::{ballot_cast, ballots_distinct, count_yes, has_ballot, resolved, vote_outcome, vote_post, InputVote};
use crate::{has_item, has_vote, has_voter, vote_index, LedgerView};

verus! {

/// A proposal's identity depends on its content alone: two accepted
/// openings with the same initiator, title, description and link get the
/// same id, whatever the ledger and the electorates.
pub proof fn law_identity_from_content(
    l1: LedgerView,
    l2: LedgerView,
    a: InputVote,
    b: InputVote,
    initiator: Seq<char>,
    id1: Seq<u8>,
    id2: Seq<u8>,
)
    requires
        create_vote_outcome(l1, a, initiator) == Ok::<Seq<u8>, ContractError>(id1),
        create_vote_outcome(l2, b, initiator) == Ok::<Seq<u8>, ContractError>(id2),
        a.title@ == b.title@,
        opt_view(a.desc) == opt_view(b.desc),
        opt_view(a.link) == opt_view(b.link),
    ensures
        id1 == id2,
{
}

/// Opening the same proposal twice: the second attempt is refused as a
/// duplicate.
pub proof fn law_duplicate_proposal(l: LedgerView, n: LedgerView, input: InputVote, initiator: Seq<char>, id: Seq<u8>, now: u64)
    requires
        create_vote_outcome(l, input, initiator) == Ok::<Seq<u8>, ContractError>(id),
        create_vote_post(l, n, input, initiator, id, now),
    ensures
        create_vote_outcome(n, input, initiator) == Err::<Seq<u8>, ContractError>(ContractError::DuplicateProposal),
{
    assert(n.votes[l.votes.len() as int] == opened(input, initiator, id, now));
    assert(has_vote(n.votes, id));
}

/// Creating the same review item twice: the second attempt is refused as a
/// duplicate.
pub proof fn law_duplicate_item(
    l: LedgerView,
    initiator: Seq<char>,
    title: Seq<char>,
    desc: Option<Seq<char>>,
    link: Option<Seq<char>>,
    id: Seq<u8>,
)
    requires
        create_review_outcome(l, initiator, title, desc, link) == Ok::<Seq<u8>, ContractError>(id),
    ensures
        create_review_outcome(
            LedgerView { items: l.items.push(new_item(id, initiator, title, desc, link)), ..l },
            initiator,
            title,
            desc,
            link,
        ) == Err::<Seq<u8>, ContractError>(ContractError::DuplicateItem),
{
    let items = l.items.push(new_item(id, initiator, title, desc, link));
    assert(items[l.items.len() as int].id == id);
    assert(has_item(items, id));
}

/// Conservation: in every well-formed ledger each proposal's pending
/// participants and settled ballots partition the electorate it was opened with.
pub proof fn law_conservation(l: LedgerView, i: int)
    requires
        l.wf(),
        0 <= i < l.votes.len(),
    ensures
        l.votes[i].thinking.len() + l.votes[i].finish.len() == l.votes[i].electorate.len(),
        l.votes[i].thinking.no_duplicates(),
        ballots_distinct(l.votes[i].finish),
        forall|x: Seq<char>| #[trigger] l.votes[i].electorate.contains(x) <==> (l.votes[i].thinking.contains(x) || has_ballot(l.votes[i].finish, x)),
        forall|x: Seq<char>| !(#[trigger] l.votes[i].thinking.contains(x) && has_ballot(l.votes[i].finish, x)),
{
    assert(l.votes[i].wf());
}

/// Tally: in every well-formed ledger a proposal's count is the number of
/// affirmative ballots it holds.
pub proof fn law_tally(l: LedgerView, i: int)
    requires
        l.wf(),
        0 <= i < l.votes.len(),
    ensures
        l.votes[i].count == count_yes(l.votes[i].finish),
{
    assert(l.votes[i].wf());
}

/// Mirroring: in every well-formed ledger a participant's index and a
/// proposal agree on whether the participant still owes a ballot and on
/// every ballot cast; a participant without an index is in no electorate.
pub proof fn law_mirroring(l: LedgerView, i: int, j: int, who: Seq<char>)
    requires
        l.wf(),
        0 <= i < l.votes.len(),
        0 <= j < l.voters.len(),
    ensures
        l.voters[j].1.thinking.contains((l.votes[i].id, l.votes[i].title)) <==> l.votes[i].thinking.contains(l.voters[j].0),
        forall|c: bool, t: u64| #[trigger] l.voters[j].1.finish.contains((l.votes[i].id, l.votes[i].title, c, t)) <==> l.votes[i].finish.contains(
            (l.voters[j].0, c, t),
        ),
        !has_voter(l.voters, who) ==> !l.votes[i].electorate.contains(who),
{
    assert forall|c: bool, t: u64| #[trigger] l.voters[j].1.finish.contains((l.votes[i].id, l.votes[i].title, c, t)) <==> l.votes[i].finish.contains(
        (l.voters[j].0, c, t),
    ) by {}
}

/// Resolution: in every well-formed ledger a proposal is inactive exactly
/// when the resolution rule holds of its count and pending participants,
/// and it carries a resolution time exactly when inactive.
pub proof fn law_resolution(l: LedgerView, i: int)
    requires
        l.wf(),
        0 <= i < l.votes.len(),
    ensures
        l.votes[i].active == !resolved(l.votes[i].count as int, l.votes[i].thinking.len() as int, l.votes[i].threshold as int),
        l.votes[i].finish_time is Some <==> !l.votes[i].active,
{
    assert(l.votes[i].wf());
}

/// Resolution happens at the ballot that makes the rule hold, and at its
/// time: a ballot is accepted only on an active proposal, and leaves it
/// inactive, resolved at `now`, exactly when the rule holds afterwards.
pub proof fn law_resolution_instant(l: LedgerView, id: Seq<u8>, who: Seq<char>, choose: bool, now: u64)
    requires
        l.wf(),
        vote_outcome(l, id, who) is Ok,
    ensures
        ({
            let i = vote_index(l.votes, id);
            let v = vote_post(l, id, who, choose, now).votes[i];
            &&& l.votes[i].active
            &&& v.active == !resolved(v.count as int, v.thinking.len() as int, v.threshold as int)
            &&& !v.active ==> v.finish_time == Some(now)
        }),
{
    let i = vote_index(l.votes, id);
    assert(l.votes[i].wf());
    assert(l.votes[i].thinking.contains(who)) by {
        let j = crate::voter_index(l.voters, who);
        assert(l.voters[j].1.thinking.contains((id, l.votes[i].title)));
    }
    crate::vote::lemma_remove_unique(l.votes[i].thinking, l.votes[i].thinking.index_of(who));
    assert(vote_post(l, id, who, choose, now).votes[i] == ballot_cast(l.votes[i], who, choose, now));
}

/// Reviewing twice with the same opinion changes nothing the second time.
pub proof fn law_review_idempotent(it: ItemView, who: Seq<char>, opinion: bool)
    requires
        it.wf(),
    ensures
        reviewed(reviewed(it, who, opinion), who, opinion) == reviewed(it, who, opinion),
{
    let r = reviewed(it, who, opinion);
    crate::review::lemma_without(it.active, who);
    crate::review::lemma_without(it.negative, who);
    crate::review::lemma_with(it.active, who);
    crate::review::lemma_with(it.negative, who);
    if opinion {
        assert(with(r.active, who) == r.active);
        assert(without(r.negative, who) == r.negative);
    } else {
        assert(without(r.active, who) == r.active);
        assert(with(r.negative, who) == r.negative);
    }
}

/// After a review the caller stands on exactly the side of their opinion,
/// once, and not on the other.
pub proof fn law_review_side(it: ItemView, who: Seq<char>, opinion: bool)
    requires
        it.wf(),
    ensures
        ({
            let r = reviewed(it, who, opinion);
            let (mine, other) = if opinion {
                (r.active, r.negative)
            } else {
                (r.negative, r.active)
            };
            &&& mine.contains(who)
            &&& mine.no_duplicates()
            &&& !other.contains(who)
        }),
{
    crate::review::lemma_reviewed_wf(it, who, opinion);
    crate::review::lemma_with(it.active, who);
    crate::review::lemma_with(it.negative, who);
    crate::review::lemma_without(it.active, who);
    crate::review::lemma_without(it.negative, who);
}

} // verus!
