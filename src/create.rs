//! Opening a proposal: electorate checks, identity, and the fan-out of
//! pending entries to every named participant.
use vstd::prelude::*;
use vstd::utf8::encode_utf8;

use crate::identity::{content_id, get_content_id, is_valid_account, opt_view, valid_account_id};
use crate::types::{ContractError, Timestamp, VoteId};
use crate::vote::{
    ballots_view, count_yes, distinct, has_ballot, names_view, pending_view, position_of_name, resolved,
    settled_view, BallotView, InputVote, PendingView, SettledView, Vote, VoteView, Voter, VoterView,
};
use crate::{
    has_titled, has_vote, has_voter, mirrored, votes_distinct, voters_distinct, LedgerView, YesOrNoContract,
};

verus! {

/// The electorate of `input`, each member once, in order of first mention.
pub open spec fn members_of(input: InputVote) -> Seq<Seq<char>> {
    distinct(input.named())
}

/// What opening `input` as `initiator` is answered with: the new
/// proposal's id, or why it was refused.
pub open spec fn create_vote_outcome(l: LedgerView, input: InputVote, initiator: Seq<char>) -> Result<Seq<u8>, ContractError> {
    let members = members_of(input);
    let id = content_id(initiator, input.title@, opt_view(input.desc), opt_view(input.link));
    if members.len() == 0 || input.threshold > members.len() {
        Err(ContractError::InvalidThreshold)
    } else if exists|k: int| 0 <= k < members.len() && !valid_account_id(encode_utf8(#[trigger] members[k])) {
        Err(ContractError::InvalidElectorateMember)
    } else if has_vote(l.votes, id) {
        Err(ContractError::DuplicateProposal)
    } else {
        Ok(id)
    }
}

/// A newly opened proposal: every member pending, nothing counted, and
/// resolved at once only when the threshold is zero.
pub open spec fn opened(input: InputVote, initiator: Seq<char>, id: Seq<u8>, now: u64) -> VoteView {
    let members = members_of(input);
    let done = resolved(0, members.len() as int, input.threshold as int);
    VoteView {
        id,
        initiator,
        title: input.title@,
        desc: opt_view(input.desc),
        link: opt_view(input.link),
        active: !done,
        threshold: input.threshold,
        count: 0,
        finish: Seq::empty(),
        thinking: members,
        create_time: now,
        finish_time: if done {
            Some(now)
        } else {
            None
        },
        electorate: members,
    }
}

/// The members, in order, that have no index among `voters`.
pub open spec fn newcomers(voters: Seq<(Seq<char>, VoterView)>, members: Seq<Seq<char>>) -> Seq<Seq<char>>
    decreases members.len(),
{
    if members.len() == 0 {
        Seq::empty()
    } else {
        let rest = newcomers(voters, members.drop_last());
        if has_voter(voters, members.last()) {
            rest
        } else {
            rest.push(members.last())
        }
    }
}

/// The index of a participant first named by a proposal.
pub open spec fn fresh_voter(entry: PendingView) -> VoterView {
    VoterView { thinking: seq![entry], finish: Seq::empty() }
}

/// `after` is `before` with `entry` made pending for every member: a
/// member's existing index gains it at the end, and each member without an
/// index gets a new one, appended in order.
pub open spec fn pending_added(
    before: Seq<(Seq<char>, VoterView)>,
    after: Seq<(Seq<char>, VoterView)>,
    members: Seq<Seq<char>>,
    entry: PendingView,
) -> bool {
    let nc = newcomers(before, members);
    &&& after.len() == before.len() + nc.len()
    &&& forall|j: int| 0 <= j < before.len() ==> #[trigger] after[j] == (before[j].0, VoterView {
        thinking: if members.contains(before[j].0) {
            before[j].1.thinking.push(entry)
        } else {
            before[j].1.thinking
        },
        finish: before[j].1.finish,
    })
    &&& forall|k: int| 0 <= k < nc.len() ==> #[trigger] after[before.len() + k] == (nc[k], fresh_voter(entry))
}

/// The ledger after opening `input`, given the participants' indexes afterwards.
pub open spec fn create_vote_post(l: LedgerView, n: LedgerView, input: InputVote, initiator: Seq<char>, id: Seq<u8>, now: u64) -> bool {
    &&& n.votes == l.votes.push(opened(input, initiator, id, now))
    &&& pending_added(l.voters, n.voters, members_of(input), (id, input.title@))
    &&& n.items == l.items
}

pub proof fn lemma_distinct(s: Seq<Seq<char>>)
    ensures
        distinct(s).no_duplicates(),
        forall|x: Seq<char>| #[trigger] distinct(s).contains(x) <==> s.contains(x),
    decreases s.len(),
{
    if s.len() > 0 {
        lemma_distinct(s.drop_last());
        let d = distinct(s.drop_last());
        let l = s.last();
        assert(distinct(s) == if d.contains(l) { d } else { d.push(l) });
        assert forall|x: Seq<char>| #[trigger] distinct(s).contains(x) <==> s.contains(x) by {
            if d.contains(x) {
                let k = choose|k: int| 0 <= k < d.len() && d[k] == x;
                assert(d.push(l)[k] == x);
                assert(s.drop_last().contains(x));
                let m = choose|m: int| 0 <= m < s.drop_last().len() && s.drop_last()[m] == x;
                assert(s[m] == x);
            }
            if x == l {
                assert(s[s.len() - 1] == x);
                assert(d.push(l)[d.len() as int] == l);
            }
            if s.contains(x) && x != l {
                let k = choose|k: int| 0 <= k < s.len() && s[k] == x;
                assert(s.drop_last()[k] == x);
                assert(d.contains(x));
            }
            if distinct(s).contains(x) && !d.contains(x) {
                let k = choose|k: int| 0 <= k < distinct(s).len() && distinct(s)[k] == x;
                assert(k == d.len());
            }
        }
    }
}

pub proof fn lemma_newcomers(voters: Seq<(Seq<char>, VoterView)>, members: Seq<Seq<char>>)
    ensures
        forall|x: Seq<char>| #[trigger] newcomers(voters, members).contains(x) <==> (members.contains(x) && !has_voter(voters, x)),
    decreases members.len(),
{
    if members.len() > 0 {
        let ms = members.drop_last();
        lemma_newcomers(voters, ms);
        let rest = newcomers(voters, ms);
        assert forall|x: Seq<char>| #[trigger] newcomers(voters, members).contains(x) <==> (members.contains(x) && !has_voter(voters, x)) by {
            if members.contains(x) && x != members.last() {
                let k = choose|k: int| 0 <= k < members.len() && members[k] == x;
                assert(ms[k] == x);
            }
            if ms.contains(x) {
                let k = choose|k: int| 0 <= k < ms.len() && ms[k] == x;
                assert(members[k] == x);
            }
            if x == members.last() {
                assert(members[members.len() - 1] == x);
            }
            if rest.contains(x) {
                let k = choose|k: int| 0 <= k < rest.len() && rest[k] == x;
                assert(rest.push(members.last())[k] == x);
            }
            if newcomers(voters, members).contains(x) && !rest.contains(x) {
                let k = choose|k: int| 0 <= k < newcomers(voters, members).len() && newcomers(voters, members)[k] == x;
                assert(k == rest.len());
            }
            if !has_voter(voters, members.last()) {
                assert(rest.push(members.last())[rest.len() as int] == members.last());
            }
        }
    }
}

/// Nothing is pending yet: no member has gained an entry.
pub proof fn lemma_pending_start(before: Seq<(Seq<char>, VoterView)>, members: Seq<Seq<char>>, entry: PendingView)
    ensures
        pending_added(before, before, members.take(0), entry),
{
    assert(members.take(0) =~= Seq::<Seq<char>>::empty());
    assert forall|j: int| 0 <= j < before.len() implies #[trigger] before[j] == (before[j].0, VoterView {
        thinking: if members.take(0).contains(before[j].0) {
            before[j].1.thinking.push(entry)
        } else {
            before[j].1.thinking
        },
        finish: before[j].1.finish,
    }) by {
        assert(!members.take(0).contains(before[j].0));
    }
}

/// The next member already has an index: the entry is appended to it.
pub proof fn lemma_pending_existing(
    before: Seq<(Seq<char>, VoterView)>,
    cur: Seq<(Seq<char>, VoterView)>,
    members: Seq<Seq<char>>,
    k: int,
    entry: PendingView,
    j: int,
)
    requires
        pending_added(before, cur, members.take(k), entry),
        voters_distinct(before),
        members.no_duplicates(),
        0 <= k < members.len(),
        0 <= j < cur.len(),
        cur[j].0 == members[k],
    ensures
        j < before.len(),
        pending_added(
            before,
            cur.update(j, (cur[j].0, VoterView { thinking: cur[j].1.thinking.push(entry), finish: cur[j].1.finish })),
            members.take(k + 1),
            entry,
        ),
{
    let m = members[k];
    let ms = members.take(k);
    let ms1 = members.take(k + 1);
    assert(ms1.drop_last() =~= ms);
    assert(ms1.last() == m);
    assert(!ms.contains(m)) by {
        if ms.contains(m) {
            let q = choose|q: int| 0 <= q < ms.len() && ms[q] == m;
            assert(members[q] == members[k]);
        }
    }
    lemma_newcomers(before, ms);
    if j >= before.len() {
        let q = j - before.len();
        assert(cur[before.len() + q] == (newcomers(before, ms)[q], fresh_voter(entry)));
        assert(newcomers(before, ms).contains(m));
    }
    assert(has_voter(before, m)) by {
        assert(before[j].0 == m);
    }
    assert(newcomers(before, ms1) == newcomers(before, ms));
    let next = cur.update(j, (cur[j].0, VoterView { thinking: cur[j].1.thinking.push(entry), finish: cur[j].1.finish }));
    assert forall|x: Seq<char>| x != m implies (#[trigger] ms1.contains(x) <==> ms.contains(x)) by {
        if ms1.contains(x) {
            let q = choose|q: int| 0 <= q < ms1.len() && ms1[q] == x;
            assert(ms[q] == x);
        }
        if ms.contains(x) {
            let q = choose|q: int| 0 <= q < ms.len() && ms[q] == x;
            assert(ms1[q] == x);
        }
    }
    assert(ms1.contains(m)) by {
        assert(ms1[k] == m);
    }
    assert forall|i: int| 0 <= i < before.len() implies #[trigger] next[i] == (before[i].0, VoterView {
        thinking: if ms1.contains(before[i].0) {
            before[i].1.thinking.push(entry)
        } else {
            before[i].1.thinking
        },
        finish: before[i].1.finish,
    }) by {
        if i != j {
            assert(before[i].0 != before[j].0);
        }
    }
    assert forall|q: int| 0 <= q < newcomers(before, ms1).len() implies #[trigger] next[before.len() + q] == (newcomers(before, ms1)[q], fresh_voter(entry)) by {
        assert(cur[before.len() + q] == (newcomers(before, ms)[q], fresh_voter(entry)));
    }
}

/// The next member has no index yet: a new one is appended.
pub proof fn lemma_pending_new(
    before: Seq<(Seq<char>, VoterView)>,
    cur: Seq<(Seq<char>, VoterView)>,
    members: Seq<Seq<char>>,
    k: int,
    entry: PendingView,
)
    requires
        pending_added(before, cur, members.take(k), entry),
        0 <= k < members.len(),
        !has_voter(cur, members[k]),
    ensures
        pending_added(before, cur.push((members[k], fresh_voter(entry))), members.take(k + 1), entry),
{
    let m = members[k];
    let ms = members.take(k);
    let ms1 = members.take(k + 1);
    assert(ms1.drop_last() =~= ms);
    assert(ms1.last() == m);
    assert(!has_voter(before, m)) by {
        if has_voter(before, m) {
            let j = choose|j: int| 0 <= j < before.len() && (#[trigger] before[j]).0 == m;
            assert(cur[j].0 == m);
        }
    }
    let nc = newcomers(before, ms);
    assert(newcomers(before, ms1) == nc.push(m));
    let next = cur.push((m, fresh_voter(entry)));
    assert forall|x: Seq<char>| x != m implies (#[trigger] ms1.contains(x) <==> ms.contains(x)) by {
        if ms1.contains(x) {
            let q = choose|q: int| 0 <= q < ms1.len() && ms1[q] == x;
            assert(ms[q] == x);
        }
        if ms.contains(x) {
            let q = choose|q: int| 0 <= q < ms.len() && ms[q] == x;
            assert(ms1[q] == x);
        }
    }
    assert forall|i: int| 0 <= i < before.len() implies #[trigger] next[i] == (before[i].0, VoterView {
        thinking: if ms1.contains(before[i].0) {
            before[i].1.thinking.push(entry)
        } else {
            before[i].1.thinking
        },
        finish: before[i].1.finish,
    }) by {
        assert(cur[i].0 == before[i].0);
        assert(before[i].0 != m);
    }
    assert forall|q: int| 0 <= q < newcomers(before, ms1).len() implies #[trigger] next[before.len() + q] == (newcomers(before, ms1)[q], fresh_voter(entry)) by {
        if q < nc.len() {
            assert(cur[before.len() + q] == (nc[q], fresh_voter(entry)));
        }
    }
}

/// Opening a proposal keeps the ledger's invariant.
pub proof fn lemma_create_vote_post_wf(l: LedgerView, n: LedgerView, input: InputVote, initiator: Seq<char>, id: Seq<u8>, now: u64)
    requires
        l.wf(),
        create_vote_outcome(l, input, initiator) == Ok::<Seq<u8>, ContractError>(id),
        create_vote_post(l, n, input, initiator, id, now),
        voters_distinct(n.voters),
        forall|x: Seq<char>| #[trigger] has_voter(n.voters, x) <==> (has_voter(l.voters, x) || members_of(input).contains(x)),
    ensures
        n.wf(),
{
    let members = members_of(input);
    let title = input.title@;
    let entry = (id, title);
    let nv = opened(input, initiator, id, now);
    let old_len = l.votes.len();
    lemma_distinct(input.named());
    lemma_newcomers(l.voters, members);
    let nc = newcomers(l.voters, members);
    assert(!has_vote(l.votes, id));
    // the new proposal
    assert(nv.wf()) by {
        assert forall|x: Seq<char>| !has_ballot(nv.finish, x) by {}
        assert(count_yes(nv.finish) == 0);
    }
    assert forall|i: int| 0 <= i < n.votes.len() implies (#[trigger] n.votes[i]).wf() by {
        if i < old_len {
            assert(n.votes[i] == l.votes[i]);
        }
    }
    assert(votes_distinct(n.votes)) by {
        assert forall|i: int, k: int| 0 <= i < n.votes.len() && 0 <= k < n.votes.len() && i != k
            implies (#[trigger] n.votes[i]).id != (#[trigger] n.votes[k]).id by {
            if i < old_len && k < old_len {
                assert(n.votes[i] == l.votes[i] && n.votes[k] == l.votes[k]);
            } else if i < old_len {
                assert(n.votes[i] == l.votes[i]);
            } else {
                assert(n.votes[k] == l.votes[k]);
            }
        }
    }
    // what a participant's index looks like afterwards
    assert forall|j: int| 0 <= j < n.voters.len() implies
        (j < l.voters.len() ==> #[trigger] n.voters[j] == (l.voters[j].0, VoterView {
            thinking: if members.contains(l.voters[j].0) { l.voters[j].1.thinking.push(entry) } else { l.voters[j].1.thinking },
            finish: l.voters[j].1.finish,
        })) && (j >= l.voters.len() ==> n.voters[j].1 == fresh_voter(entry) && members.contains(n.voters[j].0) && !has_voter(l.voters, n.voters[j].0)) by {
        if j >= l.voters.len() {
            let q = j - l.voters.len();
            assert(n.voters[l.voters.len() + q] == (nc[q], fresh_voter(entry)));
            assert(nc.contains(nc[q]));
        }
    }
    // no index held an entry for the new id before
    assert forall|j: int| 0 <= j < l.voters.len() implies !(#[trigger] l.voters[j].1.thinking.contains(entry)) by {
        if l.voters[j].1.thinking.contains(entry) {
            let k = choose|k: int| 0 <= k < l.voters[j].1.thinking.len() && l.voters[j].1.thinking[k] == entry;
            assert(has_titled(l.votes, l.voters[j].1.thinking[k].0, l.voters[j].1.thinking[k].1));
        }
    }
    assert forall|j: int, c: bool, t: u64| 0 <= j < l.voters.len() implies !(#[trigger] l.voters[j].1.finish.contains((id, title, c, t))) by {
        if l.voters[j].1.finish.contains((id, title, c, t)) {
            let k = choose|k: int| 0 <= k < l.voters[j].1.finish.len() && l.voters[j].1.finish[k] == (id, title, c, t);
            assert(has_titled(l.votes, l.voters[j].1.finish[k].0, l.voters[j].1.finish[k].1));
        }
    }
    assert forall|j: int| 0 <= j < n.voters.len() implies (#[trigger] n.voters[j]).1.thinking.no_duplicates() by {
        if j < l.voters.len() {
            assert(n.voters[j].1.thinking.no_duplicates()) by {
                if members.contains(l.voters[j].0) {
                    let t = l.voters[j].1.thinking;
                    assert forall|a: int, b: int| 0 <= a < t.push(entry).len() && 0 <= b < t.push(entry).len() && a != b
                        implies t.push(entry)[a] != t.push(entry)[b] by {
                        if a == t.len() {
                            assert(t.contains(t[b]));
                        }
                        if b == t.len() {
                            assert(t.contains(t[a]));
                        }
                    }
                }
            }
        }
    }
    assert forall|xid: Seq<u8>, xt: Seq<char>| has_titled(l.votes, xid, xt) implies has_titled(n.votes, xid, xt) by {
        let i = choose|i: int| 0 <= i < l.votes.len() && (#[trigger] l.votes[i]).id == xid && l.votes[i].title == xt;
        assert(n.votes[i] == l.votes[i]);
    }
    assert(has_titled(n.votes, id, title)) by {
        assert(n.votes[old_len as int] == nv);
    }
    assert(mirrored(n.votes, n.voters)) by {
        assert forall|i: int, j: int| 0 <= i < n.votes.len() && 0 <= j < n.voters.len() implies
            (n.voters[j].1.thinking.contains((n.votes[i].id, n.votes[i].title)) <==> n.votes[i].thinking.contains(n.voters[j].0)) by {
            let who = n.voters[j].0;
            if i < old_len {
                let v = l.votes[i];
                assert(n.votes[i] == v);
                assert(v.id != id);
                if j < l.voters.len() {
                    assert(l.voters[j].1.thinking.contains((v.id, v.title)) <==> v.thinking.contains(who));
                    if members.contains(who) {
                        let t = l.voters[j].1.thinking;
                        assert(t.push(entry).contains((v.id, v.title)) ==> t.contains((v.id, v.title))) by {
                            if t.push(entry).contains((v.id, v.title)) {
                                let k = choose|k: int| 0 <= k < t.push(entry).len() && t.push(entry)[k] == (v.id, v.title);
                                assert(k < t.len());
                            }
                        }
                        assert(t.contains((v.id, v.title)) ==> t.push(entry).contains((v.id, v.title))) by {
                            if t.contains((v.id, v.title)) {
                                let k = choose|k: int| 0 <= k < t.len() && t[k] == (v.id, v.title);
                                assert(t.push(entry)[k] == (v.id, v.title));
                            }
                        }
                    }
                } else {
                    assert(!v.electorate.contains(who));
                    assert(!v.thinking.contains(who));
                    assert(!n.voters[j].1.thinking.contains((v.id, v.title))) by {
                        assert(n.voters[j].1.thinking =~= seq![entry]);
                    }
                }
            } else {
                assert(n.votes[i] == nv);
                if j < l.voters.len() {
                    let t = l.voters[j].1.thinking;
                    if members.contains(who) {
                        assert(t.push(entry)[t.len() as int] == entry);
                    }
                } else {
                    assert(n.voters[j].1.thinking[0] == entry);
                }
            }
        }
        assert forall|i: int, j: int, c: bool, t: u64| 0 <= i < n.votes.len() && 0 <= j < n.voters.len() implies
            (n.voters[j].1.finish.contains((n.votes[i].id, n.votes[i].title, c, t)) <==> n.votes[i].finish.contains((n.voters[j].0, c, t))) by {
            let who = n.voters[j].0;
            if i < old_len {
                let v = l.votes[i];
                assert(n.votes[i] == v);
                if j < l.voters.len() {
                    assert(l.voters[j].1.finish.contains((v.id, v.title, c, t)) <==> v.finish.contains((who, c, t)));
                } else {
                    assert(!v.electorate.contains(who));
                    if v.finish.contains((who, c, t)) {
                        let k = choose|k: int| 0 <= k < v.finish.len() && v.finish[k] == (who, c, t);
                        assert(has_ballot(v.finish, who));
                    }
                    assert(n.voters[j].1.finish =~= Seq::<SettledView>::empty());
                }
            } else {
                assert(n.votes[i] == nv);
                if j >= l.voters.len() {
                    assert(n.voters[j].1.finish =~= Seq::<SettledView>::empty());
                }
            }
        }
        assert forall|j: int, k: int| 0 <= j < n.voters.len() && 0 <= k < n.voters[j].1.thinking.len() implies
            has_titled(n.votes, (#[trigger] n.voters[j].1.thinking[k]).0, n.voters[j].1.thinking[k].1) by {
            if j < l.voters.len() {
                let t = l.voters[j].1.thinking;
                if k < t.len() {
                    assert(n.voters[j].1.thinking[k] == t[k]);
                    assert(has_titled(l.votes, t[k].0, t[k].1));
                }
            } else {
                assert(n.voters[j].1.thinking[k] == entry);
            }
        }
        assert forall|j: int, k: int| 0 <= j < n.voters.len() && 0 <= k < n.voters[j].1.finish.len() implies
            has_titled(n.votes, (#[trigger] n.voters[j].1.finish[k]).0, n.voters[j].1.finish[k].1) by {
            if j < l.voters.len() {
                assert(has_titled(l.votes, l.voters[j].1.finish[k].0, l.voters[j].1.finish[k].1));
            }
        }
        assert forall|i: int, x: Seq<char>| 0 <= i < n.votes.len() && (#[trigger] n.votes[i].electorate.contains(x)) implies has_voter(n.voters, x) by {
            if i < old_len {
                assert(n.votes[i] == l.votes[i]);
                assert(has_voter(l.voters, x));
            }
        }
    }
}

pub proof fn lemma_take_next(s: Seq<Seq<char>>, k: int)
    requires
        0 <= k < s.len(),
    ensures
        forall|x: Seq<char>| #[trigger] s.take(k + 1).contains(x) <==> (s.take(k).contains(x) || x == s[k]),
{
    assert forall|x: Seq<char>| #[trigger] s.take(k + 1).contains(x) <==> (s.take(k).contains(x) || x == s[k]) by {
        if s.take(k + 1).contains(x) {
            let q = choose|q: int| 0 <= q < k + 1 && #[trigger] s.take(k + 1)[q] == x;
            if q < k {
                assert(s.take(k)[q] == x);
            }
        }
        if s.take(k).contains(x) {
            let q = choose|q: int| 0 <= q < k && #[trigger] s.take(k)[q] == x;
            assert(s.take(k + 1)[q] == x);
        }
        if x == s[k] {
            assert(s.take(k + 1)[k] == x);
        }
    }
}

/// The identity of the proposal that `input` opens on behalf of `initiator`.
fn get_vote_id(input: &InputVote, initiator: &String) -> (r: VoteId)
    ensures
        r@ == content_id(initiator@, input.title@, opt_view(input.desc), opt_view(input.link)),
{
    get_content_id(initiator, &input.title, &input.desc, &input.link)
}

/// The names of `names`, each once, in order of first appearance.
fn distinct_names(names: &Vec<String>) -> (r: Vec<String>)
    ensures
        names_view(r@) == distinct(names_view(names@)),
{
    let mut r: Vec<String> = Vec::new();
    let mut i: usize = 0;
    while i < names.len()
        invariant
            0 <= i <= names.len(),
            names_view(r@) == distinct(names_view(names@).take(i as int)),
        decreases names.len() - i,
    {
        let ghost before = r@;
        proof {
            let s = names_view(names@).take(i + 1);
            assert(s.drop_last() =~= names_view(names@).take(i as int));
            assert(s.last() == names@[i as int]@);
        }
        match position_of_name(&r, &names[i]) {
            Some(_) => {},
            None => {
                r.push(names[i].clone());
                proof {
                    assert(names_view(r@) =~= names_view(before).push(names@[i as int]@));
                }
            },
        }
        i = i + 1;
    }
    proof {
        assert(names_view(names@).take(names.len() as int) =~= names_view(names@));
    }
    r
}

/// Builds the proposal that `input` opens, with identity `id`, created by
/// `initiator` at `now`, for the distinct electorate `members`.
fn convert(input: InputVote, id: VoteId, initiator: String, members: Vec<String>, now: Timestamp) -> (r: Vote)
    requires
        names_view(members@) == members_of(input),
        input.threshold <= members@.len(),
    ensures
        r@ == opened(input, initiator@, id@, now),
{
    let done = input.threshold == 0 || (members.len() as u64) < input.threshold;
    let r = Vote {
        id,
        initiator,
        title: input.title,
        desc: input.desc,
        link: input.link,
        active: !done,
        threshold: input.threshold,
        count: 0,
        finish: Vec::new(),
        thinking: members,
        create_time: now,
        finish_time: if done {
            Some(now)
        } else {
            None
        },
        electorate: Ghost(members_of(input)),
    };
    proof {
        assert(ballots_view(r.finish@) =~= Seq::<BallotView>::empty());
        assert(r@ =~= opened(input, initiator@, id@, now));
    }
    r
}

impl YesOrNoContract {
    /// Opens the proposal `input_vote` on behalf of `initiator` at time `now`
    /// and returns its id, derived from its content. Every member of the
    /// electorate owes a ballot on it from then on.
    pub fn create_vote(&mut self, input_vote: InputVote, initiator: String, now: Timestamp) -> (r: Result<VoteId, ContractError>)
        requires
            old(self).wf(),
        ensures
            final(self).wf(),
            match r {
                Ok(id) => create_vote_outcome(old(self)@, input_vote, initiator@) == Ok::<Seq<u8>, ContractError>(id@)
                    && create_vote_post(old(self)@, final(self)@, input_vote, initiator@, id@, now),
                Err(e) => create_vote_outcome(old(self)@, input_vote, initiator@) == Err::<Seq<u8>, ContractError>(e)
                    && final(self)@ == old(self)@,
            },
    {
        let ghost l = self@;
        let members = distinct_names(&input_vote.thinking);
        let ghost ms = names_view(members@);
        proof {
            lemma_distinct(input_vote.named());
        }
        if members.len() == 0 || input_vote.threshold > members.len() as u64 {
            return Err(ContractError::InvalidThreshold);
        }
        let mut k: usize = 0;
        while k < members.len()
            invariant
                0 <= k <= members.len(),
                self@ == l,
                l.wf(),
                ms == names_view(members@),
                ms == members_of(input_vote),
                0 < ms.len(),
                input_vote.threshold <= ms.len(),
                forall|q: int| 0 <= q < k ==> valid_account_id(encode_utf8(#[trigger] ms[q])),
            decreases members.len() - k,
        {
            if !is_valid_account(&members[k]) {
                proof {
                    assert(!valid_account_id(encode_utf8(ms[k as int])));
                }
                return Err(ContractError::InvalidElectorateMember);
            }
            k = k + 1;
        }
        let id = get_vote_id(&input_vote, &initiator);
        if self.find_vote(&id).is_some() {
            return Err(ContractError::DuplicateProposal);
        }
        let ghost entry = (id@, input_vote.title@);
        proof {
            lemma_pending_start(l.voters, ms, entry);
        }
        let mut k: usize = 0;
        while k < members.len()
            invariant
                0 <= k <= members.len(),
                l.wf(),
                ms == names_view(members@),
                ms == members_of(input_vote),
                ms.no_duplicates(),
                entry == (id@, input_vote.title@),
                self@.votes == l.votes,
                self@.items == l.items,
                pending_added(l.voters, self@.voters, ms.take(k as int), entry),
                voters_distinct(self@.voters),
                forall|x: Seq<char>| #[trigger] has_voter(self@.voters, x) <==> (has_voter(l.voters, x) || ms.take(k as int).contains(x)),
            decreases members.len() - k,
        {
            let ghost cur = self@.voters;
            proof {
                lemma_take_next(ms, k as int);
            }
            match self.find_voter(&members[k]) {
                Some(j) => {
                    proof {
                        lemma_pending_existing(l.voters, cur, ms, k as int, entry, j as int);
                    }
                    let ghost old_rec = self.voter@[j as int];
                    self.voter[j].1.thinking.push((id, input_vote.title.clone()));
                    proof {
                        let rec = self.voter@[j as int];
                        assert(pending_view(rec.1.thinking@) =~= pending_view(old_rec.1.thinking@).push(entry));
                        assert(self@.voters =~= cur.update(j as int, (cur[j as int].0, VoterView {
                            thinking: cur[j as int].1.thinking.push(entry),
                            finish: cur[j as int].1.finish,
                        })));
                        assert forall|x: Seq<char>| #[trigger] has_voter(self@.voters, x) <==> has_voter(cur, x) by {
                            if has_voter(cur, x) {
                                let q = choose|q: int| 0 <= q < cur.len() && (#[trigger] cur[q]).0 == x;
                                assert(self@.voters[q].0 == x);
                            }
                            if has_voter(self@.voters, x) {
                                let q = choose|q: int| 0 <= q < self@.voters.len() && (#[trigger] self@.voters[q]).0 == x;
                                assert(cur[q].0 == x);
                            }
                        }
                    }
                },
                None => {
                    proof {
                        lemma_pending_new(l.voters, cur, ms, k as int, entry);
                    }
                    let mut thinking: Vec<(VoteId, String)> = Vec::new();
                    thinking.push((id, input_vote.title.clone()));
                    self.voter.push((members[k].clone(), Voter { thinking, finish: Vec::new() }));
                    proof {
                        let rec = self.voter@[cur.len() as int];
                        assert(pending_view(rec.1.thinking@) =~= seq![entry]);
                        assert(settled_view(rec.1.finish@) =~= Seq::<SettledView>::empty());
                        assert(self@.voters =~= cur.push((ms[k as int], fresh_voter(entry))));
                        assert forall|x: Seq<char>| #[trigger] has_voter(self@.voters, x) <==> (has_voter(cur, x) || x == ms[k as int]) by {
                            if has_voter(cur, x) {
                                let q = choose|q: int| 0 <= q < cur.len() && (#[trigger] cur[q]).0 == x;
                                assert(self@.voters[q].0 == x);
                            }
                            if x == ms[k as int] {
                                assert(self@.voters[cur.len() as int].0 == x);
                            }
                            if has_voter(self@.voters, x) {
                                let q = choose|q: int| 0 <= q < self@.voters.len() && (#[trigger] self@.voters[q]).0 == x;
                                if q < cur.len() {
                                    assert(cur[q].0 == x);
                                }
                            }
                        }
                    }
                },
            }
            k = k + 1;
        }
        proof {
            assert(ms.take(members.len() as int) =~= ms);
        }
        let ghost voters_after = self@.voters;
        let vote = convert(input_vote, id, initiator, members, now);
        self.vote.push(vote);
        proof {
            assert(self@.votes =~= l.votes.push(opened(input_vote, initiator@, id@, now)));
            assert(self@.voters == voters_after);
            lemma_create_vote_post_wf(l, self@, input_vote, initiator@, id@, now);
        }
        Ok(id)
    }
}

} // verus!
