//! Review items: content-addressed entries that any caller may approve or reject.
use vstd::prelude::*;

use crate::identity::{content_id, get_content_id, opt_view};
use crate::types::{Choose, ContractError, ItemId};
use crate::vote::{clone_names, clone_opt, lemma_remove_unique, names_view, position_of_name};
use crate::{has_item, item_index, items_distinct, LedgerView, YesOrNoContract};

verus! {

/// A review item and the callers who approve (`active`) or reject
/// (`negative`) it, each in the order they first took that side.
pub struct Item {
    pub id: ItemId,
    pub initiator: String,
    pub title: String,
    pub desc: Option<String>,
    pub link: Option<String>,
    pub active: Vec<String>,
    pub negative: Vec<String>,
}

/// A review item as a mathematical value.
pub struct ItemView {
    pub id: Seq<u8>,
    pub initiator: Seq<char>,
    pub title: Seq<char>,
    pub desc: Option<Seq<char>>,
    pub link: Option<Seq<char>>,
    pub active: Seq<Seq<char>>,
    pub negative: Seq<Seq<char>>,
}

impl View for Item {
    type V = ItemView;

    open spec fn view(&self) -> ItemView {
        ItemView {
            id: self.id@,
            initiator: self.initiator@,
            title: self.title@,
            desc: opt_view(self.desc),
            link: opt_view(self.link),
            active: names_view(self.active@),
            negative: names_view(self.negative@),
        }
    }
}

impl ItemView {
    /// Each caller stands at most once on at most one side.
    pub open spec fn wf(self) -> bool {
        &&& self.active.no_duplicates()
        &&& self.negative.no_duplicates()
        &&& forall|x: Seq<char>| !(#[trigger] self.active.contains(x) && self.negative.contains(x))
    }
}

} // verus!

verus! {

/// `s` without `x`.
pub open spec fn without(s: Seq<Seq<char>>, x: Seq<char>) -> Seq<Seq<char>> {
    if s.contains(x) {
        s.remove(s.index_of(x))
    } else {
        s
    }
}

/// `s` with `x` at the end, unless it is already there.
pub open spec fn with(s: Seq<Seq<char>>, x: Seq<char>) -> Seq<Seq<char>> {
    if s.contains(x) {
        s
    } else {
        s.push(x)
    }
}

/// An item after `who` states `opinion`: `who` leaves the other side and
/// joins this one, once.
pub open spec fn reviewed(it: ItemView, who: Seq<char>, opinion: bool) -> ItemView {
    if opinion {
        ItemView { active: with(it.active, who), negative: without(it.negative, who), ..it }
    } else {
        ItemView { active: without(it.active, who), negative: with(it.negative, who), ..it }
    }
}

/// A new item: nobody has taken a side yet.
pub open spec fn new_item(
    id: Seq<u8>,
    initiator: Seq<char>,
    title: Seq<char>,
    desc: Option<Seq<char>>,
    link: Option<Seq<char>>,
) -> ItemView {
    ItemView { id, initiator, title, desc, link, active: Seq::empty(), negative: Seq::empty() }
}

/// What creating an item with this content is answered with.
pub open spec fn create_review_outcome(
    l: LedgerView,
    initiator: Seq<char>,
    title: Seq<char>,
    desc: Option<Seq<char>>,
    link: Option<Seq<char>>,
) -> Result<Seq<u8>, ContractError> {
    let id = content_id(initiator, title, desc, link);
    if has_item(l.items, id) {
        Err(ContractError::DuplicateItem)
    } else {
        Ok(id)
    }
}

/// The ledger after `who` reviews item `id`.
pub open spec fn review_post(l: LedgerView, id: Seq<u8>, who: Seq<char>, opinion: bool) -> LedgerView {
    let i = item_index(l.items, id);
    LedgerView { items: l.items.update(i, reviewed(l.items[i], who, opinion)), ..l }
}

pub proof fn lemma_item_index(items: Seq<ItemView>, i: int)
    requires
        items_distinct(items),
        0 <= i < items.len(),
    ensures
        item_index(items, items[i].id) == i,
{
    assert(has_item(items, items[i].id));
}

pub proof fn lemma_with(s: Seq<Seq<char>>, x: Seq<char>)
    requires
        s.no_duplicates(),
    ensures
        with(s, x).no_duplicates(),
        forall|y: Seq<char>| #[trigger] with(s, x).contains(y) <==> (s.contains(y) || y == x),
{
    if !s.contains(x) {
        let t = s.push(x);
        assert(t[s.len() as int] == x);
        assert forall|y: Seq<char>| #[trigger] t.contains(y) <==> (s.contains(y) || y == x) by {
            if s.contains(y) {
                let k = choose|k: int| 0 <= k < s.len() && s[k] == y;
                assert(t[k] == y);
            }
            if t.contains(y) && y != x {
                let k = choose|k: int| 0 <= k < t.len() && t[k] == y;
                assert(s[k] == y);
            }
        }
        assert forall|a: int, b: int| 0 <= a < t.len() && 0 <= b < t.len() && a != b implies t[a] != t[b] by {
            if a == s.len() {
                assert(s.contains(t[b]));
            }
            if b == s.len() {
                assert(s.contains(t[a]));
            }
        }
    }
}

pub proof fn lemma_without(s: Seq<Seq<char>>, x: Seq<char>)
    requires
        s.no_duplicates(),
    ensures
        without(s, x).no_duplicates(),
        forall|y: Seq<char>| #[trigger] without(s, x).contains(y) <==> (s.contains(y) && y != x),
{
    if s.contains(x) {
        lemma_remove_unique(s, s.index_of(x));
    }
}

/// A review keeps the item's invariant.
pub proof fn lemma_reviewed_wf(it: ItemView, who: Seq<char>, opinion: bool)
    requires
        it.wf(),
    ensures
        reviewed(it, who, opinion).wf(),
        reviewed(it, who, opinion).id == it.id,
{
    lemma_with(it.active, who);
    lemma_with(it.negative, who);
    lemma_without(it.active, who);
    lemma_without(it.negative, who);
}

impl YesOrNoContract {
    /// Creates a review item with the given content on behalf of
    /// `initiator` and returns its id, derived from its content.
    pub fn create_review(&mut self, title: String, desc: Option<String>, link: Option<String>, initiator: String) -> (r: Result<ItemId, ContractError>)
        requires
            old(self).wf(),
        ensures
            final(self).wf(),
            match r {
                Ok(id) => create_review_outcome(old(self)@, initiator@, title@, opt_view(desc), opt_view(link))
                    == Ok::<Seq<u8>, ContractError>(id@) && final(self)@ == (LedgerView {
                    items: old(self)@.items.push(new_item(id@, initiator@, title@, opt_view(desc), opt_view(link))),
                    ..old(self)@
                }),
                Err(e) => create_review_outcome(old(self)@, initiator@, title@, opt_view(desc), opt_view(link))
                    == Err::<Seq<u8>, ContractError>(e) && final(self)@ == old(self)@,
            },
    {
        let ghost l = self@;
        let item_id = get_content_id(&initiator, &title, &desc, &link);
        if self.find_item(&item_id).is_some() {
            return Err(ContractError::DuplicateItem);
        }
        let item = Item {
            id: item_id,
            initiator,
            title,
            desc,
            link,
            active: Vec::new(),
            negative: Vec::new(),
        };
        let ghost ni = new_item(item_id@, initiator@, title@, opt_view(desc), opt_view(link));
        proof {
            assert(names_view(item.active@) =~= Seq::<Seq<char>>::empty());
            assert(names_view(item.negative@) =~= Seq::<Seq<char>>::empty());
            assert(item@ =~= ni);
        }
        self.review.push(item);
        proof {
            assert(self@.items =~= l.items.push(ni));
            assert(self@.votes == l.votes);
            assert(self@.voters == l.voters);
            assert forall|i: int| 0 <= i < self@.items.len() implies (#[trigger] self@.items[i]).wf() by {
                if i < l.items.len() {
                    assert(self@.items[i] == l.items[i]);
                }
            }
            assert forall|i: int, k: int| 0 <= i < self@.items.len() && 0 <= k < self@.items.len() && i != k
                implies (#[trigger] self@.items[i]).id != (#[trigger] self@.items[k]).id by {
                if i < l.items.len() && k < l.items.len() {
                    assert(self@.items[i] == l.items[i] && self@.items[k] == l.items[k]);
                } else if i < l.items.len() {
                    assert(self@.items[i] == l.items[i]);
                } else {
                    assert(self@.items[k] == l.items[k]);
                }
            }
        }
        Ok(item_id)
    }

    /// Records `account_id`'s opinion of item `item_id`: approval
    /// (`opinion` true) or rejection, replacing any earlier opinion.
    pub fn review(&mut self, item_id: ItemId, opinion: Choose, account_id: &String) -> (r: Result<(), ContractError>)
        requires
            old(self).wf(),
        ensures
            final(self).wf(),
            r is Err <==> !has_item(old(self)@.items, item_id@),
            r is Err ==> r == Err::<(), ContractError>(ContractError::ItemNotFound) && final(self)@ == old(self)@,
            r is Ok ==> final(self)@ == review_post(old(self)@, item_id@, account_id@, opinion),
    {
        let ghost l = self@;
        let i = match self.find_item(&item_id) {
            Some(i) => i,
            None => return Err(ContractError::ItemNotFound),
        };
        proof {
            lemma_item_index(l.items, i as int);
            assert(l.items[i as int].wf());
        }
        let ghost old_it = self.review@[i as int];
        {
            let it = &mut self.review[i];
            if opinion {
                match position_of_name(&it.negative, account_id) {
                    Some(k) => {
                        it.negative.remove(k);
                    },
                    None => {},
                }
                match position_of_name(&it.active, account_id) {
                    Some(_) => {},
                    None => {
                        it.active.push(account_id.clone());
                    },
                }
            } else {
                match position_of_name(&it.active, account_id) {
                    Some(k) => {
                        it.active.remove(k);
                    },
                    None => {},
                }
                match position_of_name(&it.negative, account_id) {
                    Some(_) => {},
                    None => {
                        it.negative.push(account_id.clone());
                    },
                }
            }
        }
        proof {
            let n = review_post(l, item_id@, account_id@, opinion);
            let new_it = self.review@[i as int];
            let ov = old_it@;
            assert(ov == l.items[i as int]);
            if opinion {
                if ov.negative.contains(account_id@) {
                    assert(ov.negative[ov.negative.index_of(account_id@)] == account_id@);
                }
                assert(new_it@.negative =~= without(ov.negative, account_id@));
                assert(new_it@.active =~= with(ov.active, account_id@));
            } else {
                if ov.active.contains(account_id@) {
                    assert(ov.active[ov.active.index_of(account_id@)] == account_id@);
                }
                assert(new_it@.active =~= without(ov.active, account_id@));
                assert(new_it@.negative =~= with(ov.negative, account_id@));
            }
            assert(new_it@ == n.items[i as int]);
            assert(self@.items =~= n.items);
            assert(self@.votes == n.votes);
            assert(self@.voters == n.voters);
            lemma_reviewed_wf(ov, account_id@, opinion);
            assert forall|k: int| 0 <= k < self@.items.len() implies (#[trigger] self@.items[k]).wf() by {
                if k != i {
                    assert(self@.items[k] == l.items[k]);
                }
            }
            assert forall|a: int, b: int| 0 <= a < self@.items.len() && 0 <= b < self@.items.len() && a != b
                implies (#[trigger] self@.items[a]).id != (#[trigger] self@.items[b]).id by {
                assert(self@.items[a].id == l.items[a].id && self@.items[b].id == l.items[b].id);
            }
        }
        Ok(())
    }
}

} // verus!

verus! {

impl Clone for Item {
    fn clone(&self) -> (r: Self)
        ensures
            r@ == self@,
    {
        Item {
            id: self.id,
            initiator: self.initiator.clone(),
            title: self.title.clone(),
            desc: clone_opt(&self.desc),
            link: clone_opt(&self.link),
            active: clone_names(&self.active),
            negative: clone_names(&self.negative),
        }
    }
}

impl YesOrNoContract {
    /// The item with id `item_id`.
    pub fn get_item(&self, item_id: ItemId) -> (r: Result<Item, ContractError>)
        requires
            self.wf(),
        ensures
            match r {
                Ok(it) => has_item(self@.items, item_id@) && it@ == self@.items[item_index(self@.items, item_id@)],
                Err(e) => !has_item(self@.items, item_id@) && e == ContractError::ItemNotFound,
            },
    {
        match self.find_item(&item_id) {
            Some(i) => {
                proof {
                    lemma_item_index(self@.items, i as int);
                }
                Ok(self.review[i].clone())
            },
            None => Err(ContractError::ItemNotFound),
        }
    }
}

} // verus!
