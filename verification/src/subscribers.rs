//! Subscriber lists: the tokens of the callbacks registered for one event, in registration
//! order.

use vstd::prelude::*;

verus! {

/// The tokens registered for one event and the next token to issue.
#[derive(Debug, PartialEq)]
pub struct Subscribers {
    tokens: Vec<u64>,
    next: u64,
}

/// What a [`Subscribers`] list denotes.
pub struct SubscribersModel {
    /// The registered tokens, in registration order.
    pub tokens: Seq<u64>,
    /// The next token to issue.
    pub next: u64,
}

impl SubscribersModel {
    /// Tokens rise strictly along the list and all lie below the next one: none is there
    /// twice, and none that is issued later equals one issued before.
    pub open spec fn wf(self) -> bool {
        rising(self.tokens, self.next)
    }

    /// The empty list.
    pub open spec fn empty() -> SubscribersModel {
        SubscribersModel { tokens: Seq::empty(), next: 0 }
    }

    /// The list after one more registration.
    pub open spec fn added(self) -> SubscribersModel {
        SubscribersModel { tokens: self.tokens.push(self.next), next: (self.next + 1) as u64 }
    }

    /// The list without `token`.
    pub open spec fn removed(self, token: u64) -> SubscribersModel {
        SubscribersModel { tokens: without(self.tokens, token), next: self.next }
    }
}

impl View for Subscribers {
    type V = SubscribersModel;

    closed spec fn view(&self) -> SubscribersModel {
        SubscribersModel { tokens: self.tokens@, next: self.next }
    }
}

impl Subscribers {
    /// A list with no subscriber.
    pub fn new() -> (r: Subscribers)
        ensures
            r@ == SubscribersModel::empty(),
            r@.wf(),
    {
        Subscribers { tokens: Vec::new(), next: 0 }
    }

    /// Registers a subscriber at the end of the list and returns its token, which no earlier
    /// registration of this list had. `None`, and no change, once all tokens are spent.
    pub fn add(&mut self) -> (r: Option<u64>)
        requires
            old(self)@.wf(),
        ensures
            final(self)@.wf(),
            match r {
                Some(t) => old(self)@.next < u64::MAX && t == old(self)@.next && final(self)@ == old(
                    self,
                )@.added(),
                None => old(self)@.next == u64::MAX && final(self)@ == old(self)@,
            },
    {
        if self.next == u64::MAX {
            return None;
        }
        let t = self.next;
        self.tokens.push(t);
        self.next = t + 1;
        Some(t)
    }

    /// Removes the subscriber with the given token. An unknown token changes nothing.
    pub fn remove(&mut self, token: u64)
        requires
            old(self)@.wf(),
        ensures
            final(self)@.wf(),
            final(self)@ == old(self)@.removed(token),
    {
        let mut kept: Vec<u64> = Vec::new();
        let mut i: usize = 0;
        while i < self.tokens.len()
            invariant
                i <= self.tokens.len(),
                kept@ == without(self.tokens@.take(i as int), token),
            decreases self.tokens.len() - i,
        {
            proof {
                assert(self.tokens@.take(i + 1).drop_last() =~= self.tokens@.take(i as int));
            }
            let t = self.tokens[i];
            if t != token {
                kept.push(t);
            }
            i += 1;
        }
        proof {
            assert(self.tokens@.take(i as int) =~= self.tokens@);
            lemma_without_keeps_order(self.tokens@, self.next, token);
        }
        self.tokens = kept;
    }

    /// The registered tokens, in registration order.
    pub fn tokens(&self) -> (r: Vec<u64>)
        ensures
            r@ == self@.tokens,
    {
        self.tokens.clone()
    }

    /// Whether `token` is registered.
    pub fn contains(&self, token: u64) -> (r: bool)
        ensures
            r == self@.tokens.contains(token),
    {
        let mut i: usize = 0;
        while i < self.tokens.len()
            invariant
                i <= self.tokens.len(),
                forall|k: int| 0 <= k < i ==> self.tokens[k] != token,
            decreases self.tokens.len() - i,
        {
            if self.tokens[i] == token {
                return true;
            }
            i += 1;
        }
        false
    }
}

impl Clone for Subscribers {
    /// An independent copy that denotes the same list.
    fn clone(&self) -> (r: Subscribers)
        ensures
            r@ == self@,
    {
        Subscribers { tokens: self.tokens.clone(), next: self.next }
    }
}

/// The tokens rise strictly and all lie below `next`.
pub open spec fn rising(tokens: Seq<u64>, next: u64) -> bool {
    &&& forall|i: int, j: int| 0 <= i < j < tokens.len() ==> (#[trigger] tokens[i]) < (#[trigger] tokens[j])
    &&& forall|i: int| 0 <= i < tokens.len() ==> (#[trigger] tokens[i]) < next
}

/// The list `s` without the occurrences of `token`, the rest in order.
pub open spec fn without(s: Seq<u64>, token: u64) -> Seq<u64>
    decreases s.len(),
{
    if s.len() == 0 {
        Seq::empty()
    } else if s.last() == token {
        without(s.drop_last(), token)
    } else {
        without(s.drop_last(), token).push(s.last())
    }
}

/// Taking one token out of a rising list leaves a rising list below the same bound, and
/// the token is gone from it.
pub proof fn lemma_without_keeps_order(s: Seq<u64>, next: u64, token: u64)
    requires
        rising(s, next),
    ensures
        rising(without(s, token), next),
        forall|k: int| 0 <= k < without(s, token).len() ==> (#[trigger] without(s, token)[k]) != token,
        forall|k: int|
            0 <= k < without(s, token).len() && s.len() > 0 ==> (#[trigger] without(s, token)[k]) <= s.last(),
    decreases s.len(),
{
    if s.len() > 0 {
        let pre = s.drop_last();
        assert forall|i: int, j: int| 0 <= i < j < pre.len() implies (#[trigger] pre[i]) < (#[trigger] pre[j]) by {
            assert(s[i] < s[j]);
        }
        assert forall|i: int| 0 <= i < pre.len() implies (#[trigger] pre[i]) < next by {
            assert(s[i] < next);
        }
        lemma_without_keeps_order(pre, next, token);
        let out = without(pre, token);
        assert forall|k: int| 0 <= k < out.len() implies (#[trigger] out[k]) < s.last() by {
            assert(out[k] <= pre.last());
            assert(pre.last() == s[s.len() - 2]);
            assert(s[s.len() - 2] < s[s.len() - 1]);
        }
        assert(s[s.len() - 1] < next);
    }
}

/// The token that the next registration issues is none of the registered ones, and stays
/// registered until it is removed: removing another token keeps it.
pub proof fn lemma_token_is_fresh(list: SubscribersModel, other: u64)
    requires
        list.wf(),
        list.next < u64::MAX,
    ensures
        !list.tokens.contains(list.next),
        list.added().wf(),
        list.added().tokens.last() == list.next,
        other != list.next ==> list.added().removed(other).tokens.contains(list.next),
        !list.added().removed(list.next).tokens.contains(list.next),
{
    let after = list.added();
    assert(after.tokens.drop_last() =~= list.tokens);
    lemma_without_keeps_order(after.tokens, after.next, list.next);
    if other != list.next {
        let kept = without(after.tokens, other);
        assert(kept == without(list.tokens, other).push(list.next));
        assert(kept[kept.len() - 1] == list.next);
    }
    if list.tokens.contains(list.next) {
        let k = choose|k: int| 0 <= k < list.tokens.len() && list.tokens[k] == list.next;
        assert(list.tokens[k] < list.next);
    }
    let gone = without(after.tokens, list.next);
    if gone.contains(list.next) {
        let k = choose|k: int| 0 <= k < gone.len() && gone[k] == list.next;
        assert(gone[k] != list.next);
    }
}

} // verus!
