//! Per-user pairing of selection events.

use std::collections::HashMap;
use vstd::prelude::*;

verus! {

/// Identifier of the user who makes selections.
pub type UserId = u64;

/// Identifier of a message; ordered by its position in the stream.
pub type MessageId = u64;

/// The pending entries after `process(user, message)` on a store whose
/// pending entries are `pending`.
pub open spec fn after_process(pending: Map<UserId, MessageId>, user: UserId, message: MessageId) -> Map<
    UserId,
    MessageId,
> {
    if pending.contains_key(user) {
        pending.remove(user)
    } else {
        pending.insert(user, message)
    }
}

/// What `process(user, message)` returns on a store whose pending entries
/// are `pending`: the pair in click order once a selection was pending.
pub open spec fn process_result(pending: Map<UserId, MessageId>, user: UserId, message: MessageId) -> Option<
    [MessageId; 2],
> {
    if pending.contains_key(user) {
        Some([pending[user], message])
    } else {
        None
    }
}

/// The pending entries after the selection events `events`, each a user and
/// the message selected, handled in order by `process`.
pub open spec fn pending_after(pending: Map<UserId, MessageId>, events: Seq<(UserId, MessageId)>) -> Map<
    UserId,
    MessageId,
>
    decreases events.len(),
{
    if events.len() == 0 {
        pending
    } else {
        after_process(pending_after(pending, events.drop_last()), events.last().0, events.last().1)
    }
}

/// Whether an event was made by `user`.
pub open spec fn made_by(user: UserId) -> spec_fn((UserId, MessageId)) -> bool {
    |e: (UserId, MessageId)| e.0 == user
}

/// The events of `events` that `user` made, in order.
pub open spec fn events_of(events: Seq<(UserId, MessageId)>, user: UserId) -> Seq<(UserId, MessageId)> {
    events.filter(made_by(user))
}

/// `a` and `b` hold the same entry, or none, for `user`.
pub open spec fn same_entry(a: Map<UserId, MessageId>, b: Map<UserId, MessageId>, user: UserId) -> bool {
    &&& a.contains_key(user) == b.contains_key(user)
    &&& a.contains_key(user) ==> a[user] == b[user]
}

/// A first selection is kept pending and gives no pair; the next selection
/// of the same user gives the pair of both, in click order.
pub proof fn lemma_second_selection_completes_pair(
    pending: Map<UserId, MessageId>,
    user: UserId,
    first: MessageId,
    second: MessageId,
)
    requires
        !pending.contains_key(user),
    ensures
        process_result(pending, user, first) == None::<[MessageId; 2]>,
        process_result(after_process(pending, user, first), user, second) == Some(
            [first, second],
        ),
{
}

/// Once a pair comes back, the user has no pending entry, and a third
/// selection is handled as a first one.
pub proof fn lemma_completed_pair_clears_user(
    pending: Map<UserId, MessageId>,
    user: UserId,
    message: MessageId,
    third: MessageId,
)
    requires
        process_result(pending, user, message) is Some,
    ensures
        !after_process(pending, user, message).contains_key(user),
        process_result(after_process(pending, user, message), user, third) == None::<
            [MessageId; 2],
        >,
        after_process(after_process(pending, user, message), user, third) == pending.remove(
            user,
        ).insert(user, third),
{
}

/// Users pair independently: whatever the interleaving, the entry of `user`
/// after a run of events, and what its next selection gives, are those of
/// the run of its own events alone. A pair is made of one user's selections.
pub proof fn lemma_users_pair_independently(
    pending: Map<UserId, MessageId>,
    events: Seq<(UserId, MessageId)>,
    user: UserId,
    message: MessageId,
)
    ensures
        same_entry(pending_after(pending, events), pending_after(pending, events_of(events, user)), user),
        process_result(pending_after(pending, events), user, message) == process_result(
            pending_after(pending, events_of(events, user)),
            user,
            message,
        ),
    decreases events.len(),
{
    if events.len() > 0 {
        let pred = made_by(user);
        let prefix = events.drop_last();
        let last = events.last();
        lemma_users_pair_independently(pending, prefix, user, message);
        reveal(Seq::filter);
        assert(events.filter(pred) == if pred(last) {
            prefix.filter(pred).push(last)
        } else {
            prefix.filter(pred)
        });
        if last.0 == user {
            assert(prefix.filter(pred).push(last).drop_last() =~= prefix.filter(pred));
        }
    }
}

/// A selection by a user with no pending entry leaves every other user's
/// entry as it was.
pub proof fn lemma_first_selection_touches_no_other_user(
    pending: Map<UserId, MessageId>,
    user: UserId,
    message: MessageId,
    other: UserId,
)
    requires
        !pending.contains_key(user),
        other != user,
    ensures
        same_entry(after_process(pending, user, message), pending, other),
{
}

/// At most one pending selection per user, awaiting its second selection.
pub struct PairingStore {
    pending: HashMap<UserId, MessageId>,
}

impl View for PairingStore {
    type V = Map<UserId, MessageId>;

    closed spec fn view(&self) -> Map<UserId, MessageId> {
        self.pending@
    }
}

impl PairingStore {
    /// A store with no pending selection.
    pub fn new() -> (r: Self)
        ensures
            r@ == Map::<UserId, MessageId>::empty(),
    {
        PairingStore { pending: HashMap::new() }
    }

    /// Stores `message` as the pending selection of `user`, and returns the
    /// selection that was pending before, if any.
    pub fn insert(&mut self, user: UserId, message: MessageId) -> (r: Option<MessageId>)
        ensures
            final(self)@ == old(self)@.insert(user, message),
            r == (if old(self)@.contains_key(user) {
                Some(old(self)@[user])
            } else {
                None
            }),
    {
        self.pending.insert(user, message)
    }

    /// Removes the pending selection of `user` and returns it, if any.
    pub fn take(&mut self, user: UserId) -> (r: Option<MessageId>)
        ensures
            final(self)@ == old(self)@.remove(user),
            r == (if old(self)@.contains_key(user) {
                Some(old(self)@[user])
            } else {
                None
            }),
    {
        self.pending.remove(&user)
    }

    /// Records a selection of `message` by `user`. The first selection of a
    /// user is kept pending and `None` comes back; the second completes the
    /// pair `[first, second]` in click order and clears the user's entry.
    pub fn process(&mut self, user: UserId, message: MessageId) -> (r: Option<[MessageId; 2]>)
        ensures
            final(self)@ == after_process(old(self)@, user, message),
            r == process_result(old(self)@, user, message),
    {
        match self.insert(user, message) {
            None => None,
            Some(first) => {
                let second = self.take(user);
                match second {
                    Some(second) => Some([first, second]),
                    None => None,
                }
            },
        }
    }
}

} // verus!
