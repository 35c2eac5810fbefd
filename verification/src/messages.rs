//! Message repository: persists messages and computes conversation
//! threads.
//!
//! A message belongs to exactly one thread, determined by its unordered
//! sender/receiver pair: `(A to B)` and `(B to A)` rows collapse into the
//! same thread. Thread listings are ordered chronologically, with the
//! storage-assigned id as the explicit, deterministic tie-breaker.

use vstd::prelude::*;
use crate::db_helper::DbHelperError;

verus! {

/// A stored message row.
pub struct Message {
    pub id: i64,
    pub text: String,
    pub sender_id: i64,
    pub receiver_id: i64,
    pub created_at: i64,
    pub is_read: bool,
}

/// The mathematical value of a message row.
pub struct MsgModel {
    pub id: i64,
    pub text: Seq<char>,
    pub sender_id: i64,
    pub receiver_id: i64,
    pub created_at: i64,
    pub is_read: bool,
}

impl View for Message {
    type V = MsgModel;

    open spec fn view(&self) -> MsgModel {
        MsgModel {
            id: self.id,
            text: self.text@,
            sender_id: self.sender_id,
            receiver_id: self.receiver_id,
            created_at: self.created_at,
            is_read: self.is_read,
        }
    }
}

/// The values of a row sequence.
pub open spec fn msgs_view(v: Seq<Message>) -> Seq<MsgModel> {
    v.map_values(|m: Message| m@)
}

/// Message creation input; the sender and timestamp are supplied
/// server-side.
pub struct CreateMessage {
    pub text: String,
    pub receiver_id: i64,
}

impl Message {
    pub fn new(
        id: i64,
        text: String,
        sender_id: i64,
        receiver_id: i64,
        created_at: i64,
        is_read: bool,
    ) -> (r: Message)
        ensures
            r@ == (MsgModel { id, text: text@, sender_id, receiver_id, created_at, is_read }),
    {
        Message { id, text, sender_id, receiver_id, created_at, is_read }
    }

    /// A value-equal copy of the row.
    pub fn duplicate(&self) -> (r: Message)
        ensures
            r@ == self@,
    {
        Message {
            id: self.id,
            text: self.text.clone(),
            sender_id: self.sender_id,
            receiver_id: self.receiver_id,
            created_at: self.created_at,
            is_read: self.is_read,
        }
    }

    /// Maps creation input to a fresh row: the id is assigned later by
    /// the store, the timestamp is the server-side clock reading, and
    /// the row starts unread.
    pub fn from_create(value: CreateMessage, sender_id: i64, now: i64) -> (r: Message)
        ensures
            r@ == (MsgModel {
                id: 0,
                text: value.text@,
                sender_id,
                receiver_id: value.receiver_id,
                created_at: now,
                is_read: false,
            }),
    {
        Message {
            id: 0,
            text: value.text,
            sender_id,
            receiver_id: value.receiver_id,
            created_at: now,
            is_read: false,
        }
    }
}

/// Whether the user is the sender or the receiver of the message.
pub open spec fn involves(m: MsgModel, u: i64) -> bool {
    m.sender_id == u || m.receiver_id == u
}

/// The other party of a message, seen from one user's side.
pub open spec fn counterpart(m: MsgModel, u: i64) -> i64 {
    if m.sender_id == u {
        m.receiver_id
    } else {
        m.sender_id
    }
}

/// Whether the message belongs to the thread between `a` and `b`, in
/// either direction.
pub open spec fn in_thread(m: MsgModel, a: i64, b: i64) -> bool {
    (m.sender_id == a && m.receiver_id == b) || (m.sender_id == b && m.receiver_id == a)
}

/// Whether two messages belong to the same thread: their unordered
/// sender/receiver pairs coincide.
pub open spec fn same_pair(m1: MsgModel, m2: MsgModel) -> bool {
    in_thread(m2, m1.sender_id, m1.receiver_id)
}

/// The chronological order on messages, with the storage-assigned id as
/// the deterministic tie-breaker.
pub open spec fn key_le(m1: MsgModel, m2: MsgModel) -> bool {
    m1.created_at < m2.created_at || (m1.created_at == m2.created_at && m1.id <= m2.id)
}

/// Pairwise chronological sortedness.
pub open spec fn sorted_msgs(s: Seq<MsgModel>) -> bool {
    forall|i: int, j: int| 0 <= i < j < s.len() ==> #[trigger] key_le(s[i], s[j])
}

/// No two entries belong to the same thread.
pub open spec fn distinct_pairs(s: Seq<MsgModel>) -> bool {
    forall|k1: int, k2: int| 0 <= k1 < k2 < s.len() ==> !(#[trigger] same_pair(s[k1], s[k2]))
}

/// Inserts a message into a chronologically sorted sequence, keeping the
/// order.
pub open spec fn insert_sorted(m: MsgModel, s: Seq<MsgModel>) -> Seq<MsgModel>
    decreases s.len(),
{
    if s.len() == 0 {
        seq![m]
    } else if key_le(m, s[0]) {
        seq![m] + s
    } else {
        seq![s[0]] + insert_sorted(m, s.drop_first())
    }
}

/// Chronological insertion sort.
pub open spec fn sort_msgs(s: Seq<MsgModel>) -> Seq<MsgModel>
    decreases s.len(),
{
    if s.len() == 0 {
        Seq::empty()
    } else {
        insert_sorted(s.last(), sort_msgs(s.drop_last()))
    }
}

/// Folds one message into the per-thread representatives: the entry of
/// its thread is replaced when the message is strictly later, and a
/// message of a new thread is appended.
pub open spec fn upsert_rep(reps: Seq<MsgModel>, m: MsgModel) -> Seq<MsgModel>
    decreases reps.len(),
{
    if reps.len() == 0 {
        seq![m]
    } else if same_pair(reps[0], m) {
        seq![if key_le(m, reps[0]) {
            reps[0]
        } else {
            m
        }] + reps.drop_first()
    } else {
        seq![reps[0]] + upsert_rep(reps.drop_first(), m)
    }
}

/// One representative message per thread the user takes part in: the
/// latest message of each thread, in first-contact order.
pub open spec fn reps_of(msgs: Seq<MsgModel>, u: i64) -> Seq<MsgModel>
    decreases msgs.len(),
{
    if msgs.len() == 0 {
        Seq::empty()
    } else {
        let prev = reps_of(msgs.drop_last(), u);
        if involves(msgs.last(), u) {
            upsert_rep(prev, msgs.last())
        } else {
            prev
        }
    }
}

/// The message table: ids are assigned from `next_id`.
pub struct MessageStore {
    pub messages: Vec<Message>,
    pub next_id: i64,
}

impl MessageStore {
    /// The values of the stored rows, in insertion order.
    pub open spec fn contents(&self) -> Seq<MsgModel> {
        msgs_view(self.messages@)
    }

    pub open spec fn wf(&self) -> bool {
        &&& 1 <= self.next_id
        &&& forall|i: int|
            0 <= i < self.contents().len() ==> 1 <= #[trigger] self.contents()[i].id
                < self.next_id
        &&& forall|i: int, j: int|
            0 <= i < j < self.contents().len() ==> self.contents()[i].id
                != self.contents()[j].id
    }

    pub fn new() -> (r: MessageStore)
        ensures
            r.wf(),
            r.contents().len() == 0,
            r.next_id == 1,
    {
        MessageStore { messages: Vec::new(), next_id: 1 }
    }
}

fn key_le_exec(a: &Message, b: &Message) -> (r: bool)
    ensures
        r == key_le(a@, b@),
{
    a.created_at < b.created_at || (a.created_at == b.created_at && a.id <= b.id)
}

fn same_pair_exec(a: &Message, b: &Message) -> (r: bool)
    ensures
        r == same_pair(a@, b@),
{
    (b.sender_id == a.sender_id && b.receiver_id == a.receiver_id) || (b.sender_id
        == a.receiver_id && b.receiver_id == a.sender_id)
}

/// Inserts the given message and hands back the fully populated row,
/// with its storage-assigned id. Fails only when the id space is
/// exhausted; the store is then unchanged.
pub fn create_message(store: &mut MessageStore, message: Message) -> (r: Result<
    Message,
    DbHelperError,
>)
    requires
        old(store).wf(),
    ensures
        final(store).wf(),
        r matches Ok(m) ==> {
            &&& m@ == (MsgModel {
                id: old(store).next_id,
                text: message.text@,
                sender_id: message.sender_id,
                receiver_id: message.receiver_id,
                created_at: message.created_at,
                is_read: message.is_read,
            })
            &&& final(store).contents() == old(store).contents().push(m@)
            &&& final(store).next_id == old(store).next_id + 1
        },
        r is Err <==> old(store).next_id == i64::MAX,
        r is Err ==> final(store).contents() == old(store).contents() && final(store).next_id
            == old(store).next_id,
{
    if store.next_id == i64::MAX {
        return Err(DbHelperError::Storage);
    }
    let id = store.next_id;
    let row = Message::new(
        id,
        message.text,
        message.sender_id,
        message.receiver_id,
        message.created_at,
        message.is_read,
    );
    let out = row.duplicate();
    store.messages.push(row);
    store.next_id = store.next_id + 1;
    proof {
        assert(final(store).contents() =~= old(store).contents().push(out@));
    }
    Ok(out)
}

/// Looks a message up by id; at most one row matches, as ids are unique.
pub fn get_message_by_id(store: &MessageStore, id: i64) -> (r: Option<Message>)
    ensures
        r matches Some(m) ==> m@.id == id && store.contents().contains(m@),
        r is None ==> forall|i: int|
            0 <= i < store.contents().len() ==> #[trigger] store.contents()[i].id != id,
{
    let mut i: usize = 0;
    while i < store.messages.len()
        invariant
            i <= store.contents().len(),
            store.contents().len() == store.messages@.len(),
            forall|k: int| 0 <= k < i ==> #[trigger] store.contents()[k].id != id,
        decreases store.messages@.len() - i,
    {
        if store.messages[i].id == id {
            let m = store.messages[i].duplicate();
            proof {
                assert(store.contents()[i as int] == m@);
            }
            return Some(m);
        }
        i = i + 1;
    }
    None
}

/// Message deletion is owner-scoped: a row goes away only when it has
/// this id and the requesting user is its sender. The count of removed
/// rows is handed back; removing nothing is not an error.
pub fn delete_message(store: &mut MessageStore, message_id: i64, user_id: i64) -> (r: usize)
    requires
        old(store).wf(),
    ensures
        final(store).wf(),
        final(store).contents() == old(store).contents().filter(
            |m: MsgModel| !(m.id == message_id && m.sender_id == user_id),
        ),
        final(store).next_id == old(store).next_id,
        r == old(store).contents().len() - final(store).contents().len(),
{
    let ghost keep = |m: MsgModel| !(m.id == message_id && m.sender_id == user_id);
    let mut kept: Vec<Message> = Vec::new();
    let mut i: usize = 0;
    while i < store.messages.len()
        invariant
            i <= store.messages@.len(),
            msgs_view(kept@) == old(store).contents().take(i as int).filter(keep),
            store.messages@ == old(store).messages@,
            keep == (|m: MsgModel| !(m.id == message_id && m.sender_id == user_id)),
        decreases store.messages@.len() - i,
    {
        let ghost prefix = old(store).contents().take(i as int);
        let ghost prefix1 = old(store).contents().take(i + 1);
        proof {
            reveal(Seq::filter);
            assert(prefix1.drop_last() =~= prefix);
            assert(prefix1.last() == old(store).contents()[i as int]);
        }
        let m = &store.messages[i];
        if !(m.id == message_id && m.sender_id == user_id) {
            let d = m.duplicate();
            kept.push(d);
            proof {
                assert(keep(prefix1.last()));
                assert(msgs_view(kept@) =~= prefix.filter(keep).push(old(
                    store,
                ).contents()[i as int]));
            }
        } else {
            proof {
                assert(!keep(prefix1.last()));
            }
        }
        i = i + 1;
    }
    proof {
        assert(old(store).contents().take(store.messages@.len() as int) =~= old(
            store,
        ).contents());
        old(store).contents().lemma_filter_len(keep);
    }
    let removed = store.messages.len() - kept.len();
    store.messages = kept;
    proof {
        let all = old(store).contents();
        let fs = all.filter(keep);
        assert forall|k: int|
            0 <= k < fs.len() implies 1 <= (#[trigger] fs[k]).id < final(store).next_id by {
            assert(fs.contains(fs[k]));
            all.lemma_filter_contains_rev(keep, fs[k]);
            let idx = choose|t: int| 0 <= t < all.len() && all[t] == fs[k];
        };
        assert forall|k1: int, k2: int| 0 <= k1 < k2 < fs.len() implies fs[k1].id != fs[k2].id by {
            lemma_filter_distinct_ids(all, keep, k1, k2);
        };
    }
    removed
}

/// Distinct rows of a filtered sequence come from distinct rows of the
/// unfiltered one, so unique ids survive filtering.
proof fn lemma_filter_distinct_ids(
    s: Seq<MsgModel>,
    pred: spec_fn(MsgModel) -> bool,
    k1: int,
    k2: int,
)
    requires
        forall|i: int, j: int| 0 <= i < j < s.len() ==> s[i].id != s[j].id,
        0 <= k1 < k2 < s.filter(pred).len(),
    ensures
        s.filter(pred)[k1].id != s.filter(pred)[k2].id,
    decreases s.len(),
{
    reveal(Seq::filter);
    if s.len() > 0 {
        let fs = s.filter(pred);
        let rest = s.drop_last().filter(pred);
        assert(forall|i: int, j: int|
            0 <= i < j < s.drop_last().len() ==> s.drop_last()[i].id != s.drop_last()[j].id);
        if pred(s.last()) {
            assert(fs == rest.push(s.last()));
            if k2 < fs.len() - 1 {
                lemma_filter_distinct_ids(s.drop_last(), pred, k1, k2);
            } else {
                assert(rest.contains(rest[k1]));
                s.drop_last().lemma_filter_contains_rev(pred, rest[k1]);
                let idx = choose|t: int|
                    0 <= t < s.drop_last().len() && s.drop_last()[t] == rest[k1];
                assert(s[idx] == rest[k1]);
                assert(s[s.len() - 1] == s.last());
            }
        } else {
            assert(fs == rest);
            lemma_filter_distinct_ids(s.drop_last(), pred, k1, k2);
        }
    }
}


/// Pins `insert_sorted` down: inserting right before the first entry the
/// message precedes is the same as inserting at that position.
proof fn lemma_insert_sorted_at(m: MsgModel, s: Seq<MsgModel>, j: int)
    requires
        0 <= j <= s.len(),
        forall|k: int| 0 <= k < j ==> !key_le(m, #[trigger] s[k]),
        j < s.len() ==> key_le(m, s[j]),
    ensures
        insert_sorted(m, s) == s.insert(j, m),
    decreases j,
{
    if j == 0 {
        if s.len() == 0 {
            assert(s.insert(0, m) =~= seq![m]);
        } else {
            assert(s.insert(0, m) =~= seq![m] + s);
        }
    } else {
        assert(!key_le(m, s[0]));
        lemma_insert_sorted_at(m, s.drop_first(), j - 1);
        assert(seq![s[0]] + s.drop_first().insert(j - 1, m) =~= s.insert(j, m));
    }
}

/// Chronologically sorts rows by insertion, mirroring [`sort_msgs`].
fn sort_by_time(input: &Vec<Message>) -> (r: Vec<Message>)
    ensures
        msgs_view(r@) == sort_msgs(msgs_view(input@)),
{
    let ghost iv = msgs_view(input@);
    let mut out: Vec<Message> = Vec::new();
    let mut k: usize = 0;
    while k < input.len()
        invariant
            k <= input@.len(),
            iv == msgs_view(input@),
            iv.len() == input@.len(),
            msgs_view(out@) == sort_msgs(iv.take(k as int)),
        decreases input@.len() - k,
    {
        let m = input[k].duplicate();
        let ghost before = msgs_view(out@);
        let mut j: usize = 0;
        while j < out.len() && !key_le_exec(&m, &out[j])
            invariant
                j <= out@.len(),
                before == msgs_view(out@),
                m@ == iv[k as int],
                forall|t: int| 0 <= t < j ==> !key_le(m@, #[trigger] before[t]),
            decreases out@.len() - j,
        {
            j = j + 1;
        }
        out.insert(j, m);
        proof {
            lemma_insert_sorted_at(iv[k as int], before, j as int);
            assert(msgs_view(out@) =~= before.insert(j as int, iv[k as int]));
            assert(iv.take(k + 1).drop_last() =~= iv.take(k as int));
            assert(iv.take(k + 1).last() == iv[k as int]);
        }
        k = k + 1;
    }
    proof {
        assert(iv.take(input@.len() as int) =~= iv);
    }
    out
}

/// The full thread between two users: every message exchanged between
/// them, in either direction, in chronological order with ids breaking
/// ties.
pub fn get_messages_thread(store: &MessageStore, users: (i64, i64)) -> (r: Vec<Message>)
    ensures
        msgs_view(r@) == sort_msgs(
            store.contents().filter(|m: MsgModel| in_thread(m, users.0, users.1)),
        ),
{
    let ghost pred = |m: MsgModel| in_thread(m, users.0, users.1);
    let mut picked: Vec<Message> = Vec::new();
    let mut i: usize = 0;
    while i < store.messages.len()
        invariant
            i <= store.messages@.len(),
            store.contents().len() == store.messages@.len(),
            msgs_view(picked@) == store.contents().take(i as int).filter(pred),
            pred == (|m: MsgModel| in_thread(m, users.0, users.1)),
        decreases store.messages@.len() - i,
    {
        let ghost prefix = store.contents().take(i as int);
        let ghost prefix1 = store.contents().take(i + 1);
        proof {
            reveal(Seq::filter);
            assert(prefix1.drop_last() =~= prefix);
            assert(prefix1.last() == store.contents()[i as int]);
        }
        let m = &store.messages[i];
        if (m.sender_id == users.0 && m.receiver_id == users.1) || (m.sender_id == users.1
            && m.receiver_id == users.0) {
            let d = m.duplicate();
            picked.push(d);
            proof {
                assert(pred(prefix1.last()));
                assert(msgs_view(picked@) =~= prefix.filter(pred).push(
                    store.contents()[i as int],
                ));
            }
        } else {
            proof {
                assert(!pred(prefix1.last()));
            }
        }
        i = i + 1;
    }
    proof {
        assert(store.contents().take(store.messages@.len() as int) =~= store.contents());
    }
    sort_by_time(&picked)
}

/// Pins `upsert_rep` down when an earlier entry shares the thread: the
/// entry is replaced in place when the message is strictly later.
proof fn lemma_upsert_at(reps: Seq<MsgModel>, m: MsgModel, j: int)
    requires
        0 <= j < reps.len(),
        same_pair(reps[j], m),
        forall|k: int| 0 <= k < j ==> !same_pair(#[trigger] reps[k], m),
    ensures
        upsert_rep(reps, m) == reps.update(
            j,
            if key_le(m, reps[j]) {
                reps[j]
            } else {
                m
            },
        ),
    decreases j,
{
    let keep = if key_le(m, reps[j]) {
        reps[j]
    } else {
        m
    };
    if j == 0 {
        assert(seq![keep] + reps.drop_first() =~= reps.update(0, keep));
    } else {
        assert(!same_pair(reps[0], m));
        lemma_upsert_at(reps.drop_first(), m, j - 1);
        assert(seq![reps[0]] + reps.drop_first().update(j - 1, keep) =~= reps.update(j, keep));
    }
}

/// Pins `upsert_rep` down when no entry shares the thread: the message
/// opens a new thread at the end.
proof fn lemma_upsert_absent(reps: Seq<MsgModel>, m: MsgModel)
    requires
        forall|k: int| 0 <= k < reps.len() ==> !same_pair(#[trigger] reps[k], m),
    ensures
        upsert_rep(reps, m) == reps.push(m),
    decreases reps.len(),
{
    if reps.len() == 0 {
        assert(upsert_rep(reps, m) =~= reps.push(m));
    } else {
        lemma_upsert_absent(reps.drop_first(), m);
        assert(seq![reps[0]] + reps.drop_first().push(m) =~= reps.push(m));
    }
}

/// The dialog listing: one representative message per thread the user
/// takes part in, the latest of each thread, in chronological order.
pub fn get_message_threads(store: &MessageStore, user_id: i64) -> (r: Vec<Message>)
    ensures
        msgs_view(r@) == sort_msgs(reps_of(store.contents(), user_id)),
{
    let mut reps: Vec<Message> = Vec::new();
    let mut i: usize = 0;
    while i < store.messages.len()
        invariant
            i <= store.messages@.len(),
            store.contents().len() == store.messages@.len(),
            msgs_view(reps@) == reps_of(store.contents().take(i as int), user_id),
        decreases store.messages@.len() - i,
    {
        let ghost prefix = store.contents().take(i as int);
        let ghost prefix1 = store.contents().take(i + 1);
        proof {
            assert(prefix1.drop_last() =~= prefix);
            assert(prefix1.last() == store.contents()[i as int]);
        }
        let m = &store.messages[i];
        if m.sender_id == user_id || m.receiver_id == user_id {
            let ghost rv = msgs_view(reps@);
            let mut j: usize = 0;
            while j < reps.len() && !same_pair_exec(&reps[j], m)
                invariant
                    j <= reps@.len(),
                    rv == msgs_view(reps@),
                    m@ == store.contents()[i as int],
                    forall|t: int| 0 <= t < j ==> !same_pair(#[trigger] rv[t], m@),
                decreases reps@.len() - j,
            {
                j = j + 1;
            }
            if j < reps.len() {
                proof {
                    lemma_upsert_at(rv, m@, j as int);
                }
                if key_le_exec(m, &reps[j]) {
                    proof {
                        assert(rv.update(j as int, rv[j as int]) =~= rv);
                    }
                } else {
                    let d = m.duplicate();
                    reps.remove(j);
                    reps.insert(j, d);
                    proof {
                        assert(msgs_view(reps@) =~= rv.update(j as int, m@));
                    }
                }
            } else {
                let d = m.duplicate();
                reps.push(d);
                proof {
                    lemma_upsert_absent(rv, m@);
                    assert(msgs_view(reps@) =~= rv.push(m@));
                }
            }
            proof {
                assert(involves(prefix1.last(), user_id));
            }
        }
        i = i + 1;
    }
    proof {
        assert(store.contents().take(store.messages@.len() as int) =~= store.contents());
    }
    sort_by_time(&reps)
}


/// Deletion is owner-scoped, attempts on another user's messages change
/// nothing: when every row with the id was sent by someone else, the
/// owner-scoped removal keeps the whole store intact (and the operation
/// still reports success, as removing nothing is not an error).
pub proof fn lemma_delete_foreign_message_noop(s: Seq<MsgModel>, message_id: i64, user_id: i64)
    requires
        forall|i: int|
            0 <= i < s.len() && (#[trigger] s[i]).id == message_id ==> s[i].sender_id != user_id,
    ensures
        s.filter(|m: MsgModel| !(m.id == message_id && m.sender_id == user_id)) == s,
    decreases s.len(),
{
    reveal(Seq::filter);
    let pred = |m: MsgModel| !(m.id == message_id && m.sender_id == user_id);
    if s.len() > 0 {
        lemma_delete_foreign_message_noop(s.drop_last(), message_id, user_id);
        assert(pred(s.last()));
        assert(s.drop_last().push(s.last()) =~= s);
    }
}

/// Elements of an insertion are the inserted message and the old
/// elements, nothing else; old elements all survive.
proof fn lemma_insert_sorted_elems(m: MsgModel, s: Seq<MsgModel>)
    ensures
        insert_sorted(m, s).len() == s.len() + 1,
        forall|k: int|
            0 <= k < insert_sorted(m, s).len() ==> #[trigger] insert_sorted(m, s)[k] == m
                || s.contains(insert_sorted(m, s)[k]),
        forall|x: MsgModel| s.contains(x) ==> #[trigger] insert_sorted(m, s).contains(x),
        insert_sorted(m, s).contains(m),
    decreases s.len(),
{
    let out = insert_sorted(m, s);
    if s.len() == 0 {
        assert(out[0] == m);
    } else if key_le(m, s[0]) {
        assert(out[0] == m);
        assert(forall|k: int| 0 <= k < s.len() ==> out[k + 1] == s[k]);
        assert forall|x: MsgModel| s.contains(x) implies #[trigger] out.contains(x) by {
            let k = choose|k: int| 0 <= k < s.len() && s[k] == x;
            assert(out[k + 1] == x);
        };
    } else {
        lemma_insert_sorted_elems(m, s.drop_first());
        let rest = insert_sorted(m, s.drop_first());
        assert(out[0] == s[0]);
        assert(forall|k: int| 0 <= k < rest.len() ==> out[k + 1] == rest[k]);
        assert forall|k: int|
            0 <= k < out.len() implies #[trigger] out[k] == m || s.contains(out[k]) by {
            if k == 0 {
                assert(s[0] == s[0]);
                assert(s.contains(s[0]));
            } else {
                assert(out[k] == rest[k - 1]);
                if rest[k - 1] != m {
                    assert(s.drop_first().contains(rest[k - 1]));
                    let t = choose|t: int|
                        0 <= t < s.drop_first().len() && s.drop_first()[t] == rest[k - 1];
                    assert(s[t + 1] == rest[k - 1]);
                }
            }
        };
        assert forall|x: MsgModel| s.contains(x) implies #[trigger] out.contains(x) by {
            let k = choose|k: int| 0 <= k < s.len() && s[k] == x;
            if k == 0 {
                assert(out[0] == x);
            } else {
                assert(s.drop_first()[k - 1] == x);
                assert(s.drop_first().contains(x));
                assert(rest.contains(x));
                let t = choose|t: int| 0 <= t < rest.len() && rest[t] == x;
                assert(out[t + 1] == x);
            }
        };
        let t = choose|t: int| 0 <= t < rest.len() && rest[t] == m;
        assert(out[t + 1] == m);
    }
}

/// Insertion keeps chronological sortedness.
proof fn lemma_insert_sorted_sorted(m: MsgModel, s: Seq<MsgModel>)
    requires
        sorted_msgs(s),
    ensures
        sorted_msgs(insert_sorted(m, s)),
    decreases s.len(),
{
    let out = insert_sorted(m, s);
    if s.len() == 0 {
    } else if key_le(m, s[0]) {
        assert(out[0] == m);
        assert(forall|k: int| 0 <= k < s.len() ==> out[k + 1] == s[k]);
        assert forall|i: int, j: int| 0 <= i < j < out.len() implies #[trigger] key_le(
            out[i],
            out[j],
        ) by {
            if i == 0 {
                if j > 1 {
                    assert(key_le(s[0], s[j - 1]));
                }
            } else {
                assert(key_le(s[i - 1], s[j - 1]));
            }
        };
    } else {
        assert(sorted_msgs(s.drop_first())) by {
            assert(forall|i: int, j: int|
                0 <= i < j < s.drop_first().len() ==> key_le(s[i + 1], s[j + 1]) && s.drop_first()[i]
                    == s[i + 1] && s.drop_first()[j] == s[j + 1]);
        };
        lemma_insert_sorted_sorted(m, s.drop_first());
        lemma_insert_sorted_elems(m, s.drop_first());
        let rest = insert_sorted(m, s.drop_first());
        assert(out[0] == s[0]);
        assert(forall|k: int| 0 <= k < rest.len() ==> out[k + 1] == rest[k]);
        assert forall|i: int, j: int| 0 <= i < j < out.len() implies #[trigger] key_le(
            out[i],
            out[j],
        ) by {
            if i == 0 {
                let x = out[j];
                assert(x == rest[j - 1]);
                if x == m {
                    assert(key_le(s[0], m));
                } else {
                    assert(s.drop_first().contains(x));
                    let tt = choose|tt: int|
                        0 <= tt < s.drop_first().len() && s.drop_first()[tt] == x;
                    assert(s[tt + 1] == x);
                    assert(key_le(s[0], s[tt + 1]));
                }
            } else {
                assert(key_le(rest[i - 1], rest[j - 1]));
            }
        };
    }
}

/// Sorting keeps exactly the stored messages: same length, same
/// membership.
pub proof fn lemma_sort_elems(s: Seq<MsgModel>)
    ensures
        sort_msgs(s).len() == s.len(),
        forall|k: int|
            0 <= k < sort_msgs(s).len() ==> s.contains(#[trigger] sort_msgs(s)[k]),
        forall|x: MsgModel| s.contains(x) ==> #[trigger] sort_msgs(s).contains(x),
    decreases s.len(),
{
    if s.len() > 0 {
        lemma_sort_elems(s.drop_last());
        lemma_insert_sorted_elems(s.last(), sort_msgs(s.drop_last()));
        let prev = sort_msgs(s.drop_last());
        let out = sort_msgs(s);
        assert forall|k: int| 0 <= k < out.len() implies s.contains(#[trigger] out[k]) by {
            if out[k] == s.last() {
                assert(s[s.len() - 1] == s.last());
            } else {
                assert(prev.contains(out[k]));
                let t = choose|t: int| 0 <= t < prev.len() && prev[t] == out[k];
                assert(s.drop_last().contains(out[k]));
                let w = choose|w: int| 0 <= w < s.drop_last().len() && s.drop_last()[w] == out[k];
                assert(s[w] == out[k]);
            }
        };
        assert forall|x: MsgModel| s.contains(x) implies #[trigger] out.contains(x) by {
            let k = choose|k: int| 0 <= k < s.len() && s[k] == x;
            if k == s.len() - 1 {
                assert(out.contains(s.last()));
            } else {
                assert(s.drop_last()[k] == x);
                assert(s.drop_last().contains(x));
                assert(prev.contains(x));
            }
        };
    }
}

/// The sorted listing is chronologically sorted.
pub proof fn lemma_sort_sorted(s: Seq<MsgModel>)
    ensures
        sorted_msgs(sort_msgs(s)),
    decreases s.len(),
{
    if s.len() > 0 {
        lemma_sort_sorted(s.drop_last());
        lemma_insert_sorted_sorted(s.last(), sort_msgs(s.drop_last()));
    }
}

/// Filtering a thread reads the same rows in either direction: the
/// membership test is symmetric in the two users.
proof fn lemma_filter_in_thread_symmetric(s: Seq<MsgModel>, a: i64, b: i64)
    ensures
        s.filter(|m: MsgModel| in_thread(m, a, b)) == s.filter(|m: MsgModel| in_thread(m, b, a)),
    decreases s.len(),
{
    reveal(Seq::filter);
    if s.len() > 0 {
        lemma_filter_in_thread_symmetric(s.drop_last(), a, b);
    }
}

/// The thread between two users is the same sequence whichever way round
/// the pair is asked for, and it is chronologically sorted with ids
/// breaking ties.
pub proof fn lemma_thread_between_symmetric(s: Seq<MsgModel>, a: i64, b: i64)
    ensures
        sort_msgs(s.filter(|m: MsgModel| in_thread(m, a, b))) == sort_msgs(
            s.filter(|m: MsgModel| in_thread(m, b, a)),
        ),
        sorted_msgs(sort_msgs(s.filter(|m: MsgModel| in_thread(m, a, b)))),
    decreases s.len(),
{
    lemma_filter_in_thread_symmetric(s, a, b);
    lemma_sort_sorted(s.filter(|m: MsgModel| in_thread(m, a, b)));
}

/// Whether some entry belongs to the same thread as this message.
pub open spec fn has_pair(s: Seq<MsgModel>, x: MsgModel) -> bool {
    exists|k: int| 0 <= k < s.len() && same_pair(#[trigger] s[k], x)
}

proof fn lemma_has_pair_cons(h: MsgModel, tail: Seq<MsgModel>, x: MsgModel)
    ensures
        has_pair(seq![h] + tail, x) <==> (same_pair(h, x) || has_pair(tail, x)),
{
    let s = seq![h] + tail;
    if same_pair(h, x) {
        assert(s[0] == h);
        assert(has_pair(s, x));
    }
    if has_pair(tail, x) {
        let k = choose|k: int| 0 <= k < tail.len() && same_pair(tail[k], x);
        assert(s[k + 1] == tail[k]);
        assert(has_pair(s, x));
    }
    if has_pair(s, x) {
        let k = choose|k: int| 0 <= k < s.len() && same_pair(s[k], x);
        if k == 0 {
            assert(same_pair(h, x));
        } else {
            assert(s[k] == tail[k - 1]);
            assert(has_pair(tail, x));
        }
    }
}

/// Folding a message into the representatives adds its thread and keeps
/// every thread already present, and nothing else.
proof fn lemma_upsert_pairs(reps: Seq<MsgModel>, m: MsgModel)
    ensures
        forall|x: MsgModel| #[trigger]
            has_pair(upsert_rep(reps, m), x) <==> (has_pair(reps, x) || same_pair(m, x)),
    decreases reps.len(),
{
    let out = upsert_rep(reps, m);
    if reps.len() == 0 {
        assert forall|x: MsgModel| #[trigger]
            has_pair(out, x) <==> (has_pair(reps, x) || same_pair(m, x)) by {
            if has_pair(out, x) {
                let k = choose|k: int| 0 <= k < out.len() && same_pair(out[k], x);
                assert(out[0] == m);
            }
            if same_pair(m, x) {
                assert(out[0] == m);
                assert(has_pair(out, x));
            }
            if has_pair(reps, x) {
                let k = choose|k: int| 0 <= k < reps.len() && same_pair(reps[k], x);
            }
        };
    } else if same_pair(reps[0], m) {
        let keep = if key_le(m, reps[0]) {
            reps[0]
        } else {
            m
        };
        assert forall|x: MsgModel| #[trigger]
            has_pair(out, x) <==> (has_pair(reps, x) || same_pair(m, x)) by {
            lemma_has_pair_cons(keep, reps.drop_first(), x);
            lemma_has_pair_cons(reps[0], reps.drop_first(), x);
            assert(seq![reps[0]] + reps.drop_first() =~= reps);
        };
    } else {
        lemma_upsert_pairs(reps.drop_first(), m);
        assert forall|x: MsgModel| #[trigger]
            has_pair(out, x) <==> (has_pair(reps, x) || same_pair(m, x)) by {
            lemma_has_pair_cons(reps[0], upsert_rep(reps.drop_first(), m), x);
            lemma_has_pair_cons(reps[0], reps.drop_first(), x);
            assert(seq![reps[0]] + reps.drop_first() =~= reps);
            assert(has_pair(upsert_rep(reps.drop_first(), m), x) <==> (has_pair(
                reps.drop_first(),
                x,
            ) || same_pair(m, x)));
        };
    }
}

/// Elements of the folded representatives are the message and old
/// entries, nothing else.
proof fn lemma_upsert_elems(reps: Seq<MsgModel>, m: MsgModel)
    ensures
        forall|k: int|
            0 <= k < upsert_rep(reps, m).len() ==> #[trigger] upsert_rep(reps, m)[k] == m
                || reps.contains(upsert_rep(reps, m)[k]),
    decreases reps.len(),
{
    let out = upsert_rep(reps, m);
    if reps.len() == 0 {
    } else if same_pair(reps[0], m) {
        assert forall|k: int|
            0 <= k < out.len() implies #[trigger] out[k] == m || reps.contains(out[k]) by {
            if k == 0 {
                if key_le(m, reps[0]) {
                    assert(reps[0] == reps[0]);
                    assert(reps.contains(reps[0]));
                }
            } else {
                assert(out[k] == reps.drop_first()[k - 1]);
                assert(reps[k] == out[k]);
                assert(reps.contains(out[k]));
            }
        };
    } else {
        lemma_upsert_elems(reps.drop_first(), m);
        let rest = upsert_rep(reps.drop_first(), m);
        assert forall|k: int|
            0 <= k < out.len() implies #[trigger] out[k] == m || reps.contains(out[k]) by {
            if k == 0 {
                assert(reps.contains(reps[0]));
            } else {
                assert(out[k] == rest[k - 1]);
                if rest[k - 1] != m {
                    assert(reps.drop_first().contains(rest[k - 1]));
                    let t = choose|t: int|
                        0 <= t < reps.drop_first().len() && reps.drop_first()[t] == rest[k - 1];
                    assert(reps[t + 1] == rest[k - 1]);
                }
            }
        };
    }
}

/// Folding keeps the representatives one-per-thread.
proof fn lemma_upsert_distinct(reps: Seq<MsgModel>, m: MsgModel)
    requires
        distinct_pairs(reps),
    ensures
        distinct_pairs(upsert_rep(reps, m)),
    decreases reps.len(),
{
    let out = upsert_rep(reps, m);
    if reps.len() == 0 {
    } else if same_pair(reps[0], m) {
        let keep = if key_le(m, reps[0]) {
            reps[0]
        } else {
            m
        };
        assert forall|k1: int, k2: int| 0 <= k1 < k2 < out.len() implies !(#[trigger] same_pair(
            out[k1],
            out[k2],
        )) by {
            if k1 == 0 {
                assert(out[k2] == reps[k2]);
                assert(!same_pair(reps[0], reps[k2]));
            } else {
                assert(out[k1] == reps[k1] && out[k2] == reps[k2]);
                assert(!same_pair(reps[k1], reps[k2]));
            }
        };
    } else {
        assert(distinct_pairs(reps.drop_first())) by {
            assert(forall|i: int, j: int|
                0 <= i < j < reps.drop_first().len() ==> reps.drop_first()[i] == reps[i + 1]
                    && reps.drop_first()[j] == reps[j + 1] && !same_pair(reps[i + 1], reps[j + 1]));
        };
        lemma_upsert_distinct(reps.drop_first(), m);
        lemma_upsert_elems(reps.drop_first(), m);
        let rest = upsert_rep(reps.drop_first(), m);
        assert forall|k1: int, k2: int| 0 <= k1 < k2 < out.len() implies !(#[trigger] same_pair(
            out[k1],
            out[k2],
        )) by {
            if k1 == 0 {
                let x = out[k2];
                assert(x == rest[k2 - 1]);
                if x == m {
                    assert(!same_pair(reps[0], m));
                } else {
                    assert(reps.drop_first().contains(x));
                    let t = choose|t: int|
                        0 <= t < reps.drop_first().len() && reps.drop_first()[t] == x;
                    assert(reps[t + 1] == x);
                    assert(!same_pair(reps[0], reps[t + 1]));
                }
            } else {
                assert(!same_pair(rest[k1 - 1], rest[k2 - 1]));
            }
        };
    }
}

/// The dialog representatives list each thread at most once.
pub proof fn lemma_reps_distinct(msgs: Seq<MsgModel>, u: i64)
    ensures
        distinct_pairs(reps_of(msgs, u)),
    decreases msgs.len(),
{
    if msgs.len() > 0 {
        lemma_reps_distinct(msgs.drop_last(), u);
        if involves(msgs.last(), u) {
            lemma_upsert_distinct(reps_of(msgs.drop_last(), u), msgs.last());
        }
    }
}

/// The dialog representatives cover a thread exactly when the user has
/// exchanged some message in it.
pub proof fn lemma_reps_pairs(msgs: Seq<MsgModel>, u: i64)
    ensures
        forall|x: MsgModel| #[trigger]
            has_pair(reps_of(msgs, u), x) <==> exists|i: int|
                0 <= i < msgs.len() && involves(#[trigger] msgs[i], u) && same_pair(msgs[i], x),
    decreases msgs.len(),
{
    if msgs.len() == 0 {
    } else {
        lemma_reps_pairs(msgs.drop_last(), u);
        let prev = reps_of(msgs.drop_last(), u);
        if involves(msgs.last(), u) {
            lemma_upsert_pairs(prev, msgs.last());
        }
        assert forall|x: MsgModel| #[trigger]
            has_pair(reps_of(msgs, u), x) <==> exists|i: int|
                0 <= i < msgs.len() && involves(#[trigger] msgs[i], u) && same_pair(
                    msgs[i],
                    x,
                ) by {
            if has_pair(reps_of(msgs, u), x) {
                if involves(msgs.last(), u) && same_pair(msgs.last(), x) {
                    assert(msgs[msgs.len() - 1] == msgs.last());
                } else {
                    let i = choose|i: int|
                        0 <= i < msgs.drop_last().len() && involves(
                            #[trigger] msgs.drop_last()[i],
                            u,
                        ) && same_pair(msgs.drop_last()[i], x);
                    assert(msgs[i] == msgs.drop_last()[i]);
                }
            }
            if exists|i: int|
                0 <= i < msgs.len() && involves(#[trigger] msgs[i], u) && same_pair(msgs[i], x) {
                let i = choose|i: int|
                    0 <= i < msgs.len() && involves(#[trigger] msgs[i], u) && same_pair(
                        msgs[i],
                        x,
                    );
                if i < msgs.len() - 1 {
                    assert(msgs.drop_last()[i] == msgs[i]);
                    assert(has_pair(prev, x));
                }
            }
        };
    }
}

/// Sorting neither adds nor drops threads: a permutation of the entries
/// covers the same pairs.
proof fn lemma_has_pair_same_elems(s1: Seq<MsgModel>, s2: Seq<MsgModel>, x: MsgModel)
    requires
        forall|k: int| 0 <= k < s2.len() ==> s1.contains(#[trigger] s2[k]),
        forall|y: MsgModel| s1.contains(y) ==> #[trigger] s2.contains(y),
    ensures
        has_pair(s1, x) ==> has_pair(s2, x),
        has_pair(s2, x) ==> has_pair(s1, x),
{
    if has_pair(s1, x) {
        let k = choose|k: int| 0 <= k < s1.len() && same_pair(s1[k], x);
        assert(s1.contains(s1[k]));
        assert(s2.contains(s1[k]));
        let t = choose|t: int| 0 <= t < s2.len() && s2[t] == s1[k];
        assert(has_pair(s2, x));
    }
    if has_pair(s2, x) {
        let k = choose|k: int| 0 <= k < s2.len() && same_pair(s2[k], x);
        assert(s1.contains(s2[k]));
        let t = choose|t: int| 0 <= t < s1.len() && s1[t] == s2[k];
        assert(has_pair(s1, x));
    }
}

/// Sorting keeps the one-per-thread property.
pub proof fn lemma_sort_distinct(s: Seq<MsgModel>)
    requires
        distinct_pairs(s),
    ensures
        distinct_pairs(sort_msgs(s)),
    decreases s.len(),
{
    if s.len() > 0 {
        assert(distinct_pairs(s.drop_last())) by {
            assert(forall|i: int, j: int|
                0 <= i < j < s.drop_last().len() ==> s.drop_last()[i] == s[i] && s.drop_last()[j]
                    == s[j] && !same_pair(s[i], s[j]));
        };
        lemma_sort_distinct(s.drop_last());
        lemma_sort_elems(s.drop_last());
        let prev = sort_msgs(s.drop_last());
        assert forall|k: int| 0 <= k < prev.len() implies !same_pair(
            #[trigger] prev[k],
            s.last(),
        ) by {
            assert(s.drop_last().contains(prev[k]));
            let t = choose|t: int| 0 <= t < s.drop_last().len() && s.drop_last()[t] == prev[k];
            assert(s[t] == prev[k]);
            assert(s[s.len() - 1] == s.last());
            assert(!same_pair(s[t], s[s.len() - 1]));
        };
        lemma_insert_sorted_distinct(s.last(), prev);
    }
}

/// Insertion keeps the one-per-thread property when the inserted message
/// opens no duplicate thread.
proof fn lemma_insert_sorted_distinct(m: MsgModel, s: Seq<MsgModel>)
    requires
        distinct_pairs(s),
        forall|k: int| 0 <= k < s.len() ==> !same_pair(#[trigger] s[k], m),
    ensures
        distinct_pairs(insert_sorted(m, s)),
    decreases s.len(),
{
    let out = insert_sorted(m, s);
    if s.len() == 0 {
    } else if key_le(m, s[0]) {
        assert forall|k1: int, k2: int| 0 <= k1 < k2 < out.len() implies !(#[trigger] same_pair(
            out[k1],
            out[k2],
        )) by {
            if k1 == 0 {
                assert(out[k2] == s[k2 - 1]);
                assert(!same_pair(s[k2 - 1], m));
            } else {
                assert(out[k1] == s[k1 - 1] && out[k2] == s[k2 - 1]);
                assert(!same_pair(s[k1 - 1], s[k2 - 1]));
            }
        };
    } else {
        assert(distinct_pairs(s.drop_first())) by {
            assert(forall|i: int, j: int|
                0 <= i < j < s.drop_first().len() ==> s.drop_first()[i] == s[i + 1]
                    && s.drop_first()[j] == s[j + 1] && !same_pair(s[i + 1], s[j + 1]));
        };
        assert(forall|k: int|
            0 <= k < s.drop_first().len() ==> s.drop_first()[k] == s[k + 1] && !same_pair(
                #[trigger] s.drop_first()[k],
                m,
            ));
        lemma_insert_sorted_distinct(m, s.drop_first());
        lemma_insert_sorted_elems(m, s.drop_first());
        let rest = insert_sorted(m, s.drop_first());
        assert forall|k1: int, k2: int| 0 <= k1 < k2 < out.len() implies !(#[trigger] same_pair(
            out[k1],
            out[k2],
        )) by {
            if k1 == 0 {
                let x = out[k2];
                assert(x == rest[k2 - 1]);
                if x == m {
                    assert(!same_pair(s[0], m));
                } else {
                    assert(s.drop_first().contains(x));
                    let t = choose|t: int|
                        0 <= t < s.drop_first().len() && s.drop_first()[t] == x;
                    assert(s[t + 1] == x);
                    assert(!same_pair(s[0], s[t + 1]));
                }
            } else {
                assert(!same_pair(rest[k1 - 1], rest[k2 - 1]));
            }
        };
    }
}

/// Thread grouping is direction-independent and never splits: the dialog
/// listing carries exactly one entry for each thread the user has
/// exchanged messages in, however the directions of those messages run.
pub proof fn lemma_threads_for_user_groups(msgs: Seq<MsgModel>, u: i64)
    ensures
        distinct_pairs(sort_msgs(reps_of(msgs, u))),
        forall|x: MsgModel| #[trigger]
            has_pair(sort_msgs(reps_of(msgs, u)), x) <==> exists|i: int|
                0 <= i < msgs.len() && involves(#[trigger] msgs[i], u) && same_pair(msgs[i], x),
{
    lemma_reps_distinct(msgs, u);
    lemma_sort_distinct(reps_of(msgs, u));
    lemma_reps_pairs(msgs, u);
    lemma_sort_elems(reps_of(msgs, u));
    assert forall|x: MsgModel| #[trigger]
        has_pair(sort_msgs(reps_of(msgs, u)), x) <==> exists|i: int|
            0 <= i < msgs.len() && involves(#[trigger] msgs[i], u) && same_pair(msgs[i], x) by {
        lemma_has_pair_same_elems(reps_of(msgs, u), sort_msgs(reps_of(msgs, u)), x);
    };
}

/// A message yields a dialog entry of its thread in its sender's listing
/// exactly when it yields one in its receiver's listing: grouping does
/// not depend on the direction the messages were sent in.
pub proof fn lemma_threads_order_independent(msgs: Seq<MsgModel>, x: MsgModel)
    ensures
        has_pair(sort_msgs(reps_of(msgs, x.sender_id)), x) <==> has_pair(
            sort_msgs(reps_of(msgs, x.receiver_id)),
            x,
        ),
{
    lemma_threads_for_user_groups(msgs, x.sender_id);
    lemma_threads_for_user_groups(msgs, x.receiver_id);
    assert forall|i: int|
        0 <= i < msgs.len() && same_pair(#[trigger] msgs[i], x) implies involves(
        msgs[i],
        x.sender_id,
    ) && involves(msgs[i], x.receiver_id) by {};
}


/// Prepares the message storage: a fresh, empty message table.
pub fn create_table_messages() -> (r: MessageStore)
    ensures
        r.wf(),
        r.contents().len() == 0,
        r.next_id == 1,
{
    MessageStore::new()
}


/// The latest message of the thread between two users, by the
/// chronological order with ids breaking ties; nothing when the thread is
/// empty.
pub open spec fn latest_in_thread(msgs: Seq<MsgModel>, a: i64, b: i64) -> Option<MsgModel>
    decreases msgs.len(),
{
    if msgs.len() == 0 {
        None
    } else {
        let prev = latest_in_thread(msgs.drop_last(), a, b);
        if in_thread(msgs.last(), a, b) {
            match prev {
                None => Some(msgs.last()),
                Some(p) => Some(
                    if key_le(msgs.last(), p) {
                        p
                    } else {
                        msgs.last()
                    },
                ),
            }
        } else {
            prev
        }
    }
}

/// The latest message of a thread does not depend on which way round the
/// pair is asked for.
pub proof fn lemma_latest_symmetric(msgs: Seq<MsgModel>, a: i64, b: i64)
    ensures
        latest_in_thread(msgs, a, b) == latest_in_thread(msgs, b, a),
    decreases msgs.len(),
{
    if msgs.len() > 0 {
        lemma_latest_symmetric(msgs.drop_last(), a, b);
    }
}

/// A thread has a latest message only when some message runs in it.
proof fn lemma_latest_some_exists(msgs: Seq<MsgModel>, a: i64, b: i64)
    requires
        latest_in_thread(msgs, a, b) is Some,
    ensures
        exists|i: int| 0 <= i < msgs.len() && in_thread(#[trigger] msgs[i], a, b),
    decreases msgs.len(),
{
    if in_thread(msgs.last(), a, b) {
        assert(msgs[msgs.len() - 1] == msgs.last());
    } else {
        lemma_latest_some_exists(msgs.drop_last(), a, b);
        let i = choose|i: int|
            0 <= i < msgs.drop_last().len() && in_thread(#[trigger] msgs.drop_last()[i], a, b);
        assert(msgs[i] == msgs.drop_last()[i]);
    }
}

/// Every dialog representative is a message of its user.
proof fn lemma_reps_involve(msgs: Seq<MsgModel>, u: i64)
    ensures
        forall|k: int|
            0 <= k < reps_of(msgs, u).len() ==> involves(#[trigger] reps_of(msgs, u)[k], u),
    decreases msgs.len(),
{
    if msgs.len() > 0 {
        lemma_reps_involve(msgs.drop_last(), u);
        let prev = reps_of(msgs.drop_last(), u);
        let out = reps_of(msgs, u);
        if involves(msgs.last(), u) {
            lemma_upsert_elems(prev, msgs.last());
            assert forall|k: int| 0 <= k < out.len() implies involves(
                #[trigger] out[k],
                u,
            ) by {
                if out[k] != msgs.last() {
                    assert(prev.contains(out[k]));
                    let tt = choose|tt: int| 0 <= tt < prev.len() && prev[tt] == out[k];
                    assert(involves(reps_of(msgs.drop_last(), u)[tt], u));
                }
            };
        } else {
            assert forall|k: int| 0 <= k < out.len() implies involves(
                #[trigger] out[k],
                u,
            ) by {
                assert(out[k] == reps_of(msgs.drop_last(), u)[k]);
            };
        }
    }
}

/// Each dialog representative is exactly the latest message of its
/// thread.
pub proof fn lemma_reps_entries_latest(msgs: Seq<MsgModel>, u: i64)
    ensures
        forall|k: int|
            0 <= k < reps_of(msgs, u).len() ==> Some(#[trigger] reps_of(msgs, u)[k])
                == latest_in_thread(msgs, u, counterpart(reps_of(msgs, u)[k], u)),
    decreases msgs.len(),
{
    if msgs.len() == 0 {
    } else {
        lemma_reps_entries_latest(msgs.drop_last(), u);
        lemma_reps_distinct(msgs.drop_last(), u);
        lemma_reps_involve(msgs.drop_last(), u);
        lemma_reps_pairs(msgs.drop_last(), u);
        let prev = reps_of(msgs.drop_last(), u);
        let last = msgs.last();
        let out = reps_of(msgs, u);
        if involves(last, u) {
            let c = counterpart(last, u);
            assert(in_thread(last, u, c));
            if has_pair(prev, last) {
                let j = choose|j: int| 0 <= j < prev.len() && same_pair(prev[j], last);
                assert forall|k: int| 0 <= k < j implies !same_pair(
                    #[trigger] prev[k],
                    last,
                ) by {
                    if same_pair(prev[k], last) {
                        assert(same_pair(prev[k], prev[j]));
                    }
                };
                lemma_upsert_at(prev, last, j);
                let keep = if key_le(last, prev[j]) {
                    prev[j]
                } else {
                    last
                };
                assert(counterpart(prev[j], u) == c);
                assert(latest_in_thread(msgs.drop_last(), u, c) == Some(prev[j]));
                assert(latest_in_thread(msgs, u, c) == Some(keep));
                assert forall|k: int| 0 <= k < out.len() implies Some(#[trigger] out[k])
                    == latest_in_thread(msgs, u, counterpart(out[k], u)) by {
                    if k == j {
                        assert(out[k] == keep);
                        assert(counterpart(keep, u) == c);
                    } else {
                        assert(out[k] == prev[k]);
                        let ck = counterpart(prev[k], u);
                        assert(!in_thread(last, u, ck)) by {
                            if in_thread(last, u, ck) {
                                assert(same_pair(prev[k], last));
                                assert(same_pair(prev[k], prev[j]));
                            }
                        };
                        assert(latest_in_thread(msgs, u, ck) == latest_in_thread(
                            msgs.drop_last(),
                            u,
                            ck,
                        ));
                    }
                };
            } else {
                lemma_upsert_absent(prev, last);
                assert(latest_in_thread(msgs.drop_last(), u, c) is None) by {
                    if latest_in_thread(msgs.drop_last(), u, c) is Some {
                        lemma_latest_some_exists(msgs.drop_last(), u, c);
                        let i = choose|i: int|
                            0 <= i < msgs.drop_last().len() && in_thread(
                                #[trigger] msgs.drop_last()[i],
                                u,
                                c,
                            );
                        assert(involves(msgs.drop_last()[i], u));
                        assert(same_pair(msgs.drop_last()[i], last));
                        assert(has_pair(prev, last));
                    }
                };
                assert(latest_in_thread(msgs, u, c) == Some(last));
                assert forall|k: int| 0 <= k < out.len() implies Some(#[trigger] out[k])
                    == latest_in_thread(msgs, u, counterpart(out[k], u)) by {
                    if k == out.len() - 1 {
                        assert(out[k] == last);
                    } else {
                        assert(out[k] == prev[k]);
                        let ck = counterpart(prev[k], u);
                        assert(!in_thread(last, u, ck)) by {
                            if in_thread(last, u, ck) {
                                assert(same_pair(prev[k], last));
                                assert(has_pair(prev, last));
                            }
                        };
                        assert(latest_in_thread(msgs, u, ck) == latest_in_thread(
                            msgs.drop_last(),
                            u,
                            ck,
                        ));
                    }
                };
            }
        } else {
            assert(out == prev);
            assert forall|k: int| 0 <= k < out.len() implies Some(#[trigger] out[k])
                == latest_in_thread(msgs, u, counterpart(out[k], u)) by {
                let ck = counterpart(out[k], u);
                assert(!in_thread(last, u, ck));
                assert(latest_in_thread(msgs, u, ck) == latest_in_thread(
                    msgs.drop_last(),
                    u,
                    ck,
                ));
            };
        }
    }
}

/// Both sides of a conversation see the same representative: the entry
/// for the thread between two users is the same message, ids included,
/// in either user's dialog listing.
pub proof fn lemma_thread_representative_shared(msgs: Seq<MsgModel>, a: i64, b: i64)
    ensures
        forall|k: int|
            0 <= k < reps_of(msgs, a).len() && counterpart(#[trigger] reps_of(msgs, a)[k], a)
                == b ==> Some(reps_of(msgs, a)[k]) == latest_in_thread(msgs, a, b),
        forall|k: int|
            0 <= k < reps_of(msgs, b).len() && counterpart(#[trigger] reps_of(msgs, b)[k], b)
                == a ==> Some(reps_of(msgs, b)[k]) == latest_in_thread(msgs, a, b),
{
    lemma_reps_entries_latest(msgs, a);
    lemma_reps_entries_latest(msgs, b);
    lemma_latest_symmetric(msgs, a, b);
}

} // verus!
