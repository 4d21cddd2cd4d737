//! The client side of replication: turns inserts, updates and deletes into
//! timestamped messages, applies them locally, and decides each round of
//! the sync exchange from the server's answer.

use vstd::prelude::*;

use crate::clock::MerkleClock;
use crate::error::Error;
use crate::merkle::{diff_spec, holds, MerkleTrie};
use crate::models::{parsed, views, Message, MessageView, RowParam, ValueType};
use crate::storage::{batch_applied, newly_applied, sorted_by_timestamp, MemStorage, MessageHandler};
use crate::text::{lex_lt, str_lt};
use crate::timestamp::{parse_spec, recv_next, rfc3339_of, send_next, since_spec, ts_string, Timestamp, TimestampView};

verus! {

/// Relies on uuid's `Uuid::new_v4` and its hyphenated form: 36 characters.
#[verifier::external_body]
fn new_row_id() -> (r: String)
    ensures
        r@.len() == 36,
{
    uuid::Uuid::new_v4().to_string()
}

/// What a sync round decided: stop, or run another round from the given
/// millis.
#[derive(Debug, Clone, Copy, PartialEq, Eq, Structural)]
pub enum SyncStep {
    Done,
    Again(i64),
}

/// A node id: sixteen characters, none of them `-`.
pub open spec fn valid_node(id: Seq<char>) -> bool {
    id.len() == 16 && !id.contains('-')
}

/// The decision after a round: stop when the tries agree or diverge at or
/// before time zero; otherwise go again from the divergence, unless that is
/// where this round started.
pub open spec fn round_outcome(since: Option<i64>, diff: Option<i64>) -> Result<SyncStep, Error> {
    match diff {
        Some(d) => if d > 0 {
            if since == Some(d) {
                Err(Error::SyncStuck)
            } else {
                Ok(SyncStep::Again(d))
            }
        } else {
            Ok(SyncStep::Done)
        },
        None => Ok(SyncStep::Done),
    }
}

/// Decides a sync round from where it started and where the tries diverge.
pub fn decide_round(since: Option<i64>, diff: Option<i64>) -> (r: Result<SyncStep, Error>)
    ensures
        r == round_outcome(since, diff),
{
    match diff {
        Some(d) => if d > 0 {
            match since {
                Some(s) => if s == d {
                    return Err(Error::SyncStuck);
                },
                None => {},
            }
            Ok(SyncStep::Again(d))
        } else {
            Ok(SyncStep::Done)
        },
        None => Ok(SyncStep::Done),
    }
}

/// The row a field is written to: its own id, or the new row's.
pub open spec fn row_of(p: RowParam, row_id: Seq<char>) -> Seq<char> {
    match p.id {
        Some(x) => x@,
        None => row_id,
    }
}

/// `m` writes field `p` of `row` in `table`.
pub open spec fn writes(m: MessageView, p: RowParam, table: Seq<char>, row: Seq<char>) -> bool {
    &&& m.dataset == table
    &&& m.row == row
    &&& m.column == p.column@
    &&& m.value_type == p.value_type
    &&& m.value == p.value@
}

/// The fields that become messages: all of them, or only those naming a row.
pub open spec fn chosen(ps: Seq<RowParam>, all: bool) -> Seq<RowParam>
    decreases ps.len(),
{
    if ps.len() == 0 {
        seq![]
    } else {
        let r = chosen(ps.drop_last(), all);
        if all || ps.last().id is Some {
            r.push(ps.last())
        } else {
            r
        }
    }
}

/// Some successful send takes the clock from `a` to `b`.
pub open spec fn sends_to(a: TimestampView, b: TimestampView) -> bool {
    exists|phys: i64| #[trigger] send_next(a, phys) == Ok::<TimestampView, Error>(b)
}

/// `h` is a run of successful sends, one after another.
pub open spec fn send_run(h: Seq<TimestampView>) -> bool {
    forall|k: int| 0 <= k < h.len() - 1 ==> #[trigger] sends_to(h[k], h[k + 1])
}

/// The clock went from `before` to `after` through sends, one per message of
/// `ms`, each message stamped with the time its send produced.
pub open spec fn stamped_by_sends(ms: Seq<MessageView>, before: TimestampView, after: TimestampView) -> bool {
    exists|h: Seq<TimestampView>| {
        &&& h.len() == ms.len() + 1
        &&& h[0] == before
        &&& h[h.len() - 1] == after
        &&& send_run(h)
        &&& forall|k: int| 0 <= k < ms.len() ==> #[trigger] ms[k].timestamp == ts_string(h[k + 1])
    }
}

/// Some successful receive of `o` takes the clock from `a` to `b`.
pub open spec fn receives_to(a: TimestampView, o: TimestampView, b: TimestampView) -> bool {
    exists|phys: i64| #[trigger] recv_next(a, o, phys) == Ok::<TimestampView, Error>(b)
}

/// The clock went from `before` to `after` through receives of the
/// timestamps of `ms` that parse, in order.
pub open spec fn received_all(ms: Seq<MessageView>, before: TimestampView, after: TimestampView) -> bool {
    exists|h: Seq<TimestampView>| {
        &&& h.len() == parsed(ms).len() + 1
        &&& h[0] == before
        &&& h[h.len() - 1] == after
        &&& forall|k: int| 0 <= k < parsed(ms).len() ==> #[trigger] receives_to(h[k], parsed(ms)[k], h[k + 1])
    }
}

/// The store went from `before` to `after` by taking in the batch `ms`:
/// its history grew by the batch's newly applied messages, in timestamp
/// order.
pub open spec fn took_in<Item: MessageHandler, const B: usize>(
    before: MemStorage<Item, B>,
    after: MemStorage<Item, B>,
    ms: Seq<MessageView>,
) -> bool {
    exists|s: Seq<MessageView>| #[trigger] s.to_multiset() == ms.to_multiset() && sorted_by_timestamp(s)
        && after.history() == before.history() + newly_applied(s, before.table(), before.applied())
}

/// The messages of `ms` whose timestamp is not before `floor`.
pub open spec fn kept_since(ms: Seq<MessageView>, floor: Seq<char>) -> Seq<MessageView>
    decreases ms.len(),
{
    if ms.len() == 0 {
        seq![]
    } else {
        let r = kept_since(ms.drop_last(), floor);
        if lex_lt(ms.last().timestamp, floor) {
            r
        } else {
            r.push(ms.last())
        }
    }
}

pub struct Syncer<Item: MessageHandler, const MERKLE_BASE: usize> {
    node_name: String,
    merkle_clock: MerkleClock<MERKLE_BASE>,
    sync_enabled: bool,
    storage: MemStorage<Item, MERKLE_BASE>,
}

impl<Item: MessageHandler, const MERKLE_BASE: usize> Syncer<Item, MERKLE_BASE> {
    pub closed spec fn node(&self) -> Seq<char> {
        self.node_name@
    }

    pub closed spec fn clock_state(&self) -> MerkleClock<MERKLE_BASE> {
        self.merkle_clock
    }

    pub closed spec fn enabled(&self) -> bool {
        self.sync_enabled
    }

    pub closed spec fn store(&self) -> MemStorage<Item, MERKLE_BASE> {
        self.storage
    }

    /// The store is consistent and owns `Item`'s dataset, and the clock's
    /// trie holds exactly the timestamps of the writes the store applied.
    pub open spec fn wf(&self) -> bool {
        &&& self.store().wf()
        &&& self.store().table() == Item::table()
        &&& holds(self.clock_state().trie(), parsed(self.store().history()))
    }

    /// A syncer for node `node_name`: time zero, an empty trie and store,
    /// syncing on. The node id must be sixteen characters, none of them `-`,
    /// so that it ends every timestamp string of this node.
    pub fn new(node_name: String) -> (r: Result<Self, Error>)
        ensures
            valid_node(node_name@) ==> r is Ok,
            !valid_node(node_name@) ==> r == Err::<Self, Error>(Error::InvalidNode),
            r matches Ok(s) ==> {
                &&& s.wf()
                &&& s.node() == node_name@
                &&& s.clock_state().timer_view() == (TimestampView { millis: 0, counter: 0, node: node_name@ })
                &&& s.clock_state().trie().len() == 0
                &&& s.enabled()
                &&& s.store().applied() == Set::<Seq<char>>::empty()
            },
    {
        let cs = crate::text::chars_of(node_name.as_str());
        if cs.len() != 16 {
            return Err(Error::InvalidNode);
        }
        let mut i: usize = 0;
        while i < cs.len()
            invariant
                i <= cs@.len(),
                cs@ == node_name@,
                forall|j: int| 0 <= j < i ==> cs@[j] != '-',
            decreases cs.len() - i,
        {
            if cs[i] == '-' {
                assert(node_name@.contains('-')) by {
                    assert(node_name@[i as int] == '-');
                }
                return Err(Error::InvalidNode);
            }
            i = i + 1;
        }
        let t = Timestamp::new(0, 0, node_name.clone());
        let c = MerkleClock::new(t, MerkleTrie::new());
        let r = Syncer { node_name, merkle_clock: c, sync_enabled: true, storage: MemStorage::new() };
        assert(parsed(r.store().history()) =~= Seq::<TimestampView>::empty());
        Ok(r)
    }

    pub fn node_name(&self) -> (r: &str)
        ensures
            r@ == self.node(),
    {
        self.node_name.as_str()
    }

    pub fn storage(&self) -> (r: &MemStorage<Item, MERKLE_BASE>)
        ensures
            *r == self.store(),
    {
        &self.storage
    }

    pub fn clock(&self) -> (r: &MerkleClock<MERKLE_BASE>)
        ensures
            *r == self.clock_state(),
    {
        &self.merkle_clock
    }

    /// Turns syncing on or off.
    pub fn set_sync_enabled(&mut self, on: bool)
        ensures
            final(self).enabled() == on,
            final(self).store() == old(self).store(),
            final(self).clock_state() == old(self).clock_state(),
            final(self).node() == old(self).node(),
    {
        self.sync_enabled = on;
    }

    /// One message per chosen field, each stamped by its own send.
    fn make_messages(&mut self, table: &str, params: &Vec<RowParam>, row_id: &String, all: bool) -> (r: Result<Vec<Message>, Error>)
        ensures
            final(self).store() == old(self).store(),
            final(self).node() == old(self).node(),
            final(self).enabled() == old(self).enabled(),
            final(self).clock_state().trie() == old(self).clock_state().trie(),
            chosen(params@, all).len() == 0 ==> r is Ok,
            r matches Ok(ms) ==> {
                &&& ms@.len() == chosen(params@, all).len()
                &&& forall|k: int| 0 <= k < ms@.len() ==> #[trigger] writes(ms@[k]@, chosen(params@, all)[k], table@, row_of(chosen(params@, all)[k], row_id@))
                &&& stamped_by_sends(views(ms@), old(self).clock_state().timer_view(), final(self).clock_state().timer_view())
            },
    {
        let mut ms: Vec<Message> = Vec::new();
        let ghost mut h: Seq<TimestampView> = seq![self.merkle_clock.timer_view()];
        proof {
            lemma_chosen_none(params@, all);
        }
        let mut i: usize = 0;
        while i < params.len()
            invariant
                i <= params@.len(),
                self.store() == old(self).store(),
                self.node() == old(self).node(),
                self.enabled() == old(self).enabled(),
                self.clock_state().trie() == old(self).clock_state().trie(),
                ms@.len() == chosen(params@.subrange(0, i as int), all).len(),
                forall|k: int| 0 <= k < ms@.len() ==> #[trigger] writes(ms@[k]@, chosen(params@.subrange(0, i as int), all)[k], table@, row_of(chosen(params@.subrange(0, i as int), all)[k], row_id@)),
                h.len() == ms@.len() + 1,
                h[0] == old(self).clock_state().timer_view(),
                h[h.len() - 1] == self.clock_state().timer_view(),
                send_run(h),
                forall|k: int| 0 <= k < ms@.len() ==> #[trigger] ms@[k]@.timestamp == ts_string(h[k + 1]),
                chosen(params@, all).len() == 0 ==> forall|k: int| 0 <= k < params@.len() ==> !(all || (#[trigger] params@[k]).id is Some),
            decreases params.len() - i,
        {
            let ghost pre = params@.subrange(0, i as int);
            let ghost next = params@.subrange(0, i + 1);
            assert(next.drop_last() =~= pre);
            let p = &params[i];
            if all || p.id.is_some() {
                let ghost before = self.merkle_clock.timer_view();
                let timer = self.merkle_clock.timer_mut();
                let t = match timer.send() {
                    Ok(t) => t,
                    Err(e) => {
                        return Err(e);
                    },
                };
                let ghost after = self.merkle_clock.timer_view();
                let row = match &p.id {
                    Some(x) => x.clone(),
                    None => row_id.clone(),
                };
                let m = Message {
                    timestamp: t.to_string(),
                    dataset: table.to_owned(),
                    row,
                    column: p.column.clone(),
                    value_type: p.value_type,
                    value: p.value.clone(),
                };
                ms.push(m);
                proof {
                    let phys = choose|phys: i64| crate::timestamp::sent_at(before, after, Ok::<Timestamp, Error>(t), phys);
                    let h0 = h;
                    h = h.push(after);
                    assert(send_next(h[h0.len() - 1], phys) == Ok::<TimestampView, Error>(h[h0.len() as int]));
                    assert forall|k: int| 0 <= k < h.len() - 1 implies #[trigger] sends_to(h[k], h[k + 1]) by {
                        if k < h0.len() - 1 {
                            assert(h[k] == h0[k] && h[k + 1] == h0[k + 1]);
                            assert(sends_to(h0[k], h0[k + 1]));
                        } else {
                            assert(send_next(h[k], phys) == Ok::<TimestampView, Error>(h[k + 1]));
                        }
                    }
                }
            }
            i = i + 1;
        }
        assert(params@.subrange(0, params@.len() as int) =~= params@);
        proof {
            assert(views(ms@).len() == ms@.len());
            assert forall|k: int| 0 <= k < views(ms@).len() implies #[trigger] views(ms@)[k].timestamp == ts_string(h[k + 1]) by {
                assert(views(ms@)[k] == ms@[k]@);
            }
        }
        Ok(ms)
    }

    fn copy_messages(ms: &Vec<Message>) -> (r: Vec<Message>)
        ensures
            views(r@) == views(ms@),
    {
        let mut r: Vec<Message> = Vec::new();
        let mut i: usize = 0;
        while i < ms.len()
            invariant
                i <= ms@.len(),
                r@.len() == i,
                forall|k: int| 0 <= k < i ==> #[trigger] r@[k]@ == ms@[k]@,
            decreases ms.len() - i,
        {
            r.push(ms[i].copy());
            i = i + 1;
        }
        assert(views(r@) =~= views(ms@));
        r
    }

    /// Applies messages to the local store (which files them in the trie).
    pub fn send_messages(&mut self, messages: &mut Vec<Message>) -> (r: Result<(), Error>)
        requires
            old(self).wf(),
            MERKLE_BASE >= 2,
        ensures
            final(self).wf(),
            final(self).node() == old(self).node(),
            final(self).enabled() == old(self).enabled(),
            views(final(messages)@).to_multiset() == views(old(messages)@).to_multiset(),
            r is Ok ==> batch_applied(views(old(messages)@), Item::table(), final(self).store().applied()),
            final(self).clock_state().timer_view() == old(self).clock_state().timer_view(),
            r != Err::<(), Error>(Error::SyncStuck),
            batch_applied(views(old(messages)@), Item::table(), old(self).store().applied()) ==> r is Ok
                && final(self).store().unchanged_from(&old(self).store()) && final(self).clock_state() == old(self).clock_state(),
            r is Ok ==> took_in(old(self).store(), final(self).store(), views(old(messages)@)),
    {
        let r = self.storage.apply_messages(&mut self.merkle_clock, messages);
        proof {
            if r is Ok {
                let s = views(messages@);
                assert(s.to_multiset() == views(old(messages)@).to_multiset());
            }
        }
        r
    }

    /// Records a new row: one message per field, on the field's own row or a
    /// fresh row id, applied locally. Returns the row id and the messages to
    /// push to the server.
    pub fn insert(&mut self, table: &str, row_params: Vec<RowParam>) -> (r: Result<(String, Vec<Message>), Error>)
        requires
            old(self).wf(),
            MERKLE_BASE >= 2,
        ensures
            final(self).wf(),
            final(self).node() == old(self).node(),
            r matches Ok((id, ms)) ==> {
                &&& id@.len() == 36
                &&& ms@.len() == row_params@.len()
                &&& forall|k: int| 0 <= k < ms@.len() ==> #[trigger] writes(ms@[k]@, row_params@[k], table@, row_of(row_params@[k], id@))
                &&& stamped_by_sends(views(ms@), old(self).clock_state().timer_view(), final(self).clock_state().timer_view())
                &&& (table@ == Item::table() ==> batch_applied(views(ms@), Item::table(), final(self).store().applied()))
                &&& took_in(old(self).store(), final(self).store(), views(ms@))
            },
            row_params@.len() == 0 ==> r is Ok,
    {
        let id = new_row_id();
        let ms = match self.make_messages(table, &row_params, &id, true) {
            Ok(ms) => ms,
            Err(e) => return Err(e),
        };
        proof {
            lemma_chosen_all(row_params@);
        }
        let mut local = Self::copy_messages(&ms);
        match self.send_messages(&mut local) {
            Ok(()) => {},
            Err(e) => return Err(e),
        }
        Ok((id, ms))
    }

    /// Writes fields of existing rows: one message per field that names its
    /// row, applied locally. Returns the messages to push to the server.
    pub fn update(&mut self, table: &str, row_params: Vec<RowParam>) -> (r: Result<Vec<Message>, Error>)
        requires
            old(self).wf(),
            MERKLE_BASE >= 2,
        ensures
            final(self).wf(),
            final(self).node() == old(self).node(),
            r matches Ok(ms) ==> {
                &&& ms@.len() == chosen(row_params@, false).len()
                &&& forall|k: int| 0 <= k < ms@.len() ==> #[trigger] writes(ms@[k]@, chosen(row_params@, false)[k], table@, chosen(row_params@, false)[k].id->Some_0@)
                &&& stamped_by_sends(views(ms@), old(self).clock_state().timer_view(), final(self).clock_state().timer_view())
                &&& (table@ == Item::table() ==> batch_applied(views(ms@), Item::table(), final(self).store().applied()))
                &&& took_in(old(self).store(), final(self).store(), views(ms@))
            },
            chosen(row_params@, false).len() == 0 ==> r is Ok,
    {
        let none = String::new();
        let ms = match self.make_messages(table, &row_params, &none, false) {
            Ok(ms) => ms,
            Err(e) => return Err(e),
        };
        proof {
            lemma_chosen_named(row_params@);
            assert forall|k: int| 0 <= k < ms@.len() implies #[trigger] writes(ms@[k]@, chosen(row_params@, false)[k], table@, chosen(row_params@, false)[k].id->Some_0@) by {
                assert(writes(ms@[k]@, chosen(row_params@, false)[k], table@, row_of(chosen(row_params@, false)[k], none@)));
            }
        }
        let mut local = Self::copy_messages(&ms);
        match self.send_messages(&mut local) {
            Ok(()) => {},
            Err(e) => return Err(e),
        }
        Ok(ms)
    }

    /// Marks a row deleted: one message setting its tombstone to 1, applied
    /// locally. Returns the messages to push to the server.
    pub fn delete(&mut self, table: &str, id: &str) -> (r: Result<Vec<Message>, Error>)
        requires
            old(self).wf(),
            MERKLE_BASE >= 2,
        ensures
            final(self).wf(),
            final(self).node() == old(self).node(),
            r matches Ok(ms) ==> {
                &&& ms@.len() == 1
                &&& ms@[0]@.dataset == table@
                &&& ms@[0]@.row == id@
                &&& ms@[0]@.column == "tombstone"@
                &&& ms@[0]@.value_type == ValueType::Number
                &&& ms@[0]@.value == "1"@
                &&& stamped_by_sends(views(ms@), old(self).clock_state().timer_view(), final(self).clock_state().timer_view())
                &&& (table@ == Item::table() ==> batch_applied(views(ms@), Item::table(), final(self).store().applied()))
                &&& took_in(old(self).store(), final(self).store(), views(ms@))
            },
    {
        let params = vec![RowParam { id: Some(id.to_owned()), column: "tombstone".to_owned(), value_type: ValueType::Number, value: "1".to_owned() }];
        let none = String::new();
        let ms = match self.make_messages(table, &params, &none, true) {
            Ok(ms) => ms,
            Err(e) => return Err(e),
        };
        proof {
            lemma_chosen_all(params@);
            assert(writes(ms@[0]@, params@[0], table@, row_of(params@[0], none@)));
        }
        let mut local = Self::copy_messages(&ms);
        match self.send_messages(&mut local) {
            Ok(()) => {},
            Err(e) => return Err(e),
        }
        Ok(ms)
    }

    /// The messages to push in a sync round: none when syncing is off;
    /// otherwise those not before `since` (all when there is no `since`).
    pub fn sync_request(&self, initial_messages: Vec<Message>, since: Option<i64>) -> (r: Option<Vec<Message>>)
        ensures
            !self.enabled() ==> r is None,
            self.enabled() && since is None ==> r is Some && views(r->Some_0@) == views(initial_messages@),
            self.enabled() && since is Some ==> r is Some && views(r->Some_0@) == kept_since(views(initial_messages@), since_spec(rfc3339_of(since->Some_0))),
    {
        if !self.sync_enabled {
            return None;
        }
        match since {
            None => Some(initial_messages),
            Some(s) => {
                let floor = Timestamp::format_since(s);
                let mut out: Vec<Message> = Vec::new();
                let mut i: usize = 0;
                while i < initial_messages.len()
                    invariant
                        i <= initial_messages@.len(),
                        views(out@) == kept_since(views(initial_messages@.subrange(0, i as int)), floor@),
                    decreases initial_messages.len() - i,
                {
                    let ghost pre = views(initial_messages@.subrange(0, i as int));
                    let ghost next = views(initial_messages@.subrange(0, i + 1));
                    assert(next.drop_last() =~= pre);
                    assert(next.last() == initial_messages@[i as int]@);
                    if !str_lt(initial_messages[i].timestamp.as_str(), floor.as_str()) {
                        out.push(initial_messages[i].copy());
                        assert(views(out@) =~= kept_since(next, floor@));
                    }
                    i = i + 1;
                }
                assert(initial_messages@.subrange(0, initial_messages@.len() as int) =~= initial_messages@);
                Some(out)
            },
        }
    }

    /// Takes in messages from the server: advances the clock past every
    /// timestamp that parses, then applies the batch.
    pub fn receive_messages(&mut self, messages: Vec<Message>) -> (r: Result<(), Error>)
        requires
            old(self).wf(),
            MERKLE_BASE >= 2,
        ensures
            final(self).wf(),
            final(self).node() == old(self).node(),
            final(self).enabled() == old(self).enabled(),
            r is Ok ==> batch_applied(views(messages@), Item::table(), final(self).store().applied()),
            r is Ok ==> received_all(views(messages@), old(self).clock_state().timer_view(), final(self).clock_state().timer_view()),
            r != Err::<(), Error>(Error::SyncStuck),
            messages@.len() == 0 ==> r is Ok && final(self).store().unchanged_from(&old(self).store())
                && final(self).clock_state() == old(self).clock_state(),
            r is Ok ==> took_in(old(self).store(), final(self).store(), views(messages@)),
    {
        let ghost mut h: Seq<TimestampView> = seq![self.merkle_clock.timer_view()];
        let mut i: usize = 0;
        assert(views(messages@).subrange(0, 0) =~= Seq::<MessageView>::empty());
        while i < messages.len()
            invariant
                i <= messages@.len(),
                self.wf(),
                self.node() == old(self).node(),
                self.enabled() == old(self).enabled(),
                messages@.len() == 0 ==> *self == *old(self),
                self.store() == old(self).store(),
                h.len() == parsed(views(messages@).subrange(0, i as int)).len() + 1,
                h[0] == old(self).clock_state().timer_view(),
                h[h.len() - 1] == self.clock_state().timer_view(),
                forall|k: int| 0 <= k < h.len() - 1 ==> #[trigger] receives_to(h[k], parsed(views(messages@).subrange(0, i as int))[k], h[k + 1]),
            decreases messages.len() - i,
        {
            let ghost pre = views(messages@).subrange(0, i as int);
            let ghost next = views(messages@).subrange(0, i + 1);
            assert(next.drop_last() =~= pre);
            assert(next.last() == messages@[i as int]@);
            match Timestamp::parse(messages[i].timestamp.as_str()) {
                Ok(t) => {
                    let ghost before = self.merkle_clock.timer_view();
                    let timer = self.merkle_clock.timer_mut();
                    match timer.recv(&t) {
                        Ok(()) => {},
                        Err(e) => return Err(e),
                    }
                    proof {
                        let after = self.merkle_clock.timer_view();
                        let phys = choose|phys: i64| crate::timestamp::received_at(before, after, t@, Ok::<(), Error>(()), phys);
                        let h0 = h;
                        h = h.push(after);
                        assert(parsed(next) == parsed(pre).push(t@));
                        assert forall|k: int| 0 <= k < h.len() - 1 implies #[trigger] receives_to(h[k], parsed(next)[k], h[k + 1]) by {
                            if k < h0.len() - 1 {
                                assert(h[k] == h0[k] && h[k + 1] == h0[k + 1]);
                                assert(receives_to(h0[k], parsed(pre)[k], h0[k + 1]));
                            } else {
                                assert(recv_next(h[k], parsed(next)[k], phys) == Ok::<TimestampView, Error>(h[k + 1]));
                            }
                        }
                    }
                },
                Err(_) => {
                    assert(parsed(next) == parsed(pre));
                },
            }
            i = i + 1;
        }
        assert(views(messages@).subrange(0, messages@.len() as int) =~= views(messages@));
        let mut ms = messages;
        self.send_messages(&mut ms)
    }

    /// Finishes a sync round with the server's answer: takes in its
    /// messages, then compares the tries and decides whether another round
    /// from the divergence is needed.
    pub fn finish_sync(&mut self, since: Option<i64>, messages: Vec<Message>, merkle: &MerkleTrie<MERKLE_BASE>) -> (r: Result<SyncStep, Error>)
        requires
            old(self).wf(),
            MERKLE_BASE >= 2,
        ensures
            final(self).wf(),
            final(self).node() == old(self).node(),
            r is Ok || r == Err::<SyncStep, Error>(Error::SyncStuck) ==> r == round_outcome(since, diff_spec(final(self).clock_state().trie(), *merkle)),
            messages@.len() == 0 ==> r == round_outcome(since, diff_spec(old(self).clock_state().trie(), *merkle))
                && *final(self) == *old(self),
            r is Ok || r == Err::<SyncStep, Error>(Error::SyncStuck) ==> batch_applied(views(messages@), Item::table(), final(self).store().applied()),
    {
        if messages.len() > 0 {
            match self.receive_messages(messages) {
                Ok(()) => {},
                Err(e) => {
                    return Err(e);
                },
            }
        } else {
            assert(batch_applied(views(messages@), Item::table(), self.store().applied()));
            proof {
                let e = Seq::<MessageView>::empty();
                assert(views(messages@) =~= e);
                assert(newly_applied(e, self.store().table(), self.store().applied()) =~= e);
                assert(self.store().history() + e =~= self.store().history());
                assert(e.to_multiset() == views(messages@).to_multiset());
                assert(sorted_by_timestamp(e));
            }
        }
        let d = self.merkle_clock.merkle().diff(merkle);
        decide_round(since, d)
    }
}

proof fn lemma_chosen_all(ps: Seq<RowParam>)
    ensures
        chosen(ps, true) == ps,
    decreases ps.len(),
{
    if ps.len() > 0 {
        lemma_chosen_all(ps.drop_last());
        assert(ps.drop_last().push(ps.last()) =~= ps);
    }
}

proof fn lemma_chosen_none(ps: Seq<RowParam>, all: bool)
    ensures
        chosen(ps, all).len() == 0 ==> forall|k: int| 0 <= k < ps.len() ==> !(all || (#[trigger] ps[k]).id is Some),
    decreases ps.len(),
{
    if ps.len() > 0 {
        lemma_chosen_none(ps.drop_last(), all);
        if chosen(ps, all).len() == 0 {
            assert forall|k: int| 0 <= k < ps.len() implies !(all || (#[trigger] ps[k]).id is Some) by {
                if k < ps.len() - 1 {
                    assert(ps[k] == ps.drop_last()[k]);
                }
            }
        }
    }
}

proof fn lemma_chosen_named(ps: Seq<RowParam>)
    ensures
        forall|k: int| 0 <= k < chosen(ps, false).len() ==> (#[trigger] chosen(ps, false)[k]).id is Some,
    decreases ps.len(),
{
    if ps.len() > 0 {
        lemma_chosen_named(ps.drop_last());
    }
}

} // verus!
