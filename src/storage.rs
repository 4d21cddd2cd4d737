//! The client's record store: applies change messages to in-memory records
//! through a per-dataset handler, once per timestamp, and files each applied
//! timestamp in the clock's merkle trie.

use vstd::multiset::Multiset;
use vstd::prelude::*;

use crate::clock::MerkleClock;
use crate::error::{Error, HandlerError};
use crate::merkle::{holds, inserted_into};
use crate::models::{lemma_parsed_len, parsed, views, Message, MessageView};
use crate::text::{lex_lt, str_lt};
use crate::timestamp::{parse_spec, Timestamp};

verus! {

/// What the store needs of a record type: how to start a record from a
/// message, how a message writes it, and which dataset it owns.
pub trait MessageHandler: Sized {
    /// The row this record is.
    spec fn row_id(&self) -> Seq<char>;

    /// Whether the record holds the value that `m` writes to its column.
    spec fn reflects(&self, m: MessageView) -> bool;

    /// The dataset this record type owns.
    spec fn table() -> Seq<char>;

    /// Whether the record takes the write `m` (the handler then succeeds).
    spec fn accepts(&self, m: MessageView) -> bool;

    /// Whether a blank record made from `m` takes `m`.
    spec fn accepts_new(m: MessageView) -> bool;

    /// A blank record for the row of `message`.
    fn from_message(message: &Message) -> (r: Self)
        ensures
            r.row_id() == message@.row,
            r.accepts(message@) == Self::accepts_new(message@),
    ;

    /// Writes the field that `message` addresses. On success the record
    /// reflects it; other columns are untouched; on failure nothing changes.
    fn handle_message(&mut self, message: &Message) -> (r: Result<(), HandlerError>)
        ensures
            final(self).row_id() == old(self).row_id(),
            old(self).accepts(message@) ==> r is Ok,
            r is Ok ==> final(self).reflects(message@),
            r is Err ==> *final(self) == *old(self),
            forall|m: MessageView| m.column != message@.column ==> #[trigger] final(self).reflects(m) == old(self).reflects(m),
    ;

    fn table_name() -> (r: String)
        ensures
            r@ == Self::table(),
    ;
}

/// A store of records that messages are applied to.
pub trait Store<Item: MessageHandler, const MERKLE_BASE: usize> {
    /// The store's own consistency, and its agreement with `clock`'s trie.
    spec fn valid(&self, clock: &MerkleClock<MERKLE_BASE>) -> bool;

    fn apply_messages(&mut self, clock: &mut MerkleClock<MERKLE_BASE>, messages: &mut Vec<Message>) -> (r: Result<(), Error>)
        requires
            old(self).valid(old(clock)),
            MERKLE_BASE >= 2,
        ensures
            final(self).valid(final(clock)),
    ;

    fn items(&self) -> &Vec<Item>;

    fn applied_messages(&self) -> &Vec<String>;
}

/// The last index in `keys` that holds `row`.
pub open spec fn find_last(keys: Seq<String>, row: Seq<char>) -> Option<int>
    decreases keys.len(),
{
    if keys.len() == 0 {
        None
    } else if keys.last()@ == row {
        Some(keys.len() - 1)
    } else {
        find_last(keys.drop_last(), row)
    }
}

proof fn lemma_find_last_bounds(keys: Seq<String>, row: Seq<char>)
    ensures
        find_last(keys, row) matches Some(i) ==> 0 <= i < keys.len() && keys[i]@ == row,
    decreases keys.len(),
{
    if keys.len() > 0 && keys.last()@ != row {
        lemma_find_last_bounds(keys.drop_last(), row);
    }
}

/// Whether `m` is an entry of this batch for the dataset `table`.
pub open spec fn for_table(m: MessageView, table: Seq<char>) -> bool {
    m.dataset == table
}

/// Both messages write the same field.
pub open spec fn same_field(a: MessageView, b: MessageView) -> bool {
    a.dataset == b.dataset && a.row == b.row && a.column == b.column
}

/// Ascending by timestamp string.
pub open spec fn sorted_by_timestamp(s: Seq<MessageView>) -> bool {
    forall|i: int, j: int| 0 <= i < j < s.len() ==> !lex_lt(#[trigger] s[j].timestamp, #[trigger] s[i].timestamp)
}

/// Every message of batch `b` for `table` has its timestamp in `applied`.
pub open spec fn batch_applied(b: Seq<MessageView>, table: Seq<char>, applied: Set<Seq<char>>) -> bool {
    forall|m: MessageView| #[trigger] b.contains(m) && for_table(m, table) ==> applied.contains(m.timestamp)
}

proof fn lemma_applied_after(s: Seq<MessageView>, table: Seq<char>, applied: Set<Seq<char>>)
    ensures
        forall|t: Seq<char>| #[trigger] applied_after(s, table, applied).contains(t) == (applied.contains(t)
            || exists|j: int| 0 <= j < s.len() && for_table(s[j], table) && #[trigger] s[j].timestamp == t),
    decreases s.len(),
{
    if s.len() > 0 {
        let p = s.drop_last();
        lemma_applied_after(p, table, applied);
        assert forall|t: Seq<char>| #[trigger] applied_after(s, table, applied).contains(t) == (applied.contains(t)
            || exists|j: int| 0 <= j < s.len() && for_table(s[j], table) && #[trigger] s[j].timestamp == t) by {
            assert(applied_after(p, table, applied).contains(t) == (applied.contains(t)
                || exists|j: int| 0 <= j < p.len() && for_table(p[j], table) && #[trigger] p[j].timestamp == t));
            if exists|j: int| 0 <= j < s.len() && for_table(s[j], table) && #[trigger] s[j].timestamp == t {
                let j = choose|j: int| 0 <= j < s.len() && for_table(s[j], table) && #[trigger] s[j].timestamp == t;
                if j < p.len() {
                    assert(p[j] == s[j]);
                }
            }
            if exists|j: int| 0 <= j < p.len() && for_table(p[j], table) && #[trigger] p[j].timestamp == t {
                let j = choose|j: int| 0 <= j < p.len() && for_table(p[j], table) && #[trigger] p[j].timestamp == t;
                assert(s[j] == p[j]);
            }
            if for_table(s.last(), table) && s.last().timestamp == t {
                assert(s[s.len() - 1].timestamp == t);
            }
        }
    }
}

proof fn lemma_same_members(b: Seq<MessageView>, s: Seq<MessageView>)
    requires
        b.to_multiset() == s.to_multiset(),
    ensures
        forall|m: MessageView| #[trigger] b.contains(m) == s.contains(m),
        b.no_duplicates() ==> s.no_duplicates(),
{
    broadcast use vstd::seq_lib::group_to_multiset_ensures;

    assert forall|m: MessageView| #[trigger] b.contains(m) == s.contains(m) by {
        vstd::seq_lib::to_multiset_contains(b, m);
        vstd::seq_lib::to_multiset_contains(s, m);
    }
    if b.no_duplicates() {
        b.lemma_multiset_has_no_duplicates();
        s.lemma_multiset_has_no_duplicates_conv();
    }
}

proof fn lemma_views_insert(s: Seq<Message>, pos: int, m: Message)
    requires
        0 <= pos <= s.len(),
    ensures
        views(s.insert(pos, m)) == views(s).insert(pos, m@),
{
    assert(views(s.insert(pos, m)) =~= views(s).insert(pos, m@));
}

proof fn lemma_views_push(s: Seq<Message>, m: Message)
    ensures
        views(s.push(m)) == views(s).push(m@),
{
    assert(views(s.push(m)) =~= views(s).push(m@));
}

/// Sorts `messages` ascending by timestamp string.
pub fn sort_by_timestamp(messages: &mut Vec<Message>)
    ensures
        views(final(messages)@).to_multiset() == views(old(messages)@).to_multiset(),
        sorted_by_timestamp(views(final(messages)@)),
{
    broadcast use vstd::seq_lib::group_to_multiset_ensures, vstd::multiset::group_multiset_axioms, vstd::seq_lib::to_multiset_insert;

    let mut sorted: Vec<Message> = Vec::new();
    assert(views(sorted@).to_multiset() =~= Multiset::<MessageView>::empty());
    while messages.len() > 0
        invariant
            views(sorted@).to_multiset().add(views(messages@).to_multiset()) == views(old(messages)@).to_multiset(),
            sorted_by_timestamp(views(sorted@)),
        decreases messages.len(),
    {
        let ghost rest = messages@;
        let m = match messages.pop() {
            Some(m) => m,
            None => {
                return;
            },
        };
        proof {
            assert(rest =~= messages@.push(m));
            lemma_views_push(messages@, m);
        }
        let mut pos: usize = 0;
        while pos < sorted.len() && !str_lt(m.timestamp.as_str(), sorted[pos].timestamp.as_str())
            invariant
                pos <= sorted@.len(),
                forall|k: int| 0 <= k < pos ==> !lex_lt(m@.timestamp, #[trigger] sorted@[k]@.timestamp),
            decreases sorted.len() - pos,
        {
            pos = pos + 1;
        }
        let ghost s = views(sorted@);
        sorted.insert(pos, m);
        proof {
            lemma_views_insert(sorted@.remove(pos as int), pos as int, m);
            assert(sorted@.remove(pos as int).insert(pos as int, m) =~= sorted@);
            let n = views(sorted@);
            assert(n == s.insert(pos as int, m@));
            assert forall|a: int, b: int| 0 <= a < b < n.len() implies !lex_lt(#[trigger] n[b].timestamp, #[trigger] n[a].timestamp) by {
                if a < pos && b < pos {
                    assert(n[a] == s[a] && n[b] == s[b]);
                } else if a < pos && b == pos {
                    assert(n[a] == s[a] && n[b] == m@);
                } else if a < pos && b > pos {
                    assert(n[a] == s[a] && n[b] == s[b - 1]);
                } else if a == pos {
                    assert(n[a] == m@ && n[b] == s[b - 1]);
                    assert(pos < s.len());
                    assert(lex_lt(m@.timestamp, s[pos as int].timestamp));
                    if lex_lt(s[b - 1].timestamp, m@.timestamp) {
                        crate::text::lemma_lex_lt_transitive(s[b - 1].timestamp, m@.timestamp, s[pos as int].timestamp);
                        if b - 1 == pos {
                            crate::text::lemma_lex_lt_irreflexive(s[pos as int].timestamp);
                        } else {
                            assert(!lex_lt(s[b - 1].timestamp, s[pos as int].timestamp));
                        }
                    }
                } else {
                    assert(n[a] == s[a - 1] && n[b] == s[b - 1]);
                }
            }
            vstd::seq_lib::to_multiset_insert(s, pos as int, m@);
            vstd::seq_lib::to_multiset_build(views(messages@), m@);
            assert(views(sorted@).to_multiset() == s.to_multiset().insert(m@));
            assert(views(rest).to_multiset() == views(messages@).to_multiset().insert(m@));
        }
    }
    proof {
        assert(views(messages@).to_multiset() =~= Multiset::<MessageView>::empty());
        assert(views(sorted@).to_multiset() =~= views(old(messages)@).to_multiset());
    }
    *messages = sorted;
}

/// `applied` together with the timestamps of the messages of `s` for
/// `table`.
pub open spec fn applied_after(s: Seq<MessageView>, table: Seq<char>, applied: Set<Seq<char>>) -> Set<Seq<char>>
    decreases s.len(),
{
    if s.len() == 0 {
        applied
    } else {
        let r = applied_after(s.drop_last(), table, applied);
        if for_table(s.last(), table) {
            r.insert(s.last().timestamp)
        } else {
            r
        }
    }
}

/// The messages of `s` for `table` that a store which has applied
/// `applied` takes in, in order: each one whose timestamp is neither
/// applied already nor carried by an earlier message of `s` for `table`.
pub open spec fn newly_applied(s: Seq<MessageView>, table: Seq<char>, applied: Set<Seq<char>>) -> Seq<MessageView>
    decreases s.len(),
{
    if s.len() == 0 {
        seq![]
    } else {
        let r = newly_applied(s.drop_last(), table, applied);
        if for_table(s.last(), table) && !applied_after(s.drop_last(), table, applied).contains(s.last().timestamp) {
            r.push(s.last())
        } else {
            r
        }
    }
}

/// Applying the sorted batch `s` failed at its `i`-th message: that one is
/// for `table` and new, the messages before it took effect and nothing else
/// did.
pub open spec fn failed_at(
    s: Seq<MessageView>,
    i: int,
    table: Seq<char>,
    applied: Set<Seq<char>>,
    history: Seq<MessageView>,
    final_applied: Set<Seq<char>>,
    final_history: Seq<MessageView>,
) -> bool {
    &&& for_table(s[i], table)
    &&& !applied_after(s.subrange(0, i), table, applied).contains(s[i].timestamp)
    &&& final_applied == applied_after(s.subrange(0, i), table, applied)
    &&& final_history == history + newly_applied(s.subrange(0, i), table, applied)
}

/// Some write in `lw` to the field of `x` is at least as late as `x`.
pub open spec fn covered_by(lw: Seq<MessageView>, x: MessageView) -> bool {
    exists|i: int| 0 <= i < lw.len() && same_field(#[trigger] lw[i], x) && !lex_lt(lw[i].timestamp, x.timestamp)
}

/// Records of one dataset, keyed by row, with the set of applied message
/// timestamps and, per field, the latest write applied to it.
pub struct MemStorage<Item: MessageHandler, const MERKLE_BASE: usize> {
    table_name: String,
    rows: Vec<String>,
    items: Vec<Item>,
    applied_messages: Vec<String>,
    latest: Vec<Message>,
    history: Ghost<Seq<MessageView>>,
}

impl<Item: MessageHandler, const MERKLE_BASE: usize> MemStorage<Item, MERKLE_BASE> {
    pub closed spec fn table(&self) -> Seq<char> {
        self.table_name@
    }

    /// The records, in order of creation.
    pub closed spec fn item_seq(&self) -> Seq<Item> {
        self.items@
    }

    /// The rows of the records, in the same order.
    pub closed spec fn row_seq(&self) -> Seq<String> {
        self.rows@
    }

    /// Per field, the latest write applied to it.
    pub closed spec fn latest_writes(&self) -> Seq<MessageView> {
        views(self.latest@)
    }

    /// The writes applied so far, in order.
    pub closed spec fn history(&self) -> Seq<MessageView> {
        self.history@
    }

    /// Rows and records line up; each field has one latest write, which its
    /// record reflects and which is at least as late as every write applied
    /// to the field; the applied timestamps are those of the history.
    pub closed spec fn wf(&self) -> bool {
        let lw = self.latest_writes();
        let h = self.history();
        &&& self.rows@.len() == self.items@.len()
        &&& self.applied_messages@.len() == h.len()
        &&& forall|i: int, j: int| 0 <= i < j < lw.len() ==> !same_field(#[trigger] lw[i], #[trigger] lw[j])
        &&& forall|i: int| 0 <= i < lw.len() ==> {
            &&& for_table(#[trigger] lw[i], self.table())
            &&& self.record(lw[i].row) is Some
            &&& self.record(lw[i].row)->Some_0.reflects(lw[i])
            &&& h.contains(lw[i])
        }
        &&& forall|k: int| 0 <= k < h.len() ==> {
            &&& for_table(#[trigger] h[k], self.table())
            &&& self.applied().contains(h[k].timestamp)
            &&& covered_by(lw, h[k])
        }
        &&& forall|t: Seq<char>| #[trigger] self.applied().contains(t) ==> exists|k: int| 0 <= k < h.len() && #[trigger] h[k].timestamp == t
    }

    /// A write to the field of `m` later than `m` has been applied.
    pub closed spec fn superseded(&self, m: MessageView) -> bool {
        exists|i: int| 0 <= i < self.latest_writes().len() && same_field(#[trigger] self.latest_writes()[i], m)
            && lex_lt(m.timestamp, self.latest_writes()[i].timestamp)
    }

    /// The record of `m`'s row, or a blank one, takes the write `m`.
    pub open spec fn takes(&self, m: MessageView) -> bool {
        match self.record(m.row) {
            Some(x) => x.accepts(m),
            None => Item::accepts_new(m),
        }
    }

    /// The store's contents and history are those of `other`.
    pub open spec fn unchanged_from(&self, other: &Self) -> bool {
        &&& self.same_contents(other)
        &&& self.history() == other.history()
        &&& self.latest_writes() == other.latest_writes()
        &&& self.table() == other.table()
    }

    /// Last writer wins, whatever the order in which writes arrived: for
    /// every write applied to a field, the record of its row holds an
    /// applied write to the same field that is at least as late.
    pub proof fn lemma_last_writer_wins(&self)
        requires
            self.wf(),
        ensures
            forall|m: MessageView| #[trigger] self.history().contains(m) ==> {
                &&& self.record(m.row) is Some
                &&& exists|w: MessageView| #[trigger] self.history().contains(w) && same_field(w, m)
                    && !lex_lt(w.timestamp, m.timestamp) && self.record(m.row)->Some_0.reflects(w)
            },
    {
        let lw = self.latest_writes();
        assert forall|m: MessageView| #[trigger] self.history().contains(m) implies {
            &&& self.record(m.row) is Some
            &&& exists|w: MessageView| #[trigger] self.history().contains(w) && same_field(w, m)
                && !lex_lt(w.timestamp, m.timestamp) && self.record(m.row)->Some_0.reflects(w)
        } by {
            let k = choose|k: int| 0 <= k < self.history().len() && self.history()[k] == m;
            assert(for_table(self.history()[k], self.table()));
            assert(covered_by(lw, self.history()[k]));
            let i = choose|i: int| 0 <= i < lw.len() && same_field(#[trigger] lw[i], self.history()[k]) && !lex_lt(lw[i].timestamp, self.history()[k].timestamp);
            assert(for_table(lw[i], self.table()));
            assert(self.history().contains(lw[i]));
        }
    }

    /// The record of `row`, if any.
    pub closed spec fn record(&self, row: Seq<char>) -> Option<Item> {
        match find_last(self.rows@, row) {
            Some(i) => Some(self.items@[i]),
            None => None,
        }
    }

    /// The timestamps of the messages applied so far.
    pub closed spec fn applied(&self) -> Set<Seq<char>> {
        Set::new(|t: Seq<char>| exists|i: int| 0 <= i < self.applied_messages@.len() && #[trigger] self.applied_messages@[i]@ == t)
    }

    /// Records and applied set are those of `other`.
    pub open spec fn same_contents(&self, other: &Self) -> bool {
        &&& self.applied() == other.applied()
        &&& forall|row: Seq<char>| #[trigger] self.record(row) == other.record(row)
    }

    /// An empty store for the dataset that `Item` owns.
    pub fn new() -> (r: Self)
        ensures
            r.wf(),
            r.table() == Item::table(),
            r.applied() == Set::<Seq<char>>::empty(),
            r.history() == Seq::<MessageView>::empty(),
            forall|row: Seq<char>| #[trigger] r.record(row) is None,
    {
        let r = MemStorage {
            table_name: Item::table_name(),
            rows: Vec::new(),
            items: Vec::new(),
            applied_messages: Vec::new(),
            latest: Vec::new(),
            history: Ghost(Seq::empty()),
        };
        assert(r.applied() =~= Set::<Seq<char>>::empty());
        assert(r.latest_writes() =~= Seq::<MessageView>::empty());
        r
    }

    /// The records, in order of creation.
    pub fn items(&self) -> (r: &Vec<Item>)
        ensures
            r@ == self.item_seq(),
    {
        &self.items
    }

    /// The rows of the records, in the same order.
    pub fn rows(&self) -> (r: &Vec<String>)
        ensures
            r@ == self.row_seq(),
    {
        &self.rows
    }

    /// The timestamps of the messages applied so far.
    pub fn applied_messages(&self) -> (r: &Vec<String>)
        ensures
            forall|t: Seq<char>| self.applied().contains(t) <==> exists|i: int| 0 <= i < r@.len() && #[trigger] r@[i]@ == t,
    {
        &self.applied_messages
    }

    fn find_row_of(&self, row: &String) -> (r: Option<usize>)
        requires
            self.rows@.len() == self.items@.len(),
        ensures
            r matches Some(i) ==> find_last(self.rows@, row@) == Some(i as int) && i < self.items@.len(),
            r is None ==> find_last(self.rows@, row@) is None,
    {
        let mut i: usize = self.rows.len();
        assert(self.rows@.subrange(0, i as int) =~= self.rows@);
        while i > 0
            invariant
                i <= self.rows@.len(),
                self.rows@.len() == self.items@.len(),
                find_last(self.rows@, row@) == find_last(self.rows@.subrange(0, i as int), row@),
            decreases i,
        {
            let ghost pre = self.rows@.subrange(0, i as int);
            assert(pre.drop_last() =~= self.rows@.subrange(0, i - 1));
            assert(pre.last() == self.rows@[i - 1]);
            if self.rows[i - 1] == *row {
                return Some(i - 1);
            }
            i = i - 1;
        }
        None
    }

    /// The record of `row`, if any.
    pub fn item(&self, row: &String) -> (r: Option<&Item>)
        requires
            self.wf(),
        ensures
            match self.record(row@) {
                Some(x) => r is Some && *r->Some_0 == x,
                None => r is None,
            },
    {
        match self.find_row_of(row) {
            Some(i) => Some(&self.items[i]),
            None => None,
        }
    }

    fn is_applied(&self, timestamp: &String) -> (r: bool)
        ensures
            r == self.applied().contains(timestamp@),
    {
        let mut i: usize = 0;
        while i < self.applied_messages.len()
            invariant
                i <= self.applied_messages@.len(),
                forall|j: int| 0 <= j < i ==> self.applied_messages@[j]@ != timestamp@,
            decreases self.applied_messages.len() - i,
        {
            if self.applied_messages[i] == *timestamp {
                assert(self.applied().contains(timestamp@)) by {
                    assert(self.applied_messages@[i as int]@ == timestamp@);
                }
                return true;
            }
            i = i + 1;
        }
        false
    }

    /// Applies a batch: sorts it by timestamp string (the clock's order) and
    /// applies, in that order, each message whose dataset is this store's;
    /// messages of other datasets are skipped. Stops at the first failure:
    /// what was applied before it stays, the failing message and the ones
    /// after it have no effect.
    pub fn apply_messages(&mut self, clock: &mut MerkleClock<MERKLE_BASE>, messages: &mut Vec<Message>) -> (r: Result<(), Error>)
        requires
            old(self).wf(),
            MERKLE_BASE >= 2,
            holds(old(clock).trie(), parsed(old(self).history())),
        ensures
            final(self).wf(),
            holds(final(clock).trie(), parsed(final(self).history())),
            final(self).table() == old(self).table(),
            r is Ok ==> final(self).history() == old(self).history() + newly_applied(views(final(messages)@), old(self).table(), old(self).applied()),
            views(final(messages)@).to_multiset() == views(old(messages)@).to_multiset(),
            sorted_by_timestamp(views(final(messages)@)),
            r != Err::<(), Error>(Error::SyncStuck),
            final(clock).timer_view() == old(clock).timer_view(),
            r is Ok ==> forall|t: Seq<char>| #[trigger] final(self).applied().contains(t) == (old(self).applied().contains(t)
                || exists|m: MessageView| #[trigger] views(old(messages)@).contains(m) && for_table(m, old(self).table()) && m.timestamp == t),
            r is Ok ==> batch_applied(views(old(messages)@), old(self).table(), final(self).applied()),
            r is Err ==> exists|i: int| 0 <= i < views(final(messages)@).len() && #[trigger] failed_at(
                views(final(messages)@),
                i,
                old(self).table(),
                old(self).applied(),
                old(self).history(),
                final(self).applied(),
                final(self).history(),
            ) && (r == Err::<(), Error>(Error::Parse)) == (parse_spec(views(final(messages)@)[i].timestamp) is None)
            && forall|row: Seq<char>| (forall|j: int| 0 <= j < i && for_table(#[trigger] views(final(messages)@)[j], old(self).table())
                ==> views(final(messages)@)[j].row != row) ==> #[trigger] final(self).record(row) == old(self).record(row),
            r is Err ==> r == Err::<(), Error>(Error::Parse) || r matches Err(Error::Handler(_)),
            forall|row: Seq<char>| (forall|m: MessageView| #[trigger] views(old(messages)@).contains(m) && for_table(m, old(self).table()) ==> m.row != row)
                ==> #[trigger] final(self).record(row) == old(self).record(row),
            batch_applied(views(old(messages)@), old(self).table(), old(self).applied()) ==> r is Ok
                && final(self).unchanged_from(old(self)) && *final(clock) == *old(clock),
    {
        let ghost b = views(messages@);
        let ghost table = self.table();
        sort_by_timestamp(messages);
        let ghost s = views(messages@);
        proof {
            lemma_same_members(b, s);
        }
        let n = messages.len();
        let mut i: usize = 0;
        assert(s.subrange(0, 0) =~= Seq::<MessageView>::empty());
        assert(old(self).history() + Seq::<MessageView>::empty() =~= old(self).history());
        while i < n
            invariant
                n == messages@.len(),
                s == views(messages@),
                b == views(old(messages)@),
                s.to_multiset() == b.to_multiset(),
                sorted_by_timestamp(s),
                s.len() == n,
                i <= n,
                self.wf(),
                self.table() == table,
                table == old(self).table(),
                MERKLE_BASE >= 2,
                clock.timer_view() == old(clock).timer_view(),
                forall|m: MessageView| #[trigger] b.contains(m) == s.contains(m),
                holds(clock.trie(), parsed(self.history())),
                self.applied() == applied_after(s.subrange(0, i as int), table, old(self).applied()),
                self.history() == old(self).history() + newly_applied(s.subrange(0, i as int), table, old(self).applied()),
                forall|row: Seq<char>| (forall|j: int| 0 <= j < i && for_table(#[trigger] s[j], table) ==> s[j].row != row)
                    ==> #[trigger] self.record(row) == old(self).record(row),
                batch_applied(b, table, old(self).applied()) ==> self.unchanged_from(old(self)) && *clock == *old(clock),
            decreases n - i,
        {
            let ghost before = *self;
            let ghost pre = s.subrange(0, i as int);
            assert(s.subrange(0, i + 1) =~= pre.push(s[i as int]));
            assert(s[i as int] == messages@[i as int]@);
            proof {
                if batch_applied(b, table, old(self).applied()) && for_table(s[i as int], table) {
                    assert(s.contains(s[i as int]));
                    assert(b.contains(s[i as int]));
                }
            }
            let res = self.apply_batch_step(clock, &messages[i], Ghost(pre), Ghost(old(self).applied()), Ghost(old(self).history()));
            match res {
                Ok(()) => {},
                Err(e) => {
                    proof {
                        assert(failed_at(s, i as int, table, old(self).applied(), old(self).history(), self.applied(), self.history()));
                        assert forall|row: Seq<char>| (forall|j: int| 0 <= j < i && for_table(#[trigger] s[j], table) ==> s[j].row != row)
                            implies #[trigger] self.record(row) == old(self).record(row) by {
                            assert(self.record(row) == before.record(row));
                        }
                        assert forall|row: Seq<char>| (forall|m: MessageView| #[trigger] b.contains(m) && for_table(m, table) ==> m.row != row)
                            implies #[trigger] self.record(row) == old(self).record(row) by {
                            assert forall|j: int| 0 <= j < i && for_table(#[trigger] s[j], table) implies s[j].row != row by {
                                assert(s.contains(s[j]));
                                assert(b.contains(s[j]));
                            }
                            assert(self.record(row) == before.record(row));
                        }
                    }
                    return Err(e);
                },
            }
            proof {
                assert forall|row: Seq<char>| (forall|j: int| 0 <= j < i + 1 && for_table(#[trigger] s[j], table) ==> s[j].row != row)
                    implies #[trigger] self.record(row) == old(self).record(row) by {
                    assert(before.record(row) == old(self).record(row));
                }
            }
            i = i + 1;
        }
        proof {
            assert(s.subrange(0, n as int) =~= s);
            lemma_applied_after(s, table, old(self).applied());
            assert forall|t: Seq<char>| #[trigger] self.applied().contains(t) == (old(self).applied().contains(t)
                || exists|m: MessageView| #[trigger] b.contains(m) && for_table(m, table) && m.timestamp == t) by {
                if exists|j: int| 0 <= j < n && for_table(s[j], table) && #[trigger] s[j].timestamp == t {
                    let j = choose|j: int| 0 <= j < n && for_table(s[j], table) && #[trigger] s[j].timestamp == t;
                    assert(s.contains(s[j]));
                    assert(b.contains(s[j]));
                }
                if exists|m: MessageView| #[trigger] b.contains(m) && for_table(m, table) && m.timestamp == t {
                    let m = choose|m: MessageView| #[trigger] b.contains(m) && for_table(m, table) && m.timestamp == t;
                    assert(s.contains(m));
                    let j = choose|j: int| 0 <= j < s.len() && s[j] == m;
                    assert(s[j].timestamp == t);
                }
            }
            assert forall|m: MessageView| #[trigger] b.contains(m) && for_table(m, table) implies self.applied().contains(m.timestamp) by {}
            assert forall|row: Seq<char>| (forall|m: MessageView| #[trigger] b.contains(m) && for_table(m, table) ==> m.row != row)
                implies #[trigger] self.record(row) == old(self).record(row) by {
                assert forall|j: int| 0 <= j < n && for_table(#[trigger] s[j], table) implies s[j].row != row by {
                    assert(s.contains(s[j]));
                    assert(b.contains(s[j]));
                }
            }
        }
        Ok(())
    }

    /// One message of a sorted batch: applied when it is for this store's
    /// dataset, skipped otherwise.
    fn apply_batch_step(
        &mut self,
        clock: &mut MerkleClock<MERKLE_BASE>,
        m: &Message,
        Ghost(pre): Ghost<Seq<MessageView>>,
        Ghost(a0): Ghost<Set<Seq<char>>>,
        Ghost(h0): Ghost<Seq<MessageView>>,
    ) -> (r: Result<(), Error>)
        requires
            old(self).wf(),
            MERKLE_BASE >= 2,
            holds(old(clock).trie(), parsed(old(self).history())),
            old(self).applied() == applied_after(pre, old(self).table(), a0),
            old(self).history() == h0 + newly_applied(pre, old(self).table(), a0),
        ensures
            final(self).wf(),
            final(self).table() == old(self).table(),
            holds(final(clock).trie(), parsed(final(self).history())),
            final(clock).timer_view() == old(clock).timer_view(),
            r != Err::<(), Error>(Error::SyncStuck),
            r is Ok ==> final(self).applied() == applied_after(pre.push(m@), old(self).table(), a0),
            r is Ok ==> final(self).history() == h0 + newly_applied(pre.push(m@), old(self).table(), a0),
            r is Ok ==> forall|row: Seq<char>| (row != m@.row || !for_table(m@, old(self).table()))
                ==> #[trigger] final(self).record(row) == old(self).record(row),
            !for_table(m@, old(self).table()) || old(self).applied().contains(m@.timestamp) ==> r is Ok
                && final(self).unchanged_from(old(self)) && *final(clock) == *old(clock),
            r is Err ==> {
                &&& for_table(m@, old(self).table())
                &&& !old(self).applied().contains(m@.timestamp)
                &&& final(self).unchanged_from(old(self))
                &&& *final(clock) == *old(clock)
                &&& (r == Err::<(), Error>(Error::Parse)) == (parse_spec(m@.timestamp) is None)
                &&& (r == Err::<(), Error>(Error::Parse) || r matches Err(Error::Handler(_)))
            },
    {
        let ghost table = self.table();
        let ghost q = pre.push(m@);
        assert(q.drop_last() =~= pre);
        assert(q.last() == m@);
        if m.dataset == self.table_name {
            let res = self.apply_item_table(clock, m);
            proof {
                if old(self).applied().contains(m@.timestamp) {
                    assert(self.applied() =~= old(self).applied().insert(m@.timestamp));
                } else if res is Ok {
                    assert(self.history() =~= h0 + newly_applied(q, table, a0));
                }
            }
            res
        } else {
            Ok(())
        }
    }



    fn find_latest(&self, m: &Message) -> (r: Option<usize>)
        ensures
            r matches Some(i) ==> i < self.latest_writes().len() && same_field(self.latest_writes()[i as int], m@),
            r is None ==> forall|i: int| 0 <= i < self.latest_writes().len() ==> !same_field(#[trigger] self.latest_writes()[i], m@),
    {
        let mut i: usize = 0;
        while i < self.latest.len()
            invariant
                i <= self.latest@.len(),
                forall|j: int| 0 <= j < i ==> !same_field(#[trigger] self.latest_writes()[j], m@),
            decreases self.latest.len() - i,
        {
            let w = &self.latest[i];
            assert(self.latest_writes()[i as int] == w@);
            if w.dataset == m.dataset && w.row == m.row && w.column == m.column {
                return Some(i);
            }
            i = i + 1;
        }
        None
    }

    /// Lets the handler write `m` into the record of its row, created blank
    /// if missing. On failure nothing changes.
    fn write_record(&mut self, incoming_message: &Message) -> (r: Result<(), HandlerError>)
        requires
            old(self).rows@.len() == old(self).items@.len(),
        ensures
            final(self).rows@.len() == final(self).items@.len(),
            final(self).table() == old(self).table(),
            final(self).applied_messages == old(self).applied_messages,
            final(self).latest == old(self).latest,
            final(self).history == old(self).history,
            old(self).takes(incoming_message@) ==> r is Ok,
            r is Err ==> forall|row: Seq<char>| #[trigger] final(self).record(row) == old(self).record(row),
            r is Ok ==> {
                &&& final(self).record(incoming_message@.row) is Some
                &&& final(self).record(incoming_message@.row)->Some_0.reflects(incoming_message@)
                &&& forall|row: Seq<char>| row != incoming_message@.row ==> #[trigger] final(self).record(row) == old(self).record(row)
                &&& old(self).record(incoming_message@.row) is Some ==> forall|x: MessageView|
                    x.column != incoming_message@.column ==> #[trigger] final(self).record(incoming_message@.row)->Some_0.reflects(x)
                        == old(self).record(incoming_message@.row)->Some_0.reflects(x)
            },
    {
        let ghost m = incoming_message@;
        match self.find_row_of(&incoming_message.row) {
            None => {
                let mut new_item = Item::from_message(incoming_message);
                match new_item.handle_message(incoming_message) {
                    Ok(()) => {},
                    Err(e) => return Err(e),
                }
                let ghost made = new_item;
                self.rows.push(incoming_message.row.clone());
                self.items.push(new_item);
                proof {
                    assert(self.rows@.drop_last() =~= old(self).rows@);
                    assert(self.record(m.row) == Some(made));
                    assert forall|row: Seq<char>| row != m.row implies #[trigger] self.record(row) == old(self).record(row) by {
                        lemma_find_last_bounds(old(self).rows@, row);
                    }
                }
                Ok(())
            },
            Some(i) => {
                let mut item = self.items.remove(i);
                let ghost before_item = item;
                let res = item.handle_message(incoming_message);
                let ghost after_item = item;
                self.items.insert(i, item);
                proof {
                    assert(self.items@ =~= old(self).items@.update(i as int, after_item));
                    assert(old(self).items@[i as int] == before_item);
                    lemma_find_last_bounds(old(self).rows@, m.row);
                    assert(self.record(m.row) == Some(after_item));
                    assert(old(self).record(m.row) == Some(before_item));
                    assert forall|row: Seq<char>| row != m.row implies #[trigger] self.record(row) == old(self).record(row) by {
                        lemma_find_last_bounds(old(self).rows@, row);
                    }
                    if res is Err {
                        assert(self.items@ =~= old(self).items@);
                        assert forall|row: Seq<char>| #[trigger] self.record(row) == old(self).record(row) by {}
                    }
                }
                res
            },
        }
    }

    /// Applies one message of this store's dataset unless its timestamp was
    /// applied before: reads its timestamp, lets the handler write the
    /// record (created blank if missing) unless a later write to the field
    /// was applied already, then files the timestamp in the clock's trie
    /// and marks the message applied. A failure changes nothing.
    #[verifier::rlimit(50)]
    fn apply_item_table(&mut self, clock: &mut MerkleClock<MERKLE_BASE>, incoming_message: &Message) -> (r: Result<(), Error>)
        requires
            old(self).wf(),
            MERKLE_BASE >= 2,
            for_table(incoming_message@, old(self).table()),
            holds(old(clock).trie(), parsed(old(self).history())),
        ensures
            final(self).wf(),
            holds(final(clock).trie(), parsed(final(self).history())),
            r matches Err(Error::Handler(_)) ==> parse_spec(incoming_message@.timestamp) is Some,
            r == Err::<(), Error>(Error::Parse) ==> parse_spec(incoming_message@.timestamp) is None,
            final(self).table() == old(self).table(),
            r != Err::<(), Error>(Error::SyncStuck),
            final(clock).timer_view() == old(clock).timer_view(),
            old(self).applied().contains(incoming_message@.timestamp) ==> r is Ok && final(self).unchanged_from(old(self))
                && *final(clock) == *old(clock),
            r is Err ==> final(self).unchanged_from(old(self)) && *final(clock) == *old(clock),
            r is Err ==> r == Err::<(), Error>(Error::Parse) || r matches Err(Error::Handler(_)),
            !old(self).applied().contains(incoming_message@.timestamp) && parse_spec(incoming_message@.timestamp) is None
                ==> r == Err::<(), Error>(Error::Parse),
            !old(self).applied().contains(incoming_message@.timestamp) && parse_spec(incoming_message@.timestamp) is Some
                && (old(self).superseded(incoming_message@) || old(self).takes(incoming_message@)) ==> r is Ok,
            !old(self).applied().contains(incoming_message@.timestamp) && r is Ok ==> {
                &&& final(self).applied() == old(self).applied().insert(incoming_message@.timestamp)
                &&& final(self).history() == old(self).history().push(incoming_message@)
                &&& parse_spec(incoming_message@.timestamp) is Some
                &&& inserted_into(old(clock).trie(), final(clock).trie(), parse_spec(incoming_message@.timestamp)->Some_0)
                &&& forall|row: Seq<char>| row != incoming_message@.row ==> #[trigger] final(self).record(row) == old(self).record(row)
                &&& old(self).superseded(incoming_message@) ==> forall|row: Seq<char>| #[trigger] final(self).record(row) == old(self).record(row)
                &&& !old(self).superseded(incoming_message@) ==> {
                    &&& final(self).record(incoming_message@.row) is Some
                    &&& final(self).record(incoming_message@.row)->Some_0.reflects(incoming_message@)
                    &&& old(self).record(incoming_message@.row) is Some ==> forall|m: MessageView|
                        m.column != incoming_message@.column ==> #[trigger] final(self).record(incoming_message@.row)->Some_0.reflects(m)
                            == old(self).record(incoming_message@.row)->Some_0.reflects(m)
                }
            },
    {
        let ghost m = incoming_message@;
        if self.is_applied(&incoming_message.timestamp) {
            return Ok(());
        }
        let t = match Timestamp::parse(incoming_message.timestamp.as_str()) {
            Ok(t) => t,
            Err(_) => return Err(Error::Parse),
        };
        let li = self.find_latest(incoming_message);
        let later = match li {
            Some(i) => str_lt(incoming_message.timestamp.as_str(), self.latest[i].timestamp.as_str()),
            None => false,
        };
        proof {
            if let Some(i) = li {
                assert(self.latest_writes()[i as int] == self.latest@[i as int]@);
            }
            self.lemma_later_is_superseded(m, li, later);
        }
        if !later {
            match self.write_record(incoming_message) {
                Ok(()) => {},
                Err(e) => return Err(Error::Handler(e)),
            }
        }
        let ghost w_self = *self;
        if !later {
            let ghost before_latest = self.latest_writes();
            match li {
                Some(i) => {
                    self.latest.set(i, incoming_message.copy());
                    proof {
                        assert(self.latest_writes() =~= before_latest.update(i as int, m));
                    }
                },
                None => {
                    self.latest.push(incoming_message.copy());
                    proof {
                        assert(self.latest_writes() =~= before_latest.push(m));
                    }
                },
            }
        }
        let ghost mid = *self;
        clock.merkle_mut().insert(&t);
        let stamp = incoming_message.timestamp.clone();
        let ghost pushed = stamp;
        self.applied_messages.push(stamp);
        let total = self.applied_messages.len();
        self.history = Ghost(self.history@.push(m));
        proof {
            let h0 = old(self).history();
            assert(self.history().drop_last() =~= h0);
            assert(parsed(self.history()) == parsed(h0).push(t@));
            lemma_parsed_len(h0);
            assert(parsed(h0).len() < u64::MAX);
            assert forall|row: Seq<char>| #[trigger] self.record(row) == w_self.record(row) by {}
            assert(self.applied_messages@ == old(self).applied_messages@.push(pushed));
            self.lemma_applied_push(old(self), m.timestamp);
            self.lemma_apply_keeps_wf(old(self), m, later, li);
        }
        Ok(())
    }

    proof fn lemma_later_is_superseded(&self, m: MessageView, li: Option<usize>, later: bool)
        requires
            self.wf(),
            li matches Some(i) ==> i < self.latest_writes().len() && same_field(self.latest_writes()[i as int], m)
                && later == lex_lt(m.timestamp, self.latest_writes()[i as int].timestamp),
            li is None ==> !later && forall|i: int| 0 <= i < self.latest_writes().len() ==> !same_field(#[trigger] self.latest_writes()[i], m),
        ensures
            later == self.superseded(m),
    {
        if self.superseded(m) && !later {
            let lw = self.latest_writes();
            let j = choose|j: int| 0 <= j < lw.len() && same_field(#[trigger] lw[j], m) && lex_lt(m.timestamp, lw[j].timestamp);
            let i = li->Some_0 as int;
            if i != j {
                if i < j {
                    assert(!same_field(lw[i], lw[j]));
                } else {
                    assert(!same_field(lw[j], lw[i]));
                }
            }
        }
    }

    proof fn lemma_applied_push(&self, before: &Self, t: Seq<char>)
        requires
            exists|x: String| x@ == t && self.applied_messages@ == before.applied_messages@.push(x),
        ensures
            self.applied() == before.applied().insert(t),
    {
        assert forall|x: Seq<char>| self.applied().contains(x) == before.applied().insert(t).contains(x) by {
            if self.applied().contains(x) {
                let j = choose|j: int| 0 <= j < self.applied_messages@.len() && #[trigger] self.applied_messages@[j]@ == x;
                if j < before.applied_messages@.len() {
                    assert(before.applied_messages@[j] == self.applied_messages@[j]);
                }
            }
            if before.applied().contains(x) {
                let j = choose|j: int| 0 <= j < before.applied_messages@.len() && #[trigger] before.applied_messages@[j]@ == x;
                assert(self.applied_messages@[j] == before.applied_messages@[j]);
            }
            if x == t {
                assert(self.applied_messages@[self.applied_messages@.len() - 1]@ == x);
            }
        }
        assert(self.applied() =~= before.applied().insert(t));
    }

    proof fn lemma_apply_keeps_wf(&self, before: &Self, m: MessageView, later: bool, li: Option<usize>)
        requires
            before.wf(),
            for_table(m, before.table()),
            self.table() == before.table(),
            self.rows@.len() == self.items@.len(),
            self.applied_messages@.len() == before.applied_messages@.len() + 1,
            self.applied() == before.applied().insert(m.timestamp),
            self.history() == before.history().push(m),
            later == before.superseded(m),
            li matches Some(i) ==> i < before.latest_writes().len() && same_field(before.latest_writes()[i as int], m),
            li is None ==> forall|i: int| 0 <= i < before.latest_writes().len() ==> !same_field(#[trigger] before.latest_writes()[i], m),
            later ==> self.latest_writes() == before.latest_writes() && forall|row: Seq<char>| #[trigger] self.record(row) == before.record(row),
            !later ==> {
                &&& (li matches Some(i) ==> self.latest_writes() == before.latest_writes().update(i as int, m))
                &&& (li is None ==> self.latest_writes() == before.latest_writes().push(m))
                &&& self.record(m.row) is Some
                &&& self.record(m.row)->Some_0.reflects(m)
                &&& forall|row: Seq<char>| row != m.row ==> #[trigger] self.record(row) == before.record(row)
                &&& before.record(m.row) is Some ==> forall|x: MessageView|
                    x.column != m.column ==> #[trigger] self.record(m.row)->Some_0.reflects(x) == before.record(m.row)->Some_0.reflects(x)
            },
        ensures
            self.wf(),
    {
        let (lw0, lw) = (before.latest_writes(), self.latest_writes());
        let (h0, h) = (before.history(), self.history());
        assert forall|k: int| 0 <= k < h0.len() implies #[trigger] h.contains(h0[k]) by {
            assert(h[k] == h0[k]);
        }
        assert(h.contains(m)) by {
            assert(h[h0.len() as int] == m);
        }
        if later {
            let j = choose|j: int| 0 <= j < lw0.len() && same_field(#[trigger] lw0[j], m) && lex_lt(m.timestamp, lw0[j].timestamp);
            crate::text::lemma_lex_lt_asymmetric(m.timestamp, lw0[j].timestamp);
            assert forall|i: int| 0 <= i < lw.len() implies h.contains(#[trigger] lw[i]) by {
                assert(h0.contains(lw0[i]));
                let k = choose|k: int| 0 <= k < h0.len() && h0[k] == lw0[i];
            }
            assert forall|k: int| 0 <= k < h.len() implies #[trigger] covered_by(lw, h[k]) by {
                if k < h0.len() {
                    assert(h[k] == h0[k]);
                    assert(covered_by(lw0, h0[k]));
                } else {
                    assert(h[k] == m);
                    assert(same_field(lw[j], h[k]));
                }
            }
            assert forall|k: int| 0 <= k < h.len() implies for_table(#[trigger] h[k], self.table()) && self.applied().contains(h[k].timestamp) by {
                if k < h0.len() {
                    assert(h[k] == h0[k]);
                }
            }
            assert forall|t: Seq<char>| #[trigger] self.applied().contains(t) implies exists|k: int| 0 <= k < h.len() && #[trigger] h[k].timestamp == t by {
                if t == m.timestamp {
                    assert(h[h0.len() as int].timestamp == t);
                } else {
                    let k = choose|k: int| 0 <= k < h0.len() && #[trigger] h0[k].timestamp == t;
                    assert(h[k] == h0[k]);
                }
            }
        } else {
            let ni: int = match li { Some(i) => i as int, None => lw0.len() as int };
            assert(lw[ni] == m);
            assert forall|i: int| 0 <= i < lw.len() && i != ni implies #[trigger] lw[i] == lw0[i] by {}
            assert forall|i: int, j: int| 0 <= i < j < lw.len() implies !same_field(#[trigger] lw[i], #[trigger] lw[j]) by {
                if i == ni {
                    if li is Some {
                        assert(!same_field(lw0[i], lw0[j]));
                    }
                } else if j == ni {
                    if li is Some {
                        assert(!same_field(lw0[i], lw0[j]));
                    }
                } else {
                    assert(!same_field(lw0[i], lw0[j]));
                }
            }
            assert forall|i: int| 0 <= i < lw.len() implies {
                &&& for_table(#[trigger] lw[i], self.table())
                &&& self.record(lw[i].row) is Some
                &&& self.record(lw[i].row)->Some_0.reflects(lw[i])
                &&& h.contains(lw[i])
            } by {
                if i != ni {
                    assert(lw[i] == lw0[i]);
                    assert(h0.contains(lw0[i]));
                    let k = choose|k: int| 0 <= k < h0.len() && h0[k] == lw0[i];
                    assert(h[k] == h0[k]);
                    if lw[i].row == m.row {
                        if li is Some {
                            let li_i = li->Some_0 as int;
                            if i < li_i {
                                assert(!same_field(lw0[i], lw0[li_i]));
                            } else {
                                assert(!same_field(lw0[li_i], lw0[i]));
                            }
                        }
                        assert(lw[i].column != m.column);
                    }
                }
            }
            assert forall|k: int| 0 <= k < h.len() implies #[trigger] covered_by(lw, h[k]) by {
                if k < h0.len() {
                    assert(h[k] == h0[k]);
                    assert(covered_by(lw0, h0[k]));
                    let i = choose|i: int| 0 <= i < lw0.len() && same_field(#[trigger] lw0[i], h0[k]) && !lex_lt(lw0[i].timestamp, h0[k].timestamp);
                    if i == ni {
                        // the field's write was replaced by `m`, which is not earlier
                        assert(same_field(lw[ni], h[k]));
                        assert(!lex_lt(m.timestamp, lw0[i].timestamp)) by {
                            if lex_lt(m.timestamp, lw0[i].timestamp) {
                                assert(same_field(lw0[i], m));
                            }
                        }
                        if lex_lt(m.timestamp, h0[k].timestamp) {
                            crate::text::lemma_lex_lt_total(m.timestamp, lw0[i].timestamp);
                            if m.timestamp == lw0[i].timestamp {
                            } else {
                                crate::text::lemma_lex_lt_transitive(lw0[i].timestamp, m.timestamp, h0[k].timestamp);
                            }
                        }
                    } else {
                        assert(lw[i] == lw0[i]);
                    }
                } else {
                    assert(h[k] == m);
                    crate::text::lemma_lex_lt_irreflexive(m.timestamp);
                    assert(same_field(lw[ni], h[k]));
                }
            }
            assert forall|k: int| 0 <= k < h.len() implies for_table(#[trigger] h[k], self.table()) && self.applied().contains(h[k].timestamp) by {
                if k < h0.len() {
                    assert(h[k] == h0[k]);
                }
            }
            assert forall|t: Seq<char>| #[trigger] self.applied().contains(t) implies exists|k: int| 0 <= k < h.len() && #[trigger] h[k].timestamp == t by {
                if t == m.timestamp {
                    assert(h[h0.len() as int].timestamp == t);
                } else {
                    let k = choose|k: int| 0 <= k < h0.len() && #[trigger] h0[k].timestamp == t;
                    assert(h[k] == h0[k]);
                }
            }
        }
    }
}

impl<Item: MessageHandler, const MERKLE_BASE: usize> Store<Item, MERKLE_BASE> for MemStorage<Item, MERKLE_BASE> {
    open spec fn valid(&self, clock: &MerkleClock<MERKLE_BASE>) -> bool {
        self.wf() && holds(clock.trie(), parsed(self.history()))
    }

    fn apply_messages(&mut self, clock: &mut MerkleClock<MERKLE_BASE>, messages: &mut Vec<Message>) -> (r: Result<(), Error>) {
        MemStorage::apply_messages(self, clock, messages)
    }

    fn items(&self) -> &Vec<Item> {
        MemStorage::items(self)
    }

    fn applied_messages(&self) -> &Vec<String> {
        MemStorage::applied_messages(self)
    }
}

} // verus!
