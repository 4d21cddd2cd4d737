//! The server side of replication: per group, a log of messages unique by
//! timestamp and the merkle trie of their timestamps; answers a sync with
//! the messages the client lacks since the earliest divergence.

use vstd::prelude::*;

use crate::merkle::{diff_spec, holds, MerkleTrie};
use crate::models::{lemma_parsed_len, parsed, views, Message, MessageView};
use crate::storage::{sort_by_timestamp, sorted_by_timestamp};
use crate::text::{chars_of, lex_lt, str_eq, str_lt};
use crate::timestamp::{parse_spec, ts_string, Timestamp, TimestampView};

verus! {

/// The node id the server stamps its divergence floors with.
pub const SERVER_NODE: &'static str = "SERVER";

/// Some message of `log` carries timestamp `t`.
pub open spec fn has_timestamp(log: Seq<MessageView>, t: Seq<char>) -> bool {
    exists|i: int| 0 <= i < log.len() && #[trigger] log[i].timestamp == t
}

/// `log` after offering it `ms` in order: each message whose timestamp the
/// log does not hold yet is appended, the others are ignored.
pub open spec fn appended(log: Seq<MessageView>, ms: Seq<MessageView>) -> Seq<MessageView>
    decreases ms.len(),
{
    if ms.len() == 0 {
        log
    } else {
        let l = appended(log, ms.drop_last());
        if has_timestamp(l, ms.last().timestamp) {
            l
        } else {
            l.push(ms.last())
        }
    }
}

/// `s` ends with `suffix`.
pub open spec fn ends_with(s: Seq<char>, suffix: Seq<char>) -> bool {
    suffix.len() <= s.len() && s.subrange(s.len() - suffix.len(), s.len() as int) == suffix
}

/// A message the client lacks: later than `since` and not written by
/// `client_id` (whose id ends its timestamps).
pub open spec fn is_late(m: MessageView, client_id: Seq<char>, since: Seq<char>) -> bool {
    lex_lt(since, m.timestamp) && !ends_with(m.timestamp, client_id)
}

/// The messages of `log` the client lacks, in log order.
pub open spec fn late(log: Seq<MessageView>, client_id: Seq<char>, since: Seq<char>) -> Seq<MessageView>
    decreases log.len(),
{
    if log.len() == 0 {
        seq![]
    } else {
        let r = late(log.drop_last(), client_id, since);
        if is_late(log.last(), client_id, since) {
            r.push(log.last())
        } else {
            r
        }
    }
}

/// One group's log and trie.
pub struct GroupLog<const BASE: usize> {
    group_id: String,
    log: Vec<Message>,
    merkle: MerkleTrie<BASE>,
}

impl<const BASE: usize> GroupLog<BASE> {
    pub closed spec fn id(&self) -> Seq<char> {
        self.group_id@
    }

    pub closed spec fn entries(&self) -> Seq<MessageView> {
        views(self.log@)
    }

    pub closed spec fn trie(&self) -> MerkleTrie<BASE> {
        self.merkle
    }

    /// The trie holds exactly the parsed timestamps of the log.
    pub open spec fn wf(&self) -> bool {
        holds(self.trie(), parsed(self.entries()))
    }

    fn new(group_id: &str) -> (r: Self)
        ensures
            r.id() == group_id@,
            r.entries() == Seq::<MessageView>::empty(),
            r.wf(),
    {
        let r = GroupLog { group_id: group_id.to_owned(), log: Vec::new(), merkle: MerkleTrie::new() };
        assert(r.entries() =~= Seq::<MessageView>::empty());
        r
    }

    fn holds_timestamp(&self, t: &String) -> (r: bool)
        ensures
            r == has_timestamp(self.entries(), t@),
    {
        let mut i: usize = 0;
        while i < self.log.len()
            invariant
                i <= self.log@.len(),
                forall|j: int| 0 <= j < i ==> self.log@[j]@.timestamp != t@,
            decreases self.log.len() - i,
        {
            if self.log[i].timestamp == *t {
                assert(self.entries()[i as int].timestamp == t@);
                return true;
            }
            i = i + 1;
        }
        assert forall|j: int| 0 <= j < self.entries().len() implies #[trigger] self.entries()[j].timestamp != t@ by {
            assert(self.entries()[j] == self.log@[j]@);
        }
        false
    }

    /// Offers `messages` to the log in order, keeping the first of each
    /// timestamp, and files the timestamp of each kept one in the trie.
    fn add(&mut self, messages: &Vec<Message>)
        requires
            old(self).wf(),
            BASE >= 2,
        ensures
            final(self).wf(),
            final(self).id() == old(self).id(),
            final(self).entries() == appended(old(self).entries(), views(messages@)),
    {
        let mut i: usize = 0;
        assert(views(messages@).subrange(0, 0) =~= Seq::<MessageView>::empty());
        while i < messages.len()
            invariant
                i <= messages@.len(),
                BASE >= 2,
                self.wf(),
                self.id() == old(self).id(),
                self.entries() == appended(old(self).entries(), views(messages@).subrange(0, i as int)),
            decreases messages.len() - i,
        {
            let ghost pre = views(messages@).subrange(0, i as int);
            let ghost next = views(messages@).subrange(0, i + 1);
            assert(next.drop_last() =~= pre);
            assert(next.last() == messages@[i as int]@);
            if !self.holds_timestamp(&messages[i].timestamp) {
                let ghost before = *self;
                let m = messages[i].copy();
                let parsed_t = Timestamp::parse(m.timestamp.as_str());
                self.log.push(m);
                let total = self.log.len();
                proof {
                    assert(self.entries() =~= before.entries().push(messages@[i as int]@));
                    assert(self.entries().drop_last() =~= before.entries());
                    lemma_parsed_len(before.entries());
                    assert(self.log@.len() == total);
                    assert(parsed(before.entries()).len() < u64::MAX);
                }
                match parsed_t {
                    Ok(t) => {
                        self.merkle.insert(&t);
                        proof {
                            assert(holds(self.merkle, parsed(before.entries()).push(t@)));
                        }
                    },
                    Err(_) => {},
                }
            }
            i = i + 1;
        }
        assert(views(messages@).subrange(0, messages@.len() as int) =~= views(messages@));
    }

    /// The messages of the log the client lacks, ascending by timestamp.
    fn late_messages(&self, client_id: &str, since: &str) -> (r: Vec<Message>)
        ensures
            views(r@).to_multiset() == late(self.entries(), client_id@, since@).to_multiset(),
            sorted_by_timestamp(views(r@)),
    {
        let client = chars_of(client_id);
        let mut out: Vec<Message> = Vec::new();
        let mut i: usize = 0;
        while i < self.log.len()
            invariant
                i <= self.log@.len(),
                client@ == client_id@,
                views(out@) == late(self.entries().subrange(0, i as int), client_id@, since@),
            decreases self.log.len() - i,
        {
            let ghost pre = self.entries().subrange(0, i as int);
            let ghost next = self.entries().subrange(0, i + 1);
            assert(next.drop_last() =~= pre);
            assert(next.last() == self.log@[i as int]@);
            let m = &self.log[i];
            if str_lt(since, m.timestamp.as_str()) && !ends_with_chars(&chars_of(m.timestamp.as_str()), &client) {
                let ghost out_old = views(out@);
                out.push(m.copy());
                assert(views(out@) =~= out_old.push(m@));
            }
            i = i + 1;
        }
        assert(self.entries().subrange(0, self.log@.len() as int) =~= self.entries());
        sort_by_timestamp(&mut out);
        out
    }
}

/// Whether `s` ends with `suffix`.
pub fn ends_with_chars(s: &Vec<char>, suffix: &Vec<char>) -> (r: bool)
    ensures
        r == ends_with(s@, suffix@),
{
    if suffix.len() > s.len() {
        return false;
    }
    let n = s.len();
    let off = n - suffix.len();
    let mut i: usize = 0;
    while i < suffix.len()
        invariant
            n == s@.len(),
            off + suffix@.len() == s@.len(),
            i <= suffix@.len(),
            forall|j: int| 0 <= j < i ==> s@[off + j] == suffix@[j],
        decreases suffix.len() - i,
    {
        if s[off + i] != suffix[i] {
            assert(s@.subrange(off as int, s@.len() as int)[i as int] != suffix@[i as int]);
            return false;
        }
        i = i + 1;
    }
    assert(s@.subrange(off as int, s@.len() as int) =~= suffix@);
    true
}

/// The server's groups.
pub struct Server<const BASE: usize> {
    groups: Vec<GroupLog<BASE>>,
}

impl<const BASE: usize> Server<BASE> {
    pub closed spec fn group_seq(&self) -> Seq<GroupLog<BASE>> {
        self.groups@
    }

    /// Groups have distinct ids, and every group's trie holds exactly the
    /// parsed timestamps of its log.
    pub open spec fn wf(&self) -> bool {
        &&& forall|i: int| 0 <= i < self.group_seq().len() ==> (#[trigger] self.group_seq()[i]).wf()
        &&& forall|i: int, j: int| 0 <= i < self.group_seq().len() && 0 <= j < self.group_seq().len() && i != j
            ==> #[trigger] self.group_seq()[i].id() != #[trigger] self.group_seq()[j].id()
    }

    /// The log of `group_id`, if the group has one.
    pub open spec fn group(&self, group_id: Seq<char>) -> Option<GroupLog<BASE>> {
        if exists|i: int| 0 <= i < self.group_seq().len() && #[trigger] self.group_seq()[i].id() == group_id {
            let i = choose|i: int| 0 <= i < self.group_seq().len() && #[trigger] self.group_seq()[i].id() == group_id;
            Some(self.group_seq()[i])
        } else {
            None
        }
    }

    /// A server with no groups.
    pub fn new() -> (r: Self)
        ensures
            r.wf(),
            r.group_seq().len() == 0,
    {
        Server { groups: Vec::new() }
    }

    fn find_group(&self, group_id: &str) -> (r: Option<usize>)
        ensures
            r matches Some(i) ==> i < self.group_seq().len() && self.group_seq()[i as int].id() == group_id@,
            r is None ==> forall|i: int| 0 <= i < self.group_seq().len() ==> #[trigger] self.group_seq()[i].id() != group_id@,
    {
        let mut i: usize = 0;
        while i < self.groups.len()
            invariant
                i <= self.groups@.len(),
                forall|j: int| 0 <= j < i ==> #[trigger] self.groups@[j].id() != group_id@,
            decreases self.groups.len() - i,
        {
            if str_eq(self.groups[i].group_id.as_str(), group_id) {
                return Some(i);
            }
            i = i + 1;
        }
        None
    }

    /// The trie of `group_id`, if the group has one.
    pub fn merkle(&self, group_id: &str) -> (r: Option<&MerkleTrie<BASE>>)
        ensures
            r matches Some(t) ==> exists|i: int| 0 <= i < self.group_seq().len() && #[trigger] self.group_seq()[i].id() == group_id@
                && self.group_seq()[i].trie() == *t,
            r is None ==> forall|i: int| 0 <= i < self.group_seq().len() ==> #[trigger] self.group_seq()[i].id() != group_id@,
    {
        match self.find_group(group_id) {
            Some(i) => Some(&self.groups[i].merkle),
            None => None,
        }
    }

    /// The messages stored for `group_id`, in the order they were kept.
    pub fn messages(&self, group_id: &str) -> (r: Option<&Vec<Message>>)
        ensures
            r matches Some(l) ==> exists|i: int| 0 <= i < self.group_seq().len() && #[trigger] self.group_seq()[i].id() == group_id@
                && self.group_seq()[i].entries() == views(l@),
            r is None ==> forall|i: int| 0 <= i < self.group_seq().len() ==> #[trigger] self.group_seq()[i].id() != group_id@,
    {
        match self.find_group(group_id) {
            Some(i) => Some(&self.groups[i].log),
            None => None,
        }
    }

    /// Stores the messages of a group that are new by timestamp, creating
    /// the group if needed, and files their timestamps in its trie. Returns
    /// the position of the group.
    pub fn add_messages(&mut self, group_id: &str, messages: &Vec<Message>) -> (r: usize)
        requires
            old(self).wf(),
            BASE >= 2,
        ensures
            final(self).wf(),
            r < final(self).group_seq().len(),
            final(self).group_seq()[r as int].id() == group_id@,
            final(self).group_seq()[r as int].entries() == appended(
                match old(self).group(group_id@) {
                    Some(g) => g.entries(),
                    None => Seq::<MessageView>::empty(),
                },
                views(messages@),
            ),
    {
        let idx = match self.find_group(group_id) {
            Some(i) => i,
            None => {
                self.groups.push(GroupLog::new(group_id));
                assert(forall|i: int| 0 <= i < old(self).group_seq().len() ==> #[trigger] self.group_seq()[i] == old(self).group_seq()[i]);
                self.groups.len() - 1
            },
        };
        let ghost mid = self.groups@;
        assert(mid[idx as int].entries() == match old(self).group(group_id@) {
            Some(g) => g.entries(),
            None => Seq::<MessageView>::empty(),
        }) by {
            if old(self).group(group_id@) is Some {
                let i = choose|i: int| 0 <= i < old(self).group_seq().len() && #[trigger] old(self).group_seq()[i].id() == group_id@;
                assert(self.group_seq()[i] == old(self).group_seq()[i]);
                assert(i == idx);
            }
        }
        let mut g = self.groups.remove(idx);
        g.add(messages);
        self.groups.insert(idx, g);
        proof {
            assert(self.groups@ =~= mid.update(idx as int, g));
            assert forall|i: int, j: int| 0 <= i < self.group_seq().len() && 0 <= j < self.group_seq().len() && i != j
                implies #[trigger] self.group_seq()[i].id() != #[trigger] self.group_seq()[j].id() by {
                assert(mid[i].id() != mid[j].id());
            }
        }
        idx
    }

    /// Answers a sync request: stores the client's new messages, compares
    /// the group's trie with the client's and, where they diverge at `d`,
    /// returns the group's messages later than the floor at `d` that the
    /// client did not write. The group's trie is the other half of the
    /// answer (see `merkle`).
    pub fn handle_sync(&mut self, group_id: &str, client_id: &str, messages: &Vec<Message>, client_merkle: &MerkleTrie<BASE>) -> (r: Vec<Message>)
        requires
            old(self).wf(),
            BASE >= 2,
        ensures
            final(self).wf(),
            final(self).group(group_id@) is Some,
            final(self).group(group_id@)->Some_0.entries() == appended(
                match old(self).group(group_id@) {
                    Some(g) => g.entries(),
                    None => Seq::<MessageView>::empty(),
                },
                views(messages@),
            ),
            match diff_spec(final(self).group(group_id@)->Some_0.trie(), *client_merkle) {
                None => r@.len() == 0,
                Some(d) => views(r@).to_multiset() == late(
                    final(self).group(group_id@)->Some_0.entries(),
                    client_id@,
                    ts_string(TimestampView { millis: d, counter: 0, node: SERVER_NODE@ }),
                ).to_multiset() && sorted_by_timestamp(views(r@)),
            },
    {
        let idx = self.add_messages(group_id, messages);
        proof {
            let i = choose|i: int| 0 <= i < self.group_seq().len() && #[trigger] self.group_seq()[i].id() == group_id@;
            assert(i == idx);
        }
        let g = &self.groups[idx];
        match g.merkle.diff(client_merkle) {
            Some(d) => {
                let floor = Timestamp::new(d, 0, SERVER_NODE.to_owned()).to_string();
                g.late_messages(client_id, floor.as_str())
            },
            None => Vec::new(),
        }
    }
}

} // verus!
