//! Append-only log of authored messages.
//!
//! Entries live in a strictly ordered sequence; a 0-based position addresses
//! an entry, and removing an entry shifts every later entry down by one, so a
//! position is not a stable identifier across removals. Updates and removals
//! are gated on the stored author string matching the caller's claim; the
//! author is self-asserted metadata, not an authenticated identity.

use vstd::prelude::*;

verus! {

/// One stored message: its text, the store-assigned time of creation or last
/// modification, and the author string the caller supplied when storing it.
#[derive(Debug)]
pub struct LogEntry {
    pub content: String,
    pub timestamp: u64,
    pub author: String,
}

impl Clone for LogEntry {
    fn clone(&self) -> (r: Self)
        ensures
            r == *self,
    {
        LogEntry {
            content: self.content.clone(),
            timestamp: self.timestamp,
            author: self.author.clone(),
        }
    }
}

/// Why a position-addressed mutation was rejected.
#[derive(Clone, Copy, PartialEq, Eq, Structural, Debug)]
pub enum LogError {
    /// The position is outside the current bounds of the log.
    InvalidPosition,
    /// The caller's author string does not match the stored author.
    Unauthorized,
}

/// The entries of `s` whose author equals `author`, in storage order, each
/// reduced to its content and timestamp.
pub open spec fn by_author(s: Seq<LogEntry>, author: Seq<char>) -> Seq<(String, u64)>
    decreases s.len(),
{
    if s.len() == 0 {
        Seq::empty()
    } else if s.last().author@ == author {
        by_author(s.drop_last(), author).push((s.last().content, s.last().timestamp))
    } else {
        by_author(s.drop_last(), author)
    }
}

/// Law: removing the entry at `position` keeps every earlier entry in place
/// and shifts every later entry down by one position, so the entry that
/// stood at `position + 1` stands at `position` afterwards. The hypothesis
/// is what `remove_message`'s contract ensures on success.
pub proof fn lemma_remove_shifts_down(pre: Seq<LogEntry>, post: Seq<LogEntry>, position: int)
    requires
        0 <= position < pre.len(),
        post == pre.remove(position),
    ensures
        post.len() == pre.len() - 1,
        forall|i: int| 0 <= i < position ==> post[i] == pre[i],
        forall|i: int| position <= i < post.len() ==> post[i] == pre[i + 1],
{
    pre.remove_ensures(position);
}

/// Law: a stored entry reads back exactly as written — after an append, the
/// element at the returned position (the old length) is the entry that was
/// stored, content, timestamp and author alike. The hypothesis is what
/// `store_message`'s contract ensures.
pub proof fn lemma_store_round_trip(pre: Seq<LogEntry>, post: Seq<LogEntry>, entry: LogEntry)
    requires
        post == pre.push(entry),
    ensures
        post.len() == pre.len() + 1,
        post[pre.len() as int] == entry,
        forall|i: int| 0 <= i < pre.len() ==> post[i] == pre[i],
{
}

/// Law: the count equals the length of the full retrieval after any sequence
/// of operations. The hypotheses are what `get_message_count` and
/// `retrieve_messages` each ensure of one and the same store value, which
/// every mutation's contract pins exactly.
pub proof fn lemma_count_matches_retrieval(s: Seq<LogEntry>, count: usize, listed: Seq<(String, u64, String)>)
    requires
        count == s.len(),
        listed.len() == s.len(),
    ensures
        count == listed.len(),
{
}

/// Law: reads are idempotent — two author filters of one and the same store
/// value return identical results, since each returns exactly `by_author` of
/// the store, and a shared reference rules out intervening mutation.
pub proof fn lemma_filter_idempotent(
    s: Seq<LogEntry>,
    author: Seq<char>,
    r1: Seq<(String, u64)>,
    r2: Seq<(String, u64)>,
)
    requires
        r1 == by_author(s, author),
        r2 == by_author(s, author),
    ensures
        r1 == r2,
{
}

/// The append-only log store. Its abstract value is the sequence of entries
/// in storage order.
pub struct LogStore {
    entries: Vec<LogEntry>,
}

impl View for LogStore {
    type V = Seq<LogEntry>;

    closed spec fn view(&self) -> Seq<LogEntry> {
        self.entries@
    }
}

impl LogStore {
    /// An empty log.
    pub fn new() -> (r: LogStore)
        ensures
            r@ == Seq::<LogEntry>::empty(),
    {
        LogStore { entries: Vec::new() }
    }

    /// The number of stored entries.
    pub fn get_message_count(&self) -> (r: usize)
        ensures
            r == self@.len(),
    {
        self.entries.len()
    }

    /// Appends a new entry holding `text` and `author`, stamped with the
    /// supplied current time, and returns its 0-based position.
    pub fn store_message(&mut self, text: String, author: String, now: u64) -> (r: u64)
        ensures
            final(self)@ == old(self)@.push((LogEntry { content: text, timestamp: now, author })),
            r == old(self)@.len() as u64,
    {
        let entry = LogEntry { content: text, timestamp: now, author };
        let position = self.entries.len();
        self.entries.push(entry);
        position as u64
    }

    /// All entries in storage order, as (content, timestamp, author) triples.
    pub fn retrieve_messages(&self) -> (r: Vec<(String, u64, String)>)
        ensures
            r@.len() == self@.len(),
            forall|i: int| 0 <= i < self@.len() ==> r@[i] == (
                self@[i].content,
                self@[i].timestamp,
                self@[i].author,
            ),
    {
        let mut out: Vec<(String, u64, String)> = Vec::new();
        let mut i: usize = 0;
        while i < self.entries.len()
            invariant
                i <= self@.len(),
                out@.len() == i,
                forall|j: int| 0 <= j < i ==> out@[j] == (
                    self@[j].content,
                    self@[j].timestamp,
                    self@[j].author,
                ),
            decreases self@.len() - i,
        {
            let e = &self.entries[i];
            out.push((e.content.clone(), e.timestamp, e.author.clone()));
            i = i + 1;
        }
        out
    }

    /// The entries whose author equals `author`, in storage order, each as a
    /// (content, timestamp) pair.
    pub fn get_messages_by_author(&self, author: String) -> (r: Vec<(String, u64)>)
        ensures
            r@ == by_author(self@, author@),
    {
        let mut out: Vec<(String, u64)> = Vec::new();
        let mut i: usize = 0;
        while i < self.entries.len()
            invariant
                i <= self@.len(),
                out@ == by_author(self@.take(i as int), author@),
            decreases self@.len() - i,
        {
            let e = &self.entries[i];
            proof {
                assert(self@.take(i + 1 as int).drop_last() =~= self@.take(i as int));
                assert(self@.take(i + 1 as int).last() == self@[i as int]);
            }
            if e.author == author {
                out.push((e.content.clone(), e.timestamp));
            }
            i = i + 1;
        }
        proof {
            assert(self@.take(self@.len() as int) =~= self@);
        }
        out
    }

    /// Replaces the content at `position` and refreshes its timestamp to the
    /// supplied current time, provided the position is in bounds and `author`
    /// matches the stored author; the stored author itself never changes.
    /// Rejected calls leave the log untouched.
    pub fn update_message(&mut self, position: usize, updated_text: String, author: String, now: u64) -> (r:
        Result<(), LogError>)
        ensures
            position >= old(self)@.len() ==> r == Err::<(), LogError>(LogError::InvalidPosition)
                && final(self)@ == old(self)@,
            position < old(self)@.len() && old(self)@[position as int].author@ != author@ ==> r
                == Err::<(), LogError>(LogError::Unauthorized) && final(self)@ == old(self)@,
            position < old(self)@.len() && old(self)@[position as int].author@ == author@ ==> r
                == Ok::<(), LogError>(()) && final(self)@ == old(self)@.update(
                position as int,
                (LogEntry {
                    content: updated_text,
                    timestamp: now,
                    author: old(self)@[position as int].author,
                }),
            ),
    {
        if position >= self.entries.len() {
            return Err(LogError::InvalidPosition);
        }
        if self.entries[position].author != author {
            return Err(LogError::Unauthorized);
        }
        let stored_author = self.entries[position].author.clone();
        let entry = LogEntry { content: updated_text, timestamp: now, author: stored_author };
        self.entries[position] = entry;
        Ok(())
    }

    /// Removes the entry at `position`, provided the position is in bounds
    /// and `author` matches the stored author; every later entry shifts down
    /// by one position. Rejected calls leave the log untouched.
    pub fn remove_message(&mut self, position: usize, author: String) -> (r: Result<(), LogError>)
        ensures
            position >= old(self)@.len() ==> r == Err::<(), LogError>(LogError::InvalidPosition)
                && final(self)@ == old(self)@,
            position < old(self)@.len() && old(self)@[position as int].author@ != author@ ==> r
                == Err::<(), LogError>(LogError::Unauthorized) && final(self)@ == old(self)@,
            position < old(self)@.len() && old(self)@[position as int].author@ == author@ ==> r
                == Ok::<(), LogError>(()) && final(self)@ == old(self)@.remove(position as int),
    {
        if position >= self.entries.len() {
            return Err(LogError::InvalidPosition);
        }
        if self.entries[position].author != author {
            return Err(LogError::Unauthorized);
        }
        self.entries.remove(position);
        Ok(())
    }
}

} // verus!
