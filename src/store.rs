use vstd::prelude::*;
use vstd::string::*;

use crate::events::{opt_view, MessageView, NewMessage};

verus! {

/// How a store operation can fail.
#[derive(Clone, Copy, Debug, PartialEq, Eq, Structural)]
pub enum StoreError {
    /// No thread or message has the given identifier.
    NotFound,
    /// The supplied credential does not match the stored one.
    NotAuthorized,
    /// The store cannot allocate another identifier or sequence number.
    StorageFailure,
}

/// One stored message of a thread.
pub struct MessageRow {
    pub no: u32,
    pub name: Option<String>,
    pub trip: Option<String>,
    pub text: String,
    pub ts: u64,
    pub secret: Option<String>,
}

/// One stored thread with its messages, in the order of their numbers.
pub struct ThreadRow {
    pub id: u32,
    pub last_reply_no: u32,
    pub bump: u64,
    pub subject: Option<String>,
    pub messages: Vec<MessageRow>,
}

/// A message as handed out to readers.
pub struct OutMessage {
    pub no: u32,
    pub name: String,
    pub trip: String,
    pub text: String,
}

/// A thread summary: its identifier, its opening message and its latest replies.
pub struct Thread {
    pub id: u32,
    pub op: OutMessage,
    pub last: Vec<OutMessage>,
}

/// The thread and message store. Threads are kept in ascending `(bump, id)` order.
pub struct Db {
    pub threads: Vec<ThreadRow>,
    pub next_id: u32,
}

pub open spec fn key_lt(a: ThreadRow, b: ThreadRow) -> bool {
    a.bump < b.bump || (a.bump == b.bump && a.id < b.id)
}

/// A thread's messages: the opening post numbered 0 first, numbers strictly
/// increasing, none above `last_reply_no`.
pub open spec fn thread_wf(t: ThreadRow) -> bool {
    &&& t.messages@.len() > 0
    &&& t.messages@[0].no == 0
    &&& forall|j: int, k: int|
        0 <= j < k < t.messages@.len() ==> #[trigger] t.messages@[j].no < #[trigger] t.messages@[k].no
    &&& forall|j: int| 0 <= j < t.messages@.len() ==> #[trigger] t.messages@[j].no <= t.last_reply_no
}

pub open spec fn sorted(s: Seq<ThreadRow>) -> bool {
    forall|i: int, j: int| 0 <= i < j < s.len() ==> key_lt(#[trigger] s[i], #[trigger] s[j])
}

pub open spec fn ids_unique(s: Seq<ThreadRow>) -> bool {
    forall|i: int, j: int| 0 <= i < s.len() && 0 <= j < s.len() && i != j ==> #[trigger] s[i].id != #[trigger] s[j].id
}

/// A stored message holds what was posted, under number `no`, posted at `now`;
/// its secret is the credential that a later deletion must supply.
pub open spec fn row_of(r: MessageRow, no: u32, m: MessageView, now: u64) -> bool {
    &&& r.no == no
    &&& r.text@ == m.text
    &&& opt_view(r.name) == m.name
    &&& opt_view(r.trip) == m.trip
    &&& r.ts == now
    &&& opt_view(r.secret) == m.secret
}

pub open spec fn index_of(s: Seq<ThreadRow>, id: u32) -> Option<int> {
    if exists|i: int| 0 <= i < s.len() && s[i].id == id {
        Some(choose|i: int| 0 <= i < s.len() && s[i].id == id)
    } else {
        None
    }
}

/// `new` is `old` with one row added at position `p`.
pub open spec fn inserted_at(new: Seq<ThreadRow>, old: Seq<ThreadRow>, p: int) -> bool {
    0 <= p < new.len() && new.remove(p) == old
}


pub open spec fn msg_index(s: Seq<MessageRow>, no: u32) -> Option<int> {
    if exists|j: int| 0 <= j < s.len() && s[j].no == no {
        Some(choose|j: int| 0 <= j < s.len() && s[j].no == no)
    } else {
        None
    }
}

/// Deletion is allowed only where a credential was stored and matches exactly.
pub open spec fn authorized(stored: Option<String>, supplied: Seq<char>) -> bool {
    match stored {
        Some(s) => s@ == supplied,
        None => false,
    }
}

/// A freshly created thread: number 0 is its only message, bumped at `now`.
pub open spec fn fresh_thread(t: ThreadRow, id: u32, m: MessageView, subject: Option<Seq<char>>, now: u64) -> bool {
    &&& t.id == id
    &&& t.last_reply_no == 0
    &&& t.bump == now
    &&& opt_view(t.subject) == subject
    &&& t.messages@.len() == 1
    &&& row_of(t.messages@[0], 0, m, now)
}

/// `n` is thread `t` after reply number `no` was posted at `now`.
pub open spec fn replied(n: ThreadRow, t: ThreadRow, no: u32, m: MessageView, now: u64) -> bool {
    &&& n.id == t.id
    &&& n.last_reply_no == no
    &&& n.bump == now
    &&& n.subject == t.subject
    &&& n.messages@.len() == t.messages@.len() + 1
    &&& n.messages@.drop_last() == t.messages@
    &&& row_of(n.messages@.last(), no, m, now)
}

/// `n` is thread `t` with its message at position `j` taken out, all else kept.
pub open spec fn message_removed(n: ThreadRow, t: ThreadRow, j: int) -> bool {
    &&& n.id == t.id
    &&& n.last_reply_no == t.last_reply_no
    &&& n.bump == t.bump
    &&& n.subject == t.subject
    &&& n.messages@ == t.messages@.remove(j)
}

/// What creating a thread at time `now` did to the store.
pub open spec fn new_thread_post(
    old: Db,
    new: Db,
    m: MessageView,
    subject: Option<Seq<char>>,
    now: u64,
    r: Result<u32, StoreError>,
) -> bool {
    if old.next_id == u32::MAX {
        r == Err::<u32, StoreError>(StoreError::StorageFailure) && new == old
    } else {
        &&& r == Ok::<u32, StoreError>(old.next_id)
        &&& new.next_id == old.next_id + 1
        &&& exists|p: int|
            inserted_at(new.threads@, old.threads@, p) && fresh_thread(
                #[trigger] new.threads@[p],
                old.next_id,
                m,
                subject,
                now,
            )
    }
}

/// What replying to thread `id` at time `now` did to the store.
pub open spec fn reply_post(
    old: Db,
    new: Db,
    id: u32,
    m: MessageView,
    now: u64,
    r: Result<u32, StoreError>,
) -> bool {
    match index_of(old.threads@, id) {
        None => r == Err::<u32, StoreError>(StoreError::NotFound) && new == old,
        Some(i) => {
            let t = old.threads@[i];
            if t.last_reply_no == u32::MAX {
                r == Err::<u32, StoreError>(StoreError::StorageFailure) && new == old
            } else {
                let no = (t.last_reply_no + 1) as u32;
                &&& r == Ok::<u32, StoreError>(no)
                &&& new.next_id == old.next_id
                &&& exists|p: int|
                    inserted_at(new.threads@, old.threads@.remove(i), p) && replied(
                        #[trigger] new.threads@[p],
                        t,
                        no,
                        m,
                        now,
                    )
            }
        },
    }
}

/// What deleting thread `id` with credential `pw` did to the store.
pub open spec fn delete_thread_post(old: Db, new: Db, id: u32, pw: Seq<char>, r: Result<(), StoreError>) -> bool {
    match index_of(old.threads@, id) {
        None => r == Err::<(), StoreError>(StoreError::NotFound) && new == old,
        Some(i) => if authorized(old.threads@[i].messages@[0].secret, pw) {
            r == Ok::<(), StoreError>(()) && new.threads@ == old.threads@.remove(i) && new.next_id
                == old.next_id
        } else {
            r == Err::<(), StoreError>(StoreError::NotAuthorized) && new == old
        },
    }
}

/// What deleting message `no` of thread `id` with credential `pw` did to the store.
/// The opening post stands for the whole thread.
pub open spec fn delete_message_post(
    old: Db,
    new: Db,
    id: u32,
    no: u32,
    pw: Seq<char>,
    r: Result<(), StoreError>,
) -> bool {
    if no == 0 {
        delete_thread_post(old, new, id, pw, r)
    } else {
        match index_of(old.threads@, id) {
            None => r == Err::<(), StoreError>(StoreError::NotFound) && new == old,
            Some(i) => {
                let t = old.threads@[i];
                match msg_index(t.messages@, no) {
                    None => r == Err::<(), StoreError>(StoreError::NotFound) && new == old,
                    Some(j) => if authorized(t.messages@[j].secret, pw) {
                        &&& r == Ok::<(), StoreError>(())
                        &&& new.next_id == old.next_id
                        &&& new.threads@.len() == old.threads@.len()
                        &&& forall|k: int|
                            0 <= k < old.threads@.len() && k != i ==> #[trigger] new.threads@[k]
                                == old.threads@[k]
                        &&& message_removed(new.threads@[i], t, j)
                    } else {
                        r == Err::<(), StoreError>(StoreError::NotAuthorized) && new == old
                    },
                }
            },
        }
    }
}

/// The name shown for a message: the stored one, else "Anonymous".
pub open spec fn shown_name(n: Option<String>) -> Seq<char> {
    match n {
        Some(s) => s@,
        None => "Anonymous"@,
    }
}

pub open spec fn shown_trip(n: Option<String>) -> Seq<char> {
    match n {
        Some(s) => s@,
        None => Seq::empty(),
    }
}

/// `o` is how message `m` is handed out.
pub open spec fn out_of(o: OutMessage, m: MessageRow) -> bool {
    &&& o.no == m.no
    &&& o.name@ == shown_name(m.name)
    &&& o.trip@ == shown_trip(m.trip)
    &&& o.text@ == m.text@
}

/// `t` summarises thread `row`: its opening post, and no replies listed.
pub open spec fn summarizes(t: Thread, row: ThreadRow) -> bool {
    &&& t.id == row.id
    &&& out_of(t.op, row.messages@[0])
    &&& t.last@.len() == 0
}

/// `r` is the page of threads bumped after `ts`: starting at position `s`, the
/// first thread bumped after `ts`, and at most `limit` long.
pub open spec fn page_at(rows: Seq<ThreadRow>, ts: u32, limit: u32, r: Seq<Thread>, s: int) -> bool {
    &&& 0 <= s <= rows.len()
    &&& forall|i: int| 0 <= i < s ==> #[trigger] rows[i].bump <= ts
    &&& forall|i: int| s <= i < rows.len() ==> #[trigger] rows[i].bump > ts
    &&& r.len() == if rows.len() - s < limit {
        rows.len() - s
    } else {
        limit as int
    }
    &&& forall|k: int| 0 <= k < r.len() ==> summarizes(#[trigger] r[k], rows[s + k])
}

pub open spec fn is_page(rows: Seq<ThreadRow>, ts: u32, limit: u32, r: Seq<Thread>) -> bool {
    exists|s: int| page_at(rows, ts, limit, r, s)
}

proof fn lemma_remove_keeps(s: Seq<ThreadRow>, i: int, next_id: u32)
    requires
        0 <= i < s.len(),
        sorted(s),
        ids_unique(s),
        forall|k: int| 0 <= k < s.len() ==> #[trigger] s[k].id < next_id,
        forall|k: int| 0 <= k < s.len() ==> thread_wf(#[trigger] s[k]),
    ensures
        sorted(s.remove(i)),
        ids_unique(s.remove(i)),
        forall|k: int| 0 <= k < s.remove(i).len() ==> #[trigger] s.remove(i)[k].id < next_id,
        forall|k: int| 0 <= k < s.remove(i).len() ==> thread_wf(#[trigger] s.remove(i)[k]),
        forall|k: int| 0 <= k < s.remove(i).len() ==> #[trigger] s.remove(i)[k].id != s[i].id,
{
    let r = s.remove(i);
    assert forall|a: int, b: int| 0 <= a < b < r.len() implies key_lt(#[trigger] r[a], #[trigger] r[b]) by {
        let a0 = if a < i { a } else { a + 1 };
        let b0 = if b < i { b } else { b + 1 };
        assert(r[a] == s[a0] && r[b] == s[b0]);
    }
    assert forall|a: int, b: int| 0 <= a < r.len() && 0 <= b < r.len() && a != b implies #[trigger] r[a].id != #[trigger] r[b].id by {
        let a0 = if a < i { a } else { a + 1 };
        let b0 = if b < i { b } else { b + 1 };
        assert(r[a] == s[a0] && r[b] == s[b0]);
    }
    assert forall|k: int| 0 <= k < r.len() implies #[trigger] r[k].id != s[i].id by {
        let k0 = if k < i { k } else { k + 1 };
        assert(r[k] == s[k0]);
    }
    assert forall|k: int| 0 <= k < r.len() implies #[trigger] r[k].id < next_id && thread_wf(r[k]) by {
        let k0 = if k < i { k } else { k + 1 };
        assert(r[k] == s[k0]);
    }
}

proof fn lemma_insert_keeps(n: Seq<ThreadRow>, s: Seq<ThreadRow>, p: int, next_id: u32)
    requires
        inserted_at(n, s, p),
        ids_unique(s),
        forall|k: int| 0 <= k < s.len() ==> #[trigger] s[k].id != n[p].id,
        forall|k: int| 0 <= k < s.len() ==> #[trigger] s[k].id < next_id,
        forall|k: int| 0 <= k < s.len() ==> thread_wf(#[trigger] s[k]),
        n[p].id < next_id,
        thread_wf(n[p]),
    ensures
        ids_unique(n),
        forall|k: int| 0 <= k < n.len() ==> #[trigger] n[k].id < next_id,
        forall|k: int| 0 <= k < n.len() ==> thread_wf(#[trigger] n[k]),
{
    assert(n.len() == s.len() + 1);
    assert forall|k: int| 0 <= k < n.len() && k != p implies #[trigger] n[k] == s[if k < p { k } else { k - 1 }] by {
        assert(n.remove(p)[if k < p { k } else { k - 1 }] == n[k]);
    }
    assert forall|a: int, b: int| 0 <= a < n.len() && 0 <= b < n.len() && a != b implies #[trigger] n[a].id != #[trigger] n[b].id by {
        if a != p && b != p {
            assert(n[a] == s[if a < p { a } else { a - 1 }]);
            assert(n[b] == s[if b < p { b } else { b - 1 }]);
        } else if a != p {
            assert(n[a] == s[if a < p { a } else { a - 1 }]);
        } else {
            assert(n[b] == s[if b < p { b } else { b - 1 }]);
        }
    }
    assert forall|k: int| 0 <= k < n.len() implies #[trigger] n[k].id < next_id && thread_wf(n[k]) by {
        if k != p {
            assert(n[k] == s[if k < p { k } else { k - 1 }]);
        }
    }
}

/// Every thread opens with message number 0, and no other message of it has
/// that number.
pub proof fn lemma_opening_post_unique(db: Db, i: int, j: int)
    requires
        db.wf(),
        0 <= i < db.threads@.len(),
        0 <= j < db.threads@[i].messages@.len(),
    ensures
        db.threads@[i].messages@[0].no == 0,
        db.threads@[i].messages@[j].no == 0 ==> j == 0,
{
    let t = db.threads@[i];
    assert(thread_wf(t));
    if j > 0 {
        assert(t.messages@[0].no < t.messages@[j].no);
    }
}

/// The thread `id` of a store where it exists.
pub open spec fn thread_of(db: Db, id: u32) -> ThreadRow {
    db.threads@[index_of(db.threads@, id)->Some_0]
}

proof fn lemma_reply_row(old: Db, new: Db, id: u32, m: MessageView, now: u64, r: Result<u32, StoreError>) -> (p: int)
    requires
        old.wf(),
        new.wf(),
        reply_post(old, new, id, m, now, r),
        index_of(old.threads@, id) is Some,
        thread_of(old, id).last_reply_no < u32::MAX,
    ensures
        r == Ok::<u32, StoreError>((thread_of(old, id).last_reply_no + 1) as u32),
        0 <= p < new.threads@.len(),
        replied(new.threads@[p], thread_of(old, id), (thread_of(old, id).last_reply_no + 1) as u32, m, now),
        new.threads@[p].id == id,
        thread_wf(new.threads@[p]),
        thread_wf(thread_of(old, id)),
{
    let i = index_of(old.threads@, id)->Some_0;
    let t = old.threads@[i];
    assert(t.id == id);
    let p = choose|p: int|
        inserted_at(new.threads@, old.threads@.remove(i), p) && replied(
            #[trigger] new.threads@[p],
            t,
            (t.last_reply_no + 1) as u32,
            m,
            now,
        );
    assert(thread_wf(new.threads@[p]));
    assert(thread_wf(t));
    p
}

/// Creating a thread, while identifiers are left, succeeds with an identifier
/// that no thread had, and the new thread holds exactly one message, its
/// opening post numbered 0, with `last_reply_no` 0.
pub proof fn lemma_new_thread_opening(
    old: Db,
    new: Db,
    m: MessageView,
    subject: Option<Seq<char>>,
    now: u64,
    r: Result<u32, StoreError>,
)
    requires
        old.wf(),
        old.next_id < u32::MAX,
        new_thread_post(old, new, m, subject, now, r),
    ensures
        r == Ok::<u32, StoreError>(old.next_id),
        index_of(old.threads@, old.next_id) is None,
        exists|p: int|
            0 <= p < new.threads@.len() && #[trigger] new.threads@[p].id == old.next_id
                && new.threads@[p].last_reply_no == 0 && new.threads@[p].messages@.len() == 1
                && new.threads@[p].messages@[0].no == 0,
{
    let p = choose|p: int|
        inserted_at(new.threads@, old.threads@, p) && fresh_thread(
            #[trigger] new.threads@[p],
            old.next_id,
            m,
            subject,
            now,
        );
    assert(new.threads@[p].id == old.next_id);
    if exists|i: int| 0 <= i < old.threads@.len() && old.threads@[i].id == old.next_id {
        let i = choose|i: int| 0 <= i < old.threads@.len() && old.threads@[i].id == old.next_id;
        assert(old.threads@[i].id < old.next_id);
    }
}

/// Replying to an existing thread whose numbers are not used up succeeds;
/// right after, the thread's `last_reply_no` is the number of that reply and
/// the highest number among its messages.
pub proof fn lemma_reply_is_highest(old: Db, new: Db, id: u32, m: MessageView, now: u64, r: Result<u32, StoreError>)
    requires
        old.wf(),
        new.wf(),
        reply_post(old, new, id, m, now, r),
        index_of(old.threads@, id) is Some,
        thread_of(old, id).last_reply_no < u32::MAX,
    ensures
        r == Ok::<u32, StoreError>((thread_of(old, id).last_reply_no + 1) as u32),
        exists|p: int|
            0 <= p < new.threads@.len() && #[trigger] new.threads@[p].id == id && new.threads@[p].last_reply_no
                == r->Ok_0 && new.threads@[p].messages@.last().no == r->Ok_0 && forall|j: int|
                0 <= j < new.threads@[p].messages@.len() ==> #[trigger] new.threads@[p].messages@[j].no
                    <= new.threads@[p].last_reply_no,
{
    let p = lemma_reply_row(old, new, id, m, now, r);
    assert(new.threads@[p].id == id);
}

/// Replying to an existing thread whose numbers are not used up succeeds with
/// the number one above its previous `last_reply_no`: above every number
/// already in the thread, and never 0, so no two messages of a thread share a
/// number and the opening post stays the only one numbered 0.
pub proof fn lemma_reply_number_fresh(old: Db, new: Db, id: u32, m: MessageView, now: u64, r: Result<u32, StoreError>)
    requires
        old.wf(),
        new.wf(),
        reply_post(old, new, id, m, now, r),
        index_of(old.threads@, id) is Some,
        thread_of(old, id).last_reply_no < u32::MAX,
    ensures
        r == Ok::<u32, StoreError>((thread_of(old, id).last_reply_no + 1) as u32),
        r->Ok_0 != 0,
        forall|j: int|
            0 <= j < thread_of(old, id).messages@.len() ==> #[trigger] thread_of(old, id).messages@[j].no < r->Ok_0,
{
    lemma_reply_row(old, new, id, m, now, r);
}

/// `r` lists the threads at positions `s`, `s + 1`, ... of `rows`, each bumped
/// after `ts`, each before the next in `(bump, id)` order.
pub open spec fn ascending_after(rows: Seq<ThreadRow>, ts: u32, r: Seq<Thread>, s: int) -> bool {
    &&& 0 <= s
    &&& s + r.len() <= rows.len()
    &&& forall|k: int|
        0 <= k < r.len() ==> #[trigger] rows[s + k].id == r[k].id && rows[s + k].bump > ts && (k + 1 < r.len()
            ==> key_lt(rows[s + k], rows[s + k + 1]))
}

/// A page of threads bumped after `ts` holds only such threads, in strictly
/// ascending `(bump, id)` order, and no more than `limit` of them.
pub proof fn lemma_page_order(db: Db, ts: u32, limit: u32, r: Seq<Thread>)
    requires
        db.wf(),
        is_page(db.threads@, ts, limit, r),
    ensures
        r.len() <= limit,
        exists|s: int| #[trigger] ascending_after(db.threads@, ts, r, s),
{
    let s = choose|s: int| page_at(db.threads@, ts, limit, r, s);
    assert forall|k: int| 0 <= k < r.len() implies #[trigger] db.threads@[s + k].id == r[k].id && db.threads@[s + k].bump
        > ts && (k + 1 < r.len() ==> key_lt(db.threads@[s + k], db.threads@[s + k + 1])) by {
        assert(summarizes(r[k], db.threads@[s + k]));
        assert(db.threads@[s + k].bump > ts);
    }
    assert(ascending_after(db.threads@, ts, r, s));
}

/// A deletion refused for a wrong credential changes nothing, and is reported
/// as such, not as a missing thread or message.
pub proof fn lemma_denied_delete_keeps(old: Db, new: Db, id: u32, no: u32, pw: Seq<char>, r: Result<(), StoreError>)
    requires
        delete_message_post(old, new, id, no, pw, r),
        index_of(old.threads@, id) is Some,
        msg_index(old.threads@[index_of(old.threads@, id)->Some_0].messages@, no) is Some,
        !authorized(
            old.threads@[index_of(old.threads@, id)->Some_0].messages@[msg_index(
                old.threads@[index_of(old.threads@, id)->Some_0].messages@,
                no,
            )->Some_0].secret,
            pw,
        ),
        old.wf(),
    ensures
        r == Err::<(), StoreError>(StoreError::NotAuthorized),
        new == old,
{
    let i = index_of(old.threads@, id)->Some_0;
    let t = old.threads@[i];
    assert(thread_wf(t));
    if no == 0 {
        let j = msg_index(t.messages@, no)->Some_0;
        assert(t.messages@[j].no == 0);
        if j > 0 {
            assert(t.messages@[0].no < t.messages@[j].no);
        }
    }
}

proof fn lemma_no_at_least(t: ThreadRow, j: int)
    requires
        thread_wf(t),
        0 <= j < t.messages@.len(),
    ensures
        t.messages@[j].no >= j,
    decreases j,
{
    if j > 0 {
        lemma_no_at_least(t, j - 1);
        assert(t.messages@[j - 1].no < t.messages@[j].no);
    }
}

proof fn lemma_no_at_most(t: ThreadRow, j: int)
    requires
        thread_wf(t),
        0 <= j < t.messages@.len(),
    ensures
        t.messages@[j].no + (t.messages@.len() - 1 - j) <= t.last_reply_no,
    decreases t.messages@.len() - j,
{
    if j < t.messages@.len() - 1 {
        lemma_no_at_most(t, j + 1);
        assert(t.messages@[j].no < t.messages@[j + 1].no);
    }
}

/// A thread whose messages are numbered 0 to `last_reply_no` without a gap
/// (none of its replies was deleted) stays so after a reply, which succeeds
/// while its numbers are not used up.
pub proof fn lemma_numbers_gapless(old: Db, new: Db, id: u32, m: MessageView, now: u64, r: Result<u32, StoreError>)
    requires
        old.wf(),
        new.wf(),
        reply_post(old, new, id, m, now, r),
        index_of(old.threads@, id) is Some,
        thread_of(old, id).last_reply_no < u32::MAX,
        thread_of(old, id).messages@.len() == thread_of(old, id).last_reply_no + 1,
    ensures
        forall|j: int| 0 <= j < thread_of(old, id).messages@.len() ==> #[trigger] thread_of(old, id).messages@[j].no == j,
        r == Ok::<u32, StoreError>((thread_of(old, id).last_reply_no + 1) as u32),
        exists|p: int|
            0 <= p < new.threads@.len() && #[trigger] new.threads@[p].id == id
                && new.threads@[p].messages@.len() == new.threads@[p].last_reply_no + 1 && forall|j: int|
                0 <= j < new.threads@[p].messages@.len() ==> #[trigger] new.threads@[p].messages@[j].no == j,
{
    let p = lemma_reply_row(old, new, id, m, now, r);
    let t = thread_of(old, id);
    let n = new.threads@[p];
    assert forall|j: int| 0 <= j < t.messages@.len() implies #[trigger] t.messages@[j].no == j by {
        lemma_no_at_least(t, j);
        lemma_no_at_most(t, j);
    }
    assert forall|j: int| 0 <= j < n.messages@.len() implies #[trigger] n.messages@[j].no == j by {
        lemma_no_at_least(n, j);
        lemma_no_at_most(n, j);
    }
    assert(new.threads@[p].id == id);
}

proof fn lemma_index_of_row(db: Db, p: int)
    requires
        db.wf(),
        0 <= p < db.threads@.len(),
    ensures
        index_of(db.threads@, db.threads@[p].id) == Some(p),
{
    let id = db.threads@[p].id;
    let c = choose|i: int| 0 <= i < db.threads@.len() && db.threads@[i].id == id;
    assert(db.threads@[c].id == db.threads@[p].id);
}

/// Two replies to one thread, one after the other, get the next two numbers,
/// never the same one, and leave `last_reply_no` two higher.
pub proof fn lemma_two_replies_in_turn(
    db0: Db,
    db1: Db,
    db2: Db,
    id: u32,
    m1: MessageView,
    m2: MessageView,
    now1: u64,
    now2: u64,
    r1: Result<u32, StoreError>,
    r2: Result<u32, StoreError>,
)
    requires
        db0.wf(),
        db1.wf(),
        db2.wf(),
        reply_post(db0, db1, id, m1, now1, r1),
        reply_post(db1, db2, id, m2, now2, r2),
        index_of(db0.threads@, id) is Some,
        thread_of(db0, id).last_reply_no + 2 <= u32::MAX,
    ensures
        r1 == Ok::<u32, StoreError>((thread_of(db0, id).last_reply_no + 1) as u32),
        r2 == Ok::<u32, StoreError>((thread_of(db0, id).last_reply_no + 2) as u32),
        index_of(db2.threads@, id) is Some,
        thread_of(db2, id).last_reply_no == thread_of(db0, id).last_reply_no + 2,
{
    let p1 = lemma_reply_row(db0, db1, id, m1, now1, r1);
    lemma_index_of_row(db1, p1);
    let p2 = lemma_reply_row(db1, db2, id, m2, now2, r2);
    lemma_index_of_row(db2, p2);
}

fn make_row(msg: NewMessage, no: u32, now: u64) -> (r: MessageRow)
    ensures
        row_of(r, no, msg@, now),
{
    MessageRow { no, name: msg.name, trip: msg.trip, text: msg.text, ts: now, secret: msg.secret }
}

fn authorize(stored: &Option<String>, supplied: &String) -> (r: bool)
    ensures
        r == authorized(*stored, supplied@),
{
    match stored {
        Some(s) => *s == *supplied,
        None => false,
    }
}

fn out_message(m: &MessageRow) -> (o: OutMessage)
    ensures
        out_of(o, *m),
{
    let name = match &m.name {
        Some(n) => n.clone(),
        None => String::from_str("Anonymous"),
    };
    let trip = match &m.trip {
        Some(t) => t.clone(),
        None => String::new(),
    };
    OutMessage { no: m.no, name, trip, text: m.text.clone() }
}

impl Db {
    pub open spec fn wf(&self) -> bool {
        &&& sorted(self.threads@)
        &&& ids_unique(self.threads@)
        &&& forall|i: int| 0 <= i < self.threads@.len() ==> #[trigger] self.threads@[i].id < self.next_id
        &&& forall|i: int| 0 <= i < self.threads@.len() ==> thread_wf(#[trigger] self.threads@[i])
    }

    /// An empty store.
    pub fn new() -> (r: Db)
        ensures
            r.wf(),
            r.threads@.len() == 0,
            r.next_id == 0,
    {
        Db { threads: Vec::new(), next_id: 0 }
    }

    /// Finds the position of the thread `id`.
    fn find(&self, id: u32) -> (r: Option<usize>)
        requires
            self.wf(),
        ensures
            r matches Some(i) ==> i < self.threads@.len() && self.threads@[i as int].id == id,
            r is None ==> forall|i: int| 0 <= i < self.threads@.len() ==> self.threads@[i].id != id,
            r == (match index_of(self.threads@, id) {
                Some(i) => Some(i as usize),
                None => None::<usize>,
            }),
    {
        let mut i: usize = 0;
        while i < self.threads.len()
            invariant
                self.wf(),
                i <= self.threads@.len(),
                forall|k: int| 0 <= k < i ==> self.threads@[k].id != id,
            decreases self.threads@.len() - i,
        {
            if self.threads[i].id == id {
                proof {
                    let c = choose|k: int| 0 <= k < self.threads@.len() && self.threads@[k].id == id;
                    assert(c == i as int);
                }
                return Some(i);
            }
            i = i + 1;
        }
        None
    }

    /// Puts `row` at its place in `(bump, id)` order.
    fn insert_sorted(&mut self, row: ThreadRow)
        requires
            sorted(old(self).threads@),
            forall|i: int| 0 <= i < old(self).threads@.len() ==> #[trigger] old(self).threads@[i].id != row.id,
        ensures
            final(self).next_id == old(self).next_id,
            exists|p: int| inserted_at(final(self).threads@, old(self).threads@, p) && final(self).threads@[p] == row,
            sorted(final(self).threads@),
    {
        let mut p: usize = self.threads.len();
        while p > 0 && !key_before(&self.threads[p - 1], &row)
            invariant
                p <= self.threads@.len(),
                self.threads@ == old(self).threads@,
                self.next_id == old(self).next_id,
                sorted(self.threads@),
                forall|i: int| 0 <= i < self.threads@.len() ==> #[trigger] self.threads@[i].id != row.id,
                forall|i: int| p <= i < self.threads@.len() ==> key_lt(row, #[trigger] self.threads@[i]),
            decreases p,
        {
            assert(self.threads@[p - 1].id != row.id);
            p = p - 1;
        }
        proof {
            if p > 0 {
                assert(key_lt(self.threads@[p - 1], row));
                assert forall|i: int| 0 <= i < p implies key_lt(#[trigger] self.threads@[i], row) by {
                    if i < p - 1 {
                        assert(key_lt(self.threads@[i], self.threads@[p - 1]));
                    }
                }
            }
        }
        let ghost before = self.threads@;
        self.threads.insert(p, row);
        proof {
            assert(self.threads@.remove(p as int) =~= before);
            assert forall|i: int, j: int| 0 <= i < j < self.threads@.len() implies key_lt(
                #[trigger] self.threads@[i],
                #[trigger] self.threads@[j],
            ) by {
                if j < p {
                } else if i < p && j == p {
                } else if i < p {
                    assert(self.threads@[j] == before[j - 1]);
                    assert(key_lt(before[i], before[j - 1]));
                } else if i == p {
                    assert(self.threads@[j] == before[j - 1]);
                } else {
                    assert(self.threads@[i] == before[i - 1]);
                    assert(self.threads@[j] == before[j - 1]);
                }
            }
            assert(self.threads@[p as int] == row);
        }
    }

    /// Creates a thread whose opening message is `msg`, bumped at `now`, and
    /// returns its identifier.
    pub fn new_thread(&mut self, msg: NewMessage, subject: Option<String>, now: u64) -> (r: Result<
        u32,
        StoreError,
    >)
        requires
            old(self).wf(),
        ensures
            final(self).wf(),
            new_thread_post(*old(self), *final(self), msg@, opt_view(subject), now, r),
    {
        if self.next_id == u32::MAX {
            return Err(StoreError::StorageFailure);
        }
        let id = self.next_id;
        let ghost m = msg@;
        let op = make_row(msg, 0, now);
        let mut messages: Vec<MessageRow> = Vec::new();
        messages.push(op);
        let row = ThreadRow { id, last_reply_no: 0, bump: now, subject, messages };
        assert(thread_wf(row));
        let ghost before = self.threads@;
        self.insert_sorted(row);
        self.next_id = id + 1;
        proof {
            let p = choose|p: int| inserted_at(self.threads@, before, p) && self.threads@[p] == row;
            lemma_insert_keeps(self.threads@, before, p, self.next_id);
            assert(fresh_thread(self.threads@[p], id, m, opt_view(subject), now));
        }
        Ok(id)
    }

    /// Appends `msg` to thread `thread_id` as its next number, bumped at `now`,
    /// and returns that number.
    pub fn reply_thread(&mut self, thread_id: u32, msg: NewMessage, now: u64) -> (r: Result<
        u32,
        StoreError,
    >)
        requires
            old(self).wf(),
        ensures
            final(self).wf(),
            reply_post(*old(self), *final(self), thread_id, msg@, now, r),
    {
        let i = match self.find(thread_id) {
            Some(i) => i,
            None => return Err(StoreError::NotFound),
        };
        if self.threads[i].last_reply_no == u32::MAX {
            return Err(StoreError::StorageFailure);
        }
        let ghost old_threads = self.threads@;
        let ghost t = self.threads@[i as int];
        let ghost m = msg@;
        let mut row = self.threads.remove(i);
        proof {
            lemma_remove_keeps(old_threads, i as int, self.next_id);
        }
        let no = row.last_reply_no + 1;
        let reply = make_row(msg, no, now);
        row.messages.push(reply);
        row.last_reply_no = no;
        row.bump = now;
        proof {
            assert(row.messages@.drop_last() =~= t.messages@);
            assert forall|j: int, k: int| 0 <= j < k < row.messages@.len() implies #[trigger] row.messages@[j].no
                < #[trigger] row.messages@[k].no by {
                if k < t.messages@.len() {
                    assert(t.messages@[j].no < t.messages@[k].no);
                } else {
                    assert(t.messages@[j].no <= t.last_reply_no);
                }
            }
            assert forall|j: int| 0 <= j < row.messages@.len() implies #[trigger] row.messages@[j].no
                <= row.last_reply_no by {
                if j < t.messages@.len() {
                    assert(t.messages@[j].no <= t.last_reply_no);
                }
            }
            assert(thread_wf(row));
        }
        let ghost rest = self.threads@;
        self.insert_sorted(row);
        proof {
            let p = choose|p: int| inserted_at(self.threads@, rest, p) && self.threads@[p] == row;
            lemma_insert_keeps(self.threads@, rest, p, self.next_id);
            assert(replied(self.threads@[p], t, no, m, now));
        }
        Ok(no)
    }

    /// Lists the threads bumped after `ts`, in ascending `(bump, id)` order, at
    /// most `limit` of them, each with its opening message.
    pub fn get_threads_before(&self, ts: u32, limit: u32) -> (r: Vec<Thread>)
        requires
            self.wf(),
        ensures
            is_page(self.threads@, ts, limit, r@),
    {
        let n = self.threads.len();
        let mut s: usize = 0;
        while s < n && self.threads[s].bump <= ts as u64
            invariant
                n == self.threads@.len(),
                s <= n,
                forall|i: int| 0 <= i < s ==> #[trigger] self.threads@[i].bump <= ts,
            decreases n - s,
        {
            s = s + 1;
        }
        proof {
            assert forall|i: int| s <= i < n implies #[trigger] self.threads@[i].bump > ts by {
                if i > s {
                    assert(key_lt(self.threads@[s as int], self.threads@[i]));
                }
            }
        }
        let mut out: Vec<Thread> = Vec::new();
        let mut k: usize = s;
        while k < n && out.len() < limit as usize
            invariant
                n == self.threads@.len(),
                s <= k <= n,
                out@.len() == k - s,
                out@.len() <= limit,
                forall|j: int| 0 <= j < out@.len() ==> summarizes(#[trigger] out@[j], self.threads@[s + j]),
                self.wf(),
            decreases n - k,
        {
            let row = &self.threads[k];
            assert(thread_wf(self.threads@[k as int]));
            let op = out_message(&row.messages[0]);
            out.push(Thread { id: row.id, op, last: Vec::new() });
            k = k + 1;
        }
        assert(page_at(self.threads@, ts, limit, out@, s as int));
        out
    }

    /// All messages of thread `id`, in number order; `None` where there is no
    /// such thread.
    pub fn get_thread_messages(&self, id: u32) -> (r: Option<Vec<OutMessage>>)
        requires
            self.wf(),
        ensures
            match index_of(self.threads@, id) {
                None => r is None,
                Some(i) => r matches Some(v) && v@.len() == self.threads@[i].messages@.len() && forall|k: int|
                    0 <= k < v@.len() ==> out_of(#[trigger] v@[k], self.threads@[i].messages@[k]),
            },
    {
        let i = match self.find(id) {
            Some(i) => i,
            None => return None,
        };
        let msgs = &self.threads[i].messages;
        let mut out: Vec<OutMessage> = Vec::new();
        let mut k: usize = 0;
        while k < msgs.len()
            invariant
                k <= msgs@.len(),
                out@.len() == k,
                forall|j: int| 0 <= j < k ==> out_of(#[trigger] out@[j], msgs@[j]),
            decreases msgs@.len() - k,
        {
            out.push(out_message(&msgs[k]));
            k = k + 1;
        }
        Some(out)
    }

    /// Deletes thread `id` with all its messages, where `password` matches the
    /// credential of its opening message.
    pub fn delete_thread(&mut self, id: u32, password: String) -> (r: Result<(), StoreError>)
        requires
            old(self).wf(),
        ensures
            final(self).wf(),
            delete_thread_post(*old(self), *final(self), id, password@, r),
    {
        let i = match self.find(id) {
            Some(i) => i,
            None => return Err(StoreError::NotFound),
        };
        assert(thread_wf(self.threads@[i as int]));
        if !authorize(&self.threads[i].messages[0].secret, &password) {
            return Err(StoreError::NotAuthorized);
        }
        proof {
            lemma_remove_keeps(self.threads@, i as int, self.next_id);
        }
        self.threads.remove(i);
        Ok(())
    }

    /// Finds the position of message `no` among `msgs`.
    fn find_message(msgs: &Vec<MessageRow>, no: u32) -> (r: Option<usize>)
        requires
            forall|a: int, b: int| 0 <= a < b < msgs@.len() ==> #[trigger] msgs@[a].no < #[trigger] msgs@[b].no,
        ensures
            r matches Some(j) ==> msg_index(msgs@, no) == Some(j as int),
            r is None ==> msg_index(msgs@, no) is None,
    {
        let mut j: usize = 0;
        while j < msgs.len()
            invariant
                j <= msgs@.len(),
                forall|k: int| 0 <= k < j ==> msgs@[k].no != no,
                forall|a: int, b: int| 0 <= a < b < msgs@.len() ==> #[trigger] msgs@[a].no < #[trigger] msgs@[b].no,
            decreases msgs@.len() - j,
        {
            if msgs[j].no == no {
                proof {
                    let c = choose|k: int| 0 <= k < msgs@.len() && msgs@[k].no == no;
                    if c > j as int {
                        assert(msgs@[j as int].no < msgs@[c].no);
                    }
                    assert(c == j as int);
                }
                return Some(j);
            }
            j = j + 1;
        }
        None
    }

    /// Deletes message `no` of thread `id`, where `password` matches its
    /// credential. Later messages keep their numbers; message 0 stands for the
    /// whole thread.
    pub fn delete_message(&mut self, id: u32, no: u32, password: String) -> (r: Result<(), StoreError>)
        requires
            old(self).wf(),
        ensures
            final(self).wf(),
            delete_message_post(*old(self), *final(self), id, no, password@, r),
    {
        if no == 0 {
            return self.delete_thread(id, password);
        }
        let i = match self.find(id) {
            Some(i) => i,
            None => return Err(StoreError::NotFound),
        };
        assert(thread_wf(self.threads@[i as int]));
        let j = match Self::find_message(&self.threads[i].messages, no) {
            Some(j) => j,
            None => return Err(StoreError::NotFound),
        };
        if !authorize(&self.threads[i].messages[j].secret, &password) {
            return Err(StoreError::NotAuthorized);
        }
        let ghost old_threads = self.threads@;
        let ghost t = self.threads@[i as int];
        assert(thread_wf(t));
        let mut row = self.threads.remove(i);
        row.messages.remove(j);
        proof {
            assert(j != 0);
            assert forall|a: int, b: int| 0 <= a < b < row.messages@.len() implies #[trigger] row.messages@[a].no
                < #[trigger] row.messages@[b].no by {
                let a0 = if a < j { a } else { a + 1 };
                let b0 = if b < j { b } else { b + 1 };
                assert(row.messages@[a] == t.messages@[a0] && row.messages@[b] == t.messages@[b0]);
                assert(t.messages@[a0].no < t.messages@[b0].no);
            }
            assert forall|a: int| 0 <= a < row.messages@.len() implies #[trigger] row.messages@[a].no
                <= row.last_reply_no by {
                let a0 = if a < j { a } else { a + 1 };
                assert(row.messages@[a] == t.messages@[a0]);
            }
            assert(row.messages@[0] == t.messages@[0]);
        }
        self.threads.insert(i, row);
        proof {
            assert(self.threads@ =~= old_threads.update(i as int, row));
            assert forall|a: int, b: int| 0 <= a < b < self.threads@.len() implies key_lt(
                #[trigger] self.threads@[a],
                #[trigger] self.threads@[b],
            ) by {
                assert(key_lt(old_threads[a], old_threads[b]));
            }
            assert forall|a: int, b: int|
                0 <= a < self.threads@.len() && 0 <= b < self.threads@.len() && a != b implies #[trigger] self.threads@[a].id
                != #[trigger] self.threads@[b].id by {
                assert(old_threads[a].id != old_threads[b].id);
            }
            assert forall|k: int| 0 <= k < self.threads@.len() implies #[trigger] self.threads@[k].id
                < self.next_id && thread_wf(self.threads@[k]) by {
                if k != i {
                    assert(self.threads@[k] == old_threads[k]);
                }
            }
        }
        Ok(())
    }
}

fn key_before(a: &ThreadRow, b: &ThreadRow) -> (r: bool)
    ensures
        r == key_lt(*a, *b),
{
    a.bump < b.bump || (a.bump == b.bump && a.id < b.id)
}

} // verus!
