use vstd::prelude::*;

use crate::events::{normalized, thread_error, message_error, trim_opt, validate_message, validate_thread, NewMessage, NewThread};
use crate::limits::Limits;
use crate::store::{
    index_of, is_page, new_thread_post, out_of, reply_post, Db, OutMessage, StoreError, Thread,
};

verus! {

/// Page size used when a listing names none.
pub const DEFAULT_LIMIT: u32 = 100;

/// Why a request was turned down.
pub enum ApiError {
    /// The submitted content broke a rule: (human text, code).
    Invalid(&'static str, &'static str),
    /// The store refused the operation.
    Store(StoreError),
    /// The query asks for a pagination mode that is not offered.
    Unsupported,
}

/// `r` is the store's answer `s`, its error wrapped.
pub open spec fn lifted<T>(r: Result<T, ApiError>, s: Result<T, StoreError>) -> bool {
    match s {
        Ok(x) => r == Ok::<T, ApiError>(x),
        Err(e) => r matches Err(ApiError::Store(f)) && f == e,
    }
}

pub open spec fn or_default(a: Option<u32>, d: u32) -> u32 {
    match a {
        Some(x) => x,
        None => d,
    }
}

/// Lists threads bumped after `before` (0 when absent), at most `limit` (100
/// when absent). A listing by `after` is not offered and says so.
pub fn list_threads(db: &Db, before: Option<u32>, after: Option<u32>, limit: Option<u32>) -> (r: Result<
    Vec<Thread>,
    ApiError,
>)
    requires
        db.wf(),
    ensures
        after is Some ==> r matches Err(ApiError::Unsupported),
        after is None ==> (r matches Ok(v) && is_page(
            db.threads@,
            or_default(before, 0),
            or_default(limit, DEFAULT_LIMIT),
            v@,
        )),
{
    if after.is_some() {
        return Err(ApiError::Unsupported);
    }
    let ts = match before {
        Some(t) => t,
        None => 0,
    };
    let n = match limit {
        Some(l) => l,
        None => DEFAULT_LIMIT,
    };
    Ok(db.get_threads_before(ts, n))
}

/// All messages of thread `id`. Windows by message number are not offered and
/// say so.
pub fn thread_messages(db: &Db, id: u32, before: Option<u32>, after: Option<u32>) -> (r: Result<
    Vec<OutMessage>,
    ApiError,
>)
    requires
        db.wf(),
    ensures
        (before is Some || after is Some) ==> r matches Err(ApiError::Unsupported),
        (before is None && after is None) ==> match index_of(db.threads@, id) {
            None => r matches Err(ApiError::Store(StoreError::NotFound)),
            Some(i) => (r matches Ok(v) && v@.len() == db.threads@[i].messages@.len() && forall|k: int|
                0 <= k < v@.len() ==> out_of(#[trigger] v@[k], db.threads@[i].messages@[k])),
        },
{
    if before.is_some() || after.is_some() {
        return Err(ApiError::Unsupported);
    }
    match db.get_thread_messages(id) {
        Some(v) => Ok(v),
        None => Err(ApiError::Store(StoreError::NotFound)),
    }
}

/// Validates a new thread and, when it passes, stores it bumped at `now`.
pub fn post_thread(db: &mut Db, thr: NewThread, limits: &Limits, now: u64) -> (r: Result<u32, ApiError>)
    requires
        old(db).wf(),
    ensures
        final(db).wf(),
        thread_error(thr@, *limits) matches Some(e) ==> (r matches Err(ApiError::Invalid(a, b)) && (a@, b@)
            == e && *final(db) == *old(db)),
        thread_error(thr@, *limits) is None ==> exists|s: Result<u32, StoreError>|
            new_thread_post(
                *old(db),
                *final(db),
                normalized(thr@.msg),
                trim_opt(thr@.subject),
                now,
                s,
            ) && lifted(r, s),
{
    let t = match validate_thread(thr, limits) {
        Ok(t) => t,
        Err(e) => return Err(ApiError::Invalid(e.0, e.1)),
    };
    let s = db.new_thread(t.msg, t.subject, now);
    let r = match s {
        Ok(id) => Ok(id),
        Err(e) => Err(ApiError::Store(e)),
    };
    assert(lifted(r, s));
    r
}

/// Validates a reply and, when it passes, appends it to thread `id`, bumped
/// at `now`.
pub fn post_reply(db: &mut Db, id: u32, msg: NewMessage, limits: &Limits, now: u64) -> (r: Result<
    u32,
    ApiError,
>)
    requires
        old(db).wf(),
    ensures
        final(db).wf(),
        message_error(normalized(msg@), *limits) matches Some(e) ==> (r matches Err(ApiError::Invalid(a, b))
            && (a@, b@) == e && *final(db) == *old(db)),
        message_error(normalized(msg@), *limits) is None ==> exists|s: Result<u32, StoreError>|
            reply_post(*old(db), *final(db), id, normalized(msg@), now, s) && lifted(r, s),
{
    let m = match validate_message(msg, limits) {
        Ok(m) => m,
        Err(e) => return Err(ApiError::Invalid(e.0, e.1)),
    };
    let s = db.reply_thread(id, m, now);
    let r = match s {
        Ok(no) => Ok(no),
        Err(e) => Err(ApiError::Store(e)),
    };
    assert(lifted(r, s));
    r
}

} // verus!
