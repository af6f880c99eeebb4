use vstd::prelude::*;
use vstd::string::*;

use crate::limits::Limits;

verus! {

/// A message as submitted by a client, before validation.
pub struct NewMessage {
    pub text: String,
    pub name: Option<String>,
    pub trip: Option<String>,
    pub secret: Option<String>,
    pub password: Option<String>,
}

/// A new thread as submitted by a client: its opening message and a subject.
pub struct NewThread {
    pub msg: NewMessage,
    pub subject: Option<String>,
}

pub struct MessageView {
    pub text: Seq<char>,
    pub name: Option<Seq<char>>,
    pub trip: Option<Seq<char>>,
    pub secret: Option<Seq<char>>,
    pub password: Option<Seq<char>>,
}

pub struct ThreadView {
    pub msg: MessageView,
    pub subject: Option<Seq<char>>,
}

pub open spec fn opt_view(a: Option<String>) -> Option<Seq<char>> {
    match a {
        Some(s) => Some(s@),
        None => None,
    }
}

impl View for NewMessage {
    type V = MessageView;

    open spec fn view(&self) -> MessageView {
        MessageView {
            text: self.text@,
            name: opt_view(self.name),
            trip: opt_view(self.trip),
            secret: opt_view(self.secret),
            password: opt_view(self.password),
        }
    }
}

impl View for NewThread {
    type V = ThreadView;

    open spec fn view(&self) -> ThreadView {
        ThreadView { msg: self.msg@, subject: opt_view(self.subject) }
    }
}

/// Unicode's White_Space property, which `char::is_whitespace` tests.
pub open spec fn is_ws(c: char) -> bool {
    let u = c as u32;
    (0x9 <= u <= 0xd) || u == 0x20 || u == 0x85 || u == 0xa0 || u == 0x1680 || (0x2000 <= u <= 0x200a)
        || u == 0x2028 || u == 0x2029 || u == 0x202f || u == 0x205f || u == 0x3000
}

/// `s` without its leading whitespace.
pub open spec fn trim_start(s: Seq<char>) -> Seq<char>
    decreases s.len(),
{
    if s.len() > 0 && is_ws(s[0]) {
        trim_start(s.drop_first())
    } else {
        s
    }
}

/// `s` without its trailing whitespace.
pub open spec fn trim_end(s: Seq<char>) -> Seq<char>
    decreases s.len(),
{
    if s.len() > 0 && is_ws(s.last()) {
        trim_end(s.drop_last())
    } else {
        s
    }
}

/// The characters of `s` without its leading and trailing whitespace.
pub open spec fn trimmed(s: Seq<char>) -> Seq<char> {
    trim_end(trim_start(s))
}

pub open spec fn all_ws(s: Seq<char>) -> bool {
    forall|i: int| 0 <= i < s.len() ==> is_ws(#[trigger] s[i])
}

proof fn lemma_trim_start_prefix(pre: Seq<char>, rest: Seq<char>)
    requires
        all_ws(pre),
        rest.len() > 0,
        !is_ws(rest[0]),
    ensures
        trim_start(pre + rest) == rest,
    decreases pre.len(),
{
    if pre.len() == 0 {
        assert(pre + rest =~= rest);
    } else {
        assert((pre + rest)[0] == pre[0]);
        assert((pre + rest).drop_first() =~= pre.drop_first() + rest);
        assert(all_ws(pre.drop_first())) by {
            assert forall|i: int| 0 <= i < pre.drop_first().len() implies is_ws(#[trigger] pre.drop_first()[i]) by {
                assert(pre.drop_first()[i] == pre[i + 1]);
            }
        }
        lemma_trim_start_prefix(pre.drop_first(), rest);
    }
}

proof fn lemma_trim_end_suffix(rest: Seq<char>, post: Seq<char>)
    requires
        all_ws(post),
        rest.len() > 0,
        !is_ws(rest.last()),
    ensures
        trim_end(rest + post) == rest,
    decreases post.len(),
{
    if post.len() == 0 {
        assert(rest + post =~= rest);
    } else {
        assert((rest + post).last() == post.last());
        assert((rest + post).drop_last() =~= rest + post.drop_last());
        assert(all_ws(post.drop_last())) by {
            assert forall|i: int| 0 <= i < post.drop_last().len() implies is_ws(#[trigger] post.drop_last()[i]) by {
                assert(post.drop_last()[i] == post[i]);
            }
        }
        lemma_trim_end_suffix(rest, post.drop_last());
    }
}

/// Trimming removes exactly the whitespace around a text that neither starts
/// nor ends with whitespace.
pub proof fn lemma_trim_surrounding(pre: Seq<char>, core: Seq<char>, post: Seq<char>)
    requires
        all_ws(pre),
        all_ws(post),
        core.len() > 0,
        !is_ws(core[0]),
        !is_ws(core.last()),
    ensures
        trimmed(pre + core + post) == core,
{
    assert((core + post)[0] == core[0]);
    lemma_trim_start_prefix(pre, core + post);
    assert(pre + core + post =~= pre + (core + post));
    lemma_trim_end_suffix(core, post);
}

/// Relies on `str::trim`: it removes the leading and trailing characters that
/// have Unicode's White_Space property.
#[verifier::external_body]
fn trim_str(s: &str) -> (r: String)
    ensures
        r@ == trimmed(s@),
{
    s.trim().to_owned()
}

/// An optional field after trimming: absent when nothing is left.
pub open spec fn trim_opt(a: Option<Seq<char>>) -> Option<Seq<char>> {
    match a {
        Some(s) => if trimmed(s).len() == 0 {
            None
        } else {
            Some(trimmed(s))
        },
        None => None,
    }
}

/// A message with every field trimmed.
pub open spec fn normalized(m: MessageView) -> MessageView {
    MessageView {
        text: trimmed(m.text),
        name: trim_opt(m.name),
        trip: m.trip,
        secret: trim_opt(m.secret),
        password: trim_opt(m.password),
    }
}

pub open spec fn longer_than(a: Option<Seq<char>>, max: usize) -> bool {
    match a {
        Some(s) => s.len() > max,
        None => false,
    }
}

/// The first rule that an already trimmed message breaks, as (human text, code).
pub open spec fn message_error(n: MessageView, limits: Limits) -> Option<(Seq<char>, Seq<char>)> {
    if n.text.len() == 0 {
        Some(("Text should not be empty."@, "message.text_empty"@))
    } else if n.text.len() > limits.msg_text_len {
        Some(("Text should be no more than 4096 characters long."@, "message.text_long"@))
    } else if longer_than(n.name, limits.msg_name_len) {
        Some(("Name should be no more than 32 characters long."@, "message.name_long"@))
    } else {
        None
    }
}

/// The first rule that a thread breaks once trimmed, its message checked first.
pub open spec fn thread_error(t: ThreadView, limits: Limits) -> Option<(Seq<char>, Seq<char>)> {
    let m = message_error(normalized(t.msg), limits);
    if m is Some {
        m
    } else if longer_than(trim_opt(t.subject), limits.msg_subject_len) {
        Some(("Subject is too long."@, "message.subject_long"@))
    } else {
        None
    }
}

/// Trims an optional field; a field with nothing left becomes absent.
pub fn trim(a: Option<String>) -> (r: Option<String>)
    ensures
        opt_view(r) == trim_opt(opt_view(a)),
{
    match a {
        Some(s) => {
            let t = trim_str(s.as_str());
            if t.as_str().is_empty() {
                None
            } else {
                Some(t)
            }
        },
        None => None,
    }
}

fn exceeds(a: &Option<String>, max: usize) -> (r: bool)
    ensures
        r == longer_than(opt_view(*a), max),
{
    match a {
        Some(s) => s.as_str().unicode_len() > max,
        None => false,
    }
}

/// Trims every field of a message but the opaque `trip`, then checks it against `limits`.
pub fn validate_message(msg: NewMessage, limits: &Limits) -> (r: Result<
    NewMessage,
    (&'static str, &'static str),
>)
    ensures
        r is Ok <==> message_error(normalized(msg@), *limits) is None,
        r matches Ok(m) ==> m@ == normalized(msg@),
        r matches Err(e) ==> message_error(normalized(msg@), *limits) == Some((e.0@, e.1@)),
{
    proof {
        reveal_strlit("Text should not be empty.");
        reveal_strlit("message.text_empty");
    }
    let text = trim_str(msg.text.as_str());
    let name = trim(msg.name);
    let secret = trim(msg.secret);
    let password = trim(msg.password);
    let m = NewMessage { text, name, trip: msg.trip, secret, password };
    if m.text.as_str().unicode_len() == 0 {
        return Err(("Text should not be empty.", "message.text_empty"));
    }
    if m.text.as_str().unicode_len() > limits.msg_text_len {
        return Err(("Text should be no more than 4096 characters long.", "message.text_long"));
    }
    if exceeds(&m.name, limits.msg_name_len) {
        return Err(("Name should be no more than 32 characters long.", "message.name_long"));
    }
    Ok(m)
}

/// Validates the opening message, then trims and checks the subject.
pub fn validate_thread(thr: NewThread, limits: &Limits) -> (r: Result<
    NewThread,
    (&'static str, &'static str),
>)
    ensures
        r is Ok <==> thread_error(thr@, *limits) is None,
        r matches Ok(t) ==> t@ == (ThreadView {
            msg: normalized(thr@.msg),
            subject: trim_opt(thr@.subject),
        }),
        r matches Err(e) ==> thread_error(thr@, *limits) == Some((e.0@, e.1@)),
{
    let msg = match validate_message(thr.msg, limits) {
        Ok(m) => m,
        Err(e) => return Err(e),
    };
    let subject = trim(thr.subject);
    if exceeds(&subject, limits.msg_subject_len) {
        return Err(("Subject is too long.", "message.subject_long"));
    }
    Ok(NewThread { msg, subject })
}

} // verus!
