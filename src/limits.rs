use vstd::prelude::*;

verus! {

/// Longest accepted message text, in characters.
pub const MSG_TEXT_LEN: usize = 4096;

/// Longest accepted sender name, in characters.
pub const MSG_NAME_LEN: usize = 32;

/// Longest accepted thread subject, in characters.
pub const MSG_SUBJECT_LEN: usize = 128;

/// The maxima that the validator enforces; exposed so that callers can pre-check.
#[derive(Clone, Copy, Debug, PartialEq, Eq)]
pub struct Limits {
    pub msg_text_len: usize,
    pub msg_name_len: usize,
    pub msg_subject_len: usize,
}

impl Default for Limits {
    fn default() -> (r: Limits)
        ensures
            r.msg_text_len == MSG_TEXT_LEN,
            r.msg_name_len == MSG_NAME_LEN,
            r.msg_subject_len == MSG_SUBJECT_LEN,
    {
        Limits {
            msg_text_len: MSG_TEXT_LEN,
            msg_name_len: MSG_NAME_LEN,
            msg_subject_len: MSG_SUBJECT_LEN,
        }
    }
}

} // verus!
