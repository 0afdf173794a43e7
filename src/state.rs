use vstd::prelude::*;

use crate::enumerator::valid_run;
use crate::prefix::{is_word_exec, opt_word, same_word, BASE_LEN};

verus! {

/// The persisted record of a run.
#[derive(Debug)]
pub struct RunState {
    pub starting_prefix: Vec<char>,
    /// `None` until a first base prefix has been acknowledged.
    pub watermark_prefix: Option<Vec<char>>,
}

/// The record a run resumes from: the stored one when it belongs to the same starting prefix,
/// else a fresh one with no watermark.
pub fn resume_state(stored: Option<RunState>, starting_prefix: Vec<char>) -> (r: RunState)
    ensures
        r.starting_prefix@ == starting_prefix@,
        match stored {
            Some(s) if s.starting_prefix@ == starting_prefix@ => opt_word(r.watermark_prefix)
                == opt_word(s.watermark_prefix),
            _ => r.watermark_prefix is None,
        },
{
    match stored {
        Some(s) => {
            if same_word(&s.starting_prefix, &starting_prefix) {
                RunState { starting_prefix, watermark_prefix: s.watermark_prefix }
            } else {
                RunState { starting_prefix, watermark_prefix: None }
            }
        },
        None => RunState { starting_prefix, watermark_prefix: None },
    }
}

/// Whether a run may start from `start` and `watermark`: the start is a word of at most the
/// base length and the watermark, if any, is a base prefix.
pub fn is_valid_run(start: &Vec<char>, watermark: &Option<Vec<char>>) -> (r: bool)
    ensures
        r == valid_run(start@, opt_word(*watermark)),
{
    if start.len() > BASE_LEN || !is_word_exec(start) {
        return false;
    }
    match watermark {
        Some(w) => w.len() == BASE_LEN && is_word_exec(w),
        None => true,
    }
}

} // verus!
