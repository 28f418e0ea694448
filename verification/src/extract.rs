//! The field-extraction engine. Each field of a record is populated by a
//! dedicated pattern matched independently against the whole line; the
//! leftmost position where the pattern matches wins. The patterns are
//! written out below as predicates over character sequences, and each
//! scanner is proved to return the leftmost match of its predicate.

use vstd::prelude::*;
use vstd::string::StrSliceExecFns;
use crate::level::{LogLevel, LogMethod};
use crate::text::{is_digit, is_space, is_alpha, is_word, is_path_char, digit_run, space_run, path_run, digits_val, digit_val, digit_char, alpha_char, space_char};

verus! {

/// The leftmost position at or after `i` where the predicate `p` holds of
/// `s`, if any.
pub open spec fn first_from(s: Seq<char>, p: spec_fn(Seq<char>, int) -> bool, i: int) -> Option<
    int,
>
    decreases s.len() - i,
{
    if i >= s.len() {
        None
    } else if p(s, i) {
        Some(i)
    } else {
        first_from(s, p, i + 1)
    }
}

pub proof fn lemma_first_from_some(
    s: Seq<char>,
    p: spec_fn(Seq<char>, int) -> bool,
    i: int,
    j: int,
)
    requires
        0 <= i <= j < s.len(),
        p(s, j),
        forall|k: int| i <= k < j ==> !#[trigger] p(s, k),
    ensures
        first_from(s, p, i) == Some(j),
    decreases j - i,
{
    if i < j {
        lemma_first_from_some(s, p, i + 1, j);
    }
}

pub proof fn lemma_first_from_none(s: Seq<char>, p: spec_fn(Seq<char>, int) -> bool, i: int)
    requires
        0 <= i,
        forall|k: int| i <= k < s.len() ==> !#[trigger] p(s, k),
    ensures
        first_from(s, p, i) is None,
    decreases s.len() - i,
{
    if i < s.len() {
        lemma_first_from_none(s, p, i + 1);
    }
}

/// What a returned first match means: the predicate holds there and at no
/// earlier position.
pub proof fn lemma_first_from_props(s: Seq<char>, p: spec_fn(Seq<char>, int) -> bool, i: int)
    requires
        0 <= i,
    ensures
        match first_from(s, p, i) {
            Some(j) => i <= j < s.len() && p(s, j) && forall|k: int| i <= k < j ==> !#[trigger] p(s, k),
            None => forall|k: int| i <= k < s.len() ==> !#[trigger] p(s, k),
        },
    decreases s.len() - i,
{
    if i < s.len() && !p(s, i) {
        lemma_first_from_props(s, p, i + 1);
    }
}

// ---------------------------------------------------------------------------
// Level: the first occurrence of DEBUG, INFO, WARNING, ERROR or FATAL.
// ---------------------------------------------------------------------------

pub open spec fn debug_at(s: Seq<char>, i: int) -> bool {
    &&& 0 <= i
    &&& i + 5 <= s.len()
    &&& s[i] == 'D'
    &&& s[i + 1] == 'E'
    &&& s[i + 2] == 'B'
    &&& s[i + 3] == 'U'
    &&& s[i + 4] == 'G'
}

pub open spec fn info_at(s: Seq<char>, i: int) -> bool {
    &&& 0 <= i
    &&& i + 4 <= s.len()
    &&& s[i] == 'I'
    &&& s[i + 1] == 'N'
    &&& s[i + 2] == 'F'
    &&& s[i + 3] == 'O'
}

pub open spec fn warning_at(s: Seq<char>, i: int) -> bool {
    &&& 0 <= i
    &&& i + 7 <= s.len()
    &&& s[i] == 'W'
    &&& s[i + 1] == 'A'
    &&& s[i + 2] == 'R'
    &&& s[i + 3] == 'N'
    &&& s[i + 4] == 'I'
    &&& s[i + 5] == 'N'
    &&& s[i + 6] == 'G'
}

pub open spec fn error_at(s: Seq<char>, i: int) -> bool {
    &&& 0 <= i
    &&& i + 5 <= s.len()
    &&& s[i] == 'E'
    &&& s[i + 1] == 'R'
    &&& s[i + 2] == 'R'
    &&& s[i + 3] == 'O'
    &&& s[i + 4] == 'R'
}

pub open spec fn fatal_at(s: Seq<char>, i: int) -> bool {
    &&& 0 <= i
    &&& i + 5 <= s.len()
    &&& s[i] == 'F'
    &&& s[i + 1] == 'A'
    &&& s[i + 2] == 'T'
    &&& s[i + 3] == 'A'
    &&& s[i + 4] == 'L'
}

pub open spec fn level_match_at(s: Seq<char>, i: int) -> bool {
    debug_at(s, i) || info_at(s, i) || warning_at(s, i) || error_at(s, i) || fatal_at(s, i)
}

pub open spec fn level_pred() -> spec_fn(Seq<char>, int) -> bool {
    |s: Seq<char>, i: int| level_match_at(s, i)
}

/// The level a line yields: the first vocabulary token decides, and only
/// INFO, WARNING and ERROR are representable; DEBUG and FATAL yield none.
pub open spec fn extract_level(s: Seq<char>) -> Option<LogLevel> {
    match first_from(s, level_pred(), 0) {
        Some(i) => if info_at(s, i) {
            Some(LogLevel::Info)
        } else if warning_at(s, i) {
            Some(LogLevel::Warning)
        } else if error_at(s, i) {
            Some(LogLevel::Error)
        } else {
            None
        },
        None => None,
    }
}

fn level_token_at(s: &str, i: usize) -> (b: bool)
    requires
        i <= s@.len(),
    ensures
        b == level_match_at(s@, i as int),
{
    let n = s.unicode_len();
    if n - i >= 5 {
        let c0 = s.get_char(i);
        let c1 = s.get_char(i + 1);
        let c2 = s.get_char(i + 2);
        let c3 = s.get_char(i + 3);
        let c4 = s.get_char(i + 4);
        if c0 == 'D' && c1 == 'E' && c2 == 'B' && c3 == 'U' && c4 == 'G' {
            return true;
        }
        if c0 == 'E' && c1 == 'R' && c2 == 'R' && c3 == 'O' && c4 == 'R' {
            return true;
        }
        if c0 == 'F' && c1 == 'A' && c2 == 'T' && c3 == 'A' && c4 == 'L' {
            return true;
        }
    }
    if n - i >= 4 {
        if s.get_char(i) == 'I' && s.get_char(i + 1) == 'N' && s.get_char(i + 2) == 'F'
            && s.get_char(i + 3) == 'O' {
            return true;
        }
    }
    if n - i >= 7 {
        if s.get_char(i) == 'W' && s.get_char(i + 1) == 'A' && s.get_char(i + 2) == 'R'
            && s.get_char(i + 3) == 'N' && s.get_char(i + 4) == 'I' && s.get_char(i + 5) == 'N'
            && s.get_char(i + 6) == 'G' {
            return true;
        }
    }
    false
}

fn find_level(s: &str) -> (r: Option<usize>)
    ensures
        match r {
            Some(j) => first_from(s@, level_pred(), 0) == Some(j as int),
            None => first_from(s@, level_pred(), 0) is None,
        },
{
    let n = s.unicode_len();
    let mut i: usize = 0;
    while i < n
        invariant
            i <= n,
            n == s@.len(),
            forall|k: int| 0 <= k < i ==> !level_match_at(s@, k),
        decreases n - i,
    {
        if level_token_at(s, i) {
            proof {
                lemma_first_from_some(s@, level_pred(), 0, i as int);
            }
            return Some(i);
        }
        i = i + 1;
    }
    proof {
        lemma_first_from_none(s@, level_pred(), 0);
    }
    None
}

/// Scans a line for its level, as `extract_level` describes.
pub fn scan_level(s: &str) -> (r: Option<LogLevel>)
    ensures
        r == extract_level(s@),
{
    match find_level(s) {
        None => None,
        Some(i) => {
            proof {
                lemma_first_from_props(s@, level_pred(), 0);
            }
            let n = s.unicode_len();
            if n - i >= 4 && s.get_char(i) == 'I' {
                if s.get_char(i + 1) == 'N' && s.get_char(i + 2) == 'F' && s.get_char(i + 3)
                    == 'O' {
                    return Some(LogLevel::Info);
                }
            }
            if n - i >= 7 && s.get_char(i) == 'W' {
                if s.get_char(i + 1) == 'A' && s.get_char(i + 2) == 'R' && s.get_char(i + 3) == 'N'
                    && s.get_char(i + 4) == 'I' && s.get_char(i + 5) == 'N' && s.get_char(i + 6)
                    == 'G' {
                    return Some(LogLevel::Warning);
                }
            }
            if n - i >= 5 && s.get_char(i) == 'E' {
                if s.get_char(i + 1) == 'R' && s.get_char(i + 2) == 'R' && s.get_char(i + 3) == 'O'
                    && s.get_char(i + 4) == 'R' {
                    return Some(LogLevel::Error);
                }
            }
            None
        },
    }
}

// ---------------------------------------------------------------------------
// Method and endpoint. The method pattern wants a word-bounded occurrence
// of one of the seven vocabulary tokens; the endpoint pattern wants any
// occurrence of a token followed by a single space and path text, with no
// boundary requirement.
// ---------------------------------------------------------------------------

pub open spec fn get_tok_at(s: Seq<char>, i: int) -> bool {
    &&& 0 <= i
    &&& i + 3 <= s.len()
    &&& s[i] == 'G'
    &&& s[i + 1] == 'E'
    &&& s[i + 2] == 'T'
}

pub open spec fn post_tok_at(s: Seq<char>, i: int) -> bool {
    &&& 0 <= i
    &&& i + 4 <= s.len()
    &&& s[i] == 'P'
    &&& s[i + 1] == 'O'
    &&& s[i + 2] == 'S'
    &&& s[i + 3] == 'T'
}

pub open spec fn put_tok_at(s: Seq<char>, i: int) -> bool {
    &&& 0 <= i
    &&& i + 3 <= s.len()
    &&& s[i] == 'P'
    &&& s[i + 1] == 'U'
    &&& s[i + 2] == 'T'
}

pub open spec fn delete_tok_at(s: Seq<char>, i: int) -> bool {
    &&& 0 <= i
    &&& i + 6 <= s.len()
    &&& s[i] == 'D'
    &&& s[i + 1] == 'E'
    &&& s[i + 2] == 'L'
    &&& s[i + 3] == 'E'
    &&& s[i + 4] == 'T'
    &&& s[i + 5] == 'E'
}

pub open spec fn patch_tok_at(s: Seq<char>, i: int) -> bool {
    &&& 0 <= i
    &&& i + 5 <= s.len()
    &&& s[i] == 'P'
    &&& s[i + 1] == 'A'
    &&& s[i + 2] == 'T'
    &&& s[i + 3] == 'C'
    &&& s[i + 4] == 'H'
}

pub open spec fn head_tok_at(s: Seq<char>, i: int) -> bool {
    &&& 0 <= i
    &&& i + 4 <= s.len()
    &&& s[i] == 'H'
    &&& s[i + 1] == 'E'
    &&& s[i + 2] == 'A'
    &&& s[i + 3] == 'D'
}

pub open spec fn options_tok_at(s: Seq<char>, i: int) -> bool {
    &&& 0 <= i
    &&& i + 7 <= s.len()
    &&& s[i] == 'O'
    &&& s[i + 1] == 'P'
    &&& s[i + 2] == 'T'
    &&& s[i + 3] == 'I'
    &&& s[i + 4] == 'O'
    &&& s[i + 5] == 'N'
    &&& s[i + 6] == 'S'
}

/// Length of the method-vocabulary token starting at `i`, zero when none
/// starts there. At most one token can start at a given position.
pub open spec fn method_tok_len(s: Seq<char>, i: int) -> int {
    if get_tok_at(s, i) {
        3
    } else if post_tok_at(s, i) {
        4
    } else if put_tok_at(s, i) {
        3
    } else if delete_tok_at(s, i) {
        6
    } else if patch_tok_at(s, i) {
        5
    } else if head_tok_at(s, i) {
        4
    } else if options_tok_at(s, i) {
        7
    } else {
        0
    }
}

/// A word-bounded method token at `i`.
pub open spec fn method_match_at(s: Seq<char>, i: int) -> bool {
    &&& method_tok_len(s, i) > 0
    &&& (i == 0 || !is_word(s[i - 1]))
    &&& (i + method_tok_len(s, i) == s.len() || !is_word(s[i + method_tok_len(s, i)]))
}

pub open spec fn method_pred() -> spec_fn(Seq<char>, int) -> bool {
    |s: Seq<char>, i: int| method_match_at(s, i)
}

/// The representable method named by the token at `i`; HEAD and OPTIONS
/// yield none.
pub open spec fn method_of_at(s: Seq<char>, i: int) -> Option<LogMethod> {
    if get_tok_at(s, i) {
        Some(LogMethod::Get)
    } else if post_tok_at(s, i) {
        Some(LogMethod::Post)
    } else if put_tok_at(s, i) {
        Some(LogMethod::Put)
    } else if delete_tok_at(s, i) {
        Some(LogMethod::Delete)
    } else if patch_tok_at(s, i) {
        Some(LogMethod::Patch)
    } else {
        None
    }
}

/// The method a line yields: the first word-bounded vocabulary token
/// decides.
pub open spec fn extract_method(s: Seq<char>) -> Option<LogMethod> {
    match first_from(s, method_pred(), 0) {
        Some(i) => method_of_at(s, i),
        None => None,
    }
}

/// An endpoint anchor at `i`: a method token, one space, and at least one
/// path character.
pub open spec fn endpoint_match_at(s: Seq<char>, i: int) -> bool {
    &&& method_tok_len(s, i) > 0
    &&& i + method_tok_len(s, i) + 1 < s.len()
    &&& s[i + method_tok_len(s, i)] == ' '
    &&& is_path_char(s[i + method_tok_len(s, i) + 1])
}

pub open spec fn endpoint_pred() -> spec_fn(Seq<char>, int) -> bool {
    |s: Seq<char>, i: int| endpoint_match_at(s, i)
}

/// The endpoint a line yields: the maximal run of path characters after
/// the first anchored method token.
pub open spec fn extract_endpoint(s: Seq<char>) -> Option<Seq<char>> {
    match first_from(s, endpoint_pred(), 0) {
        Some(i) => {
            let p = i + method_tok_len(s, i) + 1;
            Some(s.subrange(p, p + path_run(s, p)))
        },
        None => None,
    }
}

/// View of an optional owned string.
pub open spec fn opt_string_view(o: Option<String>) -> Option<Seq<char>> {
    match o {
        Some(t) => Some(t@),
        None => None,
    }
}

fn method_tok_at(s: &str, i: usize) -> (l: usize)
    requires
        i <= s@.len(),
    ensures
        l == method_tok_len(s@, i as int),
{
    let n = s.unicode_len();
    if n - i >= 3 {
        let c0 = s.get_char(i);
        let c1 = s.get_char(i + 1);
        let c2 = s.get_char(i + 2);
        if c0 == 'G' && c1 == 'E' && c2 == 'T' {
            return 3;
        }
        if c0 == 'P' && c1 == 'U' && c2 == 'T' {
            return 3;
        }
        if n - i >= 4 {
            let c3 = s.get_char(i + 3);
            if c0 == 'P' && c1 == 'O' && c2 == 'S' && c3 == 'T' {
                return 4;
            }
            if c0 == 'H' && c1 == 'E' && c2 == 'A' && c3 == 'D' {
                return 4;
            }
            if n - i >= 5 {
                let c4 = s.get_char(i + 4);
                if c0 == 'P' && c1 == 'A' && c2 == 'T' && c3 == 'C' && c4 == 'H' {
                    return 5;
                }
                if n - i >= 6 {
                    let c5 = s.get_char(i + 5);
                    if c0 == 'D' && c1 == 'E' && c2 == 'L' && c3 == 'E' && c4 == 'T' && c5 == 'E' {
                        return 6;
                    }
                    if n - i >= 7 {
                        let c6 = s.get_char(i + 6);
                        if c0 == 'O' && c1 == 'P' && c2 == 'T' && c3 == 'I' && c4 == 'O' && c5
                            == 'N' && c6 == 'S' {
                            return 7;
                        }
                    }
                }
            }
        }
    }
    0
}

fn method_bounded_at(s: &str, i: usize) -> (b: bool)
    requires
        i <= s@.len(),
    ensures
        b == method_match_at(s@, i as int),
{
    let l = method_tok_at(s, i);
    if l == 0 {
        return false;
    }
    let n = s.unicode_len();
    if i > 0 && crate::text::word_char(s.get_char(i - 1)) {
        return false;
    }
    if i + l < n && crate::text::word_char(s.get_char(i + l)) {
        return false;
    }
    true
}

fn find_method(s: &str) -> (r: Option<usize>)
    ensures
        match r {
            Some(j) => first_from(s@, method_pred(), 0) == Some(j as int),
            None => first_from(s@, method_pred(), 0) is None,
        },
{
    let n = s.unicode_len();
    let mut i: usize = 0;
    while i < n
        invariant
            i <= n,
            n == s@.len(),
            forall|k: int| 0 <= k < i ==> !method_match_at(s@, k),
        decreases n - i,
    {
        if method_bounded_at(s, i) {
            proof {
                lemma_first_from_some(s@, method_pred(), 0, i as int);
            }
            return Some(i);
        }
        i = i + 1;
    }
    proof {
        lemma_first_from_none(s@, method_pred(), 0);
    }
    None
}

/// Scans a line for its method, as `extract_method` describes.
pub fn scan_method(s: &str) -> (r: Option<LogMethod>)
    ensures
        r == extract_method(s@),
{
    match find_method(s) {
        None => None,
        Some(i) => {
            proof {
                lemma_first_from_props(s@, method_pred(), 0);
            }
            let n = s.unicode_len();
            if n - i >= 3 {
                let c0 = s.get_char(i);
                let c1 = s.get_char(i + 1);
                let c2 = s.get_char(i + 2);
                if c0 == 'G' && c1 == 'E' && c2 == 'T' {
                    return Some(LogMethod::Get);
                }
                if c0 == 'P' && c1 == 'U' && c2 == 'T' {
                    return Some(LogMethod::Put);
                }
                if n - i >= 4 {
                    let c3 = s.get_char(i + 3);
                    if c0 == 'P' && c1 == 'O' && c2 == 'S' && c3 == 'T' {
                        return Some(LogMethod::Post);
                    }
                    if n - i >= 5 {
                        let c4 = s.get_char(i + 4);
                        if c0 == 'P' && c1 == 'A' && c2 == 'T' && c3 == 'C' && c4 == 'H' {
                            return Some(LogMethod::Patch);
                        }
                        if n - i >= 6 {
                            let c5 = s.get_char(i + 5);
                            if c0 == 'D' && c1 == 'E' && c2 == 'L' && c3 == 'E' && c4 == 'T' && c5
                                == 'E' {
                                return Some(LogMethod::Delete);
                            }
                        }
                    }
                }
            }
            None
        },
    }
}

fn endpoint_anchor_at(s: &str, i: usize) -> (b: bool)
    requires
        i <= s@.len(),
    ensures
        b == endpoint_match_at(s@, i as int),
{
    let l = method_tok_at(s, i);
    if l == 0 {
        return false;
    }
    let n = s.unicode_len();
    if n - i < l + 2 {
        return false;
    }
    s.get_char(i + l) == ' ' && crate::text::path_char(s.get_char(i + l + 1))
}

fn find_endpoint(s: &str) -> (r: Option<usize>)
    ensures
        match r {
            Some(j) => first_from(s@, endpoint_pred(), 0) == Some(j as int),
            None => first_from(s@, endpoint_pred(), 0) is None,
        },
{
    let n = s.unicode_len();
    let mut i: usize = 0;
    while i < n
        invariant
            i <= n,
            n == s@.len(),
            forall|k: int| 0 <= k < i ==> !endpoint_match_at(s@, k),
        decreases n - i,
    {
        if endpoint_anchor_at(s, i) {
            proof {
                lemma_first_from_some(s@, endpoint_pred(), 0, i as int);
            }
            return Some(i);
        }
        i = i + 1;
    }
    proof {
        lemma_first_from_none(s@, endpoint_pred(), 0);
    }
    None
}

/// Scans a line for its endpoint, as `extract_endpoint` describes.
pub fn scan_endpoint(s: &str) -> (r: Option<String>)
    ensures
        opt_string_view(r) == extract_endpoint(s@),
{
    match find_endpoint(s) {
        None => None,
        Some(i) => {
            proof {
                lemma_first_from_props(s@, endpoint_pred(), 0);
            }
            let n = s.unicode_len();
            let l = method_tok_at(s, i);
            let p = i + l + 1;
            let run = crate::text::path_run_at(s, p);
            let sub = s.substring_char(p, p + run);
            Some(sub.to_owned())
        },
    }
}

// ---------------------------------------------------------------------------
// Timestamp: either a bracketed Apache-style form
// "[DD/Mon/YYYY:HH:MM:SS +ZZZZ]" or an ISO-like form
// "YYYY-MM-DD HH:MM:SS" with an optional ".fff" fraction and an optional
// trailing "Z". The whole matched text is kept, brackets included.
// ---------------------------------------------------------------------------

pub open spec fn ts_bracket_at(s: Seq<char>, i: int) -> bool {
    &&& 0 <= i
    &&& i + 28 <= s.len()
    &&& s[i] == '['
    &&& is_digit(s[i + 1])
    &&& is_digit(s[i + 2])
    &&& s[i + 3] == '/'
    &&& is_alpha(s[i + 4])
    &&& is_alpha(s[i + 5])
    &&& is_alpha(s[i + 6])
    &&& s[i + 7] == '/'
    &&& is_digit(s[i + 8])
    &&& is_digit(s[i + 9])
    &&& is_digit(s[i + 10])
    &&& is_digit(s[i + 11])
    &&& s[i + 12] == ':'
    &&& is_digit(s[i + 13])
    &&& is_digit(s[i + 14])
    &&& s[i + 15] == ':'
    &&& is_digit(s[i + 16])
    &&& is_digit(s[i + 17])
    &&& s[i + 18] == ':'
    &&& is_digit(s[i + 19])
    &&& is_digit(s[i + 20])
    &&& s[i + 21] == ' '
    &&& (s[i + 22] == '+' || s[i + 22] == '-')
    &&& is_digit(s[i + 23])
    &&& is_digit(s[i + 24])
    &&& is_digit(s[i + 25])
    &&& is_digit(s[i + 26])
    &&& s[i + 27] == ']'
}

pub open spec fn ts_iso_at(s: Seq<char>, i: int) -> bool {
    &&& 0 <= i
    &&& i + 19 <= s.len()
    &&& is_digit(s[i])
    &&& is_digit(s[i + 1])
    &&& is_digit(s[i + 2])
    &&& is_digit(s[i + 3])
    &&& s[i + 4] == '-'
    &&& is_digit(s[i + 5])
    &&& is_digit(s[i + 6])
    &&& s[i + 7] == '-'
    &&& is_digit(s[i + 8])
    &&& is_digit(s[i + 9])
    &&& s[i + 10] == ' '
    &&& is_digit(s[i + 11])
    &&& is_digit(s[i + 12])
    &&& s[i + 13] == ':'
    &&& is_digit(s[i + 14])
    &&& is_digit(s[i + 15])
    &&& s[i + 16] == ':'
    &&& is_digit(s[i + 17])
    &&& is_digit(s[i + 18])
}

/// The optional three-digit fraction of the ISO form.
pub open spec fn ts_iso_frac_at(s: Seq<char>, i: int) -> bool {
    &&& i + 23 <= s.len()
    &&& s[i + 19] == '.'
    &&& is_digit(s[i + 20])
    &&& is_digit(s[i + 21])
    &&& is_digit(s[i + 22])
}

/// Length of the ISO match at `i`: the fraction and a trailing `Z` are
/// taken greedily when present.
pub open spec fn ts_iso_len(s: Seq<char>, i: int) -> int {
    let base: int = if ts_iso_frac_at(s, i) {
        23
    } else {
        19
    };
    if i + base < s.len() && s[i + base] == 'Z' {
        base + 1
    } else {
        base
    }
}

pub open spec fn ts_match_at(s: Seq<char>, i: int) -> bool {
    ts_bracket_at(s, i) || ts_iso_at(s, i)
}

pub open spec fn ts_len_at(s: Seq<char>, i: int) -> int {
    if ts_bracket_at(s, i) {
        28
    } else {
        ts_iso_len(s, i)
    }
}

pub open spec fn ts_pred() -> spec_fn(Seq<char>, int) -> bool {
    |s: Seq<char>, i: int| ts_match_at(s, i)
}

/// The timestamp a line yields: the first match of either form, kept as
/// raw text.
pub open spec fn extract_timestamp(s: Seq<char>) -> Option<Seq<char>> {
    match first_from(s, ts_pred(), 0) {
        Some(i) => Some(s.subrange(i, i + ts_len_at(s, i))),
        None => None,
    }
}

fn ts_bracket_check(s: &str, i: usize) -> (b: bool)
    requires
        i <= s@.len(),
    ensures
        b == ts_bracket_at(s@, i as int),
{
    let n = s.unicode_len();
    if n - i < 28 {
        return false;
    }
    s.get_char(i) == '[' && digit_char(s.get_char(i + 1)) && digit_char(s.get_char(i + 2))
        && s.get_char(i + 3) == '/' && alpha_char(s.get_char(i + 4)) && alpha_char(
        s.get_char(i + 5),
    ) && alpha_char(s.get_char(i + 6)) && s.get_char(i + 7) == '/' && digit_char(s.get_char(i + 8))
        && digit_char(s.get_char(i + 9)) && digit_char(s.get_char(i + 10)) && digit_char(
        s.get_char(i + 11),
    ) && s.get_char(i + 12) == ':' && digit_char(s.get_char(i + 13)) && digit_char(
        s.get_char(i + 14),
    ) && s.get_char(i + 15) == ':' && digit_char(s.get_char(i + 16)) && digit_char(
        s.get_char(i + 17),
    ) && s.get_char(i + 18) == ':' && digit_char(s.get_char(i + 19)) && digit_char(
        s.get_char(i + 20),
    ) && s.get_char(i + 21) == ' ' && (s.get_char(i + 22) == '+' || s.get_char(i + 22) == '-')
        && digit_char(s.get_char(i + 23)) && digit_char(s.get_char(i + 24)) && digit_char(
        s.get_char(i + 25),
    ) && digit_char(s.get_char(i + 26)) && s.get_char(i + 27) == ']'
}

fn ts_iso_check(s: &str, i: usize) -> (b: bool)
    requires
        i <= s@.len(),
    ensures
        b == ts_iso_at(s@, i as int),
{
    let n = s.unicode_len();
    if n - i < 19 {
        return false;
    }
    digit_char(s.get_char(i)) && digit_char(s.get_char(i + 1)) && digit_char(s.get_char(i + 2))
        && digit_char(s.get_char(i + 3)) && s.get_char(i + 4) == '-' && digit_char(
        s.get_char(i + 5),
    ) && digit_char(s.get_char(i + 6)) && s.get_char(i + 7) == '-' && digit_char(
        s.get_char(i + 8),
    ) && digit_char(s.get_char(i + 9)) && s.get_char(i + 10) == ' ' && digit_char(
        s.get_char(i + 11),
    ) && digit_char(s.get_char(i + 12)) && s.get_char(i + 13) == ':' && digit_char(
        s.get_char(i + 14),
    ) && digit_char(s.get_char(i + 15)) && s.get_char(i + 16) == ':' && digit_char(
        s.get_char(i + 17),
    ) && digit_char(s.get_char(i + 18))
}

fn find_timestamp(s: &str) -> (r: Option<usize>)
    ensures
        match r {
            Some(j) => first_from(s@, ts_pred(), 0) == Some(j as int),
            None => first_from(s@, ts_pred(), 0) is None,
        },
{
    let n = s.unicode_len();
    let mut i: usize = 0;
    while i < n
        invariant
            i <= n,
            n == s@.len(),
            forall|k: int| 0 <= k < i ==> !ts_match_at(s@, k),
        decreases n - i,
    {
        if ts_bracket_check(s, i) || ts_iso_check(s, i) {
            proof {
                lemma_first_from_some(s@, ts_pred(), 0, i as int);
            }
            return Some(i);
        }
        i = i + 1;
    }
    proof {
        lemma_first_from_none(s@, ts_pred(), 0);
    }
    None
}

/// Scans a line for its timestamp, as `extract_timestamp` describes.
pub fn scan_timestamp(s: &str) -> (r: Option<String>)
    ensures
        opt_string_view(r) == extract_timestamp(s@),
{
    match find_timestamp(s) {
        None => None,
        Some(i) => {
            proof {
                lemma_first_from_props(s@, ts_pred(), 0);
            }
            let n = s.unicode_len();
            let len: usize = if ts_bracket_check(s, i) {
                28
            } else {
                let frac = n - i >= 23 && s.get_char(i + 19) == '.' && digit_char(
                    s.get_char(i + 20),
                ) && digit_char(s.get_char(i + 21)) && digit_char(s.get_char(i + 22));
                let base: usize = if frac {
                    23
                } else {
                    19
                };
                if i + base < n && s.get_char(i + base) == 'Z' {
                    base + 1
                } else {
                    base
                }
            };
            let sub = s.substring_char(i, i + len);
            Some(sub.to_owned())
        },
    }
}

// ---------------------------------------------------------------------------
// IP address: a word-bounded dotted quad. The pattern only constrains the
// shape; the numeric read afterwards validates each octet and leaves the
// field absent when one is out of range.
// ---------------------------------------------------------------------------

/// An IPv4 address as four plain octets.
#[derive(Debug, PartialEq, Eq, Structural, Clone, Copy)]
pub struct IpAddress {
    pub a: u8,
    pub b: u8,
    pub c: u8,
    pub d: u8,
}

pub open spec fn ip_match_at(s: Seq<char>, i: int) -> bool {
    let r1 = digit_run(s, i);
    let p2 = i + r1 + 1;
    let r2 = digit_run(s, p2);
    let p3 = p2 + r2 + 1;
    let r3 = digit_run(s, p3);
    let p4 = p3 + r3 + 1;
    let r4 = digit_run(s, p4);
    &&& 0 <= i
    &&& (i == 0 || !is_word(s[i - 1]))
    &&& 1 <= r1 <= 3
    &&& i + r1 < s.len() && s[i + r1] == '.'
    &&& 1 <= r2 <= 3
    &&& p2 + r2 < s.len() && s[p2 + r2] == '.'
    &&& 1 <= r3 <= 3
    &&& p3 + r3 < s.len() && s[p3 + r3] == '.'
    &&& 1 <= r4 <= 3
    &&& (p4 + r4 == s.len() || !is_word(s[p4 + r4]))
}

pub open spec fn ip_pred() -> spec_fn(Seq<char>, int) -> bool {
    |s: Seq<char>, i: int| ip_match_at(s, i)
}

/// A valid octet: up to three digits, no leading zero, value at most 255.
pub open spec fn octet_ok(o: Seq<char>) -> bool {
    &&& 1 <= o.len() <= 3
    &&& (o.len() == 1 || o[0] != '0')
    &&& digits_val(o) <= 255
}

/// The IP address a line yields: the first word-bounded dotted quad whose
/// four octets all pass the numeric validation; a quad that matches the
/// pattern but fails validation leaves the field absent.
pub open spec fn extract_ip(s: Seq<char>) -> Option<IpAddress> {
    match first_from(s, ip_pred(), 0) {
        Some(i) => {
            let r1 = digit_run(s, i);
            let o1 = s.subrange(i, i + r1);
            let p2 = i + r1 + 1;
            let r2 = digit_run(s, p2);
            let o2 = s.subrange(p2, p2 + r2);
            let p3 = p2 + r2 + 1;
            let r3 = digit_run(s, p3);
            let o3 = s.subrange(p3, p3 + r3);
            let p4 = p3 + r3 + 1;
            let r4 = digit_run(s, p4);
            let o4 = s.subrange(p4, p4 + r4);
            if octet_ok(o1) && octet_ok(o2) && octet_ok(o3) && octet_ok(o4) {
                Some(
                    IpAddress {
                        a: digits_val(o1) as u8,
                        b: digits_val(o2) as u8,
                        c: digits_val(o3) as u8,
                        d: digits_val(o4) as u8,
                    },
                )
            } else {
                None
            }
        },
        None => None,
    }
}

fn ip_check(s: &str, i: usize) -> (b: bool)
    requires
        i <= s@.len(),
    ensures
        b == ip_match_at(s@, i as int),
{
    let n = s.unicode_len();
    if i > 0 && crate::text::word_char(s.get_char(i - 1)) {
        return false;
    }
    let r1 = crate::text::digit_run_at(s, i);
    if r1 < 1 || r1 > 3 || i + r1 >= n || s.get_char(i + r1) != '.' {
        return false;
    }
    let p2 = i + r1 + 1;
    let r2 = crate::text::digit_run_at(s, p2);
    if r2 < 1 || r2 > 3 || p2 + r2 >= n || s.get_char(p2 + r2) != '.' {
        return false;
    }
    let p3 = p2 + r2 + 1;
    let r3 = crate::text::digit_run_at(s, p3);
    if r3 < 1 || r3 > 3 || p3 + r3 >= n || s.get_char(p3 + r3) != '.' {
        return false;
    }
    let p4 = p3 + r3 + 1;
    let r4 = crate::text::digit_run_at(s, p4);
    if r4 < 1 || r4 > 3 {
        return false;
    }
    p4 + r4 == n || !crate::text::word_char(s.get_char(p4 + r4))
}

fn find_ip(s: &str) -> (r: Option<usize>)
    ensures
        match r {
            Some(j) => first_from(s@, ip_pred(), 0) == Some(j as int),
            None => first_from(s@, ip_pred(), 0) is None,
        },
{
    let n = s.unicode_len();
    let mut i: usize = 0;
    while i < n
        invariant
            i <= n,
            n == s@.len(),
            forall|k: int| 0 <= k < i ==> !ip_match_at(s@, k),
        decreases n - i,
    {
        if ip_check(s, i) {
            proof {
                lemma_first_from_some(s@, ip_pred(), 0, i as int);
            }
            return Some(i);
        }
        i = i + 1;
    }
    proof {
        lemma_first_from_none(s@, ip_pred(), 0);
    }
    None
}

/// Reads the value of an octet of one to three digit characters.
fn octet_value(s: &str, start: usize, len: usize) -> (v: u16)
    requires
        1 <= len <= 3,
        start + len <= s@.len(),
        start + len <= usize::MAX,
        forall|k: int| start <= k < start + len ==> is_digit(s@[k]),
    ensures
        v as nat == digits_val(s@.subrange(start as int, start as int + len as int)),
        v <= 999,
{
    let ghost o = s@.subrange(start as int, start as int + len as int);
    let d0 = crate::text::char_digit(s.get_char(start));
    if len == 1 {
        proof {
            crate::text::lemma_digits_val1(o);
        }
        d0 as u16
    } else if len == 2 {
        let d1 = crate::text::char_digit(s.get_char(start + 1));
        proof {
            crate::text::lemma_digits_val2(o);
        }
        10 * (d0 as u16) + (d1 as u16)
    } else {
        let d1 = crate::text::char_digit(s.get_char(start + 1));
        let d2 = crate::text::char_digit(s.get_char(start + 2));
        proof {
            crate::text::lemma_digits_val3(o);
        }
        100 * (d0 as u16) + 10 * (d1 as u16) + (d2 as u16)
    }
}

/// Validates and reads one octet; `None` when it has a leading zero or is
/// out of range.
fn read_octet(s: &str, start: usize, len: usize) -> (v: Option<u8>)
    requires
        1 <= len <= 3,
        start + len <= s@.len(),
        start + len <= usize::MAX,
        forall|k: int| start <= k < start + len ==> is_digit(s@[k]),
    ensures
        octet_ok(s@.subrange(start as int, start as int + len as int)) <==> v is Some,
        v is Some ==> v->0 as nat == digits_val(
            s@.subrange(start as int, start as int + len as int),
        ),
{
    if len > 1 && s.get_char(start) == '0' {
        return None;
    }
    let v = octet_value(s, start, len);
    if v > 255 {
        return None;
    }
    Some(v as u8)
}

/// Scans a line for its IP address, as `extract_ip` describes.
pub fn scan_ip(s: &str) -> (r: Option<IpAddress>)
    ensures
        r == extract_ip(s@),
{
    match find_ip(s) {
        None => None,
        Some(i) => {
            proof {
                lemma_first_from_props(s@, ip_pred(), 0);
            }
            let n = s.unicode_len();
            let r1 = crate::text::digit_run_at(s, i);
            let p2 = i + r1 + 1;
            let r2 = crate::text::digit_run_at(s, p2);
            let p3 = p2 + r2 + 1;
            let r3 = crate::text::digit_run_at(s, p3);
            let p4 = p3 + r3 + 1;
            let r4 = crate::text::digit_run_at(s, p4);
            proof {
                crate::text::lemma_digit_run_chars(s@, i as int);
                crate::text::lemma_digit_run_chars(s@, p2 as int);
                crate::text::lemma_digit_run_chars(s@, p3 as int);
                crate::text::lemma_digit_run_chars(s@, p4 as int);
            }
            let a = read_octet(s, i, r1);
            let b = read_octet(s, p2, r2);
            let c = read_octet(s, p3, r3);
            let d = read_octet(s, p4, r4);
            match (a, b, c, d) {
                (Some(a), Some(b), Some(c), Some(d)) => Some(IpAddress { a, b, c, d }),
                _ => None,
            }
        },
    }
}

// ---------------------------------------------------------------------------
// Status code: a free-standing three-digit token with whitespace on both
// sides, so that fragments of timestamps or ports are not taken.
// ---------------------------------------------------------------------------

pub open spec fn status_match_at(s: Seq<char>, i: int) -> bool {
    let m = space_run(s, i);
    &&& 0 <= i < s.len()
    &&& is_space(s[i])
    &&& i + m + 4 <= s.len()
    &&& is_digit(s[i + m])
    &&& is_digit(s[i + m + 1])
    &&& is_digit(s[i + m + 2])
    &&& is_space(s[i + m + 3])
}

pub open spec fn status_pred() -> spec_fn(Seq<char>, int) -> bool {
    |s: Seq<char>, i: int| status_match_at(s, i)
}

/// The status code a line yields: the value of the first such token.
pub open spec fn extract_status(s: Seq<char>) -> Option<u16> {
    match first_from(s, status_pred(), 0) {
        Some(i) => {
            let m = space_run(s, i);
            Some(digits_val(s.subrange(i + m, i + m + 3)) as u16)
        },
        None => None,
    }
}

fn status_check(s: &str, i: usize) -> (b: bool)
    requires
        i <= s@.len(),
    ensures
        b == status_match_at(s@, i as int),
{
    let n = s.unicode_len();
    if i >= n || !space_char(s.get_char(i)) {
        return false;
    }
    let m = crate::text::space_run_at(s, i);
    if n - i < 4 || m > n - i - 4 {
        return false;
    }
    digit_char(s.get_char(i + m)) && digit_char(s.get_char(i + m + 1)) && digit_char(
        s.get_char(i + m + 2),
    ) && space_char(s.get_char(i + m + 3))
}

fn find_status(s: &str) -> (r: Option<usize>)
    ensures
        match r {
            Some(j) => first_from(s@, status_pred(), 0) == Some(j as int),
            None => first_from(s@, status_pred(), 0) is None,
        },
{
    let n = s.unicode_len();
    let mut i: usize = 0;
    while i < n
        invariant
            i <= n,
            n == s@.len(),
            forall|k: int| 0 <= k < i ==> !status_match_at(s@, k),
        decreases n - i,
    {
        if status_check(s, i) {
            proof {
                lemma_first_from_some(s@, status_pred(), 0, i as int);
            }
            return Some(i);
        }
        i = i + 1;
    }
    proof {
        lemma_first_from_none(s@, status_pred(), 0);
    }
    None
}

/// Scans a line for its status code, as `extract_status` describes.
pub fn scan_status(s: &str) -> (r: Option<u16>)
    ensures
        r == extract_status(s@),
{
    match find_status(s) {
        None => None,
        Some(i) => {
            proof {
                lemma_first_from_props(s@, status_pred(), 0);
            }
            let n = s.unicode_len();
            let m = crate::text::space_run_at(s, i);
            let v = octet_value(s, i + m, 3);
            Some(v)
        },
    }
}

// ---------------------------------------------------------------------------
// Response time: digits with an optional fraction, optional whitespace,
// then "ms" or "s". The unit is not interpreted; the numeric token alone
// is the value, held in thousandths. A value whose thousandths do not fit
// in 64 bits leaves the field absent.
// ---------------------------------------------------------------------------

/// End of the numeric token starting at `i`: the digit run, extended over
/// a dot and a further digit run when present.
pub open spec fn rt_num_end(s: Seq<char>, i: int) -> int {
    let e0 = i + digit_run(s, i);
    if e0 < s.len() && s[e0] == '.' && digit_run(s, e0 + 1) >= 1 {
        e0 + 1 + digit_run(s, e0 + 1)
    } else {
        e0
    }
}

/// Position where the unit must stand: after the numeric token and any
/// whitespace.
pub open spec fn rt_unit_pos(s: Seq<char>, i: int) -> int {
    rt_num_end(s, i) + space_run(s, rt_num_end(s, i))
}

pub open spec fn rt_match_at(s: Seq<char>, i: int) -> bool {
    let u = rt_unit_pos(s, i);
    &&& 0 <= i < s.len()
    &&& is_digit(s[i])
    &&& ((u + 2 <= s.len() && s[u] == 'm' && s[u + 1] == 's') || (u + 1 <= s.len() && s[u]
        == 's'))
}

/// End of the unit: "ms" is preferred over "s" where both could match.
pub open spec fn rt_unit_end(s: Seq<char>, i: int) -> int {
    let u = rt_unit_pos(s, i);
    if u + 2 <= s.len() && s[u] == 'm' && s[u + 1] == 's' {
        u + 2
    } else {
        u + 1
    }
}

pub open spec fn rt_pred() -> spec_fn(Seq<char>, int) -> bool {
    |s: Seq<char>, i: int| rt_match_at(s, i)
}

/// Thousandths contributed by up to three fraction digits; further digits
/// are beyond the resolution kept and are ignored.
pub open spec fn frac_thousandths(f: Seq<char>) -> nat {
    if f.len() == 0 {
        0
    } else if f.len() == 1 {
        digit_val(f[0]) * 100
    } else if f.len() == 2 {
        digit_val(f[0]) * 100 + digit_val(f[1]) * 10
    } else {
        digit_val(f[0]) * 100 + digit_val(f[1]) * 10 + digit_val(f[2])
    }
}

/// Value of the numeric token at `i`, in thousandths.
pub open spec fn rt_value_thousandths(s: Seq<char>, i: int) -> nat {
    let e0 = i + digit_run(s, i);
    let frac: Seq<char> = if e0 < s.len() && s[e0] == '.' && digit_run(s, e0 + 1) >= 1 {
        s.subrange(e0 + 1, e0 + 1 + digit_run(s, e0 + 1))
    } else {
        Seq::empty()
    };
    digits_val(s.subrange(i, e0)) * 1000 + frac_thousandths(frac)
}

/// The response time a line yields, in thousandths of the numeric token.
pub open spec fn extract_response_time(s: Seq<char>) -> Option<u64> {
    match first_from(s, rt_pred(), 0) {
        Some(i) => if rt_value_thousandths(s, i) <= u64::MAX {
            Some(rt_value_thousandths(s, i) as u64)
        } else {
            None
        },
        None => None,
    }
}

fn rt_num_end_at(s: &str, i: usize) -> (e: usize)
    requires
        i <= s@.len(),
    ensures
        e == rt_num_end(s@, i as int),
        i <= e <= s@.len(),
{
    let n = s.unicode_len();
    let r = crate::text::digit_run_at(s, i);
    let e0 = i + r;
    if e0 < n && s.get_char(e0) == '.' {
        let fr = crate::text::digit_run_at(s, e0 + 1);
        if fr >= 1 {
            return e0 + 1 + fr;
        }
    }
    e0
}

fn rt_check(s: &str, i: usize) -> (b: bool)
    requires
        i <= s@.len(),
    ensures
        b == rt_match_at(s@, i as int),
{
    let n = s.unicode_len();
    if i >= n || !digit_char(s.get_char(i)) {
        return false;
    }
    let ne = rt_num_end_at(s, i);
    let k = crate::text::space_run_at(s, ne);
    let u = ne + k;
    if n - u >= 2 && s.get_char(u) == 'm' && s.get_char(u + 1) == 's' {
        return true;
    }
    u < n && s.get_char(u) == 's'
}

fn rt_unit_end_at(s: &str, i: usize) -> (e: usize)
    requires
        i <= s@.len(),
        rt_match_at(s@, i as int),
    ensures
        e == rt_unit_end(s@, i as int),
        i < e <= s@.len(),
{
    let n = s.unicode_len();
    let ne = rt_num_end_at(s, i);
    let k = crate::text::space_run_at(s, ne);
    let u = ne + k;
    if n - u >= 2 && s.get_char(u) == 'm' && s.get_char(u + 1) == 's' {
        u + 2
    } else {
        u + 1
    }
}

fn find_rt(s: &str) -> (r: Option<usize>)
    ensures
        match r {
            Some(j) => first_from(s@, rt_pred(), 0) == Some(j as int),
            None => first_from(s@, rt_pred(), 0) is None,
        },
{
    let n = s.unicode_len();
    let mut i: usize = 0;
    while i < n
        invariant
            i <= n,
            n == s@.len(),
            forall|k: int| 0 <= k < i ==> !rt_match_at(s@, k),
        decreases n - i,
    {
        if rt_check(s, i) {
            proof {
                lemma_first_from_some(s@, rt_pred(), 0, i as int);
            }
            return Some(i);
        }
        i = i + 1;
    }
    proof {
        lemma_first_from_none(s@, rt_pred(), 0);
    }
    None
}

/// Scans a line for its response time, as `extract_response_time`
/// describes.
pub fn scan_response_time(s: &str) -> (res: Option<u64>)
    ensures
        res == extract_response_time(s@),
{
    match find_rt(s) {
        None => None,
        Some(i) => {
            proof {
                lemma_first_from_props(s@, rt_pred(), 0);
            }
            let n = s.unicode_len();
            let r = crate::text::digit_run_at(s, i);
            let e0 = i + r;
            proof {
                crate::text::lemma_digit_run_chars(s@, i as int);
            }
            let mut acc: u64 = 0;
            let mut of: bool = false;
            let mut k: usize = i;
            while k < e0
                invariant
                    i <= k <= e0,
                    e0 == i + digit_run(s@, i as int),
                    e0 <= n,
                    n == s@.len(),
                    forall|t: int| i <= t < e0 ==> is_digit(s@[t]),
                    !of ==> acc as nat == digits_val(s@.subrange(i as int, k as int)),
                    of ==> digits_val(s@.subrange(i as int, k as int)) > u64::MAX,
                decreases e0 - k,
            {
                let d = crate::text::char_digit(s.get_char(k));
                proof {
                    crate::text::lemma_digits_val_extend_win(s@, i as int, k as int);
                }
                if !of {
                    if acc > (u64::MAX - d as u64) / 10 {
                        proof {
                            let q = ((u64::MAX - d as u64) / 10) as int;
                            assert((u64::MAX - d as u64) as int == q * 10 + (
                            (u64::MAX - d as u64) % 10) as int);
                            assert(acc as int * 10 >= q * 10 + 10);
                        }
                        of = true;
                    } else {
                        acc = acc * 10 + d as u64;
                    }
                }
                k = k + 1;
            }
            if of {
                proof {
                    let whole = digits_val(s@.subrange(i as int, e0 as int));
                    assert(rt_value_thousandths(s@, i as int) >= whole * 1000) by {
                        assert(frac_thousandths(Seq::empty()) == 0);
                    };
                    assert(whole * 1000 >= whole);
                }
                return None;
            }
            let mut f: u64 = 0;
            if e0 < n && s.get_char(e0) == '.' {
                let fr = crate::text::digit_run_at(s, e0 + 1);
                if fr >= 1 {
                    proof {
                        crate::text::lemma_digit_run_chars(s@, e0 + 1 as int);
                    }
                    f = crate::text::char_digit(s.get_char(e0 + 1)) as u64 * 100;
                    if fr >= 2 {
                        f = f + crate::text::char_digit(s.get_char(e0 + 2)) as u64 * 10;
                    }
                    if fr >= 3 {
                        f = f + crate::text::char_digit(s.get_char(e0 + 3)) as u64;
                    }
                }
            }
            if acc > (u64::MAX - f) / 1000 {
                proof {
                    let q = ((u64::MAX - f) / 1000) as int;
                    assert((u64::MAX - f) as int == q * 1000 + ((u64::MAX - f) % 1000) as int);
                    assert(acc as int * 1000 >= q * 1000 + 1000);
                }
                None
            } else {
                Some(acc * 1000 + f)
            }
        },
    }
}

// ---------------------------------------------------------------------------
// Message: the rest of the line after a response-time token and at least
// one whitespace character. The capture cannot be empty and cannot span a
// line feed, so trailing whitespace may shift its start back by one.
// ---------------------------------------------------------------------------

/// Start of the message capture: after the whitespace following the unit,
/// pulled back one position when that whitespace runs to the end of the
/// line.
pub open spec fn msg_capture_start(s: Seq<char>, i: int) -> int {
    let e = rt_unit_end(s, i);
    let k = space_run(s, e);
    if e + k <= s.len() - 1 {
        e + k
    } else {
        s.len() - 1
    }
}

pub open spec fn msg_match_at(s: Seq<char>, i: int) -> bool {
    let e = rt_unit_end(s, i);
    &&& rt_match_at(s, i)
    &&& space_run(s, e) >= 1
    &&& e + 2 <= s.len()
    &&& forall|j: int| msg_capture_start(s, i) <= j < s.len() ==> s[j] != '\n'
}

pub open spec fn msg_pred() -> spec_fn(Seq<char>, int) -> bool {
    |s: Seq<char>, i: int| msg_match_at(s, i)
}

/// The message a line yields: everything from the capture start of the
/// first matching anchor to the end of the line.
pub open spec fn extract_message(s: Seq<char>) -> Option<Seq<char>> {
    match first_from(s, msg_pred(), 0) {
        Some(i) => Some(s.subrange(msg_capture_start(s, i), s.len() as int)),
        None => None,
    }
}

fn msg_check(s: &str, i: usize) -> (b: bool)
    requires
        i <= s@.len(),
    ensures
        b == msg_match_at(s@, i as int),
{
    if !rt_check(s, i) {
        return false;
    }
    let n = s.unicode_len();
    let e = rt_unit_end_at(s, i);
    let k2 = crate::text::space_run_at(s, e);
    if k2 == 0 {
        return false;
    }
    if n - e < 2 {
        return false;
    }
    let c = if e + k2 <= n - 1 {
        e + k2
    } else {
        n - 1
    };
    let mut j = c;
    while j < n
        invariant
            c <= j <= n,
            n == s@.len(),
            rt_match_at(s@, i as int),
            e as int == rt_unit_end(s@, i as int),
            k2 as int == space_run(s@, e as int),
            k2 >= 1,
            e + 2 <= n,
            c as int == msg_capture_start(s@, i as int),
            forall|t: int| c <= t < j ==> s@[t] != '\n',
        decreases n - j,
    {
        if s.get_char(j) == '\n' {
            return false;
        }
        j = j + 1;
    }
    true
}

fn find_msg(s: &str) -> (r: Option<usize>)
    ensures
        match r {
            Some(j) => first_from(s@, msg_pred(), 0) == Some(j as int),
            None => first_from(s@, msg_pred(), 0) is None,
        },
{
    let n = s.unicode_len();
    let mut i: usize = 0;
    while i < n
        invariant
            i <= n,
            n == s@.len(),
            forall|k: int| 0 <= k < i ==> !msg_match_at(s@, k),
        decreases n - i,
    {
        if msg_check(s, i) {
            proof {
                lemma_first_from_some(s@, msg_pred(), 0, i as int);
            }
            return Some(i);
        }
        i = i + 1;
    }
    proof {
        lemma_first_from_none(s@, msg_pred(), 0);
    }
    None
}

/// Scans a line for its message, as `extract_message` describes.
pub fn scan_message(s: &str) -> (r: Option<String>)
    ensures
        opt_string_view(r) == extract_message(s@),
{
    match find_msg(s) {
        None => None,
        Some(i) => {
            proof {
                lemma_first_from_props(s@, msg_pred(), 0);
            }
            let n = s.unicode_len();
            let e = rt_unit_end_at(s, i);
            let k2 = crate::text::space_run_at(s, e);
            let c = if e + k2 <= n - 1 {
                e + k2
            } else {
                n - 1
            };
            let sub = s.substring_char(c, n);
            Some(sub.to_owned())
        },
    }
}

// ---------------------------------------------------------------------------
// Date: the first "YYYY-MM-DD" shaped substring, used when filtering a
// collection by date range.
// ---------------------------------------------------------------------------

pub open spec fn date_match_at(s: Seq<char>, i: int) -> bool {
    &&& 0 <= i
    &&& i + 10 <= s.len()
    &&& is_digit(s[i])
    &&& is_digit(s[i + 1])
    &&& is_digit(s[i + 2])
    &&& is_digit(s[i + 3])
    &&& s[i + 4] == '-'
    &&& is_digit(s[i + 5])
    &&& is_digit(s[i + 6])
    &&& s[i + 7] == '-'
    &&& is_digit(s[i + 8])
    &&& is_digit(s[i + 9])
}

pub open spec fn date_pred() -> spec_fn(Seq<char>, int) -> bool {
    |s: Seq<char>, i: int| date_match_at(s, i)
}

/// The first date-shaped substring of a timestamp, if any.
pub open spec fn extract_date_text(s: Seq<char>) -> Option<Seq<char>> {
    match first_from(s, date_pred(), 0) {
        Some(i) => Some(s.subrange(i, i + 10)),
        None => None,
    }
}

fn date_check(s: &str, i: usize) -> (b: bool)
    requires
        i <= s@.len(),
    ensures
        b == date_match_at(s@, i as int),
{
    let n = s.unicode_len();
    if n - i < 10 {
        return false;
    }
    digit_char(s.get_char(i)) && digit_char(s.get_char(i + 1)) && digit_char(s.get_char(i + 2))
        && digit_char(s.get_char(i + 3)) && s.get_char(i + 4) == '-' && digit_char(
        s.get_char(i + 5),
    ) && digit_char(s.get_char(i + 6)) && s.get_char(i + 7) == '-' && digit_char(
        s.get_char(i + 8),
    ) && digit_char(s.get_char(i + 9))
}

// ---------------------------------------------------------------------------
// Coupling between the patterns.
// ---------------------------------------------------------------------------

proof fn lemma_first_from_exists(s: Seq<char>, p: spec_fn(Seq<char>, int) -> bool, i: int)
    requires
        0 <= i < s.len(),
        p(s, i),
    ensures
        first_from(s, p, 0) is Some,
{
    lemma_first_from_props(s, p, 0);
    if first_from(s, p, 0) is None {
        assert(!p(s, i));
    }
}

/// When the first word-bounded method token is one of the representable
/// five and stands immediately before path text, and a response-time
/// token whose value fits occurs anywhere in the line, then method,
/// endpoint and response time are all populated together.
pub proof fn lemma_method_endpoint_rt_populated(s: Seq<char>)
    requires
        first_from(s, method_pred(), 0) is Some,
        method_of_at(s, first_from(s, method_pred(), 0)->0) is Some,
        endpoint_match_at(s, first_from(s, method_pred(), 0)->0),
        first_from(s, rt_pred(), 0) is Some,
        rt_value_thousandths(s, first_from(s, rt_pred(), 0)->0) <= u64::MAX,
    ensures
        extract_method(s) is Some,
        extract_endpoint(s) is Some,
        extract_response_time(s) is Some,
{
    let i = first_from(s, method_pred(), 0)->0;
    lemma_first_from_props(s, method_pred(), 0);
    assert(method_tok_len(s, i) > 0);
    assert(i + method_tok_len(s, i) + 1 < s.len());
    lemma_first_from_exists(s, endpoint_pred(), i);
    lemma_first_from_props(s, endpoint_pred(), 0);
}

/// A line without a latency token yields neither a response time nor a
/// message: the message capture is anchored on a response-time token.
pub proof fn lemma_no_latency_no_message(s: Seq<char>)
    requires
        first_from(s, rt_pred(), 0) is None,
    ensures
        extract_response_time(s) is None,
        extract_message(s) is None,
{
    lemma_first_from_props(s, msg_pred(), 0);
    match first_from(s, msg_pred(), 0) {
        Some(i) => {
            assert(msg_match_at(s, i));
            assert(rt_match_at(s, i));
            lemma_first_from_exists(s, rt_pred(), i);
        },
        None => {},
    }
}

/// A line that yields a message carries a response-time token.
pub proof fn lemma_message_needs_latency(s: Seq<char>)
    requires
        extract_message(s) is Some,
    ensures
        first_from(s, rt_pred(), 0) is Some,
{
    lemma_first_from_props(s, msg_pred(), 0);
    let i = first_from(s, msg_pred(), 0)->0;
    assert(msg_match_at(s, i));
    assert(rt_match_at(s, i));
    lemma_first_from_exists(s, rt_pred(), i);
}

// ---------------------------------------------------------------------------
// The record.
// ---------------------------------------------------------------------------

/// The structured result of extracting one line. Every field is
/// independently optional: formats vary and each pattern may fail on its
/// own without affecting the others.
#[derive(Debug, Clone)]
#[verifier::ext_equal]
pub struct LogEntry {
    pub timestamp: Option<String>,
    pub level: Option<LogLevel>,
    pub ip_address: Option<IpAddress>,
    pub method: Option<LogMethod>,
    pub endpoint: Option<String>,
    pub status_code: Option<u16>,
    pub response_time: Option<u64>,
    pub message: Option<String>,
}

/// The record `e` is exactly what extraction yields on the line `s`.
pub open spec fn entry_matches_line(e: LogEntry, s: Seq<char>) -> bool {
    &&& opt_string_view(e.timestamp) == extract_timestamp(s)
    &&& e.level == extract_level(s)
    &&& e.ip_address == extract_ip(s)
    &&& e.method == extract_method(s)
    &&& opt_string_view(e.endpoint) == extract_endpoint(s)
    &&& e.status_code == extract_status(s)
    &&& e.response_time == extract_response_time(s)
    &&& opt_string_view(e.message) == extract_message(s)
}

/// No pattern matched the line at all: extraction found no usable
/// structure.
pub open spec fn line_unrecognized(s: Seq<char>) -> bool {
    &&& extract_timestamp(s) is None
    &&& extract_level(s) is None
    &&& extract_ip(s) is None
    &&& extract_method(s) is None
    &&& extract_endpoint(s) is None
    &&& extract_status(s) is None
    &&& extract_response_time(s) is None
    &&& extract_message(s) is None
}

impl LogEntry {
    /// Runs every pattern against the line and populates each field
    /// independently; a field whose pattern does not match, or whose
    /// matched text fails the secondary numeric read, is left absent.
    pub fn parse_log(log_line: &str) -> (r: LogEntry)
        ensures
            entry_matches_line(r, log_line@),
    {
        LogEntry {
            timestamp: scan_timestamp(log_line),
            level: scan_level(log_line),
            ip_address: scan_ip(log_line),
            method: scan_method(log_line),
            endpoint: scan_endpoint(log_line),
            status_code: scan_status(log_line),
            response_time: scan_response_time(log_line),
            message: scan_message(log_line),
        }
    }

    /// All eight fields are absent.
    pub open spec fn spec_is_empty(&self) -> bool {
        &&& self.timestamp is None
        &&& self.level is None
        &&& self.ip_address is None
        &&& self.method is None
        &&& self.endpoint is None
        &&& self.status_code is None
        &&& self.response_time is None
        &&& self.message is None
    }

    /// Whether extraction populated no field of this record.
    pub fn is_empty_record(&self) -> (b: bool)
        ensures
            b == self.spec_is_empty(),
    {
        self.timestamp.is_none() && self.level.is_none() && self.ip_address.is_none()
            && self.method.is_none() && self.endpoint.is_none() && self.status_code.is_none()
            && self.response_time.is_none() && self.message.is_none()
    }

    /// A copy that is equal to this record, field for field.
    pub fn duplicate(&self) -> (r: LogEntry)
        ensures
            r == *self,
    {
        let r = LogEntry {
            timestamp: match &self.timestamp {
                Some(t) => Some(t.clone()),
                None => None,
            },
            level: self.level,
            ip_address: self.ip_address,
            method: self.method,
            endpoint: match &self.endpoint {
                Some(t) => Some(t.clone()),
                None => None,
            },
            status_code: self.status_code,
            response_time: self.response_time,
            message: match &self.message {
                Some(t) => Some(t.clone()),
                None => None,
            },
        };
        proof {
            assert(r =~= *self);
        }
        r
    }
}

/// Scans text for its first date-shaped substring, as `extract_date_text`
/// describes.
pub fn scan_date_text(s: &str) -> (r: Option<String>)
    ensures
        opt_string_view(r) == extract_date_text(s@),
{
    let n = s.unicode_len();
    let mut i: usize = 0;
    while i < n
        invariant
            i <= n,
            n == s@.len(),
            forall|k: int| 0 <= k < i ==> !date_match_at(s@, k),
        decreases n - i,
    {
        if date_check(s, i) {
            proof {
                lemma_first_from_some(s@, date_pred(), 0, i as int);
            }
            let sub = s.substring_char(i, i + 10);
            return Some(sub.to_owned());
        }
        i = i + 1;
    }
    proof {
        lemma_first_from_none(s@, date_pred(), 0);
    }
    None
}

} // verus!
