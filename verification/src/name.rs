//! The rules a path component must obey, as spec predicates, and the verified
//! checker that classifies a component by the first rule it breaks.

use vstd::prelude::*;

use crate::errors::PathFromStrError;

verus! {

/// Characters that may not appear anywhere in a component: C0 and C1 control
/// characters and a small set of punctuation (including the separator).
pub open spec fn forbidden_char(c: char) -> bool {
    ||| (c as u32) < 0x20
    ||| (0x80 <= c as u32 && c as u32 <= 0x9F)
    ||| c == '"'
    ||| c == '*'
    ||| c == '/'
    ||| c == ':'
    ||| c == '?'
    ||| c == '\\'
    ||| c == '<'
    ||| c == '>'
    ||| c == '|'
}

/// Characters that may not end a component: space and `.` as on Windows, and
/// `~` `^` `!`, which are reserved for sidecar files.
pub open spec fn bad_end_char(c: char) -> bool {
    c == '.' || c == ' ' || c == '~' || c == '^' || c == '!'
}

/// `c` equals the uppercase ASCII letter `u`, ignoring case.
pub open spec fn eq_ci(c: char, u: char) -> bool {
    c == u || (c as u32) == (u as u32) + 0x20
}

/// The first three characters spell AUX, CON, NUL or PRN, ignoring case.
pub open spec fn stem3(s: Seq<char>) -> bool {
    ||| (eq_ci(s[0], 'A') && eq_ci(s[1], 'U') && eq_ci(s[2], 'X'))
    ||| (eq_ci(s[0], 'C') && eq_ci(s[1], 'O') && eq_ci(s[2], 'N'))
    ||| (eq_ci(s[0], 'N') && eq_ci(s[1], 'U') && eq_ci(s[2], 'L'))
    ||| (eq_ci(s[0], 'P') && eq_ci(s[1], 'R') && eq_ci(s[2], 'N'))
}

/// The first four characters spell COM1..COM9 or LPT1..LPT9, ignoring case.
pub open spec fn stem4(s: Seq<char>) -> bool {
    &&& {
        ||| (eq_ci(s[0], 'C') && eq_ci(s[1], 'O') && eq_ci(s[2], 'M'))
        ||| (eq_ci(s[0], 'L') && eq_ci(s[1], 'P') && eq_ci(s[2], 'T'))
    }
    &&& ('1' as u32) <= (s[3] as u32) && (s[3] as u32) <= ('9' as u32)
}

/// A component is a reserved name iff it is one of the reserved stems,
/// or such a stem followed by `.` and anything.
pub open spec fn reserved_name(s: Seq<char>) -> bool {
    ||| (s.len() >= 3 && stem3(s) && (s.len() == 3 || s[3] == '.'))
    ||| (s.len() >= 4 && stem4(s) && (s.len() == 4 || s[4] == '.'))
}

/// The first rule a component name breaks, in the order the rules are
/// checked: start character, end character, forbidden character anywhere,
/// reserved name. `None` when the name is acceptable.
pub open spec fn name_err(s: Seq<char>) -> Option<PathFromStrError> {
    if s.len() > 0 && s[0] == '.' {
        Some(PathFromStrError::InvalidStartChar)
    } else if s.len() > 0 && bad_end_char(s[s.len() - 1]) {
        Some(PathFromStrError::InvalidEndChar)
    } else if exists|i: int| 0 <= i < s.len() && forbidden_char(s[i]) {
        Some(PathFromStrError::InvalidChar)
    } else if reserved_name(s) {
        Some(PathFromStrError::ReservedName)
    } else {
        None
    }
}

/// A plain name: a non-empty component, not `.` or `..`, that breaks no rule.
pub open spec fn plain_name(s: Seq<char>) -> bool {
    &&& s.len() > 0
    &&& s != seq!['.']
    &&& s != seq!['.', '.']
    &&& name_err(s) is None
}

/// What being a plain name guarantees about the characters themselves.
pub proof fn lemma_plain_name_facts(c: Seq<char>)
    requires
        plain_name(c),
    ensures
        c.len() > 0,
        crate::text::slash_free(c),
        c[0] != '.',
        c[c.len() - 1] != '.',
{
    assert(!(exists|i: int| 0 <= i < c.len() && forbidden_char(c[i])));
    assert forall|i: int| 0 <= i < c.len() implies c[i] != '/' by {
        if c[i] == '/' {
            assert(forbidden_char(c[i]));
        }
    }
    assert(!bad_end_char(c[c.len() - 1]));
}

fn is_forbidden_char(c: char) -> (r: bool)
    ensures
        r == forbidden_char(c),
{
    let u = c as u32;
    u < 0x20 || (0x80 <= u && u <= 0x9F) || c == '"' || c == '*' || c == '/' || c == ':' || c
        == '?' || c == '\\' || c == '<' || c == '>' || c == '|'
}

fn is_bad_end_char(c: char) -> (r: bool)
    ensures
        r == bad_end_char(c),
{
    c == '.' || c == ' ' || c == '~' || c == '^' || c == '!'
}

fn eq_ci_exec(c: char, u: char) -> (r: bool)
    ensures
        r == eq_ci(c, u),
{
    c == u || (c as u32) == (u as u32) + 0x20
}

fn is_reserved_name(s: &Vec<char>) -> (r: bool)
    ensures
        r == reserved_name(s@),
{
    let mut hit3 = false;
    let mut hit4 = false;
    if s.len() >= 3 {
        let a = s[0];
        let b = s[1];
        let c = s[2];
        let s3 = (eq_ci_exec(a, 'A') && eq_ci_exec(b, 'U') && eq_ci_exec(c, 'X')) || (eq_ci_exec(
            a,
            'C',
        ) && eq_ci_exec(b, 'O') && eq_ci_exec(c, 'N')) || (eq_ci_exec(a, 'N') && eq_ci_exec(b, 'U')
            && eq_ci_exec(c, 'L')) || (eq_ci_exec(a, 'P') && eq_ci_exec(b, 'R') && eq_ci_exec(
            c,
            'N',
        ));
        hit3 = s3 && (s.len() == 3 || s[3] == '.');
    }
    if s.len() >= 4 {
        let a = s[0];
        let b = s[1];
        let c = s[2];
        let d = s[3];
        let s4 = ((eq_ci_exec(a, 'C') && eq_ci_exec(b, 'O') && eq_ci_exec(c, 'M')) || (eq_ci_exec(
            a,
            'L',
        ) && eq_ci_exec(b, 'P') && eq_ci_exec(c, 'T'))) && (('1' as u32) <= (d as u32) && (
        d as u32) <= ('9' as u32));
        hit4 = s4 && (s.len() == 4 || s[4] == '.');
    }
    hit3 || hit4
}

/// Classify a (decomposed) component name by the first rule it breaks.
pub fn check_name(s: &Vec<char>) -> (r: Option<PathFromStrError>)
    ensures
        r == name_err(s@),
{
    if s.len() > 0 && s[0] == '.' {
        return Some(PathFromStrError::InvalidStartChar);
    }
    if s.len() > 0 && is_bad_end_char(s[s.len() - 1]) {
        return Some(PathFromStrError::InvalidEndChar);
    }
    let mut i: usize = 0;
    while i < s.len()
        invariant
            0 <= i <= s@.len(),
            forall|j: int| 0 <= j < i ==> !forbidden_char(s@[j]),
            !(s@.len() > 0 && s@[0] == '.'),
            !(s@.len() > 0 && bad_end_char(s@[s@.len() - 1])),
        decreases s@.len() - i,
    {
        if is_forbidden_char(s[i]) {
            proof {
                assert(exists|j: int| 0 <= j < s@.len() && forbidden_char(s@[j])) by {
                    assert(forbidden_char(s@[i as int]));
                }
            }
            return Some(PathFromStrError::InvalidChar);
        }
        i = i + 1;
    }
    if is_reserved_name(s) {
        return Some(PathFromStrError::ReservedName);
    }
    None
}

} // verus!
