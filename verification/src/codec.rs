//! The collection's wire form: a closed two-field document
//! `{"nextId": <number>, "stakes": [<stake>, ...]}` with each stake written
//! as its plain field set.
//!
//! The encoder emits a compact canonical text.  The parser accepts the
//! usual liberties of the form — whitespace between tokens, fields in any
//! order — but insists on the closed shape: every field present exactly
//! once, no unknown fields, nothing after the document.

use vstd::prelude::*;
use vstd::string::StrSliceExecFns;
use crate::stake::{Stake, StakeId, StakeModel};
use crate::time::Timestamp;
use crate::wire::{
    fmt_str, fmt_ts, fmt_u32, lemma_parse_fmt_str, lemma_parse_fmt_ts, lemma_parse_fmt_u32, p_str,
    p_str_loop, p_ts, p_u32, p_u32_loop, parse_str, parse_ts, parse_u32, push_escaped, push_u32,
};

verus! {

/// The whitespace the wire form allows between tokens.
pub open spec fn is_wire_ws(c: char) -> bool {
    c == ' ' || c == '\t' || c == '\n' || c == '\r'
}

/// The first position at or after `i` that holds no whitespace.
pub open spec fn skip_ws(s: Seq<char>, i: int) -> int
    decreases s.len() - i,
{
    if 0 <= i < s.len() && is_wire_ws(s[i]) {
        skip_ws(s, i + 1)
    } else {
        i
    }
}

/// Skipping whitespace never moves backwards, nor past the end.
pub proof fn lemma_skip_ws_bounds(s: Seq<char>, i: int)
    requires
        0 <= i <= s.len(),
    ensures
        i <= skip_ws(s, i) <= s.len(),
    decreases s.len() - i,
{
    if i < s.len() && is_wire_ws(s[i]) {
        lemma_skip_ws_bounds(s, i + 1);
    }
}

/// Whether the characters of `lit` stand at position `i` of `s`.
pub open spec fn match_at(s: Seq<char>, i: int, lit: Seq<char>) -> bool {
    0 <= i && i + lit.len() <= s.len() && s.subrange(i, i + lit.len() as int) == lit
}

pub open spec fn lit_true() -> Seq<char> {
    seq!['t', 'r', 'u', 'e']
}

pub open spec fn lit_false() -> Seq<char> {
    seq!['f', 'a', 'l', 's', 'e']
}

pub open spec fn lit_null() -> Seq<char> {
    seq!['n', 'u', 'l', 'l']
}

pub open spec fn k_next_id() -> Seq<char> {
    seq!['n', 'e', 'x', 't', 'I', 'd']
}

pub open spec fn k_stakes() -> Seq<char> {
    seq!['s', 't', 'a', 'k', 'e', 's']
}

pub open spec fn k_stake_id() -> Seq<char> {
    seq!['s', 't', 'a', 'k', 'e', '_', 'i', 'd']
}

pub open spec fn k_stake_name() -> Seq<char> {
    seq!['s', 't', 'a', 'k', 'e', '_', 'n', 'a', 'm', 'e']
}

pub open spec fn k_parent_id() -> Seq<char> {
    seq!['p', 'a', 'r', 'e', 'n', 't', '_', 'i', 'd']
}

pub open spec fn k_complete() -> Seq<char> {
    seq!['c', 'o', 'm', 'p', 'l', 'e', 't', 'e']
}

pub open spec fn k_dropped() -> Seq<char> {
    seq!['d', 'r', 'o', 'p', 'p', 'e', 'd']
}

pub open spec fn k_note() -> Seq<char> {
    seq!['n', 'o', 't', 'e']
}

pub open spec fn k_date_modified() -> Seq<char> {
    seq!['d', 'a', 't', 'e', '_', 'm', 'o', 'd', 'i', 'f', 'i', 'e', 'd']
}

pub open spec fn k_date_created() -> Seq<char> {
    seq!['d', 'a', 't', 'e', '_', 'c', 'r', 'e', 'a', 't', 'e', 'd']
}

/// A boolean literal at position `i`.
pub open spec fn p_bool(s: Seq<char>, i: int) -> Option<(bool, int)> {
    if match_at(s, i, lit_true()) {
        Some((true, i + 4))
    } else if match_at(s, i, lit_false()) {
        Some((false, i + 5))
    } else {
        None
    }
}

/// `null` or a number, at position `i`.
pub open spec fn p_opt_u32(s: Seq<char>, i: int) -> Option<(Option<u32>, int)> {
    if match_at(s, i, lit_null()) {
        Some((None, i + 4))
    } else {
        match p_u32(s, i) {
            Some((v, j)) => Some((Some(v), j)),
            None => None,
        }
    }
}

/// `null` or a string token, at position `i`.
pub open spec fn p_opt_str(s: Seq<char>, i: int) -> Option<(Option<Seq<char>>, int)> {
    if match_at(s, i, lit_null()) {
        Some((None, i + 4))
    } else {
        match p_str(s, i) {
            Some((v, j)) => Some((Some(v), j)),
            None => None,
        }
    }
}

/// A string token whose content is a timestamp text.
pub open spec fn p_ts_token(s: Seq<char>, i: int) -> Option<(Timestamp, int)> {
    match p_str(s, i) {
        Some((content, j)) => match p_ts(content) {
            Some(t) => Some((t, j)),
            None => None,
        },
        None => None,
    }
}

/// A number consumes characters and stays inside the input.
pub proof fn lemma_p_u32_progress(s: Seq<char>, i: int)
    ensures
        p_u32(s, i) matches Some(v) ==> i < v.1 <= s.len(),
{
    if p_u32(s, i) is Some {
        let d = crate::wire::digit_val(s[i]);
        assert(p_u32_loop(s, i, 0) == p_u32_loop(s, i + 1, (0 * 10 + d) as u32));
        lemma_p_u32_loop_progress(s, i + 1, (0 * 10 + d) as u32);
    }
}

proof fn lemma_p_u32_loop_progress(s: Seq<char>, i: int, acc: u32)
    requires
        i <= s.len(),
    ensures
        p_u32_loop(s, i, acc) matches Some(v) ==> i <= v.1 <= s.len(),
    decreases s.len() - i,
{
    if 0 <= i < s.len() && crate::wire::is_digit(s[i]) {
        if !(acc as int * 10 + crate::wire::digit_val(s[i]) > u32::MAX as int) {
            lemma_p_u32_loop_progress(
                s,
                i + 1,
                (acc as int * 10 + crate::wire::digit_val(s[i])) as u32,
            );
        }
    }
}

/// A string token consumes at least its two quotes and stays inside the
/// input.
pub proof fn lemma_p_str_progress(s: Seq<char>, i: int)
    ensures
        p_str(s, i) matches Some(v) ==> i + 2 <= v.1 <= s.len(),
{
    if p_str(s, i) is Some {
        lemma_p_str_loop_progress(s, i + 1, Seq::empty());
    }
}

proof fn lemma_p_str_loop_progress(s: Seq<char>, i: int, acc: Seq<char>)
    ensures
        p_str_loop(s, i, acc) matches Some(v) ==> i < v.1 <= s.len(),
    decreases s.len() - i,
{
    if 0 <= i < s.len() {
        if s[i] == '"' {
        } else if s[i] == '\\' {
            if i + 1 < s.len() {
                let e = s[i + 1];
                if e == '"' {
                    lemma_p_str_loop_progress(s, i + 2, acc.push('"'));
                } else if e == '\\' {
                    lemma_p_str_loop_progress(s, i + 2, acc.push('\\'));
                } else if e == '/' {
                    lemma_p_str_loop_progress(s, i + 2, acc.push('/'));
                } else if e == 'n' {
                    lemma_p_str_loop_progress(s, i + 2, acc.push('\n'));
                } else if e == 't' {
                    lemma_p_str_loop_progress(s, i + 2, acc.push('\t'));
                } else if e == 'r' {
                    lemma_p_str_loop_progress(s, i + 2, acc.push('\r'));
                } else if e == 'b' {
                    lemma_p_str_loop_progress(s, i + 2, acc.push((8 as u32) as char));
                } else if e == 'f' {
                    lemma_p_str_loop_progress(s, i + 2, acc.push((12 as u32) as char));
                } else if e == 'u' {
                    if !(i + 6 > s.len()) && crate::wire::is_hex(s[i + 2]) && crate::wire::is_hex(
                        s[i + 3],
                    ) && crate::wire::is_hex(s[i + 4]) && crate::wire::is_hex(s[i + 5]) {
                        let v = ((crate::wire::hex_val(s[i + 2]) * 16 + crate::wire::hex_val(
                            s[i + 3],
                        )) * 16 + crate::wire::hex_val(s[i + 4])) * 16 + crate::wire::hex_val(
                            s[i + 5],
                        );
                        if !(0xD800 <= v && v < 0xE000) {
                            lemma_p_str_loop_progress(s, i + 6, acc.push((v as u32) as char));
                        }
                    }
                }
            }
        } else if (s[i] as u32) < 32 {
        } else {
            lemma_p_str_loop_progress(s, i + 1, acc.push(s[i]));
        }
    }
}

/// Appends the characters of a literal.
pub fn push_lit(out: &mut Vec<char>, s: &str)
    ensures
        final(out)@ == old(out)@ + s@,
{
    let n = s.unicode_len();
    let mut i: usize = 0;
    proof {
        assert(out@ =~= old(out)@ + s@.subrange(0, 0));
    }
    while i < n
        invariant
            n == s@.len(),
            0 <= i <= n,
            out@ == old(out)@ + s@.subrange(0, i as int),
        decreases n - i,
    {
        out.push(s.get_char(i));
        proof {
            assert(out@ =~= old(out)@ + s@.subrange(0, i + 1));
        }
        i = i + 1;
    }
    proof {
        assert(s@.subrange(0, s@.len() as int) =~= s@);
    }
}

/// Whether the characters of `lit` stand at position `i`.
fn match_lit(s: &Vec<char>, i: usize, lit: &str) -> (r: bool)
    requires
        i <= s@.len(),
    ensures
        r == match_at(s@, i as int, lit@),
{
    let n = lit.unicode_len();
    let sl = s.len();
    if sl - i < n {
        proof {
            assert(!match_at(s@, i as int, lit@));
        }
        return false;
    }
    let mut k: usize = 0;
    while k < n
        invariant
            n == lit@.len(),
            0 <= k <= n,
            sl == s@.len(),
            i + n <= sl,
            forall|t: int| 0 <= t < k ==> s@[i + t] == lit@[t],
        decreases n - k,
    {
        if s[i + k] != lit.get_char(k) {
            proof {
                assert(s@.subrange(i as int, i + lit@.len() as int) != lit@) by {
                    assert(s@.subrange(i as int, i + lit@.len() as int)[k as int] == s@[i + k]);
                }
            }
            return false;
        }
        k = k + 1;
    }
    proof {
        assert(s@.subrange(i as int, i + lit@.len() as int) =~= lit@);
    }
    true
}

/// Whether the collected characters equal a literal.
fn chars_eq_lit(v: &Vec<char>, lit: &str) -> (r: bool)
    ensures
        r == (v@ == lit@),
{
    let n = lit.unicode_len();
    if v.len() != n {
        return false;
    }
    let mut k: usize = 0;
    while k < n
        invariant
            n == lit@.len(),
            v@.len() == n,
            0 <= k <= n,
            forall|t: int| 0 <= t < k ==> v@[t] == lit@[t],
        decreases n - k,
    {
        if v[k] != lit.get_char(k) {
            return false;
        }
        k = k + 1;
    }
    proof {
        assert(v@ =~= lit@);
    }
    true
}

/// The first position at or after `i` that holds no whitespace.
fn skip_ws_exec(s: &Vec<char>, i: usize) -> (r: usize)
    requires
        i <= s@.len(),
    ensures
        r as int == skip_ws(s@, i as int),
        i <= r <= s@.len(),
{
    let mut j: usize = i;
    loop
        invariant
            i <= j <= s@.len(),
            skip_ws(s@, i as int) == skip_ws(s@, j as int),
        decreases s@.len() - j,
    {
        if j >= s.len() {
            return j;
        }
        let c = s[j];
        if !(c == ' ' || c == '\t' || c == '\n' || c == '\r') {
            return j;
        }
        j = j + 1;
    }
}

/// The fields of a stake object gathered so far; `None` marks a field not
/// seen yet.
pub ghost struct StakeAcc {
    pub id: Option<u32>,
    pub name: Option<Seq<char>>,
    pub parent: Option<Option<u32>>,
    pub complete: Option<bool>,
    pub dropped: Option<bool>,
    pub note: Option<Option<Seq<char>>>,
    pub modified: Option<Timestamp>,
    pub created: Option<Timestamp>,
}

pub open spec fn empty_stake_acc() -> StakeAcc {
    StakeAcc {
        id: None,
        name: None,
        parent: None,
        complete: None,
        dropped: None,
        note: None,
        modified: None,
        created: None,
    }
}

/// Whether every field of a stake object has been seen.
pub open spec fn stake_acc_complete(acc: StakeAcc) -> bool {
    acc.id is Some && acc.name is Some && acc.parent is Some && acc.complete is Some && acc.dropped
        is Some && acc.note is Some && acc.modified is Some && acc.created is Some
}

/// The stake a completely gathered accumulator describes.
pub open spec fn stake_acc_model(acc: StakeAcc) -> StakeModel {
    StakeModel {
        id: acc.id.unwrap(),
        name: acc.name.unwrap(),
        parent: acc.parent.unwrap(),
        complete: acc.complete.unwrap(),
        dropped: acc.dropped.unwrap(),
        note: acc.note.unwrap(),
        modified: acc.modified.unwrap(),
        created: acc.created.unwrap(),
    }
}

/// How many fields have been seen.
pub open spec fn stake_acc_filled(acc: StakeAcc) -> int {
    (if acc.id is Some {
        1int
    } else {
        0int
    }) + (if acc.name is Some {
        1int
    } else {
        0int
    }) + (if acc.parent is Some {
        1int
    } else {
        0int
    }) + (if acc.complete is Some {
        1int
    } else {
        0int
    }) + (if acc.dropped is Some {
        1int
    } else {
        0int
    }) + (if acc.note is Some {
        1int
    } else {
        0int
    }) + (if acc.modified is Some {
        1int
    } else {
        0int
    }) + (if acc.created is Some {
        1int
    } else {
        0int
    })
}

/// One `"key": value` pair of a stake object, starting at the key's
/// opening quote.  A key already seen, or not a stake field, rejects the
/// document.
pub open spec fn p_stake_field(s: Seq<char>, i: int, acc: StakeAcc) -> Option<(StakeAcc, int)> {
    match p_str(s, i) {
        None => None,
        Some((key, j0)) => {
            let j1 = skip_ws(s, j0);
            if !(j1 < s.len() && s[j1] == ':') {
                None
            } else {
                let j2 = skip_ws(s, j1 + 1);
                if key == k_stake_id() {
                    if acc.id is Some {
                        None
                    } else {
                        match p_u32(s, j2) {
                            Some((v, j3)) => Some((StakeAcc { id: Some(v), ..acc }, j3)),
                            None => None,
                        }
                    }
                } else if key == k_stake_name() {
                    if acc.name is Some {
                        None
                    } else {
                        match p_str(s, j2) {
                            Some((v, j3)) => Some((StakeAcc { name: Some(v), ..acc }, j3)),
                            None => None,
                        }
                    }
                } else if key == k_parent_id() {
                    if acc.parent is Some {
                        None
                    } else {
                        match p_opt_u32(s, j2) {
                            Some((v, j3)) => Some((StakeAcc { parent: Some(v), ..acc }, j3)),
                            None => None,
                        }
                    }
                } else if key == k_complete() {
                    if acc.complete is Some {
                        None
                    } else {
                        match p_bool(s, j2) {
                            Some((v, j3)) => Some((StakeAcc { complete: Some(v), ..acc }, j3)),
                            None => None,
                        }
                    }
                } else if key == k_dropped() {
                    if acc.dropped is Some {
                        None
                    } else {
                        match p_bool(s, j2) {
                            Some((v, j3)) => Some((StakeAcc { dropped: Some(v), ..acc }, j3)),
                            None => None,
                        }
                    }
                } else if key == k_note() {
                    if acc.note is Some {
                        None
                    } else {
                        match p_opt_str(s, j2) {
                            Some((v, j3)) => Some((StakeAcc { note: Some(v), ..acc }, j3)),
                            None => None,
                        }
                    }
                } else if key == k_date_modified() {
                    if acc.modified is Some {
                        None
                    } else {
                        match p_ts_token(s, j2) {
                            Some((v, j3)) => Some((StakeAcc { modified: Some(v), ..acc }, j3)),
                            None => None,
                        }
                    }
                } else if key == k_date_created() {
                    if acc.created is Some {
                        None
                    } else {
                        match p_ts_token(s, j2) {
                            Some((v, j3)) => Some((StakeAcc { created: Some(v), ..acc }, j3)),
                            None => None,
                        }
                    }
                } else {
                    None
                }
            }
        },
    }
}

/// A successful field moves forward, stays inside the input, and fills
/// exactly one fresh field.
pub proof fn lemma_p_stake_field_progress(s: Seq<char>, i: int, acc: StakeAcc)
    ensures
        p_stake_field(s, i, acc) matches Some(v) ==> {
            &&& i < v.1 <= s.len()
            &&& stake_acc_filled(v.0) == stake_acc_filled(acc) + 1
        },
{
    lemma_p_str_progress(s, i);
    if p_stake_field(s, i, acc) is Some {
        let (key, j0) = p_str(s, i).unwrap();
        lemma_skip_ws_bounds(s, j0);
        let j1 = skip_ws(s, j0);
        lemma_skip_ws_bounds(s, j1 + 1);
        let j2 = skip_ws(s, j1 + 1);
        lemma_p_u32_progress(s, j2);
        lemma_p_str_progress(s, j2);
    }
}

/// The fields of a stake object from position `i` (at a key's quote) up to
/// and including the closing brace.  A stake object holds at most eight
/// fields, each once, so eight successful fields and one more attempt
/// bound the run.
pub open spec fn p_stake_fields(s: Seq<char>, i: int, acc: StakeAcc, fuel: nat) -> Option<
    (StakeModel, int),
>
    decreases fuel,
{
    if fuel == 0 {
        None
    } else {
        match p_stake_field(s, i, acc) {
            None => None,
            Some((acc2, j)) => {
                let j1 = skip_ws(s, j);
                if j1 < s.len() && s[j1] == ',' {
                    let j2 = skip_ws(s, j1 + 1);
                    p_stake_fields(s, j2, acc2, (fuel - 1) as nat)
                } else if j1 < s.len() && s[j1] == '}' {
                    if stake_acc_complete(acc2) {
                        Some((stake_acc_model(acc2), j1 + 1))
                    } else {
                        None
                    }
                } else {
                    None
                }
            },
        }
    }
}

/// A parsed run of fields moves forward and stays inside the input.
pub proof fn lemma_p_stake_fields_progress(s: Seq<char>, i: int, acc: StakeAcc, fuel: nat)
    ensures
        p_stake_fields(s, i, acc, fuel) matches Some(v) ==> i < v.1 <= s.len(),
    decreases fuel,
{
    if fuel > 0 && p_stake_fields(s, i, acc, fuel) is Some {
        lemma_p_stake_field_progress(s, i, acc);
        let (acc2, j) = p_stake_field(s, i, acc).unwrap();
        lemma_skip_ws_bounds(s, j);
        let j1 = skip_ws(s, j);
        if j1 < s.len() && s[j1] == ',' {
            lemma_skip_ws_bounds(s, j1 + 1);
            lemma_p_stake_fields_progress(s, skip_ws(s, j1 + 1), acc2, (fuel - 1) as nat);
        }
    }
}

/// A stake object at position `i`: a brace-delimited, closed record of all
/// eight stake fields, in any order, each exactly once.
pub open spec fn p_stake(s: Seq<char>, i: int) -> Option<(StakeModel, int)> {
    if 0 <= i < s.len() && s[i] == '{' {
        p_stake_fields(s, skip_ws(s, i + 1), empty_stake_acc(), 9)
    } else {
        None
    }
}

/// A parsed stake object moves forward and stays inside the input.
pub proof fn lemma_p_stake_progress(s: Seq<char>, i: int)
    ensures
        p_stake(s, i) matches Some(v) ==> i < v.1 <= s.len(),
{
    if p_stake(s, i) is Some {
        lemma_skip_ws_bounds(s, i + 1);
        lemma_p_stake_fields_progress(s, skip_ws(s, i + 1), empty_stake_acc(), 9);
    }
}

/// Reads a boolean literal, as `p_bool` describes it.
fn parse_bool(s: &Vec<char>, i: usize) -> (r: Option<(bool, usize)>)
    requires
        i <= s@.len(),
    ensures
        match r {
            Some(v) => p_bool(s@, i as int) == Some((v.0, v.1 as int)) && i < v.1 <= s@.len(),
            None => p_bool(s@, i as int) is None,
        },
{
    proof {
        reveal_strlit("true");
        reveal_strlit("false");
        assert("true"@ =~= lit_true());
        assert("false"@ =~= lit_false());
    }
    let n = s.len();
    if match_lit(s, i, "true") {
        proof {
            assert(i + 4 <= n);
        }
        Some((true, i + 4))
    } else if match_lit(s, i, "false") {
        proof {
            assert(i + 5 <= n);
        }
        Some((false, i + 5))
    } else {
        None
    }
}

/// Reads `null` or a number, as `p_opt_u32` describes it.
fn parse_opt_u32(s: &Vec<char>, i: usize) -> (r: Option<(Option<u32>, usize)>)
    requires
        i <= s@.len(),
    ensures
        match r {
            Some(v) => p_opt_u32(s@, i as int) == Some((v.0, v.1 as int)) && i < v.1 <= s@.len(),
            None => p_opt_u32(s@, i as int) is None,
        },
{
    proof {
        reveal_strlit("null");
        assert("null"@ =~= lit_null());
        lemma_p_u32_progress(s@, i as int);
    }
    let n = s.len();
    if match_lit(s, i, "null") {
        proof {
            assert(i + 4 <= n);
        }
        Some((None, i + 4))
    } else {
        match parse_u32(s, i) {
            Some((v, j)) => Some((Some(v), j)),
            None => None,
        }
    }
}

/// Reads `null` or a string token, as `p_opt_str` describes it.
fn parse_opt_str(s: &Vec<char>, i: usize) -> (r: Option<(Option<Vec<char>>, usize)>)
    requires
        i <= s@.len(),
    ensures
        match r {
            Some(v) => {
                &&& p_opt_str(s@, i as int) matches Some(w) && w.1 == v.1 && (match v.0 {
                    Some(content) => w.0 == Some(content@),
                    None => w.0 is None,
                })
                &&& i < v.1 <= s@.len()
            },
            None => p_opt_str(s@, i as int) is None,
        },
{
    proof {
        reveal_strlit("null");
        assert("null"@ =~= lit_null());
        lemma_p_str_progress(s@, i as int);
    }
    let n = s.len();
    if match_lit(s, i, "null") {
        proof {
            assert(i + 4 <= n);
        }
        Some((None, i + 4))
    } else {
        match parse_str(s, i) {
            Some((v, j)) => Some((Some(v), j)),
            None => None,
        }
    }
}

/// Reads a quoted timestamp, as `p_ts_token` describes it.
fn parse_ts_token(s: &Vec<char>, i: usize) -> (r: Option<(Timestamp, usize)>)
    requires
        i <= s@.len(),
    ensures
        match r {
            Some(v) => p_ts_token(s@, i as int) == Some((v.0, v.1 as int)) && i < v.1 <= s@.len(),
            None => p_ts_token(s@, i as int) is None,
        },
{
    proof {
        lemma_p_str_progress(s@, i as int);
    }
    match parse_str(s, i) {
        Some((content, j)) => match parse_ts(&content) {
            Some(t) => Some((t, j)),
            None => None,
        },
        None => None,
    }
}

/// The fields of a stake object gathered so far, as the parser holds them.
struct StakeAccX {
    id: Option<u32>,
    name: Option<Vec<char>>,
    parent: Option<Option<u32>>,
    complete: Option<bool>,
    dropped: Option<bool>,
    note: Option<Option<Vec<char>>>,
    modified: Option<Timestamp>,
    created: Option<Timestamp>,
}

impl View for StakeAccX {
    type V = StakeAcc;

    closed spec fn view(&self) -> StakeAcc {
        StakeAcc {
            id: self.id,
            name: match self.name {
                Some(ref v) => Some(v@),
                None => None,
            },
            parent: self.parent,
            complete: self.complete,
            dropped: self.dropped,
            note: match self.note {
                Some(Some(ref v)) => Some(Some(v@)),
                Some(None) => Some(None),
                None => None,
            },
            modified: self.modified,
            created: self.created,
        }
    }
}

/// Reads one `"key": value` pair, as `p_stake_field` describes it.
fn parse_stake_field(s: &Vec<char>, i: usize, acc: StakeAccX) -> (r: Option<(StakeAccX, usize)>)
    requires
        i <= s@.len(),
    ensures
        match r {
            Some(v) => p_stake_field(s@, i as int, acc@) matches Some(w) && w.0 == v.0@ && w.1
                == v.1 as int && i < v.1 <= s@.len(),
            None => p_stake_field(s@, i as int, acc@) is None,
        },
{
    proof {
        lemma_p_str_progress(s@, i as int);
        reveal_strlit("stake_id");
        reveal_strlit("stake_name");
        reveal_strlit("parent_id");
        reveal_strlit("complete");
        reveal_strlit("dropped");
        reveal_strlit("note");
        reveal_strlit("date_modified");
        reveal_strlit("date_created");
        assert("stake_id"@ =~= k_stake_id());
        assert("stake_name"@ =~= k_stake_name());
        assert("parent_id"@ =~= k_parent_id());
        assert("complete"@ =~= k_complete());
        assert("dropped"@ =~= k_dropped());
        assert("note"@ =~= k_note());
        assert("date_modified"@ =~= k_date_modified());
        assert("date_created"@ =~= k_date_created());
    }
    let (key, j0) = match parse_str(s, i) {
        Some(v) => v,
        None => {
            return None;
        },
    };
    let j1 = skip_ws_exec(s, j0);
    if !(j1 < s.len() && s[j1] == ':') {
        return None;
    }
    let j2 = skip_ws_exec(s, j1 + 1);
    if chars_eq_lit(&key, "stake_id") {
        if acc.id.is_some() {
            return None;
        }
        match parse_u32(s, j2) {
            Some((v, j3)) => Some((StakeAccX { id: Some(v), ..acc }, j3)),
            None => None,
        }
    } else if chars_eq_lit(&key, "stake_name") {
        if acc.name.is_some() {
            return None;
        }
        match parse_str(s, j2) {
            Some((v, j3)) => Some((StakeAccX { name: Some(v), ..acc }, j3)),
            None => None,
        }
    } else if chars_eq_lit(&key, "parent_id") {
        if acc.parent.is_some() {
            return None;
        }
        match parse_opt_u32(s, j2) {
            Some((v, j3)) => Some((StakeAccX { parent: Some(v), ..acc }, j3)),
            None => None,
        }
    } else if chars_eq_lit(&key, "complete") {
        if acc.complete.is_some() {
            return None;
        }
        match parse_bool(s, j2) {
            Some((v, j3)) => Some((StakeAccX { complete: Some(v), ..acc }, j3)),
            None => None,
        }
    } else if chars_eq_lit(&key, "dropped") {
        if acc.dropped.is_some() {
            return None;
        }
        match parse_bool(s, j2) {
            Some((v, j3)) => Some((StakeAccX { dropped: Some(v), ..acc }, j3)),
            None => None,
        }
    } else if chars_eq_lit(&key, "note") {
        if acc.note.is_some() {
            return None;
        }
        match parse_opt_str(s, j2) {
            Some((v, j3)) => Some((StakeAccX { note: Some(v), ..acc }, j3)),
            None => None,
        }
    } else if chars_eq_lit(&key, "date_modified") {
        if acc.modified.is_some() {
            return None;
        }
        match parse_ts_token(s, j2) {
            Some((v, j3)) => Some((StakeAccX { modified: Some(v), ..acc }, j3)),
            None => None,
        }
    } else if chars_eq_lit(&key, "date_created") {
        if acc.created.is_some() {
            return None;
        }
        match parse_ts_token(s, j2) {
            Some((v, j3)) => Some((StakeAccX { created: Some(v), ..acc }, j3)),
            None => None,
        }
    } else {
        None
    }
}

/// Reads a whole stake object, as `p_stake` describes it.
fn parse_stake(s: &Vec<char>, i: usize) -> (r: Option<(Stake, usize)>)
    requires
        i <= s@.len(),
    ensures
        match r {
            Some(v) => p_stake(s@, i as int) matches Some(w) && w.0 == v.0@ && w.1 == v.1 as int
                && i < v.1 <= s@.len(),
            None => p_stake(s@, i as int) is None,
        },
{
    if !(i < s.len() && s[i] == '{') {
        return None;
    }
    let mut j = skip_ws_exec(s, i + 1);
    let mut acc = StakeAccX {
        id: None,
        name: None,
        parent: None,
        complete: None,
        dropped: None,
        note: None,
        modified: None,
        created: None,
    };
    let ghost mut fuel: nat = 9;
    proof {
        assert(acc@ == empty_stake_acc());
        assert(stake_acc_filled(acc@) == 0);
    }
    loop
        invariant
            i < j <= s@.len(),
            1 <= fuel <= 9,
            fuel == 9 - stake_acc_filled(acc@),
            p_stake(s@, i as int) == p_stake_fields(s@, j as int, acc@, fuel),
        decreases s@.len() - j,
    {
        let (acc2, j0) = match parse_stake_field(s, j, acc) {
            Some(v) => v,
            None => {
                return None;
            },
        };
        proof {
            lemma_p_stake_field_progress(s@, j as int, acc@);
        }
        let j1 = skip_ws_exec(s, j0);
        if j1 < s.len() && s[j1] == ',' {
            let j2 = skip_ws_exec(s, j1 + 1);
            proof {
                assert(stake_acc_filled(acc2@) <= 8);
                fuel = (fuel - 1) as nat;
            }
            acc = acc2;
            j = j2;
        } else if j1 < s.len() && s[j1] == '}' {
            if !(acc2.id.is_some() && acc2.name.is_some() && acc2.parent.is_some()
                && acc2.complete.is_some() && acc2.dropped.is_some() && acc2.note.is_some()
                && acc2.modified.is_some() && acc2.created.is_some()) {
                return None;
            }
            let StakeAccX { id, name, parent, complete, dropped, note, modified, created } = acc2;
            let stake = Stake {
                stake_id: StakeId(id.unwrap()),
                stake_name: crate::text::string_from_chars(&name.unwrap()),
                parent_id: match parent.unwrap() {
                    Some(p) => Some(StakeId(p)),
                    None => None,
                },
                complete: complete.unwrap(),
                dropped: dropped.unwrap(),
                note: match note.unwrap() {
                    Some(v) => Some(crate::text::string_from_chars(&v)),
                    None => None,
                },
                date_modified: modified.unwrap(),
                date_created: created.unwrap(),
            };
            return Some((stake, j1 + 1));
        } else {
            return None;
        }
    }
}

/// The elements of a stakes array from position `i` (at an element's
/// opening brace) up to and including the closing bracket.
pub open spec fn p_items(s: Seq<char>, i: int, acc: Seq<StakeModel>) -> Option<
    (Seq<StakeModel>, int),
>
    decreases s.len() - i,
    via p_items_dec
{
    match p_stake(s, i) {
        None => None,
        Some((m, j)) => {
            let j1 = skip_ws(s, j);
            if j1 < s.len() && s[j1] == ',' {
                let j2 = skip_ws(s, j1 + 1);
                p_items(s, j2, acc.push(m))
            } else if j1 < s.len() && s[j1] == ']' {
                Some((acc.push(m), j1 + 1))
            } else {
                None
            }
        },
    }
}

#[via_fn]
proof fn p_items_dec(s: Seq<char>, i: int, acc: Seq<StakeModel>) {
    lemma_p_stake_progress(s, i);
    if p_stake(s, i) is Some {
        let (m, j) = p_stake(s, i).unwrap();
        lemma_skip_ws_bounds(s, j);
        let j1 = skip_ws(s, j);
        if j1 < s.len() && s[j1] == ',' {
            lemma_skip_ws_bounds(s, j1 + 1);
        }
    }
}

/// A parsed run of array elements moves forward and stays inside the
/// input.
pub proof fn lemma_p_items_progress(s: Seq<char>, i: int, acc: Seq<StakeModel>)
    ensures
        p_items(s, i, acc) matches Some(v) ==> i < v.1 <= s.len(),
    decreases s.len() - i,
{
    if p_items(s, i, acc) is Some {
        lemma_p_stake_progress(s, i);
        let (m, j) = p_stake(s, i).unwrap();
        lemma_skip_ws_bounds(s, j);
        let j1 = skip_ws(s, j);
        if j1 < s.len() && s[j1] == ',' {
            lemma_skip_ws_bounds(s, j1 + 1);
            lemma_p_items_progress(s, skip_ws(s, j1 + 1), acc.push(m));
        }
    }
}

/// A stakes array at position `i`: brackets around zero or more stake
/// objects.
pub open spec fn p_arr(s: Seq<char>, i: int) -> Option<(Seq<StakeModel>, int)> {
    if 0 <= i < s.len() && s[i] == '[' {
        let j = skip_ws(s, i + 1);
        if j < s.len() && s[j] == ']' {
            Some((Seq::empty(), j + 1))
        } else {
            p_items(s, j, Seq::empty())
        }
    } else {
        None
    }
}

/// A parsed array moves forward and stays inside the input.
pub proof fn lemma_p_arr_progress(s: Seq<char>, i: int)
    ensures
        p_arr(s, i) matches Some(v) ==> i < v.1 <= s.len(),
{
    if p_arr(s, i) is Some {
        lemma_skip_ws_bounds(s, i + 1);
        lemma_p_items_progress(s, skip_ws(s, i + 1), Seq::empty());
    }
}

/// The fields of the document gathered so far.
pub ghost struct DocAcc {
    pub next_id: Option<u32>,
    pub stakes: Option<Seq<StakeModel>>,
}

/// One `"key": value` pair of the document.
pub open spec fn p_doc_field(s: Seq<char>, i: int, acc: DocAcc) -> Option<(DocAcc, int)> {
    match p_str(s, i) {
        None => None,
        Some((key, j0)) => {
            let j1 = skip_ws(s, j0);
            if !(j1 < s.len() && s[j1] == ':') {
                None
            } else {
                let j2 = skip_ws(s, j1 + 1);
                if key == k_next_id() {
                    if acc.next_id is Some {
                        None
                    } else {
                        match p_u32(s, j2) {
                            Some((v, j3)) => Some((DocAcc { next_id: Some(v), ..acc }, j3)),
                            None => None,
                        }
                    }
                } else if key == k_stakes() {
                    if acc.stakes is Some {
                        None
                    } else {
                        match p_arr(s, j2) {
                            Some((v, j3)) => Some((DocAcc { stakes: Some(v), ..acc }, j3)),
                            None => None,
                        }
                    }
                } else {
                    None
                }
            }
        },
    }
}

/// How many document fields have been seen.
pub open spec fn doc_acc_filled(acc: DocAcc) -> int {
    (if acc.next_id is Some {
        1int
    } else {
        0int
    }) + (if acc.stakes is Some {
        1int
    } else {
        0int
    })
}

/// A successful document field moves forward and fills exactly one fresh
/// field.
pub proof fn lemma_p_doc_field_progress(s: Seq<char>, i: int, acc: DocAcc)
    ensures
        p_doc_field(s, i, acc) matches Some(v) ==> {
            &&& i < v.1 <= s.len()
            &&& doc_acc_filled(v.0) == doc_acc_filled(acc) + 1
        },
{
    lemma_p_str_progress(s, i);
    if p_doc_field(s, i, acc) is Some {
        let (key, j0) = p_str(s, i).unwrap();
        lemma_skip_ws_bounds(s, j0);
        let j1 = skip_ws(s, j0);
        lemma_skip_ws_bounds(s, j1 + 1);
        let j2 = skip_ws(s, j1 + 1);
        lemma_p_u32_progress(s, j2);
        lemma_p_arr_progress(s, j2);
    }
}

/// The fields of the document from position `i` up to and including the
/// closing brace: both fields, each exactly once, in either order.
pub open spec fn p_doc_fields(s: Seq<char>, i: int, acc: DocAcc, fuel: nat) -> Option<
    ((u32, Seq<StakeModel>), int),
>
    decreases fuel,
{
    if fuel == 0 {
        None
    } else {
        match p_doc_field(s, i, acc) {
            None => None,
            Some((acc2, j)) => {
                let j1 = skip_ws(s, j);
                if j1 < s.len() && s[j1] == ',' {
                    let j2 = skip_ws(s, j1 + 1);
                    p_doc_fields(s, j2, acc2, (fuel - 1) as nat)
                } else if j1 < s.len() && s[j1] == '}' {
                    if acc2.next_id is Some && acc2.stakes is Some {
                        Some(((acc2.next_id.unwrap(), acc2.stakes.unwrap()), j1 + 1))
                    } else {
                        None
                    }
                } else {
                    None
                }
            },
        }
    }
}

/// The whole document: optional surrounding whitespace, the closed
/// two-field object, and nothing after it.
pub open spec fn p_doc(s: Seq<char>) -> Option<(u32, Seq<StakeModel>)> {
    let i0 = skip_ws(s, 0);
    if i0 < s.len() && s[i0] == '{' {
        let j = skip_ws(s, i0 + 1);
        match p_doc_fields(s, j, DocAcc { next_id: None, stakes: None }, 3) {
            Some((v, j2)) => {
                let j3 = skip_ws(s, j2);
                if j3 == s.len() {
                    Some(v)
                } else {
                    None
                }
            },
            None => None,
        }
    } else {
        None
    }
}

/// The views of a sequence of owned stakes.
pub open spec fn stake_views(s: Seq<Stake>) -> Seq<StakeModel> {
    s.map_values(|st: Stake| st@)
}

/// Reads a stakes array, as `p_arr` describes it.
fn parse_arr(s: &Vec<char>, i: usize) -> (r: Option<(Vec<Stake>, usize)>)
    requires
        i <= s@.len(),
    ensures
        match r {
            Some(v) => p_arr(s@, i as int) matches Some(w) && w.0 == stake_views(v.0@) && w.1
                == v.1 as int && i < v.1 <= s@.len(),
            None => p_arr(s@, i as int) is None,
        },
{
    if !(i < s.len() && s[i] == '[') {
        return None;
    }
    let j0 = skip_ws_exec(s, i + 1);
    let mut items: Vec<Stake> = Vec::new();
    if j0 < s.len() && s[j0] == ']' {
        proof {
            assert(stake_views(items@) =~= Seq::<StakeModel>::empty());
        }
        return Some((items, j0 + 1));
    }
    let mut j = j0;
    proof {
        assert(stake_views(items@) =~= Seq::<StakeModel>::empty());
    }
    loop
        invariant
            i < j <= s@.len(),
            p_arr(s@, i as int) == p_items(s@, j as int, stake_views(items@)),
        decreases s@.len() - j,
    {
        let (stake, j1) = match parse_stake(s, j) {
            Some(v) => v,
            None => {
                return None;
            },
        };
        proof {
            lemma_p_stake_progress(s@, j as int);
        }
        let ghost pre = items@;
        items.push(stake);
        proof {
            assert(stake_views(items@) =~= stake_views(pre).push(stake@));
        }
        let j2 = skip_ws_exec(s, j1);
        if j2 < s.len() && s[j2] == ',' {
            j = skip_ws_exec(s, j2 + 1);
        } else if j2 < s.len() && s[j2] == ']' {
            return Some((items, j2 + 1));
        } else {
            return None;
        }
    }
}

/// Reads a whole document, as `p_doc` describes it.
pub fn parse_doc(s: &Vec<char>) -> (r: Option<(u32, Vec<Stake>)>)
    ensures
        match r {
            Some(v) => p_doc(s@) == Some((v.0, stake_views(v.1@))),
            None => p_doc(s@) is None,
        },
{
    proof {
        reveal_strlit("nextId");
        reveal_strlit("stakes");
        assert("nextId"@ =~= k_next_id());
        assert("stakes"@ =~= k_stakes());
    }
    let i0 = skip_ws_exec(s, 0);
    if !(i0 < s.len() && s[i0] == '{') {
        return None;
    }
    let mut j = skip_ws_exec(s, i0 + 1);
    let mut next_id: Option<u32> = None;
    let mut stakes: Option<Vec<Stake>> = None;
    let ghost mut fuel: nat = 3;
    loop
        invariant
            j <= s@.len(),
            1 <= fuel <= 3,
            fuel == 3 - doc_acc_filled(doc_acc_of(&next_id, &stakes)),
            p_doc_fields(
                s@,
                skip_ws(s@, skip_ws(s@, 0) + 1),
                DocAcc { next_id: None, stakes: None },
                3,
            ) == p_doc_fields(s@, j as int, doc_acc_of(&next_id, &stakes), fuel),
            skip_ws(s@, 0) < s@.len() && s@[skip_ws(s@, 0)] == '{',
        decreases s@.len() - j,
    {
        proof {
            reveal_strlit("nextId");
            reveal_strlit("stakes");
            assert("nextId"@ =~= k_next_id());
            assert("stakes"@ =~= k_stakes());
        }
        let ghost acc = doc_acc_of(&next_id, &stakes);
        // parse one field by hand, mirroring p_doc_field
        let (key, j0) = match parse_str(s, j) {
            Some(v) => v,
            None => {
                return None;
            },
        };
        proof {
            lemma_p_str_progress(s@, j as int);
        }
        let j1 = skip_ws_exec(s, j0);
        if !(j1 < s.len() && s[j1] == ':') {
            return None;
        }
        let j2 = skip_ws_exec(s, j1 + 1);
        let j3: usize;
        if chars_eq_lit(&key, "nextId") {
            if next_id.is_some() {
                return None;
            }
            match parse_u32(s, j2) {
                Some((v, jn)) => {
                    proof {
                        lemma_p_u32_progress(s@, j2 as int);
                    }
                    next_id = Some(v);
                    j3 = jn;
                },
                None => {
                    return None;
                },
            }
        } else if chars_eq_lit(&key, "stakes") {
            if stakes.is_some() {
                return None;
            }
            match parse_arr(s, j2) {
                Some((v, jn)) => {
                    stakes = Some(v);
                    j3 = jn;
                },
                None => {
                    return None;
                },
            }
        } else {
            return None;
        }
        proof {
            assert(p_doc_field(s@, j as int, acc) matches Some(w) && w.0 == doc_acc_of(
                &next_id,
                &stakes,
            ) && w.1 == j3 as int);
            lemma_p_doc_field_progress(s@, j as int, acc);
        }
        let j4 = skip_ws_exec(s, j3);
        if j4 < s.len() && s[j4] == ',' {
            proof {
                fuel = (fuel - 1) as nat;
            }
            j = skip_ws_exec(s, j4 + 1);
        } else if j4 < s.len() && s[j4] == '}' {
            if next_id.is_some() && stakes.is_some() {
                let j5 = skip_ws_exec(s, j4 + 1);
                if j5 == s.len() {
                    return Some((next_id.unwrap(), stakes.unwrap()));
                } else {
                    return None;
                }
            } else {
                return None;
            }
        } else {
            return None;
        }
    }
}

/// The document fields the parser holds, as an accumulator.
pub open spec fn doc_acc_of(next_id: &Option<u32>, stakes: &Option<Vec<Stake>>) -> DocAcc {
    DocAcc {
        next_id: *next_id,
        stakes: match stakes {
            Some(v) => Some(stake_views(v@)),
            None => None,
        },
    }
}

/// The wire text of a boolean.
pub open spec fn enc_bool(b: bool) -> Seq<char> {
    if b {
        lit_true()
    } else {
        lit_false()
    }
}

/// The wire text of an optional number: `null` or its digits.
pub open spec fn enc_opt_u32(p: Option<u32>) -> Seq<char> {
    match p {
        Some(v) => fmt_u32(v),
        None => lit_null(),
    }
}

/// The wire text of an optional string.
pub open spec fn enc_opt_str(o: Option<Seq<char>>) -> Seq<char> {
    match o {
        Some(v) => fmt_str(v),
        None => lit_null(),
    }
}

/// The wire text of a quoted timestamp.
pub open spec fn enc_ts_token(t: Timestamp) -> Seq<char> {
    seq!['"'] + fmt_ts(t) + seq!['"']
}

/// One `"key": value` pair of the wire text.
pub open spec fn enc_field(key: Seq<char>, val: Seq<char>) -> Seq<char> {
    fmt_str(key) + seq![':'] + val
}

/// The wire text of one stake: its eight fields, in declaration order.
pub open spec fn enc_stake(m: StakeModel) -> Seq<char> {
    seq!['{'] + (enc_field(k_stake_id(), fmt_u32(m.id)) + (seq![','] + (enc_field(
        k_stake_name(),
        fmt_str(m.name),
    ) + (seq![','] + (enc_field(k_parent_id(), enc_opt_u32(m.parent)) + (seq![','] + (enc_field(
        k_complete(),
        enc_bool(m.complete),
    ) + (seq![','] + (enc_field(k_dropped(), enc_bool(m.dropped)) + (seq![','] + (enc_field(
        k_note(),
        enc_opt_str(m.note),
    ) + (seq![','] + (enc_field(k_date_modified(), enc_ts_token(m.modified)) + (seq![','] + (
    enc_field(k_date_created(), enc_ts_token(m.created)) + seq!['}'])))))))))))))))
}

/// The wire text of the stakes, comma separated.
pub open spec fn enc_items(s: Seq<StakeModel>) -> Seq<char>
    decreases s.len(),
{
    if s.len() == 0 {
        Seq::empty()
    } else if s.len() == 1 {
        enc_stake(s[0])
    } else {
        enc_stake(s[0]) + (seq![','] + enc_items(s.drop_first()))
    }
}

/// Appending one more stake appends its text, after a comma when it is not
/// the first.
#[verifier::rlimit(100)]
pub proof fn lemma_enc_items_push(s: Seq<StakeModel>, m: StakeModel)
    ensures
        enc_items(s.push(m)) == if s.len() == 0 {
            enc_stake(m)
        } else {
            enc_items(s) + seq![','] + enc_stake(m)
        },
    decreases s.len(),
{
    let sp = s.push(m);
    if s.len() == 0 {
        assert(sp.len() == 1);
        assert(sp[0] == m);
    } else {
        assert(sp[0] == s[0]);
        assert(sp.drop_first() =~= s.drop_first().push(m));
        lemma_enc_items_push(s.drop_first(), m);
        if s.len() == 1 {
            assert(s.drop_first().len() == 0);
            assert(enc_items(sp) =~= enc_items(s) + seq![','] + enc_stake(m));
        } else {
            assert(enc_items(sp) =~= enc_items(s) + seq![','] + enc_stake(m));
        }
    }
}

/// The wire text of the whole document.
pub open spec fn enc_doc(next_id: u32, stakes: Seq<StakeModel>) -> Seq<char> {
    seq!['{'] + (enc_field(k_next_id(), fmt_u32(next_id)) + (seq![','] + (enc_field(
        k_stakes(),
        seq!['['] + (enc_items(stakes) + seq![']']),
    ) + seq!['}'])))
}

/// Appends a whole string token: quote, escaped content, quote.
fn push_str_token(out: &mut Vec<char>, v: &Vec<char>)
    ensures
        final(out)@ == old(out)@ + fmt_str(v@),
{
    out.push('"');
    push_escaped(out, v);
    out.push('"');
    proof {
        assert(final(out)@ =~= old(out)@ + fmt_str(v@));
    }
}

/// Appends the timestamp text.
fn push_ts(out: &mut Vec<char>, t: &Timestamp)
    requires
        t.wf(),
    ensures
        final(out)@ == old(out)@ + fmt_ts(*t),
{
    crate::wire::push_pad(out, t.year, 4);
    out.push('-');
    crate::wire::push_pad(out, t.month, 2);
    out.push('-');
    crate::wire::push_pad(out, t.day, 2);
    out.push('T');
    crate::wire::push_pad(out, t.hour, 2);
    out.push(':');
    crate::wire::push_pad(out, t.minute, 2);
    out.push(':');
    crate::wire::push_pad(out, t.second, 2);
    if t.nanos != 0 {
        out.push('.');
        crate::wire::push_pad(out, t.nanos, 9);
    }
    out.push('+');
    out.push('0');
    out.push('0');
    out.push(':');
    out.push('0');
    out.push('0');
    proof {
        assert(final(out)@ =~= old(out)@ + fmt_ts(*t));
    }
}

/// Appends a quoted timestamp token.
fn push_ts_token(out: &mut Vec<char>, t: &Timestamp)
    requires
        t.wf(),
    ensures
        final(out)@ == old(out)@ + enc_ts_token(*t),
{
    out.push('"');
    push_ts(out, t);
    out.push('"');
    proof {
        assert(final(out)@ =~= old(out)@ + enc_ts_token(*t));
    }
}

/// Appends `"key":` followed by a number.
fn push_field_u32(out: &mut Vec<char>, key: &str, v: u32)
    ensures
        final(out)@ == old(out)@ + enc_field(key@, fmt_u32(v)),
{
    let kv = crate::text::chars_of(key);
    push_str_token(out, &kv);
    out.push(':');
    push_u32(out, v);
    proof {
        assert(final(out)@ =~= old(out)@ + enc_field(key@, fmt_u32(v)));
    }
}

/// Appends `"key":` followed by a string token.
fn push_field_str(out: &mut Vec<char>, key: &str, v: &Vec<char>)
    ensures
        final(out)@ == old(out)@ + enc_field(key@, fmt_str(v@)),
{
    let kv = crate::text::chars_of(key);
    push_str_token(out, &kv);
    out.push(':');
    push_str_token(out, v);
    proof {
        assert(final(out)@ =~= old(out)@ + enc_field(key@, fmt_str(v@)));
    }
}

/// Appends `"key":` followed by `null` or a number.
fn push_field_opt_u32(out: &mut Vec<char>, key: &str, v: &Option<u32>)
    ensures
        final(out)@ == old(out)@ + enc_field(key@, enc_opt_u32(*v)),
{
    proof {
        reveal_strlit("null");
        assert("null"@ =~= lit_null());
    }
    let kv = crate::text::chars_of(key);
    push_str_token(out, &kv);
    out.push(':');
    match v {
        Some(p) => push_u32(out, *p),
        None => push_lit(out, "null"),
    }
    proof {
        assert(final(out)@ =~= old(out)@ + enc_field(key@, enc_opt_u32(*v)));
    }
}

/// Appends `"key":` followed by `null` or a string token.
fn push_field_opt_str(out: &mut Vec<char>, key: &str, v: &Option<Vec<char>>)
    ensures
        final(out)@ == old(out)@ + enc_field(
            key@,
            enc_opt_str(
                match v {
                    Some(n) => Some(n@),
                    None => None,
                },
            ),
        ),
{
    proof {
        reveal_strlit("null");
        assert("null"@ =~= lit_null());
    }
    let kv = crate::text::chars_of(key);
    push_str_token(out, &kv);
    out.push(':');
    match v {
        Some(n) => push_str_token(out, n),
        None => push_lit(out, "null"),
    }
    proof {
        assert(final(out)@ =~= old(out)@ + enc_field(
            key@,
            enc_opt_str(
                match v {
                    Some(n) => Some(n@),
                    None => None,
                },
            ),
        ));
    }
}

/// Appends `"key":` followed by a boolean literal.
fn push_field_bool(out: &mut Vec<char>, key: &str, v: bool)
    ensures
        final(out)@ == old(out)@ + enc_field(key@, enc_bool(v)),
{
    proof {
        reveal_strlit("true");
        reveal_strlit("false");
        assert("true"@ =~= lit_true());
        assert("false"@ =~= lit_false());
    }
    let kv = crate::text::chars_of(key);
    push_str_token(out, &kv);
    out.push(':');
    if v {
        push_lit(out, "true");
    } else {
        push_lit(out, "false");
    }
    proof {
        assert(final(out)@ =~= old(out)@ + enc_field(key@, enc_bool(v)));
    }
}

/// Appends `"key":` followed by a quoted timestamp.
fn push_field_ts(out: &mut Vec<char>, key: &str, t: &Timestamp)
    requires
        t.wf(),
    ensures
        final(out)@ == old(out)@ + enc_field(key@, enc_ts_token(*t)),
{
    let kv = crate::text::chars_of(key);
    push_str_token(out, &kv);
    out.push(':');
    push_ts_token(out, t);
    proof {
        assert(final(out)@ =~= old(out)@ + enc_field(key@, enc_ts_token(*t)));
    }
}

/// Appends the wire text of one stake.
#[verifier::rlimit(100)]
fn push_stake(out: &mut Vec<char>, st: &Stake)
    requires
        st.date_modified.wf(),
        st.date_created.wf(),
    ensures
        final(out)@ == old(out)@ + enc_stake(st@),
{
    proof {
        reveal_strlit("stake_id");
        reveal_strlit("stake_name");
        reveal_strlit("parent_id");
        reveal_strlit("complete");
        reveal_strlit("dropped");
        reveal_strlit("note");
        reveal_strlit("date_modified");
        reveal_strlit("date_created");
        assert("stake_id"@ =~= k_stake_id());
        assert("stake_name"@ =~= k_stake_name());
        assert("parent_id"@ =~= k_parent_id());
        assert("complete"@ =~= k_complete());
        assert("dropped"@ =~= k_dropped());
        assert("note"@ =~= k_note());
        assert("date_modified"@ =~= k_date_modified());
        assert("date_created"@ =~= k_date_created());
    }
    let ghost o0 = out@;
    let ghost a1 = seq!['{'];
    let ghost a2 = enc_field(k_stake_id(), fmt_u32(st@.id));
    let ghost a3 = seq![','];
    let ghost a4 = enc_field(k_stake_name(), fmt_str(st@.name));
    let ghost a5 = seq![','];
    let ghost a6 = enc_field(k_parent_id(), enc_opt_u32(st@.parent));
    let ghost a7 = seq![','];
    let ghost a8 = enc_field(k_complete(), enc_bool(st@.complete));
    let ghost a9 = seq![','];
    let ghost a10 = enc_field(k_dropped(), enc_bool(st@.dropped));
    let ghost a11 = seq![','];
    let ghost a12 = enc_field(k_note(), enc_opt_str(st@.note));
    let ghost a13 = seq![','];
    let ghost a14 = enc_field(k_date_modified(), enc_ts_token(st@.modified));
    let ghost a15 = seq![','];
    let ghost a16 = enc_field(k_date_created(), enc_ts_token(st@.created));
    let ghost a17 = seq!['}'];
    out.push('{');
    let ghost o1 = out@;
    proof {
        assert(o1 == o0 + a1);
    }
    push_field_u32(out, "stake_id", st.stake_id.0);
    let ghost o2 = out@;
    proof {
        assert(o2 == o1 + a2);
    }
    out.push(',');
    let ghost o3 = out@;
    proof {
        assert(o3 == o2 + a3);
    }
    let name = crate::text::chars_of(st.stake_name.as_str());
    push_field_str(out, "stake_name", &name);
    let ghost o4 = out@;
    proof {
        assert(o4 == o3 + a4);
    }
    out.push(',');
    let ghost o5 = out@;
    proof {
        assert(o5 == o4 + a5);
    }
    let parent: Option<u32> = match &st.parent_id {
        Some(p) => Some(p.0),
        None => None,
    };
    push_field_opt_u32(out, "parent_id", &parent);
    let ghost o6 = out@;
    proof {
        assert(o6 == o5 + a6);
    }
    out.push(',');
    let ghost o7 = out@;
    proof {
        assert(o7 == o6 + a7);
    }
    push_field_bool(out, "complete", st.complete);
    let ghost o8 = out@;
    proof {
        assert(o8 == o7 + a8);
    }
    out.push(',');
    let ghost o9 = out@;
    proof {
        assert(o9 == o8 + a9);
    }
    push_field_bool(out, "dropped", st.dropped);
    let ghost o10 = out@;
    proof {
        assert(o10 == o9 + a10);
    }
    out.push(',');
    let ghost o11 = out@;
    proof {
        assert(o11 == o10 + a11);
    }
    let note: Option<Vec<char>> = match &st.note {
        Some(nt) => Some(crate::text::chars_of(nt.as_str())),
        None => None,
    };
    push_field_opt_str(out, "note", &note);
    let ghost o12 = out@;
    proof {
        assert(o12 == o11 + a12);
    }
    out.push(',');
    let ghost o13 = out@;
    proof {
        assert(o13 == o12 + a13);
    }
    push_field_ts(out, "date_modified", &st.date_modified);
    let ghost o14 = out@;
    proof {
        assert(o14 == o13 + a14);
    }
    out.push(',');
    let ghost o15 = out@;
    proof {
        assert(o15 == o14 + a15);
    }
    push_field_ts(out, "date_created", &st.date_created);
    let ghost o16 = out@;
    proof {
        assert(o16 == o15 + a16);
    }
    out.push('}');
    let ghost o17 = out@;
    proof {
        assert(o17 == o16 + a17);
    }
    proof {
        let s17 = a17;
        let s16 = a16 + s17;
        let s15 = a15 + s16;
        let s14 = a14 + s15;
        let s13 = a13 + s14;
        let s12 = a12 + s13;
        let s11 = a11 + s12;
        let s10 = a10 + s11;
        let s9 = a9 + s10;
        let s8 = a8 + s9;
        let s7 = a7 + s8;
        let s6 = a6 + s7;
        let s5 = a5 + s6;
        let s4 = a4 + s5;
        let s3 = a3 + s4;
        let s2 = a2 + s3;
        let s1 = a1 + s2;
        assert(s1 == enc_stake(st@));
        assert(o17 == o16 + s17);
        lemma_assoc(o15, a16, s17);
        assert(o15 + s16 == o16 + s17);
        lemma_assoc(o14, a15, s16);
        assert(o14 + s15 == o15 + s16);
        lemma_assoc(o13, a14, s15);
        assert(o13 + s14 == o14 + s15);
        lemma_assoc(o12, a13, s14);
        assert(o12 + s13 == o13 + s14);
        lemma_assoc(o11, a12, s13);
        assert(o11 + s12 == o12 + s13);
        lemma_assoc(o10, a11, s12);
        assert(o10 + s11 == o11 + s12);
        lemma_assoc(o9, a10, s11);
        assert(o9 + s10 == o10 + s11);
        lemma_assoc(o8, a9, s10);
        assert(o8 + s9 == o9 + s10);
        lemma_assoc(o7, a8, s9);
        assert(o7 + s8 == o8 + s9);
        lemma_assoc(o6, a7, s8);
        assert(o6 + s7 == o7 + s8);
        lemma_assoc(o5, a6, s7);
        assert(o5 + s6 == o6 + s7);
        lemma_assoc(o4, a5, s6);
        assert(o4 + s5 == o5 + s6);
        lemma_assoc(o3, a4, s5);
        assert(o3 + s4 == o4 + s5);
        lemma_assoc(o2, a3, s4);
        assert(o2 + s3 == o3 + s4);
        lemma_assoc(o1, a2, s3);
        assert(o1 + s2 == o2 + s3);
        lemma_assoc(o0, a1, s2);
        assert(o0 + s1 == o1 + s2);
        assert(final(out)@ == o0 + s1);
    }
}

/// Whether every stored timestamp of the stakes names a real instant.
pub open spec fn stakes_wf(s: Seq<StakeModel>) -> bool {
    forall|i: int| 0 <= i < s.len() ==> (#[trigger] s[i]).wf()
}

/// Builds the wire text of a whole document.
#[verifier::rlimit(100)]
pub fn encode_doc(next_id: u32, stakes: &Vec<Stake>) -> (r: Vec<char>)
    requires
        stakes_wf(stake_views(stakes@)),
    ensures
        r@ == enc_doc(next_id, stake_views(stakes@)),
{
    proof {
        reveal_strlit("nextId");
        reveal_strlit("stakes");
        assert("nextId"@ =~= k_next_id());
        assert("stakes"@ =~= k_stakes());
    }
    let ghost models = stake_views(stakes@);
    let mut out: Vec<char> = Vec::new();
    out.push('{');
    let key = crate::text::chars_of("nextId");
    push_str_token(&mut out, &key);
    out.push(':');
    push_u32(&mut out, next_id);
    out.push(',');
    let key = crate::text::chars_of("stakes");
    push_str_token(&mut out, &key);
    out.push(':');
    out.push('[');
    let ghost head = out@;
    let mut i: usize = 0;
    proof {
        assert(enc_items(models.take(0)) =~= Seq::<char>::empty());
        assert(out@ =~= head + enc_items(models.take(0)));
    }
    while i < stakes.len()
        invariant
            0 <= i <= stakes@.len(),
            models == stake_views(stakes@),
            models.len() == stakes@.len(),
            stakes_wf(models),
            out@ == head + enc_items(models.take(i as int)),
        decreases stakes@.len() - i,
    {
        if i > 0 {
            out.push(',');
        }
        proof {
            assert(models[i as int] == stakes@[i as int]@);
            assert(models[i as int].wf());
        }
        push_stake(&mut out, &stakes[i]);
        proof {
            models.lemma_take_succ_push(i as int);
            lemma_enc_items_push(models.take(i as int), models[i as int]);
            assert(out@ =~= head + enc_items(models.take(i + 1)));
        }
        i = i + 1;
    }
    proof {
        assert(models.take(models.len() as int) =~= models);
    }
    out.push(']');
    out.push('}');
    proof {
        assert(out@ =~= enc_doc(next_id, models));
    }
    out
}

/// A placed concatenation splits into its two placed halves.
pub proof fn lemma_concat_split(s: Seq<char>, i: int, a: Seq<char>, b: Seq<char>)
    requires
        0 <= i,
        i + a.len() + b.len() <= s.len(),
        s.subrange(i, i + a.len() + b.len()) == a + b,
    ensures
        s.subrange(i, i + a.len() as int) == a,
        s.subrange(i + a.len() as int, i + a.len() + b.len()) == b,
{
    assert(s.subrange(i, i + a.len() as int) =~= a) by {
        assert forall|k: int| 0 <= k < a.len() implies s.subrange(i, i + a.len() as int)[k]
            == a[k] by {
            assert(s.subrange(i, i + a.len() + b.len())[k] == (a + b)[k]);
        }
    }
    assert(s.subrange(i + a.len() as int, i + a.len() + b.len()) =~= b) by {
        assert forall|k: int| 0 <= k < b.len() implies s.subrange(
            i + a.len() as int,
            i + a.len() + b.len(),
        )[k] == b[k] by {
            assert(s.subrange(i, i + a.len() + b.len())[k + a.len()] == (a + b)[k + a.len()]);
            assert((a + b)[k + a.len()] == b[k]);
        }
    }
}

/// Concatenation of sequences is associative.
pub proof fn lemma_assoc(a: Seq<char>, b: Seq<char>, c: Seq<char>)
    ensures
        (a + b) + c == a + (b + c),
{
    assert((a + b) + c =~= a + (b + c));
}

/// Parsing a placed `"key": value` text finds the key, the colon, and the
/// placed value.
proof fn lemma_parse_field(s: Seq<char>, i: int, key: Seq<char>, val: Seq<char>)
    requires
        0 <= i,
        i + enc_field(key, val).len() <= s.len(),
        s.subrange(i, i + enc_field(key, val).len() as int) == enc_field(key, val),
        val.len() > 0,
    ensures
        p_str(s, i) == Some((key, i + fmt_str(key).len() as int)),
        s[i + fmt_str(key).len()] == ':',
        skip_ws(s, i + fmt_str(key).len() as int) == i + fmt_str(key).len(),
        s.subrange(i + fmt_str(key).len() + 1, i + enc_field(key, val).len() as int) == val,
        s[i + fmt_str(key).len() + 1] == val[0],
        s[i] == '"',
{
    let fk = fmt_str(key);
    assert(enc_field(key, val) == (fk + seq![':']) + val);
    lemma_concat_split(s, i, fk + seq![':'], val);
    lemma_concat_split(s, i, fk, seq![':']);
    assert(s[i + fk.len()] == ':') by {
        assert(s.subrange(i + fk.len() as int, i + fk.len() + 1)[0] == seq![':'][0]);
    }
    lemma_parse_fmt_str(key, s, i);
    assert(!is_wire_ws(s[i + fk.len()]));
    assert(s[i + fk.len() + 1] == val[0]) by {
        assert(s.subrange(i + fk.len() + 1, i + enc_field(key, val).len() as int)[0] == val[0]);
    }
    assert(s[i] == '"') by {
        assert(s.subrange(i, i + fk.len() as int)[0] == fk[0]);
    }
}

/// A quoted timestamp token is the string token of its text.
proof fn lemma_enc_ts_token(t: Timestamp)
    ensures
        enc_ts_token(t) == fmt_str(fmt_ts(t)),
{
    crate::wire::lemma_fmt_ts_plain(t);
    crate::wire::lemma_enc_str_plain(fmt_ts(t));
    assert(enc_ts_token(t) =~= fmt_str(fmt_ts(t)));
}

/// The comma and the closing braces are neither digits nor whitespace.
proof fn lemma_sep_chars()
    ensures
        !crate::wire::is_digit(','),
        !crate::wire::is_digit('}'),
        !crate::wire::is_digit(']'),
        !is_wire_ws(','),
        !is_wire_ws('}'),
        !is_wire_ws(']'),
        !is_wire_ws('"'),
        !is_wire_ws('{'),
        !is_wire_ws('['),
{
}

/// Parsing a placed canonical `stake_id` field fills the id slot.
proof fn lemma_step_id(s: Seq<char>, i: int, m: StakeModel, acc: StakeAcc)
    requires
        acc.id is None,
        0 <= i,
        i + enc_field(k_stake_id(), fmt_u32(m.id)).len() < s.len(),
        s.subrange(i, i + enc_field(k_stake_id(), fmt_u32(m.id)).len() as int) == enc_field(
            k_stake_id(),
            fmt_u32(m.id),
        ),
        !crate::wire::is_digit(s[i + enc_field(k_stake_id(), fmt_u32(m.id)).len()]),
    ensures
        p_stake_field(s, i, acc) == Some(
            (StakeAcc { id: Some(m.id), ..acc }, i + enc_field(k_stake_id(), fmt_u32(m.id)).len() as int),
        ),
{
    let f = enc_field(k_stake_id(), fmt_u32(m.id));
    crate::wire::lemma_fmt_u32_first_digit(m.id);
    lemma_parse_field(s, i, k_stake_id(), fmt_u32(m.id));
    let pv = i + fmt_str(k_stake_id()).len() + 1;
    assert(crate::wire::is_digit(s[pv]));
    assert(!is_wire_ws(s[pv]));
    assert(skip_ws(s, pv) == pv);
    lemma_parse_fmt_u32(m.id, s, pv);
}

/// Parsing a placed canonical `stake_name` field fills the name slot.
proof fn lemma_step_name(s: Seq<char>, i: int, m: StakeModel, acc: StakeAcc)
    requires
        acc.name is None,
        0 <= i,
        i + enc_field(k_stake_name(), fmt_str(m.name)).len() < s.len(),
        s.subrange(i, i + enc_field(k_stake_name(), fmt_str(m.name)).len() as int) == enc_field(
            k_stake_name(),
            fmt_str(m.name),
        ),
    ensures
        p_stake_field(s, i, acc) == Some(
            (
                StakeAcc { name: Some(m.name), ..acc },
                i + enc_field(k_stake_name(), fmt_str(m.name)).len() as int,
            ),
        ),
{
    lemma_parse_field(s, i, k_stake_name(), fmt_str(m.name));
    let pv = i + fmt_str(k_stake_name()).len() + 1;
    assert(fmt_str(m.name)[0] == '"');
    assert(!is_wire_ws(s[pv]));
    assert(skip_ws(s, pv) == pv);
    lemma_parse_fmt_str(m.name, s, pv);
}

/// Parsing a placed canonical `parent_id` field fills its slot.
proof fn lemma_step_parent(s: Seq<char>, i: int, m: StakeModel, acc: StakeAcc)
    requires
        acc.parent is None,
        0 <= i,
        i + enc_field(k_parent_id(), enc_opt_u32(m.parent)).len() < s.len(),
        s.subrange(i, i + enc_field(k_parent_id(), enc_opt_u32(m.parent)).len() as int) == enc_field(k_parent_id(), enc_opt_u32(m.parent)),
        !crate::wire::is_digit(s[i + enc_field(k_parent_id(), enc_opt_u32(m.parent)).len()]),
    ensures
        p_stake_field(s, i, acc) == Some(
            (StakeAcc { parent: Some(m.parent), ..acc }, i + enc_field(k_parent_id(), enc_opt_u32(m.parent)).len() as int),
        ),
{
    lemma_parse_field(s, i, k_parent_id(), enc_opt_u32(m.parent));
    let pv = i + fmt_str(k_parent_id()).len() + 1;
    match m.parent {
        Some(v) => {
            crate::wire::lemma_fmt_u32_first_digit(v);
            assert(s[pv] == fmt_u32(v)[0]);
            assert(crate::wire::is_digit(s[pv]));
            assert(!is_wire_ws(s[pv]));
            assert(skip_ws(s, pv) == pv);
            assert(!match_at(s, pv, lit_null())) by {
                if match_at(s, pv, lit_null()) {
                    assert(s.subrange(pv, pv + lit_null().len() as int)[0] == lit_null()[0]);
                    assert(s[pv] == 'n');
                }
            }
            lemma_parse_fmt_u32(v, s, pv);
        },
        None => {
            assert(s[pv] == lit_null()[0]);
            assert(!is_wire_ws(s[pv]));
            assert(skip_ws(s, pv) == pv);
            assert(match_at(s, pv, lit_null()));
        },
    }
}

/// Parsing a placed canonical `complete` field fills its slot.
proof fn lemma_step_complete(s: Seq<char>, i: int, m: StakeModel, acc: StakeAcc)
    requires
        acc.complete is None,
        0 <= i,
        i + enc_field(k_complete(), enc_bool(m.complete)).len() < s.len(),
        s.subrange(i, i + enc_field(k_complete(), enc_bool(m.complete)).len() as int) == enc_field(k_complete(), enc_bool(m.complete)),
        !crate::wire::is_digit(s[i + enc_field(k_complete(), enc_bool(m.complete)).len()]),
    ensures
        p_stake_field(s, i, acc) == Some(
            (StakeAcc { complete: Some(m.complete), ..acc }, i + enc_field(k_complete(), enc_bool(m.complete)).len() as int),
        ),
{
    lemma_parse_field(s, i, k_complete(), enc_bool(m.complete));
    let pv = i + fmt_str(k_complete()).len() + 1;
    assert(k_complete() != k_stake_id()) by {
        assert(k_complete()[0] != k_stake_id()[0]);
    }
    if m.complete {
        assert(s[pv] == lit_true()[0]);
        assert(!is_wire_ws(s[pv]));
        assert(skip_ws(s, pv) == pv);
        assert(match_at(s, pv, lit_true()));
    } else {
        assert(s[pv] == lit_false()[0]);
        assert(!is_wire_ws(s[pv]));
        assert(skip_ws(s, pv) == pv);
        assert(!match_at(s, pv, lit_true())) by {
            if match_at(s, pv, lit_true()) {
                assert(s.subrange(pv, pv + lit_true().len() as int)[0] == lit_true()[0]);
            }
        }
        assert(match_at(s, pv, lit_false()));
    }
}

/// Parsing a placed canonical `dropped` field fills its slot.
proof fn lemma_step_dropped(s: Seq<char>, i: int, m: StakeModel, acc: StakeAcc)
    requires
        acc.dropped is None,
        0 <= i,
        i + enc_field(k_dropped(), enc_bool(m.dropped)).len() < s.len(),
        s.subrange(i, i + enc_field(k_dropped(), enc_bool(m.dropped)).len() as int) == enc_field(k_dropped(), enc_bool(m.dropped)),
        !crate::wire::is_digit(s[i + enc_field(k_dropped(), enc_bool(m.dropped)).len()]),
    ensures
        p_stake_field(s, i, acc) == Some(
            (StakeAcc { dropped: Some(m.dropped), ..acc }, i + enc_field(k_dropped(), enc_bool(m.dropped)).len() as int),
        ),
{
    lemma_parse_field(s, i, k_dropped(), enc_bool(m.dropped));
    let pv = i + fmt_str(k_dropped()).len() + 1;
    if m.dropped {
        assert(s[pv] == lit_true()[0]);
        assert(!is_wire_ws(s[pv]));
        assert(skip_ws(s, pv) == pv);
        assert(match_at(s, pv, lit_true()));
    } else {
        assert(s[pv] == lit_false()[0]);
        assert(!is_wire_ws(s[pv]));
        assert(skip_ws(s, pv) == pv);
        assert(!match_at(s, pv, lit_true())) by {
            if match_at(s, pv, lit_true()) {
                assert(s.subrange(pv, pv + lit_true().len() as int)[0] == lit_true()[0]);
            }
        }
        assert(match_at(s, pv, lit_false()));
    }
}

/// Parsing a placed canonical `note` field fills its slot.
proof fn lemma_step_note(s: Seq<char>, i: int, m: StakeModel, acc: StakeAcc)
    requires
        acc.note is None,
        0 <= i,
        i + enc_field(k_note(), enc_opt_str(m.note)).len() < s.len(),
        s.subrange(i, i + enc_field(k_note(), enc_opt_str(m.note)).len() as int) == enc_field(k_note(), enc_opt_str(m.note)),
        !crate::wire::is_digit(s[i + enc_field(k_note(), enc_opt_str(m.note)).len()]),
    ensures
        p_stake_field(s, i, acc) == Some(
            (StakeAcc { note: Some(m.note), ..acc }, i + enc_field(k_note(), enc_opt_str(m.note)).len() as int),
        ),
{
    lemma_parse_field(s, i, k_note(), enc_opt_str(m.note));
    let pv = i + fmt_str(k_note()).len() + 1;
    match m.note {
        Some(v) => {
            assert(s[pv] == fmt_str(v)[0]);
            assert(s[pv] == '"');
            assert(!is_wire_ws(s[pv]));
            assert(skip_ws(s, pv) == pv);
            assert(!match_at(s, pv, lit_null())) by {
                if match_at(s, pv, lit_null()) {
                    assert(s.subrange(pv, pv + lit_null().len() as int)[0] == lit_null()[0]);
                }
            }
            lemma_parse_fmt_str(v, s, pv);
        },
        None => {
            assert(s[pv] == lit_null()[0]);
            assert(!is_wire_ws(s[pv]));
            assert(skip_ws(s, pv) == pv);
            assert(match_at(s, pv, lit_null()));
        },
    }
}

/// Parsing a placed canonical `date_modified` field fills its slot.
#[verifier::rlimit(100)]
proof fn lemma_step_modified(s: Seq<char>, i: int, m: StakeModel, acc: StakeAcc)
    requires
        acc.modified is None,
        0 <= i,
        i + enc_field(k_date_modified(), enc_ts_token(m.modified)).len() < s.len(),
        s.subrange(i, i + enc_field(k_date_modified(), enc_ts_token(m.modified)).len() as int) == enc_field(k_date_modified(), enc_ts_token(m.modified)),
        !crate::wire::is_digit(s[i + enc_field(k_date_modified(), enc_ts_token(m.modified)).len()]),
        m.modified.wf(),
    ensures
        p_stake_field(s, i, acc) == Some(
            (StakeAcc { modified: Some(m.modified), ..acc }, i + enc_field(k_date_modified(), enc_ts_token(m.modified)).len() as int),
        ),
{
    lemma_parse_field(s, i, k_date_modified(), enc_ts_token(m.modified));
    let pv = i + fmt_str(k_date_modified()).len() + 1;
    lemma_enc_ts_token(m.modified);
    assert(s[pv] == fmt_str(fmt_ts(m.modified))[0]);
    assert(s[pv] == '"');
    assert(!is_wire_ws(s[pv]));
    assert(skip_ws(s, pv) == pv);
    lemma_parse_fmt_str(fmt_ts(m.modified), s, pv);
    lemma_parse_fmt_ts(m.modified);
}

/// Parsing a placed canonical `date_created` field fills its slot.
#[verifier::rlimit(100)]
#[verifier::spinoff_prover]
proof fn lemma_step_created(s: Seq<char>, i: int, m: StakeModel, acc: StakeAcc)
    requires
        acc.created is None,
        0 <= i,
        i + enc_field(k_date_created(), enc_ts_token(m.created)).len() < s.len(),
        s.subrange(i, i + enc_field(k_date_created(), enc_ts_token(m.created)).len() as int) == enc_field(k_date_created(), enc_ts_token(m.created)),
        !crate::wire::is_digit(s[i + enc_field(k_date_created(), enc_ts_token(m.created)).len()]),
        m.created.wf(),
    ensures
        p_stake_field(s, i, acc) == Some(
            (StakeAcc { created: Some(m.created), ..acc }, i + enc_field(k_date_created(), enc_ts_token(m.created)).len() as int),
        ),
{
    lemma_parse_field(s, i, k_date_created(), enc_ts_token(m.created));
    let pv = i + fmt_str(k_date_created()).len() + 1;
    assert(k_date_created().len() == 12 && k_stake_id().len() == 8 && k_stake_name().len() == 10
        && k_parent_id().len() == 9 && k_complete().len() == 8 && k_dropped().len() == 7
        && k_note().len() == 4 && k_date_modified().len() == 13);
    lemma_enc_ts_token(m.created);
    assert(s[pv] == fmt_str(fmt_ts(m.created))[0]);
    assert(s[pv] == '"');
    assert(!is_wire_ws(s[pv]));
    assert(skip_ws(s, pv) == pv);
    lemma_parse_fmt_str(fmt_ts(m.created), s, pv);
    lemma_parse_fmt_ts(m.created);
}


/// Parsing the printed form of a well-formed stake yields its model back.
#[verifier::rlimit(100)]
#[verifier::spinoff_prover]
pub proof fn lemma_stake_round_trip(m: StakeModel, s: Seq<char>, i: int)
    requires
        m.wf(),
        0 <= i,
        i + enc_stake(m).len() <= s.len(),
        s.subrange(i, i + enc_stake(m).len() as int) == enc_stake(m),
    ensures
        p_stake(s, i) == Some((m, i + enc_stake(m).len() as int)),
{
    let e = enc_stake(m);
    let c = seq![','];
    let f1 = enc_field(k_stake_id(), fmt_u32(m.id));
    let f2 = enc_field(k_stake_name(), fmt_str(m.name));
    let f3 = enc_field(k_parent_id(), enc_opt_u32(m.parent));
    let f4 = enc_field(k_complete(), enc_bool(m.complete));
    let f5 = enc_field(k_dropped(), enc_bool(m.dropped));
    let f6 = enc_field(k_note(), enc_opt_str(m.note));
    let f7 = enc_field(k_date_modified(), enc_ts_token(m.modified));
    let f8 = enc_field(k_date_created(), enc_ts_token(m.created));
    let r15 = f8 + seq!['}'];
    let r14 = c + r15;
    let r13 = f7 + r14;
    let r12 = c + r13;
    let r11 = f6 + r12;
    let r10 = c + r11;
    let r9 = f5 + r10;
    let r8 = c + r9;
    let r7 = f4 + r8;
    let r6 = c + r7;
    let r5 = f3 + r6;
    let r4 = c + r5;
    let r3 = f2 + r4;
    let r2 = c + r3;
    let r1 = f1 + r2;
    assert(e == seq!['{'] + r1);
    let p1 = i + 1;
    let q1 = p1 + f1.len() as int;
    let p2 = q1 + 1;
    let q2 = p2 + f2.len() as int;
    let p3 = q2 + 1;
    let q3 = p3 + f3.len() as int;
    let p4 = q3 + 1;
    let q4 = p4 + f4.len() as int;
    let p5 = q4 + 1;
    let q5 = p5 + f5.len() as int;
    let p6 = q5 + 1;
    let q6 = p6 + f6.len() as int;
    let p7 = q6 + 1;
    let q7 = p7 + f7.len() as int;
    let p8 = q7 + 1;
    let q8 = p8 + f8.len() as int;
    lemma_concat_split(s, i, seq!['{'], r1);
    assert(s[i] == '{') by {
        assert(s.subrange(i, i + 1)[0] == seq!['{'][0]);
    }
    lemma_concat_split(s, p1, f1, r2);
    lemma_concat_split(s, q1, c, r3);
    assert(s[q1] == ',') by {
        assert(s.subrange(q1, q1 + 1)[0] == c[0]);
    }
    lemma_concat_split(s, p2, f2, r4);
    lemma_concat_split(s, q2, c, r5);
    assert(s[q2] == ',') by {
        assert(s.subrange(q2, q2 + 1)[0] == c[0]);
    }
    lemma_concat_split(s, p3, f3, r6);
    lemma_concat_split(s, q3, c, r7);
    assert(s[q3] == ',') by {
        assert(s.subrange(q3, q3 + 1)[0] == c[0]);
    }
    lemma_concat_split(s, p4, f4, r8);
    lemma_concat_split(s, q4, c, r9);
    assert(s[q4] == ',') by {
        assert(s.subrange(q4, q4 + 1)[0] == c[0]);
    }
    lemma_concat_split(s, p5, f5, r10);
    lemma_concat_split(s, q5, c, r11);
    assert(s[q5] == ',') by {
        assert(s.subrange(q5, q5 + 1)[0] == c[0]);
    }
    lemma_concat_split(s, p6, f6, r12);
    lemma_concat_split(s, q6, c, r13);
    assert(s[q6] == ',') by {
        assert(s.subrange(q6, q6 + 1)[0] == c[0]);
    }
    lemma_concat_split(s, p7, f7, r14);
    lemma_concat_split(s, q7, c, r15);
    assert(s[q7] == ',') by {
        assert(s.subrange(q7, q7 + 1)[0] == c[0]);
    }
    lemma_concat_split(s, p8, f8, seq!['}']);
    assert(s[q8] == '}') by {
        assert(s.subrange(q8, q8 + 1)[0] == seq!['}'][0]);
    }
    lemma_sep_chars();
    let acc0 = empty_stake_acc();
    lemma_step_id(s, p1, m, acc0);
    let acc1 = StakeAcc { id: Some(m.id), ..acc0 };
    lemma_step_name(s, p2, m, acc1);
    let acc2 = StakeAcc { name: Some(m.name), ..acc1 };
    lemma_step_parent(s, p3, m, acc2);
    let acc3 = StakeAcc { parent: Some(m.parent), ..acc2 };
    lemma_step_complete(s, p4, m, acc3);
    let acc4 = StakeAcc { complete: Some(m.complete), ..acc3 };
    lemma_step_dropped(s, p5, m, acc4);
    let acc5 = StakeAcc { dropped: Some(m.dropped), ..acc4 };
    lemma_step_note(s, p6, m, acc5);
    let acc6 = StakeAcc { note: Some(m.note), ..acc5 };
    lemma_step_modified(s, p7, m, acc6);
    let acc7 = StakeAcc { modified: Some(m.modified), ..acc6 };
    lemma_step_created(s, p8, m, acc7);
    let acc8 = StakeAcc { created: Some(m.created), ..acc7 };
    assert(stake_acc_complete(acc8));
    assert(stake_acc_model(acc8) == m);
    assert(s[p2] == '"') by {
        assert(s.subrange(p2, q2)[0] == f2[0]);
        assert(f2[0] == fmt_str(k_stake_name())[0]);
    }
    assert(s[p3] == '"') by {
        assert(s.subrange(p3, q3)[0] == f3[0]);
        assert(f3[0] == fmt_str(k_parent_id())[0]);
    }
    assert(s[p4] == '"') by {
        assert(s.subrange(p4, q4)[0] == f4[0]);
        assert(f4[0] == fmt_str(k_complete())[0]);
    }
    assert(s[p5] == '"') by {
        assert(s.subrange(p5, q5)[0] == f5[0]);
        assert(f5[0] == fmt_str(k_dropped())[0]);
    }
    assert(s[p6] == '"') by {
        assert(s.subrange(p6, q6)[0] == f6[0]);
        assert(f6[0] == fmt_str(k_note())[0]);
    }
    assert(s[p7] == '"') by {
        assert(s.subrange(p7, q7)[0] == f7[0]);
        assert(f7[0] == fmt_str(k_date_modified())[0]);
    }
    assert(s[p8] == '"') by {
        assert(s.subrange(p8, q8)[0] == f8[0]);
        assert(f8[0] == fmt_str(k_date_created())[0]);
    }
    assert(s[p1] == '"') by {
        assert(s.subrange(p1, q1)[0] == f1[0]);
        assert(f1[0] == fmt_str(k_stake_id())[0]);
    }
    assert(skip_ws(s, p1) == p1);
    assert(skip_ws(s, q1) == q1 && skip_ws(s, p2) == p2);
    assert(skip_ws(s, q2) == q2 && skip_ws(s, p3) == p3);
    assert(skip_ws(s, q3) == q3 && skip_ws(s, p4) == p4);
    assert(skip_ws(s, q4) == q4 && skip_ws(s, p5) == p5);
    assert(skip_ws(s, q5) == q5 && skip_ws(s, p6) == p6);
    assert(skip_ws(s, q6) == q6 && skip_ws(s, p7) == p7);
    assert(skip_ws(s, q7) == q7 && skip_ws(s, p8) == p8);
    assert(skip_ws(s, q8) == q8);
    assert(p_stake_fields(s, p1, acc0, 9) == p_stake_fields(s, p2, acc1, 8));
    assert(p_stake_fields(s, p2, acc1, 8) == p_stake_fields(s, p3, acc2, 7));
    assert(p_stake_fields(s, p3, acc2, 7) == p_stake_fields(s, p4, acc3, 6));
    assert(p_stake_fields(s, p4, acc3, 6) == p_stake_fields(s, p5, acc4, 5));
    assert(p_stake_fields(s, p5, acc4, 5) == p_stake_fields(s, p6, acc5, 4));
    assert(p_stake_fields(s, p6, acc5, 4) == p_stake_fields(s, p7, acc6, 3));
    assert(p_stake_fields(s, p7, acc6, 3) == p_stake_fields(s, p8, acc7, 2));
    assert(p_stake_fields(s, p8, acc7, 2) == Some((m, q8 + 1)));
    assert(p_stake(s, i) == Some((m, q8 + 1)));
    assert(q8 + 1 == i + e.len());
}

/// Parsing a placed run of printed stakes, closed by a bracket, yields
/// them all.
#[verifier::rlimit(100)]
#[verifier::spinoff_prover]
proof fn lemma_items_round_trip(ms: Seq<StakeModel>, s: Seq<char>, i: int, acc: Seq<StakeModel>)
    requires
        ms.len() >= 1,
        stakes_wf(ms),
        0 <= i,
        i + enc_items(ms).len() + 1 <= s.len(),
        s.subrange(i, i + enc_items(ms).len() as int) == enc_items(ms),
        s[i + enc_items(ms).len()] == ']',
    ensures
        p_items(s, i, acc) == Some((acc + ms, i + enc_items(ms).len() + 1)),
    decreases ms.len(),
{
    lemma_sep_chars();
    if ms.len() == 1 {
        assert(enc_items(ms) == enc_stake(ms[0]));
        assert(ms[0].wf());
        lemma_stake_round_trip(ms[0], s, i);
        let j = i + enc_stake(ms[0]).len() as int;
        assert(skip_ws(s, j) == j);
        assert(acc.push(ms[0]) =~= acc + ms);
    } else {
        let head = enc_stake(ms[0]);
        let rest = seq![','] + enc_items(ms.drop_first());
        assert(enc_items(ms) == head + rest);
        lemma_concat_split(s, i, head, rest);
        let q = i + head.len() as int;
        lemma_concat_split(s, q, seq![','], enc_items(ms.drop_first()));
        assert(s[q] == ',') by {
            assert(s.subrange(q, q + 1)[0] == seq![','][0]);
        }
        assert(ms[0].wf());
        lemma_stake_round_trip(ms[0], s, i);
        assert(skip_ws(s, q) == q);
        let p = q + 1;
        assert(s[p] == '{') by {
            assert(s.subrange(p, i + enc_items(ms).len() as int)[0] == enc_items(
                ms.drop_first(),
            )[0]);
            assert(ms.drop_first().len() >= 1);
            assert(enc_items(ms.drop_first())[0] == enc_stake(ms.drop_first()[0])[0]);
            assert(enc_stake(ms.drop_first()[0])[0] == '{');
        }
        assert(skip_ws(s, p) == p);
        assert(stakes_wf(ms.drop_first())) by {
            assert forall|k: int| 0 <= k < ms.drop_first().len() implies (#[trigger] ms.drop_first()[k]).wf() by {
                assert(ms.drop_first()[k] == ms[k + 1]);
            }
        }
        lemma_items_round_trip(ms.drop_first(), s, p, acc.push(ms[0]));
        assert(acc.push(ms[0]) + ms.drop_first() =~= acc + ms);
        assert(p + enc_items(ms.drop_first()).len() + 1 == i + enc_items(ms).len() + 1);
    }
}

/// Parsing the printed form of a well-formed document yields the counter
/// and the stakes back.
#[verifier::rlimit(100)]
#[verifier::spinoff_prover]
pub proof fn lemma_doc_round_trip(next_id: u32, ms: Seq<StakeModel>)
    requires
        stakes_wf(ms),
    ensures
        p_doc(enc_doc(next_id, ms)) == Some((next_id, ms)),
{
    lemma_sep_chars();
    let s = enc_doc(next_id, ms);
    let arr = seq!['['] + (enc_items(ms) + seq![']']);
    let fd1 = enc_field(k_next_id(), fmt_u32(next_id));
    let fd2 = enc_field(k_stakes(), arr);
    let r3 = fd2 + seq!['}'];
    let r2 = seq![','] + r3;
    let r1 = fd1 + r2;
    assert(s == seq!['{'] + r1);
    assert(s.subrange(0, s.len() as int) =~= s);
    let p1: int = 1;
    let q1 = p1 + fd1.len() as int;
    let p2 = q1 + 1;
    let q2 = p2 + fd2.len() as int;
    lemma_concat_split(s, 0, seq!['{'], r1);
    assert(s[0] == '{') by {
        assert(s.subrange(0, 1)[0] == seq!['{'][0]);
    }
    lemma_concat_split(s, p1, fd1, r2);
    lemma_concat_split(s, q1, seq![','], r3);
    assert(s[q1] == ',') by {
        assert(s.subrange(q1, q1 + 1)[0] == seq![','][0]);
    }
    lemma_concat_split(s, p2, fd2, seq!['}']);
    assert(s[q2] == '}') by {
        assert(s.subrange(q2, q2 + 1)[0] == seq!['}'][0]);
    }
    // first field: nextId
    lemma_parse_field(s, p1, k_next_id(), fmt_u32(next_id));
    let pv1 = p1 + fmt_str(k_next_id()).len() + 1;
    crate::wire::lemma_fmt_u32_first_digit(next_id);
    assert(crate::wire::is_digit(s[pv1]));
    assert(!is_wire_ws(s[pv1]));
    assert(skip_ws(s, pv1) == pv1);
    lemma_parse_fmt_u32(next_id, s, pv1);
    let acc0 = DocAcc { next_id: None, stakes: None };
    let acc1 = DocAcc { next_id: Some(next_id), stakes: None };
    assert(p_doc_field(s, p1, acc0) == Some((acc1, q1)));
    // second field: stakes
    lemma_parse_field(s, p2, k_stakes(), arr);
    assert(k_stakes() != k_next_id()) by {
        assert(k_stakes()[0] != k_next_id()[0]);
    }
    let pv2 = p2 + fmt_str(k_stakes()).len() + 1;
    assert(s[pv2] == '[');
    assert(!is_wire_ws(s[pv2]));
    assert(skip_ws(s, pv2) == pv2);
    // the array
    lemma_concat_split(s, pv2, seq!['['], enc_items(ms) + seq![']']);
    let pa = pv2 + 1;
    lemma_concat_split(s, pa, enc_items(ms), seq![']']);
    let qa = pa + enc_items(ms).len() as int;
    assert(s[qa] == ']') by {
        assert(s.subrange(qa, qa + 1)[0] == seq![']'][0]);
    }
    if ms.len() == 0 {
        assert(enc_items(ms).len() == 0);
        assert(skip_ws(s, pa) == pa);
        assert(p_arr(s, pv2) == Some((Seq::<StakeModel>::empty(), pa + 1)));
        assert(Seq::<StakeModel>::empty() =~= ms);
    } else {
        assert(s[pa] == '{') by {
            assert(s.subrange(pa, qa)[0] == enc_items(ms)[0]);
            assert(enc_items(ms)[0] == enc_stake(ms[0])[0]);
            assert(enc_stake(ms[0])[0] == '{');
        }
        assert(skip_ws(s, pa) == pa);
        lemma_items_round_trip(ms, s, pa, Seq::empty());
        assert(Seq::<StakeModel>::empty() + ms =~= ms);
        assert(p_arr(s, pv2) == Some((ms, qa + 1)));
    }
    assert(qa + 1 == q2);
    let acc2 = DocAcc { next_id: Some(next_id), stakes: Some(ms) };
    assert(p_doc_field(s, p2, acc1) == Some((acc2, q2)));
    // the chain
    assert(skip_ws(s, 0) == 0);
    assert(s[p1] == '"') by {
        assert(s.subrange(p1, q1)[0] == fd1[0]);
        assert(fd1[0] == fmt_str(k_next_id())[0]);
    }
    assert(skip_ws(s, p1) == p1);
    assert(skip_ws(s, q1) == q1);
    assert(s[p2] == '"') by {
        assert(s.subrange(p2, q2)[0] == fd2[0]);
        assert(fd2[0] == fmt_str(k_stakes())[0]);
    }
    assert(skip_ws(s, p2) == p2);
    assert(skip_ws(s, q2) == q2);
    assert(p_doc_fields(s, p1, acc0, 3) == p_doc_fields(s, p2, acc1, 2));
    assert(p_doc_fields(s, p2, acc1, 2) == Some(((next_id, ms), q2 + 1)));
    assert(q2 + 1 == s.len());
    assert(skip_ws(s, q2 + 1) == s.len() as int);
    assert(p_doc(s) == Some((next_id, ms)));
}

/// The timestamps gathered so far name real instants.
pub open spec fn stake_acc_wf(acc: StakeAcc) -> bool {
    (acc.modified matches Some(t) ==> t.wf()) && (acc.created matches Some(t) ==> t.wf())
}

/// A parsed field only ever gathers well-formed timestamps.
proof fn lemma_p_stake_field_wf(s: Seq<char>, i: int, acc: StakeAcc)
    requires
        stake_acc_wf(acc),
    ensures
        p_stake_field(s, i, acc) matches Some(v) ==> stake_acc_wf(v.0),
{
    if p_stake_field(s, i, acc) is Some {
        let (key, j0) = p_str(s, i).unwrap();
        let j1 = skip_ws(s, j0);
        let j2 = skip_ws(s, j1 + 1);
        if key == k_date_modified() || key == k_date_created() {
            let (content, _) = p_str(s, j2).unwrap();
            crate::wire::lemma_p_ts_wf(content);
        }
    }
}

/// A parsed stake object only ever carries well-formed timestamps.
proof fn lemma_p_stake_fields_wf(s: Seq<char>, i: int, acc: StakeAcc, fuel: nat)
    requires
        stake_acc_wf(acc),
    ensures
        p_stake_fields(s, i, acc, fuel) matches Some(v) ==> v.0.wf(),
    decreases fuel,
{
    if fuel > 0 && p_stake_fields(s, i, acc, fuel) is Some {
        lemma_p_stake_field_wf(s, i, acc);
        let (acc2, j) = p_stake_field(s, i, acc).unwrap();
        let j1 = skip_ws(s, j);
        if j1 < s.len() && s[j1] == ',' {
            lemma_p_stake_fields_wf(s, skip_ws(s, j1 + 1), acc2, (fuel - 1) as nat);
        }
    }
}

/// A parsed stake is well formed.
proof fn lemma_p_stake_wf(s: Seq<char>, i: int)
    ensures
        p_stake(s, i) matches Some(v) ==> v.0.wf(),
{
    if p_stake(s, i) is Some {
        lemma_p_stake_fields_wf(s, skip_ws(s, i + 1), empty_stake_acc(), 9);
    }
}

/// A parsed run of stakes is well formed throughout.
proof fn lemma_p_items_wf(s: Seq<char>, i: int, acc: Seq<StakeModel>)
    requires
        stakes_wf(acc),
    ensures
        p_items(s, i, acc) matches Some(v) ==> stakes_wf(v.0),
    decreases s.len() - i,
{
    if p_items(s, i, acc) is Some {
        lemma_p_stake_wf(s, i);
        lemma_p_stake_progress(s, i);
        let (m, j) = p_stake(s, i).unwrap();
        assert(stakes_wf(acc.push(m))) by {
            assert forall|k: int| 0 <= k < acc.push(m).len() implies (#[trigger] acc.push(
                m,
            )[k]).wf() by {
                if k < acc.len() {
                    assert(acc.push(m)[k] == acc[k]);
                }
            }
        }
        let j1 = skip_ws(s, j);
        if j1 < s.len() && s[j1] == ',' {
            lemma_skip_ws_bounds(s, j);
            lemma_skip_ws_bounds(s, j1 + 1);
            lemma_p_items_wf(s, skip_ws(s, j1 + 1), acc.push(m));
        }
    }
}

/// Whatever a document parses to is well formed: every timestamp in it
/// names a real instant.
pub proof fn lemma_p_doc_wf(s: Seq<char>)
    ensures
        p_doc(s) matches Some(v) ==> stakes_wf(v.1),
{
    if p_doc(s) is Some {
        let i0 = skip_ws(s, 0);
        let j = skip_ws(s, i0 + 1);
        lemma_p_doc_fields_wf(s, j, DocAcc { next_id: None, stakes: None }, 3);
    }
}

/// The stakes a document-field run gathers are well formed.
proof fn lemma_p_doc_fields_wf(s: Seq<char>, i: int, acc: DocAcc, fuel: nat)
    requires
        acc.stakes matches Some(ms) ==> stakes_wf(ms),
    ensures
        p_doc_fields(s, i, acc, fuel) matches Some(v) ==> stakes_wf(v.0.1),
    decreases fuel,
{
    if fuel > 0 && p_doc_fields(s, i, acc, fuel) is Some {
        let (acc2, j) = p_doc_field(s, i, acc).unwrap();
        assert(acc2.stakes matches Some(ms) ==> stakes_wf(ms)) by {
            let (key, j0) = p_str(s, i).unwrap();
            let j1 = skip_ws(s, j0);
            let j2 = skip_ws(s, j1 + 1);
            if key == k_stakes() {
                lemma_p_arr_wf(s, j2);
            }
        }
        let j1 = skip_ws(s, j);
        if j1 < s.len() && s[j1] == ',' {
            lemma_p_doc_fields_wf(s, skip_ws(s, j1 + 1), acc2, (fuel - 1) as nat);
        }
    }
}

/// A parsed array of stakes is well formed.
proof fn lemma_p_arr_wf(s: Seq<char>, i: int)
    ensures
        p_arr(s, i) matches Some(v) ==> stakes_wf(v.0),
{
    if p_arr(s, i) is Some {
        let j = skip_ws(s, i + 1);
        if !(j < s.len() && s[j] == ']') {
            lemma_p_items_wf(s, j, Seq::empty());
        }
    }
}

/// Why a document was rejected: it is not shaped as the closed two-field
/// document (a bad token, a missing or duplicate field, an unrecognized
/// field, a bad value, or text after the document).
#[derive(Debug, Clone, Copy, PartialEq, Eq, Structural)]
pub enum DecodeError {
    InvalidDocument,
}


} // verus!
