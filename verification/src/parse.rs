//! Parsing of JSON text into documents.
//!
//! A recursive-descent parser over bytes. String contents are kept in their
//! escaped (lexeme) form after their escapes are checked; numeric literals
//! are kept as written. Within an object, a repeated key replaces the
//! earlier member in place (last one wins).
//!
//! The grammar is stated as a family of spec functions ([`spec_parse_json`]
//! and its helpers), and the executable parser is proved to return exactly
//! what they say, on every input.

use vstd::prelude::*;

use crate::json::{bytes_eq, json_view, lemma_pair_views_of, lemma_views_of, pair_views_of,
    views_of, Json, JsonModel};
use crate::merge::{lemma_upsert_absent, lemma_upsert_at_first, obj_upsert};

verus! {

/// Whether `c` is a JSON whitespace byte.
pub open spec fn is_ws_byte(c: u8) -> bool {
    c == ' ' as u8 || c == '\t' as u8 || c == '\n' as u8 || c == '\r' as u8
}

/// Whether `c` is a decimal digit.
pub open spec fn is_digit_byte(c: u8) -> bool {
    '0' as u8 <= c <= '9' as u8
}

/// Whether `c` is a hexadecimal digit.
pub open spec fn is_hex_byte(c: u8) -> bool {
    ('0' as u8 <= c <= '9' as u8) || ('a' as u8 <= c <= 'f' as u8) || ('A' as u8 <= c
        <= 'F' as u8)
}

/// The first index at or after `i` that holds no whitespace.
pub open spec fn ws_end(s: Seq<u8>, i: int) -> int
    decreases s.len() - i when 0 <= i <= s.len()
{
    if i < s.len() && is_ws_byte(s[i]) {
        ws_end(s, i + 1)
    } else {
        i
    }
}

/// The first index at or after `i` that holds no digit.
pub open spec fn digits_end(s: Seq<u8>, i: int) -> int
    decreases s.len() - i when 0 <= i <= s.len()
{
    if i < s.len() && is_digit_byte(s[i]) {
        digits_end(s, i + 1)
    } else {
        i
    }
}

/// The index just after the closing quote of a string body that starts at
/// `i` (right after the opening quote), or `None` when the body is
/// malformed: an unterminated string, an unknown or short escape, or an
/// unescaped control byte.
pub open spec fn str_end(s: Seq<u8>, i: int) -> Option<int>
    decreases s.len() - i when 0 <= i <= s.len()
{
    if i >= s.len() {
        None
    } else if s[i] == '"' as u8 {
        Some(i + 1)
    } else if s[i] == '\\' as u8 {
        if i + 1 >= s.len() {
            None
        } else {
            let e = s[i + 1];
            if e == '"' as u8 || e == '\\' as u8 || e == '/' as u8 || e == 'b' as u8 || e
                == 'f' as u8 || e == 'n' as u8 || e == 'r' as u8 || e == 't' as u8 {
                str_end(s, i + 2)
            } else if e == 'u' as u8 {
                if i + 6 > s.len() {
                    None
                } else if is_hex_byte(s[i + 2]) && is_hex_byte(s[i + 3]) && is_hex_byte(s[i + 4])
                    && is_hex_byte(s[i + 5]) {
                    str_end(s, i + 6)
                } else {
                    None
                }
            } else {
                None
            }
        }
    } else if s[i] < 32 {
        None
    } else {
        str_end(s, i + 1)
    }
}

/// The index just after the exponent part, if any, beginning at `i`.
pub open spec fn exp_end(s: Seq<u8>, i: int) -> Option<int> {
    if i < s.len() && (s[i] == 'e' as u8 || s[i] == 'E' as u8) {
        let j = if i + 1 < s.len() && (s[i + 1] == '+' as u8 || s[i + 1] == '-' as u8) {
            i + 2
        } else {
            i + 1
        };
        if j >= s.len() || !is_digit_byte(s[j]) {
            None
        } else {
            Some(digits_end(s, j))
        }
    } else {
        Some(i)
    }
}

/// The index just after the fraction and exponent parts, if any, beginning
/// at `i`.
pub open spec fn frac_exp_end(s: Seq<u8>, i: int) -> Option<int> {
    if i < s.len() && s[i] == '.' as u8 {
        if i + 1 >= s.len() || !is_digit_byte(s[i + 1]) {
            None
        } else {
            exp_end(s, digits_end(s, i + 1))
        }
    } else {
        exp_end(s, i)
    }
}

/// The index just after a numeric literal beginning at `i`, or `None` when
/// none stands there (including a leading zero followed by a digit).
pub open spec fn num_end(s: Seq<u8>, i: int) -> Option<int> {
    let j0 = if i < s.len() && s[i] == '-' as u8 {
        i + 1
    } else {
        i
    };
    if j0 >= s.len() || !is_digit_byte(s[j0]) {
        None
    } else if s[j0] == '0' as u8 && j0 + 1 < s.len() && is_digit_byte(s[j0 + 1]) {
        None
    } else {
        let j1 = if s[j0] == '0' as u8 {
            j0 + 1
        } else {
            digits_end(s, j0)
        };
        frac_exp_end(s, j1)
    }
}

/// `ws_end` stays within the input.
pub proof fn lemma_ws_end(s: Seq<u8>, i: int)
    requires
        0 <= i <= s.len(),
    ensures
        i <= ws_end(s, i) <= s.len(),
    decreases s.len() - i,
{
    if i < s.len() && is_ws_byte(s[i]) {
        lemma_ws_end(s, i + 1);
    }
}

/// `str_end` consumes at least one byte and stays within the input.
pub proof fn lemma_str_end(s: Seq<u8>, i: int)
    requires
        0 <= i <= s.len(),
    ensures
        match str_end(s, i) {
            Some(n) => i < n <= s.len(),
            None => true,
        },
    decreases s.len() - i,
{
    if i < s.len() && s[i] != '"' as u8 {
        if s[i] == '\\' as u8 {
            if i + 1 < s.len() {
                let e = s[i + 1];
                if e == '"' as u8 || e == '\\' as u8 || e == '/' as u8 || e == 'b' as u8 || e
                    == 'f' as u8 || e == 'n' as u8 || e == 'r' as u8 || e == 't' as u8 {
                    lemma_str_end(s, i + 2);
                } else if e == 'u' as u8 && i + 6 <= s.len() {
                    lemma_str_end(s, i + 6);
                }
            }
        } else if s[i] >= 32 {
            lemma_str_end(s, i + 1);
        }
    }
}

/// One parsed value and the index just after it, or `None` when no value
/// stands at `i`. The guards on returned indices never fire; they only
/// bound the recursion.
pub open spec fn spec_parse_value(s: Seq<u8>, i: int) -> Option<(JsonModel, int)>
    decreases s.len() - i, 0int when 0 <= i <= s.len()
    via spec_parse_value_dec
{
    if i >= s.len() {
        None
    } else if s[i] == 'n' as u8 {
        if s.len() - i > 3 && s[i + 1] == 'u' as u8 && s[i + 2] == 'l' as u8 && s[i + 3]
            == 'l' as u8 {
            Some((JsonModel::Null, i + 4))
        } else {
            None
        }
    } else if s[i] == 't' as u8 {
        if s.len() - i > 3 && s[i + 1] == 'r' as u8 && s[i + 2] == 'u' as u8 && s[i + 3]
            == 'e' as u8 {
            Some((JsonModel::Bool(true), i + 4))
        } else {
            None
        }
    } else if s[i] == 'f' as u8 {
        if s.len() - i > 4 && s[i + 1] == 'a' as u8 && s[i + 2] == 'l' as u8 && s[i + 3]
            == 's' as u8 && s[i + 4] == 'e' as u8 {
            Some((JsonModel::Bool(false), i + 5))
        } else {
            None
        }
    } else if s[i] == '"' as u8 {
        match str_end(s, i + 1) {
            Some(n) => Some((JsonModel::Str(s.subrange(i + 1, n - 1)), n)),
            None => None,
        }
    } else if s[i] == '-' as u8 || is_digit_byte(s[i]) {
        match num_end(s, i) {
            Some(n) => Some((JsonModel::Num(s.subrange(i, n)), n)),
            None => None,
        }
    } else if s[i] == '[' as u8 {
        let j = ws_end(s, i + 1);
        if j < s.len() && s[j] == ']' as u8 {
            Some((JsonModel::Arr(Seq::empty()), j + 1))
        } else {
            match spec_parse_items(s, j, Seq::empty()) {
                Some((items, n)) => Some((JsonModel::Arr(items), n)),
                None => None,
            }
        }
    } else if s[i] == '{' as u8 {
        let j = ws_end(s, i + 1);
        if j < s.len() && s[j] == '}' as u8 {
            Some((JsonModel::Obj(Seq::empty()), j + 1))
        } else {
            match spec_parse_members(s, j, Seq::empty()) {
                Some((members, n)) => Some((JsonModel::Obj(members), n)),
                None => None,
            }
        }
    } else {
        None
    }
}

/// The elements of an array from `i` on (after `[` or a comma), appended to
/// `acc`, and the index just after the closing bracket.
pub open spec fn spec_parse_items(s: Seq<u8>, i: int, acc: Seq<JsonModel>) -> Option<
    (Seq<JsonModel>, int),
>
    decreases s.len() - i, 1int when 0 <= i <= s.len()
    via spec_parse_items_dec
{
    match spec_parse_value(s, i) {
        None => None,
        Some((v, n)) => if n <= i || n > s.len() {
            None
        } else {
            let acc2 = acc.push(v);
            let m = ws_end(s, n);
            if m < s.len() && s[m] == ',' as u8 {
                spec_parse_items(s, ws_end(s, m + 1), acc2)
            } else if m < s.len() && s[m] == ']' as u8 {
                Some((acc2, m + 1))
            } else {
                None
            }
        },
    }
}

/// The members of an object from `i` on (after `{` or a comma), folded onto
/// `acc` with a repeated key replacing the earlier member in place, and the
/// index just after the closing brace.
pub open spec fn spec_parse_members(
    s: Seq<u8>,
    i: int,
    acc: Seq<(Seq<u8>, JsonModel)>,
) -> Option<(Seq<(Seq<u8>, JsonModel)>, int)>
    decreases s.len() - i, 1int when 0 <= i <= s.len()
    via spec_parse_members_dec
{
    if !(i < s.len() && s[i] == '"' as u8) {
        None
    } else {
        match str_end(s, i + 1) {
            None => None,
            Some(kend) => {
                let k = s.subrange(i + 1, kend - 1);
                let m = ws_end(s, kend);
                if !(m < s.len() && s[m] == ':' as u8) {
                    None
                } else {
                    match spec_parse_value(s, ws_end(s, m + 1)) {
                        None => None,
                        Some((v, n)) => if n <= i || n > s.len() {
                            None
                        } else {
                            let acc2 = obj_upsert(acc, k, v);
                            let m3 = ws_end(s, n);
                            if m3 < s.len() && s[m3] == ',' as u8 {
                                spec_parse_members(s, ws_end(s, m3 + 1), acc2)
                            } else if m3 < s.len() && s[m3] == '}' as u8 {
                                Some((acc2, m3 + 1))
                            } else {
                                None
                            }
                        },
                    }
                }
            },
        }
    }
}

#[via_fn]
proof fn spec_parse_value_dec(s: Seq<u8>, i: int) {
    if 0 <= i <= s.len() && i < s.len() {
        if s[i] == '[' as u8 || s[i] == '{' as u8 {
            lemma_ws_end(s, i + 1);
        }
    }
}

#[via_fn]
proof fn spec_parse_items_dec(s: Seq<u8>, i: int, acc: Seq<JsonModel>) {
    assert forall|x: int| 0 <= x <= s.len() implies x <= #[trigger] ws_end(s, x) <= s.len() by {
        lemma_ws_end(s, x);
    }
}

#[via_fn]
proof fn spec_parse_members_dec(s: Seq<u8>, i: int, acc: Seq<(Seq<u8>, JsonModel)>) {
    assert forall|x: int| 0 <= x <= s.len() implies x <= #[trigger] ws_end(s, x) <= s.len() by {
        lemma_ws_end(s, x);
    }
    assert forall|x: int|
        0 <= x <= s.len() && #[trigger] str_end(s, x) is Some implies x < str_end(s, x)->0
        <= s.len() by {
        lemma_str_end(s, x);
    }
}

/// The document that a complete JSON text spells: one value, possibly
/// surrounded by whitespace, spanning the whole input; `None` when the
/// input is not valid JSON text.
pub open spec fn spec_parse_json(s: Seq<u8>) -> Option<JsonModel> {
    match spec_parse_value(s, ws_end(s, 0)) {
        None => None,
        Some((v, n)) => if ws_end(s, n) == s.len() {
            Some(v)
        } else {
            None
        },
    }
}

/// Whether `c` is a JSON whitespace byte.
fn is_ws(c: u8) -> (r: bool)
    ensures
        r <==> is_ws_byte(c),
{
    c == ' ' as u8 || c == '\t' as u8 || c == '\n' as u8 || c == '\r' as u8
}

/// Whether `c` is a decimal digit.
fn is_digit(c: u8) -> (r: bool)
    ensures
        r <==> is_digit_byte(c),
{
    '0' as u8 <= c && c <= '9' as u8
}

/// Whether `c` is a hexadecimal digit.
fn is_hex(c: u8) -> (r: bool)
    ensures
        r <==> is_hex_byte(c),
{
    ('0' as u8 <= c && c <= '9' as u8) || ('a' as u8 <= c && c <= 'f' as u8) || ('A' as u8 <= c
        && c <= 'F' as u8)
}

/// The first index at or after `i` that holds no whitespace.
fn skip_ws(s: &Vec<u8>, i: usize) -> (r: usize)
    requires
        i <= s@.len(),
    ensures
        i <= r <= s@.len(),
        r as int == ws_end(s@, i as int),
{
    let mut j = i;
    while j < s.len() && is_ws(s[j])
        invariant
            i <= j <= s@.len(),
            ws_end(s@, i as int) == ws_end(s@, j as int),
        decreases s@.len() - j,
    {
        j += 1;
    }
    j
}

/// Parses a string body starting right after the opening quote; yields the
/// contents in escaped form and the index after the closing quote, exactly
/// when [`str_end`] accepts.
fn parse_string_body(s: &Vec<u8>, i: usize) -> (r: Option<(Vec<u8>, usize)>)
    requires
        i <= s@.len(),
    ensures
        match r {
            Some(p) => i < p.1 <= s@.len() && str_end(s@, i as int) == Some(p.1 as int) && p.0@
                == s@.subrange(i as int, p.1 - 1),
            None => str_end(s@, i as int) is None,
        },
{
    let mut out: Vec<u8> = Vec::new();
    let mut j = i;
    while j < s.len()
        invariant
            i <= j <= s@.len(),
            out@ == s@.subrange(i as int, j as int),
            str_end(s@, i as int) == str_end(s@, j as int),
        decreases s@.len() - j,
    {
        let c = s[j];
        if c == '"' as u8 {
            return Some((out, j + 1));
        } else if c == '\\' as u8 {
            if j + 1 >= s.len() {
                return None;
            }
            let e = s[j + 1];
            if e == '"' as u8 || e == '\\' as u8 || e == '/' as u8 || e == 'b' as u8 || e
                == 'f' as u8 || e == 'n' as u8 || e == 'r' as u8 || e == 't' as u8 {
                out.push(c);
                out.push(e);
                proof {
                    assert(out@ =~= s@.subrange(i as int, j + 2));
                }
                j += 2;
            } else if e == 'u' as u8 {
                if s.len() - j <= 5 {
                    return None;
                }
                if !(is_hex(s[j + 2]) && is_hex(s[j + 3]) && is_hex(s[j + 4]) && is_hex(
                    s[j + 5],
                )) {
                    return None;
                }
                out.push(c);
                out.push(e);
                out.push(s[j + 2]);
                out.push(s[j + 3]);
                out.push(s[j + 4]);
                out.push(s[j + 5]);
                proof {
                    assert(out@ =~= s@.subrange(i as int, j + 6));
                }
                j += 6;
            } else {
                return None;
            }
        } else if c < 32 {
            return None;
        } else {
            out.push(c);
            proof {
                assert(out@ =~= s@.subrange(i as int, j + 1));
            }
            j += 1;
        }
    }
    None
}

/// Parses a numeric literal beginning at `i`; yields its bytes as written
/// and the index after it, exactly when [`num_end`] accepts.
fn parse_number(s: &Vec<u8>, i: usize) -> (r: Option<(Vec<u8>, usize)>)
    requires
        i <= s@.len(),
    ensures
        match r {
            Some(p) => i < p.1 <= s@.len() && num_end(s@, i as int) == Some(p.1 as int) && p.0@
                == s@.subrange(i as int, p.1 as int),
            None => num_end(s@, i as int) is None,
        },
{
    let ghost sv = s@;
    let mut out: Vec<u8> = Vec::new();
    let mut j = i;
    if j < s.len() && s[j] == '-' as u8 {
        out.push(s[j]);
        proof {
            assert(out@ =~= sv.subrange(i as int, j + 1));
        }
        j += 1;
    }
    let ghost j0 = j as int;
    if j >= s.len() || !is_digit(s[j]) {
        return None;
    }
    let lead = s[j];
    out.push(lead);
    proof {
        assert(out@ =~= sv.subrange(i as int, j + 1));
    }
    j += 1;
    if lead != '0' as u8 {
        proof {
            assert(digits_end(sv, j0) == digits_end(sv, j0 + 1));
        }
        while j < s.len() && is_digit(s[j])
            invariant
                i < j <= s@.len(),
                out@ == s@.subrange(i as int, j as int),
                digits_end(s@, j0) == digits_end(s@, j as int),
            decreases s@.len() - j,
        {
            out.push(s[j]);
            proof {
                assert(out@ =~= s@.subrange(i as int, j + 1));
            }
            j += 1;
        }
        proof {
            assert(digits_end(sv, j0) == j as int);
        }
    } else if j < s.len() && is_digit(s[j]) {
        return None;
    }
    let ghost j1 = j as int;
    if j < s.len() && s[j] == '.' as u8 {
        out.push(s[j]);
        proof {
            assert(out@ =~= sv.subrange(i as int, j + 1));
        }
        j += 1;
        if j >= s.len() || !is_digit(s[j]) {
            return None;
        }
        while j < s.len() && is_digit(s[j])
            invariant
                i < j <= s@.len(),
                out@ == s@.subrange(i as int, j as int),
                digits_end(s@, j1 + 1) == digits_end(s@, j as int),
            decreases s@.len() - j,
        {
            out.push(s[j]);
            proof {
                assert(out@ =~= s@.subrange(i as int, j + 1));
            }
            j += 1;
        }
        proof {
            assert(digits_end(sv, j1 + 1) == j as int);
        }
    }
    let ghost j2 = j as int;
    if j < s.len() && (s[j] == 'e' as u8 || s[j] == 'E' as u8) {
        out.push(s[j]);
        proof {
            assert(out@ =~= sv.subrange(i as int, j + 1));
        }
        j += 1;
        if j < s.len() && (s[j] == '+' as u8 || s[j] == '-' as u8) {
            out.push(s[j]);
            proof {
                assert(out@ =~= sv.subrange(i as int, j + 1));
            }
            j += 1;
        }
        let ghost j3 = j as int;
        if j >= s.len() || !is_digit(s[j]) {
            return None;
        }
        while j < s.len() && is_digit(s[j])
            invariant
                i < j <= s@.len(),
                out@ == s@.subrange(i as int, j as int),
                digits_end(s@, j3) == digits_end(s@, j as int),
            decreases s@.len() - j,
        {
            out.push(s[j]);
            proof {
                assert(out@ =~= s@.subrange(i as int, j + 1));
            }
            j += 1;
        }
        proof {
            assert(digits_end(sv, j3) == j as int);
            assert(exp_end(sv, j2) == Some(j as int));
        }
    } else {
        proof {
            assert(exp_end(sv, j2) == Some(j as int));
        }
    }
    proof {
        assert(frac_exp_end(sv, j1) == Some(j as int));
        assert(num_end(sv, i as int) == Some(j as int));
    }
    Some((out, j))
}

/// Replaces the member named `key` in place, or appends a new member.
#[verifier::loop_isolation(false)]
fn insert_member(pairs: &mut Vec<(Vec<u8>, Json)>, key: Vec<u8>, val: Json)
    ensures
        pair_views_of(final(pairs)@) == obj_upsert(
            pair_views_of(old(pairs)@),
            key@,
            json_view(val),
        ),
{
    let ghost pre = pair_views_of(pairs@);
    proof {
        lemma_pair_views_of(pairs@);
    }
    let mut i: usize = 0;
    while i < pairs.len()
        invariant
            i <= pairs@.len(),
            pairs == old(pairs),
            forall|t: int| 0 <= t < i ==> (#[trigger] pairs@[t]).0@ != key@,
        decreases pairs@.len() - i,
    {
        if bytes_eq(&pairs[i].0, &key) {
            proof {
                lemma_upsert_at_first(pre, key@, json_view(val), i as int);
            }
            let _ = pairs.remove(i);
            pairs.insert(i, (key, val));
            proof {
                lemma_pair_views_of(pairs@);
                assert(pair_views_of(pairs@) =~= pre.update(i as int, (key@, json_view(val))));
            }
            return ;
        }
        i += 1;
    }
    proof {
        lemma_upsert_absent(pre, key@, json_view(val));
    }
    pairs.push((key, val));
    proof {
        lemma_pair_views_of(pairs@);
        assert(pair_views_of(pairs@) =~= pre.push((key@, json_view(val))));
    }
}

/// Parses one JSON value beginning at `i`; yields the value and the index
/// just after it, exactly when [`spec_parse_value`] accepts.
#[verifier::loop_isolation(false)]
#[verifier::rlimit(100)]
fn parse_value(s: &Vec<u8>, i: usize) -> (r: Option<(Json, usize)>)
    requires
        i <= s@.len(),
    ensures
        match r {
            Some(p) => i < p.1 <= s@.len() && spec_parse_value(s@, i as int) == Some(
                (p.0@, p.1 as int),
            ),
            None => spec_parse_value(s@, i as int) is None,
        },
    decreases s@.len() - i,
{
    if i >= s.len() {
        return None;
    }
    let c = s[i];
    if c == 'n' as u8 {
        if s.len() - i > 3 && s[i + 1] == 'u' as u8 && s[i + 2] == 'l' as u8 && s[i + 3]
            == 'l' as u8 {
            Some((Json::Null, i + 4))
        } else {
            None
        }
    } else if c == 't' as u8 {
        if s.len() - i > 3 && s[i + 1] == 'r' as u8 && s[i + 2] == 'u' as u8 && s[i + 3]
            == 'e' as u8 {
            Some((Json::Bool(true), i + 4))
        } else {
            None
        }
    } else if c == 'f' as u8 {
        if s.len() - i > 4 && s[i + 1] == 'a' as u8 && s[i + 2] == 'l' as u8 && s[i + 3]
            == 's' as u8 && s[i + 4] == 'e' as u8 {
            Some((Json::Bool(false), i + 5))
        } else {
            None
        }
    } else if c == '"' as u8 {
        match parse_string_body(s, i + 1) {
            Some((b, n)) => Some((Json::Str(b), n)),
            None => None,
        }
    } else if c == '-' as u8 || is_digit(c) {
        match parse_number(s, i) {
            Some((b, n)) => Some((Json::Num(b), n)),
            None => None,
        }
    } else if c == '[' as u8 {
        let mut j = skip_ws(s, i + 1);
        if j < s.len() && s[j] == ']' as u8 {
            proof {
                assert(views_of(Seq::<Json>::empty()) =~= Seq::<JsonModel>::empty());
            }
            return Some((Json::Arr(Vec::new()), j + 1));
        }
        let ghost target = spec_parse_items(s@, j as int, Seq::empty());
        let mut items: Vec<Json> = Vec::new();
        proof {
            lemma_views_of(items@);
            assert(views_of(items@) =~= Seq::<JsonModel>::empty());
        }
        loop
            invariant
                i < j <= s@.len(),
                spec_parse_items(s@, j as int, views_of(items@)) == target,
            decreases s@.len() - j,
        {
            let ghost acc = views_of(items@);
            match parse_value(s, j) {
                None => {
                    return None;
                },
                Some((v, n)) => {
                    proof {
                        lemma_views_of(items@);
                        lemma_views_of(items@.push(v));
                        assert(views_of(items@.push(v)) =~= acc.push(v@));
                    }
                    items.push(v);
                    j = skip_ws(s, n);
                },
            }
            if j < s.len() && s[j] == ',' as u8 {
                j = skip_ws(s, j + 1);
            } else if j < s.len() && s[j] == ']' as u8 {
                return Some((Json::Arr(items), j + 1));
            } else {
                return None;
            }
        }
    } else if c == '{' as u8 {
        let mut j = skip_ws(s, i + 1);
        if j < s.len() && s[j] == '}' as u8 {
            proof {
                assert(pair_views_of(Seq::<(Vec<u8>, Json)>::empty()) =~= Seq::<
                    (Seq<u8>, JsonModel),
                >::empty());
            }
            return Some((Json::Obj(Vec::new()), j + 1));
        }
        let ghost target = spec_parse_members(s@, j as int, Seq::empty());
        let mut pairs: Vec<(Vec<u8>, Json)> = Vec::new();
        proof {
            lemma_pair_views_of(pairs@);
            assert(pair_views_of(pairs@) =~= Seq::<(Seq<u8>, JsonModel)>::empty());
        }
        loop
            invariant
                i < j <= s@.len(),
                spec_parse_members(s@, j as int, pair_views_of(pairs@)) == target,
            decreases s@.len() - j,
        {
            let ghost acc = pair_views_of(pairs@);
            let ghost jpre = j as int;
            if !(j < s.len() && s[j] == '"' as u8) {
                return None;
            }
            let key = match parse_string_body(s, j + 1) {
                None => {
                    return None;
                },
                Some((b, n)) => {
                    j = skip_ws(s, n);
                    b
                },
            };
            if !(j < s.len() && s[j] == ':' as u8) {
                return None;
            }
            j = skip_ws(s, j + 1);
            match parse_value(s, j) {
                None => {
                    return None;
                },
                Some((v, n)) => {
                    proof {
                        assert(n as int > jpre);
                    }
                    insert_member(&mut pairs, key, v);
                    j = skip_ws(s, n);
                },
            }
            if j < s.len() && s[j] == ',' as u8 {
                j = skip_ws(s, j + 1);
            } else if j < s.len() && s[j] == '}' as u8 {
                return Some((Json::Obj(pairs), j + 1));
            } else {
                return None;
            }
        }
    } else {
        None
    }
}

/// Parses a complete JSON text: one value, possibly surrounded by
/// whitespace, spanning the whole input. Returns exactly what
/// [`spec_parse_json`] says of the input: the document when the input is
/// valid JSON text, and `None` otherwise.
pub fn parse_json(s: &Vec<u8>) -> (r: Option<Json>)
    ensures
        match r {
            Some(v) => spec_parse_json(s@) == Some(v@),
            None => spec_parse_json(s@) is None,
        },
{
    let i = skip_ws(s, 0);
    match parse_value(s, i) {
        None => None,
        Some((v, n)) => {
            let m = skip_ws(s, n);
            if m == s.len() {
                Some(v)
            } else {
                None
            }
        },
    }
}

} // verus!
