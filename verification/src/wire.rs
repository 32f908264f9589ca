//! The wire format of the remote protocol: JSON bodies and query
//! strings, written and read by verified encoders and parsers. The
//! parsers are proved to invert the encoders, which is what makes the
//! two backends provably indistinguishable.

use vstd::prelude::*;
use vstd::string::StrSliceExecFns;

use crate::commands::{Add, AddView, Search, SearchView};
use crate::db::{match_at, pairs_view, Bookmark, BookmarkView};
use crate::decimal::{dec_of, dec_value, digit_value, format_decimal, is_digit,
    lemma_dec_of_value};
use crate::util::str_eq;

verus! {

/// The lowercase hex digit for a value below sixteen.
pub open spec fn hex_digit(d: nat) -> char {
    if d < 10 {
        ((48 + d) as u8) as char
    } else {
        ((87 + d) as u8) as char
    }
}

/// Is `c` a lowercase hex digit?
pub open spec fn is_hex(c: char) -> bool {
    ('0' <= c && c <= '9') || ('a' <= c && c <= 'f')
}

/// The value of a lowercase hex digit.
pub open spec fn hex_val(c: char) -> nat {
    if '0' <= c && c <= '9' {
        (c as u32 - 48) as nat
    } else {
        (c as u32 - 87) as nat
    }
}

proof fn lemma_char_code_round(c: char)
    requires
        (c as u32) < 128,
    ensures
        ((c as u32) as u8) as char == c,
{
}

proof fn lemma_hex_digit(d: nat)
    requires
        d < 16,
    ensures
        is_hex(hex_digit(d)),
        hex_val(hex_digit(d)) == d,
{
}

/// How one character is written inside a JSON string literal: quote
/// and backslash get a backslash escape, control characters a \\u00xx
/// escape, everything else stands for itself.
pub open spec fn esc_char(c: char) -> Seq<char> {
    if c == '"' {
        seq!['\\', '"']
    } else if c == '\\' {
        seq!['\\', '\\']
    } else if (c as u32) < 32 {
        seq!['\\', 'u', '0', '0', hex_digit((c as u32 / 16) as nat), hex_digit(
            (c as u32 % 16) as nat,
        )]
    } else {
        seq![c]
    }
}

/// The body of a JSON string literal for `s`.
pub open spec fn esc(s: Seq<char>) -> Seq<char>
    decreases s.len(),
{
    if s.len() == 0 {
        Seq::empty()
    } else {
        esc_char(s.first()) + esc(s.drop_first())
    }
}

/// A whole JSON string literal.
pub open spec fn json_string(s: Seq<char>) -> Seq<char> {
    seq!['"'] + esc(s) + seq!['"']
}

/// Reads a JSON string literal body starting at `pos` (just after the
/// opening quote): the decoded value and the position just after the
/// closing quote.
pub open spec fn sp_jstr(s: Seq<char>, pos: int) -> Option<(Seq<char>, int)>
    decreases s.len() - pos,
{
    if pos < 0 || pos >= s.len() {
        None
    } else if s[pos] == '"' {
        Some((Seq::empty(), pos + 1))
    } else if s[pos] == '\\' {
        if pos + 1 < s.len() && (s[pos + 1] == '"' || s[pos + 1] == '\\') {
            match sp_jstr(s, pos + 2) {
                Some((v, p)) => Some((seq![s[pos + 1]] + v, p)),
                None => None,
            }
        } else if pos + 5 < s.len() && s[pos + 1] == 'u' && s[pos + 2] == '0' && s[pos + 3] == '0'
            && is_hex(s[pos + 4]) && is_hex(s[pos + 5]) && hex_val(s[pos + 4]) * 16 + hex_val(
            s[pos + 5],
        ) < 128 {
            let code = hex_val(s[pos + 4]) * 16 + hex_val(s[pos + 5]);
            match sp_jstr(s, pos + 6) {
                Some((v, p)) => Some((seq![(code as u8) as char] + v, p)),
                None => None,
            }
        } else {
            None
        }
    } else {
        match sp_jstr(s, pos + 1) {
            Some((v, p)) => Some((seq![s[pos]] + v, p)),
            None => None,
        }
    }
}

/// Reading a written string literal body gives the string back and
/// stops right after its closing quote.
pub proof fn lemma_jstr_round(s: Seq<char>, pos: int, v: Seq<char>)
    requires
        0 <= pos,
        pos + esc(v).len() + 1 <= s.len(),
        s.subrange(pos, pos + esc(v).len() as int) == esc(v),
        s[pos + esc(v).len() as int] == '"',
    ensures
        sp_jstr(s, pos) == Some((v, pos + esc(v).len() + 1)),
    decreases v.len(),
{
    if v.len() == 0 {
        assert(s[pos] == '"');
    } else {
        let c = v.first();
        let e = esc_char(c);
        let rest = esc(v.drop_first());
        assert(esc(v) == e + rest);
        assert forall|k: int| 0 <= k < e.len() implies s[pos + k] == e[k] by {
            assert(s.subrange(pos, pos + esc(v).len() as int)[k] == esc(v)[k]);
            assert(esc(v)[k] == e[k]);
        }
        assert(s[pos + 0] == e[0]);
        if e.len() >= 2 {
            assert(s[pos + 1] == e[1]);
        }
        if e.len() == 6 {
            assert(s[pos + 2] == e[2]);
            assert(s[pos + 3] == e[3]);
            assert(s[pos + 4] == e[4]);
            assert(s[pos + 5] == e[5]);
        }
        assert(s.subrange(pos + e.len(), pos + e.len() + rest.len()) =~= rest) by {
            assert forall|k: int| 0 <= k < rest.len() implies s.subrange(
                pos + e.len(),
                pos + e.len() + rest.len(),
            )[k] == rest[k] by {
                assert(s.subrange(pos, pos + esc(v).len() as int)[e.len() + k] == esc(v)[e.len()
                    + k]);
                assert(esc(v)[e.len() + k] == rest[k]);
            }
        }
        lemma_jstr_round(s, pos + e.len(), v.drop_first());
        if c == '"' {
            assert(s[pos] == '\\' && s[pos + 1] == '"');
            assert(seq![s[pos + 1]] + v.drop_first() =~= v);
        } else if c == '\\' {
            assert(s[pos] == '\\' && s[pos + 1] == '\\');
            assert(seq![s[pos + 1]] + v.drop_first() =~= v);
        } else if (c as u32) < 32 {
            assert(s[pos] == '\\' && s[pos + 1] == 'u' && s[pos + 2] == '0' && s[pos + 3] == '0');
            assert(s[pos + 4] == hex_digit((c as u32 / 16) as nat));
            assert(s[pos + 5] == hex_digit((c as u32 % 16) as nat));
            lemma_hex_digit((c as u32 / 16) as nat);
            lemma_hex_digit((c as u32 % 16) as nat);
            assert(hex_val(s[pos + 4]) * 16 + hex_val(s[pos + 5]) == c as u32) by {
                assert((c as u32 / 16) * 16 + (c as u32 % 16) == c as u32) by (nonlinear_arith);
            }
            lemma_char_code_round(c);
            assert(((c as u32) as u8) as char == c);
            assert(seq![((c as u32) as u8) as char] + v.drop_first() =~= v);
        } else {
            assert(s[pos] == c);
            assert(s[pos] != '"' && s[pos] != '\\');
            assert(seq![s[pos]] + v.drop_first() =~= v);
        }
    }
}

/// The position of the first character at or after `pos` that stops a
/// digit run.
pub open spec fn digits_end(s: Seq<char>, pos: int) -> int
    decreases s.len() - pos,
{
    if 0 <= pos < s.len() && is_digit(s[pos]) {
        digits_end(s, pos + 1)
    } else {
        pos
    }
}

/// Reads a decimal number starting at `pos`: its value and the
/// position just after its digits. Numbers too large for the machine
/// are rejected.
pub open spec fn sp_num(s: Seq<char>, pos: int) -> Option<(nat, int)> {
    if 0 <= pos < s.len() && is_digit(s[pos]) && dec_value(
        s.subrange(pos, digits_end(s, pos)),
    ) <= usize::MAX {
        Some((dec_value(s.subrange(pos, digits_end(s, pos))), digits_end(s, pos)))
    } else {
        None
    }
}

pub proof fn lemma_digits_end_run(s: Seq<char>, pos: int, end: int)
    requires
        0 <= pos <= end <= s.len(),
        forall|k: int| pos <= k < end ==> is_digit(#[trigger] s[k]),
        end == s.len() || !is_digit(s[end]),
    ensures
        digits_end(s, pos) == end,
    decreases end - pos,
{
    if pos < end {
        lemma_digits_end_run(s, pos + 1, end);
    }
}

/// Reading a written number gives the value back, provided the next
/// character is not a digit.
pub proof fn lemma_num_round(s: Seq<char>, pos: int, n: nat)
    requires
        0 <= pos,
        n <= usize::MAX,
        pos + dec_of(n).len() <= s.len(),
        s.subrange(pos, pos + dec_of(n).len() as int) == dec_of(n),
        pos + dec_of(n).len() == s.len() || !is_digit(s[pos + dec_of(n).len() as int]),
    ensures
        sp_num(s, pos) == Some((n, pos + dec_of(n).len())),
{
    lemma_dec_of_value(n);
    let d = dec_of(n);
    let end = pos + d.len();
    assert forall|k: int| pos <= k < end implies is_digit(#[trigger] s[k]) by {
        assert(s.subrange(pos, end as int)[k - pos] == d[k - pos]);
    }
    lemma_digits_end_run(s, pos, end as int);
    assert(s[pos] == d[0]);
}

/// Does `tok` stand at `pos` of `s`?
pub open spec fn starts_with(s: Seq<char>, pos: int, tok: Seq<char>) -> bool {
    0 <= pos && pos + tok.len() <= s.len() && s.subrange(pos, pos + tok.len() as int) == tok
}


/// Splitting a known suffix: if the remainder of `s` at `pos` reads as
/// `t` followed by `r`, then `t` stands at `pos` and `r` is the
/// remainder after it.
proof fn lemma_suffix_split(s: Seq<char>, pos: int, t: Seq<char>, r: Seq<char>)
    requires
        0 <= pos <= s.len(),
        s.subrange(pos, s.len() as int) == t + r,
    ensures
        starts_with(s, pos, t),
        s.subrange(pos + t.len(), s.len() as int) == r,
        t.len() > 0 ==> s[pos] == t[0],
{
    let suf = s.subrange(pos, s.len() as int);
    assert(suf.len() == t.len() + r.len());
    assert(s.subrange(pos, pos + t.len() as int) =~= t) by {
        assert forall|k: int| 0 <= k < t.len() implies s.subrange(pos, pos + t.len() as int)[k]
            == t[k] by {
            assert(suf[k] == (t + r)[k]);
        }
    }
    assert(s.subrange(pos + t.len(), s.len() as int) =~= r) by {
        assert forall|k: int| 0 <= k < r.len() implies s.subrange(
            pos + t.len(),
            s.len() as int,
        )[k] == r[k] by {
            assert(suf[t.len() + k] == (t + r)[t.len() + k]);
        }
    }
    if t.len() > 0 {
        assert(suf[0] == (t + r)[0]);
    }
}

/// Reads a whole JSON string literal (both quotes) starting at `pos`.
pub open spec fn sp_string(s: Seq<char>, pos: int) -> Option<(Seq<char>, int)> {
    if 0 <= pos < s.len() && s[pos] == '"' {
        sp_jstr(s, pos + 1)
    } else {
        None
    }
}

/// Reading a written string literal gives the string back.
pub proof fn lemma_string_round(s: Seq<char>, pos: int, v: Seq<char>, r: Seq<char>)
    requires
        0 <= pos <= s.len(),
        s.subrange(pos, s.len() as int) == json_string(v) + r,
    ensures
        sp_string(s, pos) == Some((v, pos + json_string(v).len())),
        s.subrange(pos + json_string(v).len(), s.len() as int) == r,
{
    assert(json_string(v) + r =~= seq!['"'] + (esc(v) + seq!['"'] + r));
    lemma_suffix_split(s, pos, seq!['"'], esc(v) + seq!['"'] + r);
    assert(esc(v) + seq!['"'] + r =~= esc(v) + (seq!['"'] + r));
    lemma_suffix_split(s, pos + 1, esc(v), seq!['"'] + r);
    lemma_suffix_split(s, pos + 1 + esc(v).len(), seq!['"'], r);
    lemma_jstr_round(s, pos + 1, v);
}

/// "null" for a missing string, a JSON string literal otherwise.
pub open spec fn json_opt_string(v: Option<Seq<char>>) -> Seq<char> {
    match v {
        Some(x) => json_string(x),
        None => "null"@,
    }
}

/// Reads a JSON string literal or the token "null".
pub open spec fn sp_opt_string(s: Seq<char>, pos: int) -> Option<(Option<Seq<char>>, int)> {
    if starts_with(s, pos, "null"@) {
        Some((None, pos + 4))
    } else {
        match sp_string(s, pos) {
            Some((v, p)) => Some((Some(v), p)),
            None => None,
        }
    }
}

/// Reading a written optional string gives it back.
pub proof fn lemma_opt_string_round(s: Seq<char>, pos: int, v: Option<Seq<char>>, r: Seq<char>)
    requires
        0 <= pos <= s.len(),
        s.subrange(pos, s.len() as int) == json_opt_string(v) + r,
    ensures
        sp_opt_string(s, pos) == Some((v, pos + json_opt_string(v).len())),
        s.subrange(pos + json_opt_string(v).len(), s.len() as int) == r,
{
    reveal_strlit("null");
    match v {
        None => {
            lemma_suffix_split(s, pos, "null"@, r);
        },
        Some(x) => {
            lemma_string_round(s, pos, x, r);
            assert(!starts_with(s, pos, "null"@)) by {
                if starts_with(s, pos, "null"@) {
                    assert(s.subrange(pos, pos + 4)[0] == 'n');
                    lemma_suffix_split(s, pos, seq!['"'], esc(x) + seq!['"'] + r);
                }
            }
        },
    }
}

/// The query-string form of a boolean.
pub open spec fn bool_str(b: bool) -> Seq<char> {
    if b {
        "true"@
    } else {
        "false"@
    }
}

/// Reads a boolean token.
pub open spec fn sp_bool(s: Seq<char>, pos: int) -> Option<(bool, int)> {
    if starts_with(s, pos, "true"@) {
        Some((true, pos + 4))
    } else if starts_with(s, pos, "false"@) {
        Some((false, pos + 5))
    } else {
        None
    }
}

/// Reading a written boolean gives it back.
pub proof fn lemma_bool_round(s: Seq<char>, pos: int, b: bool, r: Seq<char>)
    requires
        0 <= pos <= s.len(),
        s.subrange(pos, s.len() as int) == bool_str(b) + r,
    ensures
        sp_bool(s, pos) == Some((b, pos + bool_str(b).len())),
        s.subrange(pos + bool_str(b).len(), s.len() as int) == r,
{
    reveal_strlit("true");
    reveal_strlit("false");
    lemma_suffix_split(s, pos, bool_str(b), r);
    if b {
        assert(sp_bool(s, pos) == Some((true, pos + 4)));
    } else {
        assert(!starts_with(s, pos, "true"@)) by {
            if starts_with(s, pos, "true"@) {
                assert(s.subrange(pos, pos + 4)[0] == 't');
                assert(s[pos] == 'f');
            }
        }
    }
}

/// Is `c` kept as itself in a query string? Letters, digits and a few
/// marks; everything else below 128 is percent-encoded.
pub open spec fn unreserved(c: char) -> bool {
    ('a' <= c && c <= 'z') || ('A' <= c && c <= 'Z') || ('0' <= c && c <= '9') || c == '-' || c
        == '.' || c == '_' || c == '~'
}

/// How one character is written in a query-string value. Characters
/// outside ASCII pass through as themselves: the transport carries
/// text, not bytes.
pub open spec fn pct_char(c: char) -> Seq<char> {
    if unreserved(c) || (c as u32) >= 128 {
        seq![c]
    } else {
        seq!['%', hex_digit((c as u32 / 16) as nat), hex_digit((c as u32 % 16) as nat)]
    }
}

/// A whole query-string value.
pub open spec fn pct(s: Seq<char>) -> Seq<char>
    decreases s.len(),
{
    if s.len() == 0 {
        Seq::empty()
    } else {
        pct_char(s.first()) + pct(s.drop_first())
    }
}

/// Reads a query-string value: everything up to the next '&' or the
/// end, percent-escapes decoded.
pub open spec fn sp_pct_upto(s: Seq<char>, pos: int) -> Option<(Seq<char>, int)>
    decreases s.len() - pos,
{
    if pos < 0 || pos >= s.len() || s[pos] == '&' {
        if 0 <= pos <= s.len() {
            Some((Seq::empty(), pos))
        } else {
            None
        }
    } else if s[pos] == '%' {
        if pos + 2 < s.len() && is_hex(s[pos + 1]) && is_hex(s[pos + 2]) && hex_val(s[pos + 1])
            * 16 + hex_val(s[pos + 2]) < 128 {
            let code = hex_val(s[pos + 1]) * 16 + hex_val(s[pos + 2]);
            match sp_pct_upto(s, pos + 3) {
                Some((v, p)) => Some((seq![(code as u8) as char] + v, p)),
                None => None,
            }
        } else {
            None
        }
    } else {
        match sp_pct_upto(s, pos + 1) {
            Some((v, p)) => Some((seq![s[pos]] + v, p)),
            None => None,
        }
    }
}

/// Reading a written query-string value gives it back and stops at the
/// separator.
pub proof fn lemma_pct_round(s: Seq<char>, pos: int, v: Seq<char>, r: Seq<char>)
    requires
        0 <= pos <= s.len(),
        s.subrange(pos, s.len() as int) == pct(v) + r,
        r.len() == 0 || r[0] == '&',
    ensures
        sp_pct_upto(s, pos) == Some((v, pos + pct(v).len())),
        s.subrange(pos + pct(v).len(), s.len() as int) == r,
    decreases v.len(),
{
    lemma_suffix_split(s, pos, pct(v), r);
    if v.len() == 0 {
        if r.len() == 0 {
            assert(pos == s.len());
        } else {
            assert(s[pos] == '&');
        }
    } else {
        let c = v.first();
        let e = pct_char(c);
        assert(pct(v) =~= e + pct(v.drop_first()));
        assert(pct(v) + r =~= e + (pct(v.drop_first()) + r));
        lemma_suffix_split(s, pos, e, pct(v.drop_first()) + r);
        assert(s[pos + 0] == e[0]);
        if e.len() == 3 {
            assert(s.subrange(pos, pos + 3 as int) =~= e) by {
                assert(starts_with(s, pos, e));
            }
            assert(s[pos + 1] == e[1]);
            assert(s[pos + 2] == e[2]);
        }
        lemma_pct_round(s, pos + e.len(), v.drop_first(), r);
        if unreserved(c) || (c as u32) >= 128 {
            assert(s[pos] == c);
            assert(s[pos] != '&' && s[pos] != '%');
            assert(seq![s[pos]] + v.drop_first() =~= v);
        } else {
            assert(s[pos] == '%');
            assert(s[pos + 1] == hex_digit((c as u32 / 16) as nat));
            assert(s[pos + 2] == hex_digit((c as u32 % 16) as nat));
            lemma_hex_digit((c as u32 / 16) as nat);
            lemma_hex_digit((c as u32 % 16) as nat);
            assert(hex_val(s[pos + 1]) * 16 + hex_val(s[pos + 2]) == c as u32) by {
                assert((c as u32 / 16) * 16 + (c as u32 % 16) == c as u32) by (nonlinear_arith);
            }
            lemma_char_code_round(c);
            assert(seq![((c as u32) as u8) as char] + v.drop_first() =~= v);
        }
    }
}


/// Reading a written number, suffix form.
pub proof fn lemma_num_suffix(s: Seq<char>, pos: int, n: nat, r: Seq<char>)
    requires
        0 <= pos <= s.len(),
        n <= usize::MAX,
        s.subrange(pos, s.len() as int) == dec_of(n) + r,
        r.len() == 0 || !is_digit(r[0]),
    ensures
        sp_num(s, pos) == Some((n, pos + dec_of(n).len())),
        s.subrange(pos + dec_of(n).len(), s.len() as int) == r,
{
    lemma_suffix_split(s, pos, dec_of(n), r);
    if r.len() > 0 {
        assert(s[pos + dec_of(n).len() as int] == r[0]) by {
            assert(s.subrange(pos + dec_of(n).len(), s.len() as int)[0] == r[0]);
        }
    }
    lemma_num_round(s, pos, n);
}

/// The items of a JSON array of strings, comma separated.
pub open spec fn json_str_items(ts: Seq<Seq<char>>) -> Seq<char>
    decreases ts.len(),
{
    if ts.len() == 0 {
        Seq::empty()
    } else if ts.len() == 1 {
        json_string(ts.first())
    } else {
        json_string(ts.first()) + seq![','] + json_str_items(ts.drop_first())
    }
}

/// A JSON array of strings.
pub open spec fn json_str_array(ts: Seq<Seq<char>>) -> Seq<char> {
    seq!['['] + json_str_items(ts) + seq![']']
}

/// Reads one or more comma-separated JSON string literals.
pub open spec fn sp_str_items(s: Seq<char>, pos: int) -> Option<(Seq<Seq<char>>, int)>
    decreases s.len() - pos,
{
    if pos < 0 || pos > s.len() {
        None
    } else {
        match sp_string(s, pos) {
            Some((v, p)) => if p <= pos || p > s.len() {
                None
            } else if starts_with(s, p, seq![',']) {
                match sp_str_items(s, p + 1) {
                    Some((vs, p2)) => Some((seq![v] + vs, p2)),
                    None => None,
                }
            } else {
                Some((seq![v], p))
            },
            None => None,
        }
    }
}

/// Reads a JSON array of strings.
pub open spec fn sp_str_array(s: Seq<char>, pos: int) -> Option<(Seq<Seq<char>>, int)> {
    if starts_with(s, pos, "[]"@) {
        Some((Seq::empty(), pos + 2))
    } else if starts_with(s, pos, "["@) {
        match sp_str_items(s, pos + 1) {
            Some((vs, p)) => if starts_with(s, p, "]"@) {
                Some((vs, p + 1))
            } else {
                None
            },
            None => None,
        }
    } else {
        None
    }
}

proof fn lemma_str_items_round(s: Seq<char>, pos: int, ts: Seq<Seq<char>>, r: Seq<char>)
    requires
        0 <= pos <= s.len(),
        ts.len() >= 1,
        s.subrange(pos, s.len() as int) == json_str_items(ts) + seq![']'] + r,
    ensures
        sp_str_items(s, pos) == Some((ts, pos + json_str_items(ts).len())),
        s.subrange(pos + json_str_items(ts).len(), s.len() as int) == seq![']'] + r,
    decreases ts.len(),
{
    reveal_strlit(",");
    if ts.len() == 1 {
        assert(json_str_items(ts) + seq![']'] + r =~= json_string(ts.first()) + (seq![']'] + r));
        lemma_string_round(s, pos, ts.first(), seq![']'] + r);
        let p = pos + json_string(ts.first()).len();
        assert(!starts_with(s, p, seq![','])) by {
            if starts_with(s, p, seq![',']) {
                assert(s.subrange(p, p + 1)[0] == ',');
                assert(s.subrange(p, s.len() as int)[0] == ']');
            }
        }
        assert(seq![ts.first()] =~= ts);
    } else {
        assert(json_str_items(ts) + seq![']'] + r =~= json_string(ts.first()) + (seq![','] + (
        json_str_items(ts.drop_first()) + seq![']'] + r)));
        lemma_string_round(s, pos, ts.first(), seq![','] + (json_str_items(ts.drop_first())
            + seq![']'] + r));
        let p = pos + json_string(ts.first()).len();
        lemma_suffix_split(s, p, seq![','], json_str_items(ts.drop_first()) + seq![']'] + r);
        assert(starts_with(s, p, seq![','])) by {
            assert(","@ =~= seq![',']);
        }
        lemma_str_items_round(s, p + 1, ts.drop_first(), r);
        assert(seq![ts.first()] + ts.drop_first() =~= ts);
    }
}

/// Reading a written string array gives it back.
pub proof fn lemma_str_array_round(
    s: Seq<char>,
    pos: int,
    ts: Seq<Seq<char>>,
    r: Seq<char>,
)
    requires
        0 <= pos <= s.len(),
        s.subrange(pos, s.len() as int) == json_str_array(ts) + r,
    ensures
        sp_str_array(s, pos) == Some((ts, pos + json_str_array(ts).len())),
        s.subrange(pos + json_str_array(ts).len(), s.len() as int) == r,
{
    reveal_strlit("[");
    reveal_strlit("]");
    reveal_strlit("[]");
    if ts.len() == 0 {
        assert(json_str_array(ts) =~= "[]"@);
        lemma_suffix_split(s, pos, "[]"@, r);
        assert(ts =~= Seq::<Seq<char>>::empty());
    } else {
        assert(json_str_array(ts) + r =~= seq!['['] + (json_str_items(ts) + seq![']'] + r));
        lemma_suffix_split(s, pos, seq!['['], json_str_items(ts) + seq![']'] + r);
        assert(starts_with(s, pos, "["@)) by {
            assert("["@ =~= seq!['[']);
        }
        assert(!starts_with(s, pos, "[]"@)) by {
            if starts_with(s, pos, "[]"@) {
                assert(s.subrange(pos, pos + 2)[1] == ']');
                assert(s.subrange(pos + 1, s.len() as int)[0] == '"') by {
                    assert((json_str_items(ts) + seq![']'] + r)[0] == json_string(ts.first())[0]);
                }
                assert(s[pos + 1] == ']' && s[pos + 1] == '"');
            }
        }
        lemma_str_items_round(s, pos + 1, ts, r);
        let p = pos + 1 + json_str_items(ts).len();
        lemma_suffix_split(s, p, seq![']'], r);
        assert(starts_with(s, p, "]"@)) by {
            assert("]"@ =~= seq![']']);
        }
    }
}

/// The JSON object for a bookmark.
pub open spec fn json_bookmark(b: BookmarkView) -> Seq<char> {
    "{\"id\":"@ + dec_of(b.id as nat) + ",\"url\":"@ + json_string(b.url) + ",\"title\":"@
        + json_opt_string(b.title) + ",\"description\":"@ + json_opt_string(b.description)
        + ",\"tags\":"@ + json_str_array(b.tags) + "}"@
}

/// Reads a bookmark object.
pub open spec fn sp_bookmark(s: Seq<char>, pos: int) -> Option<(BookmarkView, int)> {
    match sp_tok(s, pos, "{\"id\":"@) {
        Some(p1) => match sp_num(s, p1) {
            Some((n, p2)) => if n <= i64::MAX {
                match sp_tok(s, p2, ",\"url\":"@) {
                    Some(p3) => match sp_string(s, p3) {
                        Some((url, p4)) => match sp_tok(s, p4, ",\"title\":"@) {
                            Some(p5) => match sp_opt_string(s, p5) {
                                Some((title, p6)) => match sp_tok(s, p6, ",\"description\":"@) {
                                    Some(p7) => match sp_opt_string(s, p7) {
                                        Some((description, p8)) => match sp_tok(
                                            s,
                                            p8,
                                            ",\"tags\":"@,
                                        ) {
                                            Some(p9) => match sp_str_array(s, p9) {
                                                Some((tags, p10)) => match sp_tok(s, p10, "}"@) {
                                                    Some(p11) => Some(
                                                        (
                                                            BookmarkView {
                                                                id: n as int,
                                                                url,
                                                                title,
                                                                description,
                                                                tags,
                                                            },
                                                            p11,
                                                        ),
                                                    ),
                                                    None => None,
                                                },
                                                None => None,
                                            },
                                            None => None,
                                        },
                                        None => None,
                                    },
                                    None => None,
                                },
                                None => None,
                            },
                            None => None,
                        },
                        None => None,
                    },
                    None => None,
                }
            } else {
                None
            },
            None => None,
        },
        None => None,
    }
}

/// Expects the literal `t` at `pos`.
pub open spec fn sp_tok(s: Seq<char>, pos: int, t: Seq<char>) -> Option<int> {
    if starts_with(s, pos, t) {
        Some(pos + t.len())
    } else {
        None
    }
}

proof fn lemma_tok_suffix(s: Seq<char>, pos: int, t: Seq<char>, r: Seq<char>)
    requires
        0 <= pos <= s.len(),
        s.subrange(pos, s.len() as int) == t + r,
    ensures
        sp_tok(s, pos, t) == Some(pos + t.len()),
        s.subrange(pos + t.len(), s.len() as int) == r,
{
    lemma_suffix_split(s, pos, t, r);
}

/// Reading a written bookmark object gives it back.
#[verifier::rlimit(60)]
pub proof fn lemma_bookmark_round(s: Seq<char>, pos: int, b: BookmarkView, r: Seq<char>)
    requires
        0 <= pos <= s.len(),
        0 <= b.id <= i64::MAX,
        b.id <= usize::MAX,
        s.subrange(pos, s.len() as int) == json_bookmark(b) + r,
    ensures
        sp_bookmark(s, pos) == Some((b, pos + json_bookmark(b).len())),
        s.subrange(pos + json_bookmark(b).len(), s.len() as int) == r,
{
    reveal_strlit("{\"id\":");
    reveal_strlit(",\"url\":");
    reveal_strlit(",\"title\":");
    reveal_strlit(",\"description\":");
    reveal_strlit(",\"tags\":");
    reveal_strlit("}");
    let jb = json_bookmark(b);
    let t1 = "{\"id\":"@;
    let n1 = dec_of(b.id as nat);
    let t2 = ",\"url\":"@;
    let u = json_string(b.url);
    let t3 = ",\"title\":"@;
    let ti = json_opt_string(b.title);
    let t4 = ",\"description\":"@;
    let de = json_opt_string(b.description);
    let t5 = ",\"tags\":"@;
    let ta = json_str_array(b.tags);
    let t6 = "}"@;
    assert(jb + r =~= t1 + (n1 + (t2 + (u + (t3 + (ti + (t4 + (de + (t5 + (ta + (t6 + r)))))))))));
    lemma_tok_suffix(s, pos, t1, n1 + (t2 + (u + (t3 + (ti + (t4 + (de + (t5 + (ta + (t6
        + r))))))))));
    let p1 = pos + t1.len();
    assert((t2 + (u + (t3 + (ti + (t4 + (de + (t5 + (ta + (t6 + r)))))))))[0] == ',');
    lemma_num_suffix(s, p1, b.id as nat, t2 + (u + (t3 + (ti + (t4 + (de + (t5 + (ta + (t6
        + r)))))))));
    let p2 = p1 + n1.len();
    lemma_tok_suffix(s, p2, t2, u + (t3 + (ti + (t4 + (de + (t5 + (ta + (t6 + r))))))));
    let p3: int = p2 + t2.len() as int;
    lemma_string_round(s, p3, b.url, t3 + (ti + (t4 + (de + (t5 + (ta + (t6 + r)))))));
    let p4 = p3 + u.len();
    lemma_tok_suffix(s, p4, t3, ti + (t4 + (de + (t5 + (ta + (t6 + r))))));
    let p5: int = p4 + t3.len() as int;
    lemma_opt_string_round(s, p5, b.title, t4 + (de + (t5 + (ta + (t6 + r)))));
    let p6: int = p5 + ti.len() as int;
    lemma_tok_suffix(s, p6, t4, de + (t5 + (ta + (t6 + r))));
    let p7: int = p6 + t4.len() as int;
    lemma_opt_string_round(s, p7, b.description, t5 + (ta + (t6 + r)));
    let p8: int = p7 + de.len() as int;
    lemma_tok_suffix(s, p8, t5, ta + (t6 + r));
    let p9 = p8 + t5.len();
    lemma_str_array_round(s, p9, b.tags, t6 + r);
    let p10 = p9 + ta.len();
    lemma_tok_suffix(s, p10, t6, r);
    assert(sp_bookmark(s, pos) matches Some((bv, _)) && bv =~= b);
}


/// The items of a JSON array of bookmarks.
pub open spec fn json_bookmark_items(bs: Seq<BookmarkView>) -> Seq<char>
    decreases bs.len(),
{
    if bs.len() == 0 {
        Seq::empty()
    } else if bs.len() == 1 {
        json_bookmark(bs.first())
    } else {
        json_bookmark(bs.first()) + seq![','] + json_bookmark_items(bs.drop_first())
    }
}

/// A JSON array of bookmarks: the payload of a find response.
pub open spec fn json_bookmark_array(bs: Seq<BookmarkView>) -> Seq<char> {
    seq!['['] + json_bookmark_items(bs) + seq![']']
}

/// Reads one or more comma-separated bookmark objects.
pub open spec fn sp_bookmark_items(s: Seq<char>, pos: int) -> Option<(Seq<BookmarkView>, int)>
    decreases s.len() - pos,
{
    if pos < 0 || pos > s.len() {
        None
    } else {
        match sp_bookmark(s, pos) {
            Some((b, p)) => if p <= pos || p > s.len() {
                None
            } else if starts_with(s, p, seq![',']) {
                match sp_bookmark_items(s, p + 1) {
                    Some((bs, p2)) => Some((seq![b] + bs, p2)),
                    None => None,
                }
            } else {
                Some((seq![b], p))
            },
            None => None,
        }
    }
}

/// Reads a JSON array of bookmarks.
pub open spec fn sp_bookmark_array(s: Seq<char>, pos: int) -> Option<(Seq<BookmarkView>, int)> {
    if starts_with(s, pos, "[]"@) {
        Some((Seq::empty(), pos + 2))
    } else if starts_with(s, pos, "["@) {
        match sp_bookmark_items(s, pos + 1) {
            Some((bs, p)) => if starts_with(s, p, "]"@) {
                Some((bs, p + 1))
            } else {
                None
            },
            None => None,
        }
    } else {
        None
    }
}

/// Every bookmark in `bs` can be carried on the wire: its id is in
/// machine range.
pub open spec fn bookmarks_wire_ok(bs: Seq<BookmarkView>) -> bool {
    forall|i: int|
        0 <= i < bs.len() ==> 0 <= #[trigger] bs[i].id <= i64::MAX && bs[i].id <= usize::MAX
}

#[verifier::rlimit(80)]
proof fn lemma_bookmark_items_round(
    s: Seq<char>,
    pos: int,
    bs: Seq<BookmarkView>,
    r: Seq<char>,
)
    requires
        0 <= pos <= s.len(),
        bs.len() >= 1,
        bookmarks_wire_ok(bs),
        s.subrange(pos, s.len() as int) == json_bookmark_items(bs) + seq![']'] + r,
    ensures
        sp_bookmark_items(s, pos) == Some((bs, pos + json_bookmark_items(bs).len())),
        s.subrange(pos + json_bookmark_items(bs).len(), s.len() as int) == seq![']'] + r,
    decreases bs.len(),
{
    reveal_strlit(",");
    assert(bs[0] == bs.first());
    if bs.len() == 1 {
        assert(json_bookmark_items(bs) + seq![']'] + r =~= json_bookmark(bs.first()) + (seq![']']
            + r));
        lemma_bookmark_round(s, pos, bs.first(), seq![']'] + r);
        let p = pos + json_bookmark(bs.first()).len();
        assert(!starts_with(s, p, seq![','])) by {
            if starts_with(s, p, seq![',']) {
                assert(s.subrange(p, p + 1)[0] == ',');
                assert(s.subrange(p, s.len() as int)[0] == ']');
            }
        }
        assert(seq![bs.first()] =~= bs);
    } else {
        assert(json_bookmark_items(bs) + seq![']'] + r =~= json_bookmark(bs.first()) + (seq![',']
            + (json_bookmark_items(bs.drop_first()) + seq![']'] + r)));
        lemma_bookmark_round(s, pos, bs.first(), seq![','] + (json_bookmark_items(
            bs.drop_first(),
        ) + seq![']'] + r));
        let p = pos + json_bookmark(bs.first()).len();
        lemma_suffix_split(s, p, seq![','], json_bookmark_items(bs.drop_first()) + seq![']'] + r);
        assert(starts_with(s, p, seq![','])) by {
            assert(","@ =~= seq![',']);
        }
        assert forall|i: int| 0 <= i < bs.drop_first().len() implies 0 <= #[trigger] bs.drop_first()[i].id
            <= i64::MAX && bs.drop_first()[i].id <= usize::MAX by {
            assert(bs.drop_first()[i] == bs[i + 1]);
        }
        lemma_bookmark_items_round(s, p + 1, bs.drop_first(), r);
        assert(seq![bs.first()] + bs.drop_first() =~= bs);
    }
}

/// Reading a written bookmark array gives it back.
pub proof fn lemma_bookmark_array_round(
    s: Seq<char>,
    pos: int,
    bs: Seq<BookmarkView>,
    r: Seq<char>,
)
    requires
        0 <= pos <= s.len(),
        bookmarks_wire_ok(bs),
        s.subrange(pos, s.len() as int) == json_bookmark_array(bs) + r,
    ensures
        sp_bookmark_array(s, pos) == Some((bs, pos + json_bookmark_array(bs).len())),
        s.subrange(pos + json_bookmark_array(bs).len(), s.len() as int) == r,
{
    reveal_strlit("[");
    reveal_strlit("]");
    reveal_strlit("[]");
    reveal_strlit("{\"id\":");
    if bs.len() == 0 {
        assert(json_bookmark_array(bs) =~= "[]"@);
        lemma_suffix_split(s, pos, "[]"@, r);
        assert(bs =~= Seq::<BookmarkView>::empty());
    } else {
        assert(json_bookmark_array(bs) + r =~= seq!['['] + (json_bookmark_items(bs) + seq![']']
            + r));
        lemma_suffix_split(s, pos, seq!['['], json_bookmark_items(bs) + seq![']'] + r);
        assert(starts_with(s, pos, "["@)) by {
            assert("["@ =~= seq!['[']);
        }
        assert(!starts_with(s, pos, "[]"@)) by {
            if starts_with(s, pos, "[]"@) {
                assert(s.subrange(pos, pos + 2)[1] == ']');
                assert(s.subrange(pos + 1, s.len() as int)[0] == '{') by {
                    assert(bs[0] == bs.first());
                    assert((json_bookmark_items(bs) + seq![']'] + r)[0] == json_bookmark(
                        bs.first(),
                    )[0]);
                    assert(json_bookmark(bs.first())[0] == "{\"id\":"@[0]);
                }
                assert(s[pos + 1] == ']' && s[pos + 1] == '{');
            }
        }
        lemma_bookmark_items_round(s, pos + 1, bs, r);
        let p = pos + 1 + json_bookmark_items(bs).len();
        lemma_suffix_split(s, p, seq![']'], r);
        assert(starts_with(s, p, "]"@)) by {
            assert("]"@ =~= seq![']']);
        }
    }
}

/// The JSON pair for one tag listing row: name and count.
pub open spec fn json_tag_pair(p: (Seq<char>, int)) -> Seq<char> {
    seq!['['] + json_string(p.0) + seq![','] + dec_of(p.1 as nat) + seq![']']
}

/// The items of the tags response array.
pub open spec fn json_tag_items(ps: Seq<(Seq<char>, int)>) -> Seq<char>
    decreases ps.len(),
{
    if ps.len() == 0 {
        Seq::empty()
    } else if ps.len() == 1 {
        json_tag_pair(ps.first())
    } else {
        json_tag_pair(ps.first()) + seq![','] + json_tag_items(ps.drop_first())
    }
}

/// The whole tags response: a JSON array of [name, count] pairs.
pub open spec fn json_tag_array(ps: Seq<(Seq<char>, int)>) -> Seq<char> {
    seq!['['] + json_tag_items(ps) + seq![']']
}

/// Reads one [name, count] pair.
pub open spec fn sp_tag_pair(s: Seq<char>, pos: int) -> Option<((Seq<char>, int), int)> {
    match sp_tok(s, pos, "["@) {
        Some(p1) => match sp_string(s, p1) {
            Some((name, p2)) => match sp_tok(s, p2, ","@) {
                Some(p3) => match sp_num(s, p3) {
                    Some((n, p4)) => match sp_tok(s, p4, "]"@) {
                        Some(p5) => Some(((name, n as int), p5)),
                        None => None,
                    },
                    None => None,
                },
                None => None,
            },
            None => None,
        },
        None => None,
    }
}

proof fn lemma_tag_pair_round(s: Seq<char>, pos: int, p: (Seq<char>, int), r: Seq<char>)
    requires
        0 <= pos <= s.len(),
        0 <= p.1 <= usize::MAX,
        s.subrange(pos, s.len() as int) == json_tag_pair(p) + r,
    ensures
        sp_tag_pair(s, pos) == Some((p, pos + json_tag_pair(p).len())),
        s.subrange(pos + json_tag_pair(p).len(), s.len() as int) == r,
{
    reveal_strlit("[");
    reveal_strlit("]");
    reveal_strlit(",");
    assert("["@ =~= seq!['[']);
    assert("]"@ =~= seq![']']);
    assert(","@ =~= seq![',']);
    assert(json_tag_pair(p) + r =~= seq!['['] + (json_string(p.0) + (seq![','] + (dec_of(
        p.1 as nat,
    ) + (seq![']'] + r)))));
    lemma_tok_suffix(s, pos, seq!['['], json_string(p.0) + (seq![','] + (dec_of(p.1 as nat) + (
    seq![']'] + r))));
    let p1 = pos + 1;
    lemma_string_round(s, p1, p.0, seq![','] + (dec_of(p.1 as nat) + (seq![']'] + r)));
    let p2 = p1 + json_string(p.0).len();
    lemma_tok_suffix(s, p2, seq![','], dec_of(p.1 as nat) + (seq![']'] + r));
    let p3 = p2 + 1;
    assert((seq![']'] + r)[0] == ']');
    lemma_num_suffix(s, p3, p.1 as nat, seq![']'] + r);
    let p4 = p3 + dec_of(p.1 as nat).len();
    lemma_tok_suffix(s, p4, seq![']'], r);
    assert(sp_tag_pair(s, pos) matches Some((pv, _)) && pv == p);
}

/// Reads one or more comma-separated pairs.
pub open spec fn sp_tag_items(s: Seq<char>, pos: int) -> Option<(Seq<(Seq<char>, int)>, int)>
    decreases s.len() - pos,
{
    if pos < 0 || pos > s.len() {
        None
    } else {
        match sp_tag_pair(s, pos) {
            Some((p, q)) => if q <= pos || q > s.len() {
                None
            } else if starts_with(s, q, seq![',']) {
                match sp_tag_items(s, q + 1) {
                    Some((ps, q2)) => Some((seq![p] + ps, q2)),
                    None => None,
                }
            } else {
                Some((seq![p], q))
            },
            None => None,
        }
    }
}

/// Reads the tags response array.
pub open spec fn sp_tag_array(s: Seq<char>, pos: int) -> Option<(Seq<(Seq<char>, int)>, int)> {
    if starts_with(s, pos, "[]"@) {
        Some((Seq::empty(), pos + 2))
    } else if starts_with(s, pos, "["@) {
        match sp_tag_items(s, pos + 1) {
            Some((ps, p)) => if starts_with(s, p, "]"@) {
                Some((ps, p + 1))
            } else {
                None
            },
            None => None,
        }
    } else {
        None
    }
}

/// Every pair in `ps` can be carried on the wire.
pub open spec fn pairs_wire_ok(ps: Seq<(Seq<char>, int)>) -> bool {
    forall|i: int| 0 <= i < ps.len() ==> 0 <= #[trigger] ps[i].1 <= usize::MAX
}

proof fn lemma_tag_items_round(
    s: Seq<char>,
    pos: int,
    ps: Seq<(Seq<char>, int)>,
    r: Seq<char>,
)
    requires
        0 <= pos <= s.len(),
        ps.len() >= 1,
        pairs_wire_ok(ps),
        s.subrange(pos, s.len() as int) == json_tag_items(ps) + seq![']'] + r,
    ensures
        sp_tag_items(s, pos) == Some((ps, pos + json_tag_items(ps).len())),
        s.subrange(pos + json_tag_items(ps).len(), s.len() as int) == seq![']'] + r,
    decreases ps.len(),
{
    reveal_strlit(",");
    assert(ps[0] == ps.first());
    if ps.len() == 1 {
        assert(json_tag_items(ps) + seq![']'] + r =~= json_tag_pair(ps.first()) + (seq![']']
            + r));
        lemma_tag_pair_round(s, pos, ps.first(), seq![']'] + r);
        let p = pos + json_tag_pair(ps.first()).len();
        assert(!starts_with(s, p, seq![','])) by {
            if starts_with(s, p, seq![',']) {
                assert(s.subrange(p, p + 1)[0] == ',');
                assert(s.subrange(p, s.len() as int)[0] == ']');
            }
        }
        assert(seq![ps.first()] =~= ps);
    } else {
        assert(json_tag_items(ps) + seq![']'] + r =~= json_tag_pair(ps.first()) + (seq![','] + (
        json_tag_items(ps.drop_first()) + seq![']'] + r)));
        lemma_tag_pair_round(s, pos, ps.first(), seq![','] + (json_tag_items(ps.drop_first())
            + seq![']'] + r));
        let p = pos + json_tag_pair(ps.first()).len();
        lemma_suffix_split(s, p, seq![','], json_tag_items(ps.drop_first()) + seq![']'] + r);
        assert(starts_with(s, p, seq![','])) by {
            assert(","@ =~= seq![',']);
        }
        assert forall|i: int| 0 <= i < ps.drop_first().len() implies 0 <= #[trigger] ps.drop_first()[i].1
            <= usize::MAX by {
            assert(ps.drop_first()[i] == ps[i + 1]);
        }
        lemma_tag_items_round(s, p + 1, ps.drop_first(), r);
        assert(seq![ps.first()] + ps.drop_first() =~= ps);
    }
}

/// Reading a written tags response gives it back.
pub proof fn lemma_tag_array_round(
    s: Seq<char>,
    pos: int,
    ps: Seq<(Seq<char>, int)>,
    r: Seq<char>,
)
    requires
        0 <= pos <= s.len(),
        pairs_wire_ok(ps),
        s.subrange(pos, s.len() as int) == json_tag_array(ps) + r,
    ensures
        sp_tag_array(s, pos) == Some((ps, pos + json_tag_array(ps).len())),
        s.subrange(pos + json_tag_array(ps).len(), s.len() as int) == r,
{
    reveal_strlit("[");
    reveal_strlit("]");
    reveal_strlit("[]");
    if ps.len() == 0 {
        assert(json_tag_array(ps) =~= "[]"@);
        lemma_suffix_split(s, pos, "[]"@, r);
        assert(ps =~= Seq::<(Seq<char>, int)>::empty());
    } else {
        assert(json_tag_array(ps) + r =~= seq!['['] + (json_tag_items(ps) + seq![']'] + r));
        lemma_suffix_split(s, pos, seq!['['], json_tag_items(ps) + seq![']'] + r);
        assert(starts_with(s, pos, "["@)) by {
            assert("["@ =~= seq!['[']);
        }
        assert(!starts_with(s, pos, "[]"@)) by {
            if starts_with(s, pos, "[]"@) {
                assert(s.subrange(pos, pos + 2)[1] == ']');
                assert(s.subrange(pos + 1, s.len() as int)[0] == '[') by {
                    assert(ps[0] == ps.first());
                    assert((json_tag_items(ps) + seq![']'] + r)[0] == json_tag_pair(
                        ps.first(),
                    )[0]);
                }
                assert(s[pos + 1] == ']' && s[pos + 1] == '[');
            }
        }
        lemma_tag_items_round(s, pos + 1, ps, r);
        let p = pos + 1 + json_tag_items(ps).len();
        lemma_suffix_split(s, p, seq![']'], r);
        assert(starts_with(s, p, "]"@)) by {
            assert("]"@ =~= seq![']']);
        }
    }
}


/// The repeated tag parameters of a search query, each followed by
/// the separator.
pub open spec fn enc_tag_params(ts: Seq<Seq<char>>) -> Seq<char>
    decreases ts.len(),
{
    if ts.len() == 0 {
        Seq::empty()
    } else {
        "tag="@ + pct(ts.first()) + seq!['&'] + enc_tag_params(ts.drop_first())
    }
}

/// The query string of a find (and of a delete): the optional free
/// text, the repeated tags, and the match mode.
pub open spec fn enc_search_query(args: SearchView) -> Seq<char> {
    (match args.query {
        Some(x) => "query="@ + pct(x) + seq!['&'],
        None => Seq::empty(),
    }) + enc_tag_params(args.tags) + "all_tags="@ + bool_str(args.all_tags)
}

/// The query string of a tags listing.
pub open spec fn enc_tags_query(sort_by_count: bool, reverse: bool) -> Seq<char> {
    "sort_by_count="@ + bool_str(sort_by_count) + seq!['&'] + "reverse="@ + bool_str(reverse)
}

/// The query string of a rename.
pub open spec fn enc_rename_query(from: Seq<char>, to: Seq<char>) -> Seq<char> {
    "from="@ + pct(from) + seq!['&'] + "to="@ + pct(to)
}

/// The JSON body of an add request.
pub open spec fn json_add_body(a: AddView) -> Seq<char> {
    "{\"url\":"@ + json_string(a.url) + ",\"tags\":"@ + json_str_array(a.tags)
        + ",\"title\":"@ + json_opt_string(a.title) + ",\"description\":"@ + json_opt_string(
        a.description,
    ) + "}"@
}

/// Reads the repeated tag parameters.
pub open spec fn sp_tag_params(s: Seq<char>, pos: int) -> Option<(Seq<Seq<char>>, int)>
    decreases s.len() - pos,
{
    if pos < 0 || pos > s.len() {
        None
    } else if starts_with(s, pos, "tag="@) {
        match sp_pct_upto(s, pos + 4) {
            Some((v, p)) => if p < pos + 4 || p >= s.len() || s[p] != '&' {
                None
            } else {
                match sp_tag_params(s, p + 1) {
                    Some((ts, p2)) => Some((seq![v] + ts, p2)),
                    None => None,
                }
            },
            None => None,
        }
    } else {
        Some((Seq::empty(), pos))
    }
}

/// Reads a whole search query string.
pub open spec fn sp_search_query(s: Seq<char>) -> Option<SearchView> {
    let start: Option<(Option<Seq<char>>, int)> = if starts_with(s, 0, "query="@) {
        match sp_pct_upto(s, 6) {
            Some((v, p)) => if p < s.len() && s[p] == '&' {
                Some((Some(v), p + 1))
            } else {
                None
            },
            None => None,
        }
    } else {
        Some((None, 0))
    };
    match start {
        Some((q, pos)) => match sp_tag_params(s, pos) {
            Some((ts, p2)) => match sp_tok(s, p2, "all_tags="@) {
                Some(p3) => match sp_bool(s, p3) {
                    Some((b, p4)) => if p4 == s.len() {
                        Some(SearchView { query: q, tags: ts, all_tags: b })
                    } else {
                        None
                    },
                    None => None,
                },
                None => None,
            },
            None => None,
        },
        None => None,
    }
}

/// Reads a whole tags query string.
pub open spec fn sp_tags_query(s: Seq<char>) -> Option<(bool, bool)> {
    match sp_tok(s, 0, "sort_by_count="@) {
        Some(p1) => match sp_bool(s, p1) {
            Some((sc, p2)) => match sp_tok(s, p2, "&reverse="@) {
                Some(p3) => match sp_bool(s, p3) {
                    Some((rv, p4)) => if p4 == s.len() {
                        Some((sc, rv))
                    } else {
                        None
                    },
                    None => None,
                },
                None => None,
            },
            None => None,
        },
        None => None,
    }
}

/// Reads a whole rename query string.
pub open spec fn sp_rename_query(s: Seq<char>) -> Option<(Seq<char>, Seq<char>)> {
    match sp_tok(s, 0, "from="@) {
        Some(p1) => match sp_pct_upto(s, p1) {
            Some((from, p2)) => match sp_tok(s, p2, "&to="@) {
                Some(p3) => match sp_pct_upto(s, p3) {
                    Some((to, p4)) => if p4 == s.len() {
                        Some((from, to))
                    } else {
                        None
                    },
                    None => None,
                },
                None => None,
            },
            None => None,
        },
        None => None,
    }
}

/// Reads a whole add request body.
pub open spec fn sp_add_body(s: Seq<char>) -> Option<AddView> {
    match sp_tok(s, 0, "{\"url\":"@) {
        Some(p1) => match sp_string(s, p1) {
            Some((url, p2)) => match sp_tok(s, p2, ",\"tags\":"@) {
                Some(p3) => match sp_str_array(s, p3) {
                    Some((tags, p4)) => match sp_tok(s, p4, ",\"title\":"@) {
                        Some(p5) => match sp_opt_string(s, p5) {
                            Some((title, p6)) => match sp_tok(s, p6, ",\"description\":"@) {
                                Some(p7) => match sp_opt_string(s, p7) {
                                    Some((description, p8)) => match sp_tok(s, p8, "}"@) {
                                        Some(p9) => if p9 == s.len() {
                                            Some(AddView { url, tags, title, description })
                                        } else {
                                            None
                                        },
                                        None => None,
                                    },
                                    None => None,
                                },
                                None => None,
                            },
                            None => None,
                        },
                        None => None,
                    },
                    None => None,
                },
                None => None,
            },
            None => None,
        },
        None => None,
    }
}

proof fn lemma_tag_params_round(s: Seq<char>, pos: int, ts: Seq<Seq<char>>, r: Seq<char>)
    requires
        0 <= pos <= s.len(),
        s.subrange(pos, s.len() as int) == enc_tag_params(ts) + r,
        r.len() > 0 && r[0] == 'a',
    ensures
        sp_tag_params(s, pos) == Some((ts, pos + enc_tag_params(ts).len())),
        s.subrange(pos + enc_tag_params(ts).len(), s.len() as int) == r,
    decreases ts.len(),
{
    reveal_strlit("tag=");
    if ts.len() == 0 {
        assert(s[pos] == r[0]) by {
            assert(s.subrange(pos, s.len() as int)[0] == r[0]);
        }
        assert(!starts_with(s, pos, "tag="@)) by {
            if starts_with(s, pos, "tag="@) {
                assert(s.subrange(pos, pos + 4)[0] == 't');
            }
        }
        assert(ts =~= Seq::<Seq<char>>::empty());
    } else {
        let v = ts.first();
        assert(enc_tag_params(ts) + r =~= "tag="@ + (pct(v) + (seq!['&'] + (enc_tag_params(
            ts.drop_first(),
        ) + r))));
        lemma_tok_suffix(s, pos, "tag="@, pct(v) + (seq!['&'] + (enc_tag_params(ts.drop_first())
            + r)));
        assert(starts_with(s, pos, "tag="@));
        let p1: int = pos + 4;
        assert(seq!['&'] + (enc_tag_params(ts.drop_first()) + r) =~= (seq!['&'] + enc_tag_params(
            ts.drop_first(),
        ) + r));
        lemma_pct_round(s, p1, v, seq!['&'] + enc_tag_params(ts.drop_first()) + r);
        let p2: int = p1 + pct(v).len() as int;
        lemma_suffix_split(s, p2, seq!['&'], enc_tag_params(ts.drop_first()) + r);
        assert(s[p2] == '&');
        assert(p2 + 1 < s.len()) by {
            assert((enc_tag_params(ts.drop_first()) + r).len() >= 1);
        }
        lemma_tag_params_round(s, p2 + 1, ts.drop_first(), r);
        assert(seq![v] + ts.drop_first() =~= ts);
    }
}

/// Reading a written search query gives the arguments back.
#[verifier::rlimit(100)]
pub proof fn lemma_search_query_round(args: SearchView)
    ensures
        sp_search_query(enc_search_query(args)) == Some(args),
{
    reveal_strlit("query=");
    reveal_strlit("all_tags=");
    reveal_strlit("tag=");
    let s = enc_search_query(args);
    let tail = enc_tag_params(args.tags) + "all_tags="@ + bool_str(args.all_tags);
    assert(s.subrange(0, s.len() as int) =~= s);
    match args.query {
        Some(x) => {
            assert(s =~= "query="@ + (pct(x) + (seq!['&'] + (enc_tag_params(args.tags) + (
            "all_tags="@ + bool_str(args.all_tags))))));
            lemma_tok_suffix(s, 0, "query="@, pct(x) + (seq!['&'] + (enc_tag_params(args.tags) + (
            "all_tags="@ + bool_str(args.all_tags)))));
            assert(starts_with(s, 0, "query="@));
            assert(seq!['&'] + (enc_tag_params(args.tags) + ("all_tags="@ + bool_str(
                args.all_tags,
            ))) =~= seq!['&'] + (enc_tag_params(args.tags) + ("all_tags="@ + bool_str(
                args.all_tags,
            ))));
            lemma_pct_round(s, 6, x, seq!['&'] + (enc_tag_params(args.tags) + ("all_tags="@
                + bool_str(args.all_tags))));
            let p: int = 6 + pct(x).len() as int;
            lemma_suffix_split(s, p, seq!['&'], enc_tag_params(args.tags) + ("all_tags="@
                + bool_str(args.all_tags)));
            assert(s[p] == '&');
            assert(p < s.len()) by {
                assert(("all_tags="@ + bool_str(args.all_tags)).len() >= 1);
            }
            assert(enc_tag_params(args.tags) + ("all_tags="@ + bool_str(args.all_tags)) =~=
                enc_tag_params(args.tags) + ("all_tags="@ + bool_str(args.all_tags)));
            assert(("all_tags="@ + bool_str(args.all_tags))[0] == 'a');
            lemma_tag_params_round(s, p + 1, args.tags, "all_tags="@ + bool_str(args.all_tags));
            let p2: int = p + 1 + enc_tag_params(args.tags).len() as int;
            assert("all_tags="@ + bool_str(args.all_tags) =~= "all_tags="@ + (bool_str(
                args.all_tags,
            ) + Seq::<char>::empty()));
            lemma_tok_suffix(s, p2, "all_tags="@, bool_str(args.all_tags) + Seq::<char>::empty());
            let p3: int = p2 + 9;
            lemma_bool_round(s, p3, args.all_tags, Seq::<char>::empty());
            assert(p3 + bool_str(args.all_tags).len() == s.len());
            assert(sp_search_query(s) matches Some(a) && a =~= args);
        },
        None => {
            assert(s =~= enc_tag_params(args.tags) + ("all_tags="@ + bool_str(args.all_tags)));
            assert(!starts_with(s, 0, "query="@)) by {
                if starts_with(s, 0, "query="@) {
                    assert(s.subrange(0, 6)[0] == 'q');
                    if args.tags.len() == 0 {
                        assert(s[0] == ("all_tags="@ + bool_str(args.all_tags))[0]);
                    } else {
                        assert(s[0] == ("tag="@ + pct(args.tags.first()) + seq!['&']
                            + enc_tag_params(args.tags.drop_first()) + ("all_tags="@ + bool_str(
                            args.all_tags,
                        )))[0]);
                        assert(s[0] == 't');
                    }
                }
            }
            assert(("all_tags="@ + bool_str(args.all_tags))[0] == 'a');
            lemma_tag_params_round(s, 0, args.tags, "all_tags="@ + bool_str(args.all_tags));
            let p2 = enc_tag_params(args.tags).len() as int;
            assert("all_tags="@ + bool_str(args.all_tags) =~= "all_tags="@ + (bool_str(
                args.all_tags,
            ) + Seq::<char>::empty()));
            lemma_tok_suffix(s, p2, "all_tags="@, bool_str(args.all_tags) + Seq::<char>::empty());
            let p3: int = p2 + 9;
            lemma_bool_round(s, p3, args.all_tags, Seq::<char>::empty());
            assert(p3 + bool_str(args.all_tags).len() == s.len());
            assert(sp_search_query(s) matches Some(a) && a =~= args);
        },
    }
}

/// Reading a written tags query gives the flags back.
pub proof fn lemma_tags_query_round(sort_by_count: bool, reverse: bool)
    ensures
        sp_tags_query(enc_tags_query(sort_by_count, reverse)) == Some((sort_by_count, reverse)),
{
    reveal_strlit("sort_by_count=");
    reveal_strlit("&reverse=");
    reveal_strlit("reverse=");
    let s = enc_tags_query(sort_by_count, reverse);
    assert(s.subrange(0, s.len() as int) =~= s);
    assert(s =~= "sort_by_count="@ + (bool_str(sort_by_count) + ("&reverse="@ + (bool_str(
        reverse,
    ) + Seq::<char>::empty()))));
    lemma_tok_suffix(s, 0, "sort_by_count="@, bool_str(sort_by_count) + ("&reverse="@ + (
    bool_str(reverse) + Seq::<char>::empty())));
    let p1: int = 14;
    lemma_bool_round(s, p1, sort_by_count, "&reverse="@ + (bool_str(reverse)
        + Seq::<char>::empty()));
    let p2: int = p1 + bool_str(sort_by_count).len() as int;
    lemma_tok_suffix(s, p2, "&reverse="@, bool_str(reverse) + Seq::<char>::empty());
    let p3: int = p2 + 9;
    lemma_bool_round(s, p3, reverse, Seq::<char>::empty());
}

/// Reading a written rename query gives both tags back.
#[verifier::rlimit(60)]
pub proof fn lemma_rename_query_round(from: Seq<char>, to: Seq<char>)
    ensures
        sp_rename_query(enc_rename_query(from, to)) == Some((from, to)),
{
    reveal_strlit("from=");
    reveal_strlit("&to=");
    let s = enc_rename_query(from, to);
    assert(s.subrange(0, s.len() as int) =~= s);
    assert(s =~= "from="@ + (pct(from) + (seq!['&'] + ("to="@ + (pct(to)
        + Seq::<char>::empty())))));
    lemma_tok_suffix(s, 0, "from="@, pct(from) + (seq!['&'] + ("to="@ + (pct(to)
        + Seq::<char>::empty()))));
    let p1: int = 5;
    assert(seq!['&'] + ("to="@ + (pct(to) + Seq::<char>::empty())) =~= (seq!['&'] + "to="@) + (
    pct(to) + Seq::<char>::empty()));
    assert((seq!['&'] + ("to="@ + (pct(to) + Seq::<char>::empty())))[0] == '&');
    lemma_pct_round(s, p1, from, (seq!['&'] + "to="@) + (pct(to) + Seq::<char>::empty()));
    let p2: int = p1 + pct(from).len() as int;
    assert(((seq!['&'] + "to="@) + (pct(to) + Seq::<char>::empty())) =~= "&to="@ + (pct(to)
        + Seq::<char>::empty())) by {
        reveal_strlit("to=");
    }
    lemma_tok_suffix(s, p2, "&to="@, pct(to) + Seq::<char>::empty());
    let p3: int = p2 + 4;
    lemma_pct_round(s, p3, to, Seq::<char>::empty());
}

/// Reading a written add body gives the arguments back.
#[verifier::rlimit(80)]
pub proof fn lemma_add_body_round(a: AddView)
    ensures
        sp_add_body(json_add_body(a)) == Some(a),
{
    reveal_strlit("{\"url\":");
    reveal_strlit(",\"tags\":");
    reveal_strlit(",\"title\":");
    reveal_strlit(",\"description\":");
    reveal_strlit("}");
    let s = json_add_body(a);
    let t1 = "{\"url\":"@;
    let u = json_string(a.url);
    let t2 = ",\"tags\":"@;
    let ta = json_str_array(a.tags);
    let t3 = ",\"title\":"@;
    let ti = json_opt_string(a.title);
    let t4 = ",\"description\":"@;
    let de = json_opt_string(a.description);
    let t5 = "}"@;
    assert(s.subrange(0, s.len() as int) =~= s);
    assert(s =~= t1 + (u + (t2 + (ta + (t3 + (ti + (t4 + (de + (t5 + Seq::<char>::empty())))))))));
    lemma_tok_suffix(s, 0, t1, u + (t2 + (ta + (t3 + (ti + (t4 + (de + (t5
        + Seq::<char>::empty()))))))));
    let p1: int = t1.len() as int;
    lemma_string_round(s, p1, a.url, t2 + (ta + (t3 + (ti + (t4 + (de + (t5
        + Seq::<char>::empty())))))));
    let p2: int = p1 + u.len() as int;
    lemma_tok_suffix(s, p2, t2, ta + (t3 + (ti + (t4 + (de + (t5 + Seq::<char>::empty()))))));
    let p3: int = p2 + t2.len() as int;
    lemma_str_array_round(s, p3, a.tags, t3 + (ti + (t4 + (de + (t5 + Seq::<char>::empty())))));
    let p4: int = p3 + ta.len() as int;
    lemma_tok_suffix(s, p4, t3, ti + (t4 + (de + (t5 + Seq::<char>::empty()))));
    let p5: int = p4 + t3.len() as int;
    lemma_opt_string_round(s, p5, a.title, t4 + (de + (t5 + Seq::<char>::empty())));
    let p6: int = p5 + ti.len() as int;
    lemma_tok_suffix(s, p6, t4, de + (t5 + Seq::<char>::empty()));
    let p7: int = p6 + t4.len() as int;
    lemma_opt_string_round(s, p7, a.description, t5 + Seq::<char>::empty());
    let p8: int = p7 + de.len() as int;
    lemma_tok_suffix(s, p8, t5, Seq::<char>::empty());
    assert(sp_add_body(s) matches Some(av) && av =~= a);
}


/// The views of a vector of bookmarks.
pub open spec fn bookmarks_view(bs: Seq<Bookmark>) -> Seq<BookmarkView> {
    bs.map_values(|b: Bookmark| b@)
}

fn hex_char(d: u32) -> (r: char)
    requires
        d < 16,
    ensures
        r == hex_digit(d as nat),
{
    if d < 10 {
        (48 + d as u8) as char
    } else {
        (87 + d as u8) as char
    }
}

fn hexv(c: char) -> (r: u32)
    requires
        is_hex(c),
    ensures
        r == hex_val(c),
{
    let u = c as u32;
    if u <= 57 {
        u - 48
    } else {
        u - 87
    }
}

fn is_hex_char(c: char) -> (r: bool)
    ensures
        r == is_hex(c),
{
    ('0' <= c && c <= '9') || ('a' <= c && c <= 'f')
}

/// Writes the escaped body of a JSON string literal from `pos` on.
fn e_esc(s: &str, pos: usize) -> (r: String)
    requires
        pos <= s@.len(),
    ensures
        r@ == esc(s@.subrange(pos as int, s@.len() as int)),
    decreases s@.len() - pos,
{
    let n = s.unicode_len();
    if pos >= n {
        let out = String::new();
        proof {
            assert(s@.subrange(pos as int, s@.len() as int) =~= Seq::<char>::empty());
        }
        out
    } else {
        let c = s.get_char(pos);
        let mut out = String::new();
        if c == '"' {
            out.push('\\');
            out.push('"');
        } else if c == '\\' {
            out.push('\\');
            out.push('\\');
        } else if (c as u32) < 32 {
            out.push('\\');
            out.push('u');
            out.push('0');
            out.push('0');
            out.push(hex_char(c as u32 / 16));
            out.push(hex_char(c as u32 % 16));
        } else {
            out.push(c);
        }
        proof {
            assert(out@ =~= esc_char(c));
        }
        let rest = e_esc(s, pos + 1);
        out.append(rest.as_str());
        proof {
            let sub = s@.subrange(pos as int, s@.len() as int);
            assert(sub.first() == c);
            assert(sub.drop_first() =~= s@.subrange(pos + 1, s@.len() as int));
        }
        out
    }
}

/// Writes a JSON string literal.
fn e_jstring(s: &str) -> (r: String)
    ensures
        r@ == json_string(s@),
{
    let mut out = String::new();
    out.push('"');
    let body = e_esc(s, 0);
    out.append(body.as_str());
    out.push('"');
    proof {
        assert(s@.subrange(0, s@.len() as int) =~= s@);
        assert(out@ =~= json_string(s@));
    }
    out
}

/// Writes a JSON string literal or "null".
fn e_opt_string(o: &Option<String>) -> (r: String)
    ensures
        r@ == json_opt_string(o.deep_view()),
{
    match o {
        Some(v) => e_jstring(v.as_str()),
        None => String::from_str("null"),
    }
}

/// Writes the query-string form of a boolean.
fn e_bool(b: bool) -> (r: &'static str)
    ensures
        r@ == bool_str(b),
{
    if b {
        "true"
    } else {
        "false"
    }
}

/// Writes a percent-encoded query value from `pos` on.
fn e_pct(s: &str, pos: usize) -> (r: String)
    requires
        pos <= s@.len(),
    ensures
        r@ == pct(s@.subrange(pos as int, s@.len() as int)),
    decreases s@.len() - pos,
{
    let n = s.unicode_len();
    if pos >= n {
        let out = String::new();
        proof {
            assert(s@.subrange(pos as int, s@.len() as int) =~= Seq::<char>::empty());
        }
        out
    } else {
        let c = s.get_char(pos);
        let mut out = String::new();
        let keep = ('a' <= c && c <= 'z') || ('A' <= c && c <= 'Z') || ('0' <= c && c <= '9')
            || c == '-' || c == '.' || c == '_' || c == '~' || (c as u32) >= 128;
        if keep {
            out.push(c);
        } else {
            out.push('%');
            out.push(hex_char(c as u32 / 16));
            out.push(hex_char(c as u32 % 16));
        }
        proof {
            assert(out@ =~= pct_char(c));
        }
        let rest = e_pct(s, pos + 1);
        out.append(rest.as_str());
        proof {
            let sub = s@.subrange(pos as int, s@.len() as int);
            assert(sub.first() == c);
            assert(sub.drop_first() =~= s@.subrange(pos + 1, s@.len() as int));
        }
        out
    }
}

/// Writes the items of a JSON string array from index `pos` on.
fn e_str_items(ts: &Vec<String>, pos: usize) -> (r: String)
    requires
        pos <= ts@.len(),
    ensures
        r@ == json_str_items(ts.deep_view().subrange(pos as int, ts@.len() as int)),
    decreases ts@.len() - pos,
{
    let n = ts.len();
    let ghost sub = ts.deep_view().subrange(pos as int, ts@.len() as int);
    if pos >= n {
        proof {
            assert(sub =~= Seq::<Seq<char>>::empty());
        }
        String::new()
    } else {
        let mut out = e_jstring(ts[pos].as_str());
        proof {
            assert(sub.first() == ts.deep_view()[pos as int]);
        }
        if pos + 1 < n {
            out.push(',');
            let rest = e_str_items(ts, pos + 1);
            out.append(rest.as_str());
            proof {
                assert(sub.drop_first() =~= ts.deep_view().subrange(
                    pos + 1,
                    ts@.len() as int,
                ));
                assert(out@ =~= json_str_items(sub));
            }
        } else {
            proof {
                assert(sub.len() == 1);
            }
        }
        out
    }
}

/// Writes a JSON string array.
fn e_str_array(ts: &Vec<String>) -> (r: String)
    ensures
        r@ == json_str_array(ts.deep_view()),
{
    let mut out = String::new();
    out.push('[');
    let items = e_str_items(ts, 0);
    out.append(items.as_str());
    out.push(']');
    proof {
        assert(ts.deep_view().subrange(0, ts@.len() as int) =~= ts.deep_view());
        assert(out@ =~= json_str_array(ts.deep_view()));
    }
    out
}

/// Writes the JSON object for a bookmark.
pub fn e_bookmark(b: &Bookmark) -> (r: String)
    requires
        0 <= b.id,
        b.id <= usize::MAX,
    ensures
        r@ == json_bookmark(b@),
{
    let mut out = String::from_str("{\"id\":");
    let num = format_decimal(b.id as usize);
    out.append(num.as_str());
    out.append(",\"url\":");
    let u = e_jstring(b.url.as_str());
    out.append(u.as_str());
    out.append(",\"title\":");
    let t = e_opt_string(&b.title);
    out.append(t.as_str());
    out.append(",\"description\":");
    let d = e_opt_string(&b.description);
    out.append(d.as_str());
    out.append(",\"tags\":");
    let ta = e_str_array(&b.tags);
    out.append(ta.as_str());
    out.append("}");
    proof {
        assert(out@ =~= json_bookmark(b@));
    }
    out
}

/// Writes the items of a bookmark array from index `pos` on.
fn e_bookmark_items(bs: &Vec<Bookmark>, pos: usize) -> (r: String)
    requires
        pos <= bs@.len(),
        forall|i: int| 0 <= i < bs@.len() ==> 0 <= #[trigger] bs@[i].id <= usize::MAX,
    ensures
        r@ == json_bookmark_items(bookmarks_view(bs@).subrange(pos as int, bs@.len() as int)),
    decreases bs@.len() - pos,
{
    let n = bs.len();
    let ghost sub = bookmarks_view(bs@).subrange(pos as int, bs@.len() as int);
    if pos >= n {
        proof {
            assert(sub =~= Seq::<BookmarkView>::empty());
        }
        String::new()
    } else {
        let mut out = e_bookmark(&bs[pos]);
        proof {
            assert(sub.first() == bookmarks_view(bs@)[pos as int]);
        }
        if pos + 1 < n {
            out.push(',');
            let rest = e_bookmark_items(bs, pos + 1);
            out.append(rest.as_str());
            proof {
                assert(sub.drop_first() =~= bookmarks_view(bs@).subrange(
                    pos + 1,
                    bs@.len() as int,
                ));
                assert(out@ =~= json_bookmark_items(sub));
            }
        } else {
            proof {
                assert(sub.len() == 1);
            }
        }
        out
    }
}

/// Writes the JSON payload of a find response.
pub fn e_bookmark_array(bs: &Vec<Bookmark>) -> (r: String)
    requires
        forall|i: int| 0 <= i < bs@.len() ==> 0 <= #[trigger] bs@[i].id <= usize::MAX,
    ensures
        r@ == json_bookmark_array(bookmarks_view(bs@)),
{
    let mut out = String::new();
    out.push('[');
    let items = e_bookmark_items(bs, 0);
    out.append(items.as_str());
    out.push(']');
    proof {
        assert(bookmarks_view(bs@).subrange(0, bs@.len() as int) =~= bookmarks_view(bs@));
        assert(out@ =~= json_bookmark_array(bookmarks_view(bs@)));
    }
    out
}

/// Writes one [name, count] pair.
fn e_tag_pair(p: &(String, usize)) -> (r: String)
    ensures
        r@ == json_tag_pair(pair_view_of(*p)),
{
    let mut out = String::new();
    out.push('[');
    let name = e_jstring(p.0.as_str());
    out.append(name.as_str());
    out.push(',');
    let num = format_decimal(p.1);
    out.append(num.as_str());
    out.push(']');
    proof {
        assert(out@ =~= json_tag_pair(pair_view_of(*p)));
    }
    out
}

/// The view of one executable pair.
pub open spec fn pair_view_of(p: (String, usize)) -> (Seq<char>, int) {
    (p.0@, p.1 as int)
}

/// Writes the items of the tags response from index `pos` on.
fn e_tag_items(ps: &Vec<(String, usize)>, pos: usize) -> (r: String)
    requires
        pos <= ps@.len(),
    ensures
        r@ == json_tag_items(pairs_view(ps@).subrange(pos as int, ps@.len() as int)),
    decreases ps@.len() - pos,
{
    let n = ps.len();
    let ghost sub = pairs_view(ps@).subrange(pos as int, ps@.len() as int);
    if pos >= n {
        proof {
            assert(sub =~= Seq::<(Seq<char>, int)>::empty());
        }
        String::new()
    } else {
        let mut out = e_tag_pair(&ps[pos]);
        proof {
            assert(sub.first() == pairs_view(ps@)[pos as int]);
            assert(pairs_view(ps@)[pos as int] == pair_view_of(ps@[pos as int]));
        }
        if pos + 1 < n {
            out.push(',');
            let rest = e_tag_items(ps, pos + 1);
            out.append(rest.as_str());
            proof {
                assert(sub.drop_first() =~= pairs_view(ps@).subrange(pos + 1, ps@.len() as int));
                assert(out@ =~= json_tag_items(sub));
            }
        } else {
            proof {
                assert(sub.len() == 1);
            }
        }
        out
    }
}

/// Writes the JSON payload of a tags response.
pub fn e_tag_array(ps: &Vec<(String, usize)>) -> (r: String)
    ensures
        r@ == json_tag_array(pairs_view(ps@)),
{
    let mut out = String::new();
    out.push('[');
    let items = e_tag_items(ps, 0);
    out.append(items.as_str());
    out.push(']');
    proof {
        assert(pairs_view(ps@).subrange(0, ps@.len() as int) =~= pairs_view(ps@));
        assert(out@ =~= json_tag_array(pairs_view(ps@)));
    }
    out
}

/// Writes the repeated tag parameters from index `pos` on.
fn e_tag_params(ts: &Vec<String>, pos: usize) -> (r: String)
    requires
        pos <= ts@.len(),
    ensures
        r@ == enc_tag_params(ts.deep_view().subrange(pos as int, ts@.len() as int)),
    decreases ts@.len() - pos,
{
    let n = ts.len();
    let ghost sub = ts.deep_view().subrange(pos as int, ts@.len() as int);
    if pos >= n {
        proof {
            assert(sub =~= Seq::<Seq<char>>::empty());
        }
        String::new()
    } else {
        let mut out = String::from_str("tag=");
        let v = e_pct(ts[pos].as_str(), 0);
        out.append(v.as_str());
        out.push('&');
        let rest = e_tag_params(ts, pos + 1);
        out.append(rest.as_str());
        proof {
            assert(ts[pos as int]@.subrange(0, ts[pos as int]@.len() as int) =~= ts[
                pos as int
            ]@);
            assert(sub.first() == ts.deep_view()[pos as int]);
            assert(sub.drop_first() =~= ts.deep_view().subrange(pos + 1, ts@.len() as int));
            assert(out@ =~= enc_tag_params(sub));
        }
        out
    }
}

/// Writes the query string of a find or delete request.
pub fn e_search_query(args: &Search) -> (r: String)
    ensures
        r@ == enc_search_query(args@),
{
    let mut out = String::new();
    match &args.query {
        Some(q) => {
            out.append("query=");
            let v = e_pct(q.as_str(), 0);
            out.append(v.as_str());
            out.push('&');
            proof {
                assert(q@.subrange(0, q@.len() as int) =~= q@);
            }
        },
        None => {},
    }
    let tp = e_tag_params(&args.tags, 0);
    out.append(tp.as_str());
    out.append("all_tags=");
    out.append(e_bool(args.all_tags));
    proof {
        assert(args.tags.deep_view().subrange(0, args.tags@.len() as int) =~= args@.tags);
        assert(out@ =~= enc_search_query(args@));
    }
    out
}

/// Writes the query string of a tags request.
pub fn e_tags_query(sort_by_count: bool, reverse: bool) -> (r: String)
    ensures
        r@ == enc_tags_query(sort_by_count, reverse),
{
    let mut out = String::from_str("sort_by_count=");
    out.append(e_bool(sort_by_count));
    out.append("&reverse=");
    out.append(e_bool(reverse));
    proof {
        reveal_strlit("&reverse=");
        reveal_strlit("reverse=");
        assert(out@ =~= enc_tags_query(sort_by_count, reverse));
    }
    out
}

/// Writes the query string of a rename request.
pub fn e_rename_query(from: &str, to: &str) -> (r: String)
    ensures
        r@ == enc_rename_query(from@, to@),
{
    let mut out = String::from_str("from=");
    let f = e_pct(from, 0);
    out.append(f.as_str());
    out.append("&to=");
    let t = e_pct(to, 0);
    out.append(t.as_str());
    proof {
        reveal_strlit("&to=");
        reveal_strlit("to=");
        assert(from@.subrange(0, from@.len() as int) =~= from@);
        assert(to@.subrange(0, to@.len() as int) =~= to@);
        assert(out@ =~= enc_rename_query(from@, to@));
    }
    out
}

/// Writes the JSON body of an add request.
pub fn e_add_body(args: &Add) -> (r: String)
    ensures
        r@ == json_add_body(args@),
{
    let mut out = String::from_str("{\"url\":");
    let u = e_jstring(args.url.as_str());
    out.append(u.as_str());
    out.append(",\"tags\":");
    let ta = e_str_array(&args.tags);
    out.append(ta.as_str());
    out.append(",\"title\":");
    let t = e_opt_string(&args.title);
    out.append(t.as_str());
    out.append(",\"description\":");
    let d = e_opt_string(&args.description);
    out.append(d.as_str());
    out.append("}");
    proof {
        assert(out@ =~= json_add_body(args@));
    }
    out
}


/// Expects the literal `t` at `pos`.
fn p_tok(s: &str, pos: usize, t: &str) -> (r: Option<usize>)
    ensures
        r matches Some(p) ==> sp_tok(s@, pos as int, t@) == Some(p as int) && pos <= p <= s@.len(),
        r is None ==> sp_tok(s@, pos as int, t@) is None,
{
    let n = s.unicode_len();
    let m = t.unicode_len();
    if pos > n || m > n - pos {
        assert(!starts_with(s@, pos as int, t@));
        return None;
    }
    if match_at(s, t, pos) {
        Some(pos + m)
    } else {
        assert(!starts_with(s@, pos as int, t@));
        None
    }
}

proof fn lemma_digits_end_skip(s: Seq<char>, p: int, k: int)
    requires
        0 <= p <= k <= s.len(),
        forall|j: int| p <= j < k ==> is_digit(#[trigger] s[j]),
    ensures
        digits_end(s, p) == digits_end(s, k),
        digits_end(s, k) >= k,
        digits_end(s, k) <= s.len(),
    decreases s.len() - p,
{
    if k > p {
        lemma_digits_end_skip(s, p + 1, k);
    } else if 0 <= p < s.len() && is_digit(s[p]) {
        lemma_digits_end_skip(s, p + 1, p + 1);
    }
}

/// Reads a decimal number.
fn p_num(s: &str, pos: usize) -> (r: Option<(usize, usize)>)
    ensures
        r matches Some((v, p)) ==> sp_num(s@, pos as int) == Some((v as nat, p as int)) && pos < p
            <= s@.len(),
        r is None ==> sp_num(s@, pos as int) is None,
{
    let n = s.unicode_len();
    if pos >= n {
        return None;
    }
    let c0 = s.get_char(pos);
    if c0 < '0' || c0 > '9' {
        return None;
    }
    let mut acc: usize = 0;
    let mut i: usize = pos;
    while i < n
        invariant
            n == s@.len(),
            pos <= i <= n,
            pos < n,
            is_digit(s@[pos as int]),
            forall|j: int| pos <= j < i ==> is_digit(#[trigger] s@[j]),
            acc == dec_value(s@.subrange(pos as int, i as int)),
        decreases n - i,
    {
        let c = s.get_char(i);
        if c < '0' || c > '9' {
            proof {
                lemma_digits_end_run(s@, pos as int, i as int);
                assert(s@.subrange(pos as int, digits_end(s@, pos as int)) =~= s@.subrange(
                    pos as int,
                    i as int,
                ));
            }
            if i == pos {
                return None;
            }
            return Some((acc, i));
        }
        let d: usize = (c as u32 as usize) - 48;
        proof {
            assert(s@.subrange(pos as int, i + 1).drop_last() =~= s@.subrange(
                pos as int,
                i as int,
            ));
            assert(s@.subrange(pos as int, i + 1).last() == s@[i as int]);
        }
        if acc > (usize::MAX - d) / 10 {
            proof {
                assert(acc * 10 + d > usize::MAX) by (nonlinear_arith)
                    requires
                        acc > (usize::MAX - d) / 10 && d <= 9,
                ;
                assert(is_digit(s@[i as int]));
                lemma_digits_end_skip(s@, pos as int, i + 1);
                assert(digits_end(s@, pos as int) >= i + 1);
                let de = digits_end(s@, pos as int);
                let run = s@.subrange(pos as int, de);
                assert(run.subrange(0, i + 1 - pos) =~= s@.subrange(pos as int, i + 1));
                crate::decimal::lemma_dec_value_prefix(run, i + 1 - pos);
            }
            return None;
        }
        assert(acc * 10 + d <= usize::MAX) by (nonlinear_arith)
            requires
                acc <= (usize::MAX - d) / 10 && d <= 9,
        ;
        acc = acc * 10 + d;
        i = i + 1;
    }
    proof {
        lemma_digits_end_run(s@, pos as int, n as int);
        assert(s@.subrange(pos as int, digits_end(s@, pos as int)) =~= s@.subrange(
            pos as int,
            n as int,
        ));
    }
    Some((acc, n))
}

/// Reads a boolean token.
fn p_bool(s: &str, pos: usize) -> (r: Option<(bool, usize)>)
    ensures
        r matches Some((b, p)) ==> sp_bool(s@, pos as int) == Some((b, p as int)) && pos < p
            <= s@.len(),
        r is None ==> sp_bool(s@, pos as int) is None,
{
    match p_tok(s, pos, "true") {
        Some(p) => {
            proof {
                reveal_strlit("true");
            }
            Some((true, p))
        },
        None => match p_tok(s, pos, "false") {
            Some(p) => {
                proof {
                    reveal_strlit("false");
                }
                Some((false, p))
            },
            None => None,
        },
    }
}

/// Reads a JSON string literal body after its opening quote.
fn p_jstr(s: &str, pos: usize) -> (r: Option<(String, usize)>)
    ensures
        r matches Some((v, p)) ==> sp_jstr(s@, pos as int) == Some((v@, p as int)) && pos < p
            <= s@.len(),
        r is None ==> sp_jstr(s@, pos as int) is None,
    decreases s@.len() - pos,
{
    let n = s.unicode_len();
    if pos >= n {
        return None;
    }
    let c = s.get_char(pos);
    if c == '"' {
        let out = String::new();
        proof {
            assert(out@ =~= Seq::<char>::empty());
        }
        return Some((out, pos + 1));
    }
    if c == '\\' {
        if pos + 1 < n {
            let c1 = s.get_char(pos + 1);
            if c1 == '"' || c1 == '\\' {
                match p_jstr(s, pos + 2) {
                    Some((v, p)) => {
                        let mut out = String::new();
                        out.push(c1);
                        out.append(v.as_str());
                        proof {
                            assert(out@ =~= seq![s@[pos + 1]] + v@);
                        }
                        return Some((out, p));
                    },
                    None => {
                        return None;
                    },
                }
            }
        }
        if n - pos > 5 {
            let c1 = s.get_char(pos + 1);
            let c2 = s.get_char(pos + 2);
            let c3 = s.get_char(pos + 3);
            let c4 = s.get_char(pos + 4);
            let c5 = s.get_char(pos + 5);
            if c1 == 'u' && c2 == '0' && c3 == '0' && is_hex_char(c4) && is_hex_char(c5) {
                let code = hexv(c4) * 16 + hexv(c5);
                if code < 128 {
                    match p_jstr(s, pos + 6) {
                        Some((v, p)) => {
                            let mut out = String::new();
                            out.push((code as u8) as char);
                            out.append(v.as_str());
                            proof {
                                assert(out@ =~= seq![(code as u8) as char] + v@);
                            }
                            return Some((out, p));
                        },
                        None => {
                            return None;
                        },
                    }
                }
            }
        }
        return None;
    }
    match p_jstr(s, pos + 1) {
        Some((v, p)) => {
            let mut out = String::new();
            out.push(c);
            out.append(v.as_str());
            proof {
                assert(out@ =~= seq![s@[pos as int]] + v@);
            }
            Some((out, p))
        },
        None => None,
    }
}

/// Reads a whole JSON string literal.
fn p_string(s: &str, pos: usize) -> (r: Option<(String, usize)>)
    ensures
        r matches Some((v, p)) ==> sp_string(s@, pos as int) == Some((v@, p as int)) && pos < p
            <= s@.len(),
        r is None ==> sp_string(s@, pos as int) is None,
{
    let n = s.unicode_len();
    if pos >= n {
        return None;
    }
    if s.get_char(pos) != '"' {
        return None;
    }
    p_jstr(s, pos + 1)
}

/// Reads a JSON string literal or "null".
fn p_opt_string(s: &str, pos: usize) -> (r: Option<(Option<String>, usize)>)
    ensures
        r matches Some((v, p)) ==> sp_opt_string(s@, pos as int) == Some(
            (v.deep_view(), p as int),
        ) && pos < p <= s@.len(),
        r is None ==> sp_opt_string(s@, pos as int) is None,
{
    match p_tok(s, pos, "null") {
        Some(p) => {
            proof {
                reveal_strlit("null");
            }
            Some((None, p))
        },
        None => match p_string(s, pos) {
            Some((v, p)) => Some((Some(v), p)),
            None => None,
        },
    }
}

/// Reads a percent-encoded value up to the next '&' or the end.
fn p_pct_upto(s: &str, pos: usize) -> (r: Option<(String, usize)>)
    ensures
        r matches Some((v, p)) ==> sp_pct_upto(s@, pos as int) == Some((v@, p as int)) && pos <= p
            <= s@.len(),
        r is None ==> sp_pct_upto(s@, pos as int) is None,
    decreases s@.len() - pos,
{
    let n = s.unicode_len();
    if pos > n {
        return None;
    }
    if pos == n {
        let out = String::new();
        proof {
            assert(out@ =~= Seq::<char>::empty());
        }
        return Some((out, pos));
    }
    let c = s.get_char(pos);
    if c == '&' {
        let out = String::new();
        proof {
            assert(out@ =~= Seq::<char>::empty());
        }
        return Some((out, pos));
    }
    if c == '%' {
        if n - pos > 2 {
            let c1 = s.get_char(pos + 1);
            let c2 = s.get_char(pos + 2);
            if is_hex_char(c1) && is_hex_char(c2) {
                let code = hexv(c1) * 16 + hexv(c2);
                if code < 128 {
                    match p_pct_upto(s, pos + 3) {
                        Some((v, p)) => {
                            let mut out = String::new();
                            out.push((code as u8) as char);
                            out.append(v.as_str());
                            proof {
                                assert(out@ =~= seq![(code as u8) as char] + v@);
                            }
                            return Some((out, p));
                        },
                        None => {
                            return None;
                        },
                    }
                }
            }
        }
        return None;
    }
    match p_pct_upto(s, pos + 1) {
        Some((v, p)) => {
            let mut out = String::new();
            out.push(c);
            out.append(v.as_str());
            proof {
                assert(out@ =~= seq![s@[pos as int]] + v@);
            }
            Some((out, p))
        },
        None => None,
    }
}

/// Reads the items of a JSON string array.
fn p_str_items(s: &str, pos: usize) -> (r: Option<(Vec<String>, usize)>)
    ensures
        r matches Some((vs, p)) ==> sp_str_items(s@, pos as int) == Some(
            (vs.deep_view(), p as int),
        ) && pos < p <= s@.len(),
        r is None ==> sp_str_items(s@, pos as int) is None,
    decreases s@.len() - pos,
{
    proof {
        reveal_strlit(",");
    }
    match p_string(s, pos) {
        Some((v, p)) => {
            if p < s.unicode_len() && s.get_char(p) == ',' {
                proof {
                    assert(s@.subrange(p as int, p + 1) =~= seq![',']);
                    assert(starts_with(s@, p as int, seq![',']));
                }
                match p_str_items(s, p + 1) {
                    Some((vs, p2)) => {
                        let mut out = vs;
                        out.insert(0, v);
                        proof {
                            assert(out.deep_view() =~= seq![v@] + out@.subrange(
                                1,
                                out@.len() as int,
                            ).map_values(|x: String| x@));
                            assert(out@.subrange(1, out@.len() as int) =~= out@.subrange(
                                1,
                                out@.len() as int,
                            ));
                            assert(out.deep_view() =~= seq![v@] + vs_dv(out));
                        }
                        Some((out, p2))
                    },
                    None => None,
                }
            } else {
                proof {
                    if p < s@.len() {
                        assert(!starts_with(s@, p as int, seq![','])) by {
                            if starts_with(s@, p as int, seq![',']) {
                                assert(s@.subrange(p as int, p + 1)[0] == ',');
                            }
                        }
                    } else {
                        assert(!starts_with(s@, p as int, seq![',']));
                    }
                }
                let mut out: Vec<String> = Vec::new();
                out.push(v);
                proof {
                    assert(out.deep_view() =~= seq![out@[0]@]);
                }
                Some((out, p))
            }
        },
        None => None,
    }
}

spec fn vs_dv(v: Vec<String>) -> Seq<Seq<char>> {
    v@.subrange(1, v@.len() as int).map_values(|x: String| x@)
}


/// Reads a JSON array of strings.
fn p_str_array(s: &str, pos: usize) -> (r: Option<(Vec<String>, usize)>)
    ensures
        r matches Some((vs, p)) ==> sp_str_array(s@, pos as int) == Some(
            (vs.deep_view(), p as int),
        ) && pos < p <= s@.len(),
        r is None ==> sp_str_array(s@, pos as int) is None,
{
    proof {
        reveal_strlit("[");
        reveal_strlit("]");
        reveal_strlit("[]");
    }
    match p_tok(s, pos, "[]") {
        Some(p) => {
            let out: Vec<String> = Vec::new();
            proof {
                assert(out.deep_view() =~= Seq::<Seq<char>>::empty());
            }
            Some((out, p))
        },
        None => match p_tok(s, pos, "[") {
            Some(p1) => match p_str_items(s, p1) {
                Some((vs, p2)) => match p_tok(s, p2, "]") {
                    Some(p3) => Some((vs, p3)),
                    None => None,
                },
                None => None,
            },
            None => None,
        },
    }
}

/// Reads a bookmark object.
pub fn p_bookmark(s: &str, pos: usize) -> (r: Option<(Bookmark, usize)>)
    ensures
        r matches Some((b, p)) ==> sp_bookmark(s@, pos as int) == Some((b@, p as int)) && pos < p
            <= s@.len(),
        r is None ==> sp_bookmark(s@, pos as int) is None,
{
    let p1 = match p_tok(s, pos, "{\"id\":") {
        Some(p) => p,
        None => {
            return None;
        },
    };
    let (idv, p2) = match p_num(s, p1) {
        Some(x) => x,
        None => {
            return None;
        },
    };
    if (idv as u64) > (i64::MAX as u64) {
        return None;
    }
    let p3 = match p_tok(s, p2, ",\"url\":") {
        Some(p) => p,
        None => {
            return None;
        },
    };
    let (url, p4) = match p_string(s, p3) {
        Some(x) => x,
        None => {
            return None;
        },
    };
    let p5 = match p_tok(s, p4, ",\"title\":") {
        Some(p) => p,
        None => {
            return None;
        },
    };
    let (title, p6) = match p_opt_string(s, p5) {
        Some(x) => x,
        None => {
            return None;
        },
    };
    let p7 = match p_tok(s, p6, ",\"description\":") {
        Some(p) => p,
        None => {
            return None;
        },
    };
    let (description, p8) = match p_opt_string(s, p7) {
        Some(x) => x,
        None => {
            return None;
        },
    };
    let p9 = match p_tok(s, p8, ",\"tags\":") {
        Some(p) => p,
        None => {
            return None;
        },
    };
    let (tags, p10) = match p_str_array(s, p9) {
        Some(x) => x,
        None => {
            return None;
        },
    };
    let p11 = match p_tok(s, p10, "}") {
        Some(p) => p,
        None => {
            return None;
        },
    };
    let b = Bookmark { id: idv as i64, url, title, description, tags };
    proof {
        assert(sp_bookmark(s@, pos as int) matches Some((bv, pv)) && bv =~= b@ && pv
            == p11 as int);
    }
    Some((b, p11))
}

/// Reads the items of a bookmark array.
fn p_bookmark_items(s: &str, pos: usize) -> (r: Option<(Vec<Bookmark>, usize)>)
    ensures
        r matches Some((bs, p)) ==> sp_bookmark_items(s@, pos as int) == Some(
            (bookmarks_view(bs@), p as int),
        ) && pos < p <= s@.len(),
        r is None ==> sp_bookmark_items(s@, pos as int) is None,
    decreases s@.len() - pos,
{
    proof {
        reveal_strlit(",");
    }
    match p_bookmark(s, pos) {
        Some((b, p)) => {
            if p < s.unicode_len() && s.get_char(p) == ',' {
                proof {
                    assert(s@.subrange(p as int, p + 1) =~= seq![',']);
                    assert(starts_with(s@, p as int, seq![',']));
                }
                match p_bookmark_items(s, p + 1) {
                    Some((bs, p2)) => {
                        let mut out = bs;
                        out.insert(0, b);
                        proof {
                            assert(bookmarks_view(out@) =~= seq![out@[0]@] + bookmarks_view(
                                out@.subrange(1, out@.len() as int),
                            ));
                        }
                        Some((out, p2))
                    },
                    None => None,
                }
            } else {
                proof {
                    if p < s@.len() {
                        assert(!starts_with(s@, p as int, seq![','])) by {
                            if starts_with(s@, p as int, seq![',']) {
                                assert(s@.subrange(p as int, p + 1)[0] == ',');
                            }
                        }
                    } else {
                        assert(!starts_with(s@, p as int, seq![',']));
                    }
                }
                let mut out: Vec<Bookmark> = Vec::new();
                out.push(b);
                proof {
                    assert(bookmarks_view(out@) =~= seq![out@[0]@]);
                }
                Some((out, p))
            }
        },
        None => None,
    }
}

/// Reads the JSON payload of a find response.
pub fn p_bookmark_array(s: &str, pos: usize) -> (r: Option<(Vec<Bookmark>, usize)>)
    ensures
        r matches Some((bs, p)) ==> sp_bookmark_array(s@, pos as int) == Some(
            (bookmarks_view(bs@), p as int),
        ) && pos < p <= s@.len(),
        r is None ==> sp_bookmark_array(s@, pos as int) is None,
{
    proof {
        reveal_strlit("[");
        reveal_strlit("]");
        reveal_strlit("[]");
    }
    match p_tok(s, pos, "[]") {
        Some(p) => {
            let out: Vec<Bookmark> = Vec::new();
            proof {
                assert(bookmarks_view(out@) =~= Seq::<BookmarkView>::empty());
            }
            Some((out, p))
        },
        None => match p_tok(s, pos, "[") {
            Some(p1) => match p_bookmark_items(s, p1) {
                Some((bs, p2)) => match p_tok(s, p2, "]") {
                    Some(p3) => Some((bs, p3)),
                    None => None,
                },
                None => None,
            },
            None => None,
        },
    }
}

/// Reads one [name, count] pair.
fn p_tag_pair(s: &str, pos: usize) -> (r: Option<((String, usize), usize)>)
    ensures
        r matches Some((pr, p)) ==> sp_tag_pair(s@, pos as int) == Some(
            (pair_view_of(pr), p as int),
        ) && pos < p <= s@.len(),
        r is None ==> sp_tag_pair(s@, pos as int) is None,
{
    proof {
        reveal_strlit("[");
        reveal_strlit("]");
        reveal_strlit(",");
    }
    let p1 = match p_tok(s, pos, "[") {
        Some(p) => p,
        None => {
            return None;
        },
    };
    let (name, p2) = match p_string(s, p1) {
        Some(x) => x,
        None => {
            return None;
        },
    };
    let p3 = match p_tok(s, p2, ",") {
        Some(p) => p,
        None => {
            return None;
        },
    };
    let (n, p4) = match p_num(s, p3) {
        Some(x) => x,
        None => {
            return None;
        },
    };
    let p5 = match p_tok(s, p4, "]") {
        Some(p) => p,
        None => {
            return None;
        },
    };
    Some(((name, n), p5))
}

/// Reads the items of the tags response.
fn p_tag_items(s: &str, pos: usize) -> (r: Option<(Vec<(String, usize)>, usize)>)
    ensures
        r matches Some((ps, p)) ==> sp_tag_items(s@, pos as int) == Some(
            (pairs_view(ps@), p as int),
        ) && pos < p <= s@.len(),
        r is None ==> sp_tag_items(s@, pos as int) is None,
    decreases s@.len() - pos,
{
    proof {
        reveal_strlit(",");
    }
    match p_tag_pair(s, pos) {
        Some((pr, p)) => {
            if p < s.unicode_len() && s.get_char(p) == ',' {
                proof {
                    assert(s@.subrange(p as int, p + 1) =~= seq![',']);
                    assert(starts_with(s@, p as int, seq![',']));
                }
                match p_tag_items(s, p + 1) {
                    Some((ps, p2)) => {
                        let mut out = ps;
                        out.insert(0, pr);
                        proof {
                            assert(pairs_view(out@) =~= seq![pair_view_of(out@[0])] + pairs_view(
                                out@.subrange(1, out@.len() as int),
                            ));
                        }
                        Some((out, p2))
                    },
                    None => None,
                }
            } else {
                proof {
                    if p < s@.len() {
                        assert(!starts_with(s@, p as int, seq![','])) by {
                            if starts_with(s@, p as int, seq![',']) {
                                assert(s@.subrange(p as int, p + 1)[0] == ',');
                            }
                        }
                    } else {
                        assert(!starts_with(s@, p as int, seq![',']));
                    }
                }
                let mut out: Vec<(String, usize)> = Vec::new();
                out.push(pr);
                proof {
                    assert(pairs_view(out@) =~= seq![pair_view_of(out@[0])]);
                }
                Some((out, p))
            }
        },
        None => None,
    }
}

/// Reads the JSON payload of a tags response.
pub fn p_tag_array(s: &str, pos: usize) -> (r: Option<(Vec<(String, usize)>, usize)>)
    ensures
        r matches Some((ps, p)) ==> sp_tag_array(s@, pos as int) == Some(
            (pairs_view(ps@), p as int),
        ) && pos < p <= s@.len(),
        r is None ==> sp_tag_array(s@, pos as int) is None,
{
    proof {
        reveal_strlit("[");
        reveal_strlit("]");
        reveal_strlit("[]");
    }
    match p_tok(s, pos, "[]") {
        Some(p) => {
            let out: Vec<(String, usize)> = Vec::new();
            proof {
                assert(pairs_view(out@) =~= Seq::<(Seq<char>, int)>::empty());
            }
            Some((out, p))
        },
        None => match p_tok(s, pos, "[") {
            Some(p1) => match p_tag_items(s, p1) {
                Some((ps, p2)) => match p_tok(s, p2, "]") {
                    Some(p3) => Some((ps, p3)),
                    None => None,
                },
                None => None,
            },
            None => None,
        },
    }
}

/// Reads the repeated tag parameters of a search query.
fn p_tag_params(s: &str, pos: usize) -> (r: Option<(Vec<String>, usize)>)
    requires
        pos <= s@.len(),
    ensures
        r matches Some((ts, p)) ==> sp_tag_params(s@, pos as int) == Some(
            (ts.deep_view(), p as int),
        ) && pos <= p <= s@.len(),
        r is None ==> sp_tag_params(s@, pos as int) is None,
    decreases s@.len() - pos,
{
    proof {
        reveal_strlit("tag=");
    }
    match p_tok(s, pos, "tag=") {
        Some(p1) => match p_pct_upto(s, p1) {
            Some((v, p)) => {
                if p < s.unicode_len() && s.get_char(p) == '&' {
                    if p + 1 > pos {
                        match p_tag_params(s, p + 1) {
                            Some((ts, p2)) => {
                                let mut out = ts;
                                out.insert(0, v);
                                proof {
                                    assert(out.deep_view() =~= seq![out@[0]@] + out@.subrange(
                                        1,
                                        out@.len() as int,
                                    ).map_values(|x: String| x@));
                                }
                                Some((out, p2))
                            },
                            None => None,
                        }
                    } else {
                        None
                    }
                } else {
                    None
                }
            },
            None => None,
        },
        None => {
            let out: Vec<String> = Vec::new();
            proof {
                assert(out.deep_view() =~= Seq::<Seq<char>>::empty());
            }
            Some((out, pos))
        },
    }
}

/// Reads a whole search query string.
pub fn p_search_query(s: &str) -> (r: Option<Search>)
    ensures
        r matches Some(args) ==> sp_search_query(s@) == Some(args@),
        r is None ==> sp_search_query(s@) is None,
{
    proof {
        reveal_strlit("query=");
        reveal_strlit("all_tags=");
    }
    let (query, pos) = match p_tok(s, 0, "query=") {
        Some(p1) => match p_pct_upto(s, p1) {
            Some((v, p)) => {
                if p < s.unicode_len() && s.get_char(p) == '&' {
                    (Some(v), p + 1)
                } else {
                    return None;
                }
            },
            None => {
                return None;
            },
        },
        None => (None, 0),
    };
    let (tags, p2) = match p_tag_params(s, pos) {
        Some(x) => x,
        None => {
            return None;
        },
    };
    let p3 = match p_tok(s, p2, "all_tags=") {
        Some(p) => p,
        None => {
            return None;
        },
    };
    let (all_tags, p4) = match p_bool(s, p3) {
        Some(x) => x,
        None => {
            return None;
        },
    };
    if p4 != s.unicode_len() {
        return None;
    }
    let args = Search { query, tags, all_tags };
    proof {
        assert(sp_search_query(s@) matches Some(a) && a =~= args@);
    }
    Some(args)
}

/// Reads a whole tags query string.
pub fn p_tags_query(s: &str) -> (r: Option<(bool, bool)>)
    ensures
        r == sp_tags_query(s@),
{
    proof {
        reveal_strlit("sort_by_count=");
        reveal_strlit("&reverse=");
    }
    let p1 = match p_tok(s, 0, "sort_by_count=") {
        Some(p) => p,
        None => {
            return None;
        },
    };
    let (sc, p2) = match p_bool(s, p1) {
        Some(x) => x,
        None => {
            return None;
        },
    };
    let p3 = match p_tok(s, p2, "&reverse=") {
        Some(p) => p,
        None => {
            return None;
        },
    };
    let (rv, p4) = match p_bool(s, p3) {
        Some(x) => x,
        None => {
            return None;
        },
    };
    if p4 != s.unicode_len() {
        return None;
    }
    Some((sc, rv))
}

/// Reads a whole rename query string.
pub fn p_rename_query(s: &str) -> (r: Option<(String, String)>)
    ensures
        r matches Some((f, t)) ==> sp_rename_query(s@) == Some((f@, t@)),
        r is None ==> sp_rename_query(s@) is None,
{
    proof {
        reveal_strlit("from=");
        reveal_strlit("&to=");
    }
    let p1 = match p_tok(s, 0, "from=") {
        Some(p) => p,
        None => {
            return None;
        },
    };
    let (from, p2) = match p_pct_upto(s, p1) {
        Some(x) => x,
        None => {
            return None;
        },
    };
    let p3 = match p_tok(s, p2, "&to=") {
        Some(p) => p,
        None => {
            return None;
        },
    };
    let (to, p4) = match p_pct_upto(s, p3) {
        Some(x) => x,
        None => {
            return None;
        },
    };
    if p4 != s.unicode_len() {
        return None;
    }
    Some((from, to))
}

/// Reads a whole add request body.
pub fn p_add_body(s: &str) -> (r: Option<Add>)
    ensures
        r matches Some(args) ==> sp_add_body(s@) == Some(args@),
        r is None ==> sp_add_body(s@) is None,
{
    let p1 = match p_tok(s, 0, "{\"url\":") {
        Some(p) => p,
        None => {
            return None;
        },
    };
    let (url, p2) = match p_string(s, p1) {
        Some(x) => x,
        None => {
            return None;
        },
    };
    let p3 = match p_tok(s, p2, ",\"tags\":") {
        Some(p) => p,
        None => {
            return None;
        },
    };
    let (tags, p4) = match p_str_array(s, p3) {
        Some(x) => x,
        None => {
            return None;
        },
    };
    let p5 = match p_tok(s, p4, ",\"title\":") {
        Some(p) => p,
        None => {
            return None;
        },
    };
    let (title, p6) = match p_opt_string(s, p5) {
        Some(x) => x,
        None => {
            return None;
        },
    };
    let p7 = match p_tok(s, p6, ",\"description\":") {
        Some(p) => p,
        None => {
            return None;
        },
    };
    let (description, p8) = match p_opt_string(s, p7) {
        Some(x) => x,
        None => {
            return None;
        },
    };
    let p9 = match p_tok(s, p8, "}") {
        Some(p) => p,
        None => {
            return None;
        },
    };
    if p9 != s.unicode_len() {
        return None;
    }
    let args = Add { url, tags, title, description };
    proof {
        assert(sp_add_body(s@) matches Some(a) && a =~= args@);
    }
    Some(args)
}

/// Reads a whole decimal count response.
pub fn p_count(s: &str) -> (r: Option<usize>)
    ensures
        r matches Some(v) ==> sp_num(s@, 0) == Some((v as nat, s@.len() as int)),
        r is None ==> !(sp_num(s@, 0) matches Some((v, p)) && p == s@.len()),
{
    match p_num(s, 0) {
        Some((v, p)) => {
            if p == s.unicode_len() {
                Some(v)
            } else {
                None
            }
        },
        None => None,
    }
}

} // verus!
