//! The provider's wire format: a JSON object holding a `"rates"` member
//! that maps upper-case currency codes to decimal rates. Whitespace between
//! tokens is skipped, other members with scalar values (strings, numbers,
//! `true`/`false`/`null`) are ignored, and overlong fractions are rounded
//! onto the `10^-12` grid. The parser is written against the spec-level
//! grammar below, so what a body decodes to is pinned byte by byte, and
//! `lemma_body_round_trip` shows the grammar reads back every canonical
//! body exactly.
use vstd::prelude::*;

use crate::decimal::Decimal;
use crate::decimal::is_digit;
use crate::decimal::parse_number;
use crate::decimal::scan_digits;
use crate::decimal::spec_number;

verus! {

/// Why a rate could not be fetched.
#[derive(Debug)]
pub enum FetchError {
    /// The transport failed before a body was read; carries its diagnostic.
    Network(String),
    /// The body is not a well-formed rates response.
    Decode,
    /// The body decoded, but the requested code is absent from the mapping.
    TargetNotFound,
}

pub open spec fn is_upper(b: u8) -> bool {
    65 <= b <= 90
}

pub open spec fn is_ws(b: u8) -> bool {
    b == 32 || b == 9 || b == 10 || b == 13
}

/// First index at or after `i` that does not hold JSON whitespace.
pub open spec fn scan_ws(s: Seq<u8>, i: int) -> int
    decreases s.len() - i when 0 <= i <= s.len()
{
    if i < s.len() && is_ws(s[i]) {
        scan_ws(s, i + 1)
    } else {
        i
    }
}

pub proof fn lemma_scan_ws_eq(s: Seq<u8>, i: int, j: int)
    requires
        0 <= i <= j <= s.len(),
        forall|k: int| i <= k < j ==> is_ws(s[k]),
        j < s.len() ==> !is_ws(s[j]),
    ensures
        scan_ws(s, i) == j,
    decreases j - i,
{
    if i < j {
        lemma_scan_ws_eq(s, i + 1, j);
    }
}

/// First index at or after `i` that does not hold an upper-case ASCII letter.
pub open spec fn scan_letters(s: Seq<u8>, i: int) -> int
    decreases s.len() - i when 0 <= i <= s.len()
{
    if i < s.len() && is_upper(s[i]) {
        scan_letters(s, i + 1)
    } else {
        i
    }
}

pub proof fn lemma_scan_letters_eq(s: Seq<u8>, i: int, j: int)
    requires
        0 <= i <= j <= s.len(),
        forall|k: int| i <= k < j ==> is_upper(s[k]),
        j < s.len() ==> !is_upper(s[j]),
    ensures
        scan_letters(s, i) == j,
    decreases j - i,
{
    if i < j {
        lemma_scan_letters_eq(s, i + 1, j);
    }
}

/// The position just past a string token whose opening quote stood at
/// `i - 1`: bytes run to the closing quote, a backslash escaping the byte
/// after it.
pub open spec fn scan_string(s: Seq<u8>, i: int) -> Option<int>
    decreases s.len() - i when 0 <= i <= s.len()
{
    if i >= s.len() {
        None
    } else if s[i] == 34 {
        Some(i + 1)
    } else if s[i] == 92 {
        if i + 2 <= s.len() {
            scan_string(s, i + 2)
        } else {
            None
        }
    } else {
        scan_string(s, i + 1)
    }
}

/// The position just past an optional `.digits` fraction at `j`.
pub open spec fn scan_frac_opt(s: Seq<u8>, j: int) -> Option<int> {
    if j < s.len() && s[j] == 46 {
        let k = scan_digits(s, j + 1);
        if k == j + 1 {
            None
        } else {
            Some(k)
        }
    } else {
        Some(j)
    }
}

/// The position just past an optional `e[+-]digits` exponent at `k`.
pub open spec fn scan_exp_opt(s: Seq<u8>, k: int) -> Option<int> {
    if k < s.len() && (s[k] == 101 || s[k] == 69) {
        let e1 = if k + 1 < s.len() && (s[k + 1] == 43 || s[k + 1] == 45) {
            k + 2
        } else {
            k + 1
        };
        let e = scan_digits(s, e1);
        if e == e1 {
            None
        } else {
            Some(e)
        }
    } else {
        Some(k)
    }
}

/// The position just past a JSON number shape at `i`: an optional minus,
/// digits, an optional fraction, an optional exponent.
pub open spec fn scan_number_shape(s: Seq<u8>, i: int) -> Option<int> {
    let i1 = if i < s.len() && s[i] == 45 {
        i + 1
    } else {
        i
    };
    let j = scan_digits(s, i1);
    if j == i1 {
        None
    } else {
        match scan_frac_opt(s, j) {
            None => None,
            Some(k) => scan_exp_opt(s, k),
        }
    }
}

/// The position just past a scalar JSON value at `i`: a string, a number,
/// `true`, `false` or `null`. Members the decoder ignores carry these.
pub open spec fn skip_scalar(s: Seq<u8>, i: int) -> Option<int> {
    if i >= s.len() {
        None
    } else if s[i] == 34 {
        scan_string(s, i + 1)
    } else if s[i] == 116 {
        if i + 4 <= s.len() && s[i + 1] == 114 && s[i + 2] == 117 && s[i + 3] == 101 {
            Some(i + 4)
        } else {
            None
        }
    } else if s[i] == 102 {
        if i + 5 <= s.len() && s[i + 1] == 97 && s[i + 2] == 108 && s[i + 3] == 115 && s[i + 4]
            == 101 {
            Some(i + 5)
        } else {
            None
        }
    } else if s[i] == 110 {
        if i + 4 <= s.len() && s[i + 1] == 117 && s[i + 2] == 108 && s[i + 3] == 108 {
            Some(i + 4)
        } else {
            None
        }
    } else {
        scan_number_shape(s, i)
    }
}

/// Whether the seven bytes at `i` spell the key `"rates"`.
pub open spec fn is_rates_key(s: Seq<u8>, i: int) -> bool {
    &&& i + 7 <= s.len()
    &&& s[i] == 34
    &&& s[i + 1] == 114
    &&& s[i + 2] == 97
    &&& s[i + 3] == 116
    &&& s[i + 4] == 101
    &&& s[i + 5] == 115
    &&& s[i + 6] == 34
}

/// A quoted currency code at position `i`: a double quote, one or more
/// upper-case letters, and a closing double quote. Yields the code's bytes
/// and the position just past the closing quote.
pub open spec fn spec_key(s: Seq<u8>, i: int) -> Option<(Seq<u8>, int)> {
    if 0 <= i < s.len() && s[i] == 34 {
        let j = scan_letters(s, i + 1);
        if j == i + 1 {
            None
        } else if j < s.len() && s[j] == 34 {
            Some((s.subrange(i + 1, j), j + 1))
        } else {
            None
        }
    } else {
        None
    }
}

/// One `"CODE": number` member at position `i`, whitespace allowed around
/// the colon.
pub open spec fn spec_pair(s: Seq<u8>, i: int) -> Option<((Seq<u8>, int), int)> {
    match spec_key(s, i) {
        None => None,
        Some((k, j)) => {
            let c = scan_ws(s, j);
            if c < s.len() && s[c] == 58 {
                match spec_number(s, scan_ws(s, c + 1)) {
                    None => None,
                    Some((v, m)) => Some(((k, v), m)),
                }
            } else {
                None
            }
        },
    }
}

/// One or more comma-separated members starting at `i`. Yields the members
/// in order and the position of the first non-whitespace byte after the
/// last one.
pub open spec fn spec_pairs(s: Seq<u8>, i: int) -> Option<(Seq<(Seq<u8>, int)>, int)>
    decreases s.len() - i when 0 <= i <= s.len()
{
    match spec_pair(s, i) {
        None => None,
        Some((kv, m)) => if !(i < m <= s.len()) {
            None
        } else {
            let c = scan_ws(s, m);
            if !(m <= c <= s.len()) {
                None
            } else if c < s.len() && s[c] == 44 {
                let n = scan_ws(s, c + 1);
                if !(c < n <= s.len()) {
                    None
                } else {
                    match spec_pairs(s, n) {
                        None => None,
                        Some((rest, e)) => Some((seq![kv] + rest, e)),
                    }
                }
            } else {
                Some((seq![kv], c))
            }
        },
    }
}

/// The rates object itself: `{`, the code/rate members (possibly none),
/// and `}`. Yields the table and the position just past the brace.
pub open spec fn spec_rates_object(s: Seq<u8>, i: int) -> Option<(Seq<(Seq<u8>, int)>, int)> {
    if 0 <= i < s.len() && s[i] == 123 {
        let w = scan_ws(s, i + 1);
        if w < s.len() && s[w] == 125 {
            Some((Seq::empty(), w + 1))
        } else {
            match spec_pairs(s, w) {
                None => None,
                Some((t, c)) => if c < s.len() && s[c] == 125 {
                    Some((t, c + 1))
                } else {
                    None
                },
            }
        }
    } else {
        None
    }
}

/// One top-level member at `i`: either the `"rates"` member, yielding its
/// table, or any other string key whose scalar value is skipped.
pub open spec fn spec_member(s: Seq<u8>, i: int) -> Option<(Option<Seq<(Seq<u8>, int)>>, int)> {
    if is_rates_key(s, i) {
        let c = scan_ws(s, i + 7);
        if c < s.len() && s[c] == 58 {
            match spec_rates_object(s, scan_ws(s, c + 1)) {
                None => None,
                Some((t, j)) => Some((Some(t), j)),
            }
        } else {
            None
        }
    } else if 0 <= i < s.len() && s[i] == 34 {
        match scan_string(s, i + 1) {
            None => None,
            Some(ke) => {
                let c = scan_ws(s, ke);
                if c < s.len() && s[c] == 58 {
                    match skip_scalar(s, scan_ws(s, c + 1)) {
                        None => None,
                        Some(j) => Some((None, j)),
                    }
                } else {
                    None
                }
            },
        }
    } else {
        None
    }
}

/// The top-level members from `i` to the closing brace: exactly one of
/// them must be `"rates"` (`seen` carries its table once found). Yields
/// that table and the position just past the closing brace.
pub open spec fn spec_members(
    s: Seq<u8>,
    i: int,
    seen: Option<Seq<(Seq<u8>, int)>>,
) -> Option<(Seq<(Seq<u8>, int)>, int)>
    decreases s.len() - i when 0 <= i <= s.len()
{
    match spec_member(s, i) {
        None => None,
        Some((mt, j)) => {
            if mt is Some && seen is Some {
                None
            } else {
                let seen2 = if mt is Some {
                    mt
                } else {
                    seen
                };
                if !(i < j <= s.len()) {
                    None
                } else {
                    let c = scan_ws(s, j);
                    if !(j <= c <= s.len()) {
                        None
                    } else if c < s.len() && s[c] == 44 {
                        let n = scan_ws(s, c + 1);
                        if !(c < n <= s.len()) {
                            None
                        } else {
                            spec_members(s, n, seen2)
                        }
                    } else if c < s.len() && s[c] == 125 {
                        match seen2 {
                            None => None,
                            Some(t) => Some((t, c + 1)),
                        }
                    } else {
                        None
                    }
                }
            }
        },
    }
}

/// A whole rates body: a JSON object whose members include exactly one
/// `"rates"`, surrounded by nothing but whitespace.
pub open spec fn spec_parse_body(s: Seq<u8>) -> Option<Seq<(Seq<u8>, int)>> {
    let i0 = scan_ws(s, 0);
    if 0 <= i0 < s.len() && s[i0] == 123 {
        match spec_members(s, scan_ws(s, i0 + 1), None) {
            None => None,
            Some((t, e)) => if 0 <= e <= s.len() && scan_ws(s, e) == s.len() {
                Some(t)
            } else {
                None
            },
        }
    } else {
        None
    }
}

/// The ten bytes every canonical rates body opens with: `{"rates":{`.
pub open spec fn rates_prefix() -> Seq<u8> {
    seq![123u8, 34u8, 114u8, 97u8, 116u8, 101u8, 115u8, 34u8, 58u8, 123u8]
}

/// The spec-level content of an executable rate table.
pub open spec fn table_view(t: Seq<(Vec<u8>, Decimal)>) -> Seq<(Seq<u8>, int)> {
    t.map_values(|p: (Vec<u8>, Decimal)| (p.0@, p.1@))
}

/// The mapping a provider response decodes to: currency codes and their
/// rates, in the order the body lists them.
pub struct RateTable {
    pub pairs: Vec<(Vec<u8>, Decimal)>,
}

impl View for RateTable {
    type V = Seq<(Seq<u8>, int)>;

    open spec fn view(&self) -> Seq<(Seq<u8>, int)> {
        table_view(self.pairs@)
    }
}

/// The rate mapped to `key`, later duplicates of a code shadowing earlier
/// ones, as an object read into a map would leave them.
pub open spec fn spec_lookup(t: Seq<(Seq<u8>, int)>, key: Seq<u8>) -> Option<int>
    decreases t.len(),
{
    if t.len() == 0 {
        None
    } else if t.last().0 == key {
        Some(t.last().1)
    } else {
        spec_lookup(t.drop_last(), key)
    }
}

/// The lookup misses exactly when no member carries the key.
pub proof fn lemma_lookup_none_iff_absent(t: Seq<(Seq<u8>, int)>, key: Seq<u8>)
    ensures
        spec_lookup(t, key) is None <==> (forall|i: int| 0 <= i < t.len() ==> t[i].0 != key),
    decreases t.len(),
{
    if t.len() > 0 {
        lemma_lookup_none_iff_absent(t.drop_last(), key);
        assert(forall|i: int| 0 <= i < t.len() - 1 ==> t[i] == t.drop_last()[i]);
    }
}

/// The lookup returns exactly the value of the last member carrying the key.
pub proof fn lemma_lookup_last_occurrence(t: Seq<(Seq<u8>, int)>, key: Seq<u8>, i: int)
    requires
        0 <= i < t.len(),
        t[i].0 == key,
        forall|j: int| i < j < t.len() ==> t[j].0 != key,
    ensures
        spec_lookup(t, key) == Some(t[i].1),
    decreases t.len(),
{
    if i == t.len() - 1 {
    } else {
        assert(forall|j: int| 0 <= j < t.len() - 1 ==> t[j] == t.drop_last()[j]);
        lemma_lookup_last_occurrence(t.drop_last(), key, i);
    }
}

/// A well-formed currency code: at least one byte, all upper-case letters.
pub open spec fn key_ok(k: Seq<u8>) -> bool {
    k.len() >= 1 && (forall|i: int| 0 <= i < k.len() ==> is_upper(k[i]))
}

/// A well-formed table: every code is a valid key and every rate is a
/// representable value.
pub open spec fn wf_table(t: Seq<(Seq<u8>, int)>) -> bool {
    forall|i: int| 0 <= i < t.len() ==> key_ok((#[trigger] t[i]).0) && 0 <= t[i].1 < crate::decimal::pow10(
        32,
    )
}

/// The canonical bytes of one `"CODE":number` member.
pub open spec fn pair_bytes(p: (Seq<u8>, int)) -> Seq<u8> {
    seq![34u8] + p.0 + seq![34u8, 58u8] + crate::decimal::num_bytes(p.1)
}

/// The canonical bytes of one or more members, comma-separated.
pub open spec fn pairs_bytes(t: Seq<(Seq<u8>, int)>) -> Seq<u8>
    decreases t.len(),
{
    if t.len() == 0 {
        Seq::empty()
    } else if t.len() == 1 {
        pair_bytes(t[0])
    } else {
        pair_bytes(t[0]) + seq![44u8] + pairs_bytes(t.drop_first())
    }
}

/// The canonical bytes of a whole rates body listing `t`.
pub open spec fn body_bytes(t: Seq<(Seq<u8>, int)>) -> Seq<u8> {
    rates_prefix() + pairs_bytes(t) + seq![125u8, 125u8]
}

proof fn lemma_key_at(s: Seq<u8>, i: int, k: Seq<u8>)
    requires
        0 <= i,
        i + k.len() + 2 <= s.len(),
        key_ok(k),
        s.subrange(i, i + k.len() + 2) == seq![34u8] + k + seq![34u8],
    ensures
        spec_key(s, i) == Some((k, i + k.len() + 2)),
{
    let j = i + k.len() + 1;
    let seg = seq![34u8] + k + seq![34u8];
    assert(s[i] == s.subrange(i, i + k.len() + 2)[0]);
    assert(s[i] == 34);
    assert forall|m: int| i + 1 <= m < j implies is_upper(s[m]) by {
        assert(s[m] == s.subrange(i, i + k.len() + 2)[m - i]);
        assert(seg[m - i] == k[m - i - 1]);
    }
    assert(s[j] == s.subrange(i, i + k.len() + 2)[j - i]);
    assert(seg[j - i] == 34);
    assert(!is_upper(s[j]));
    lemma_scan_letters_eq(s, i + 1, j);
    assert forall|m: int| 0 <= m < k.len() implies s.subrange(i + 1, j)[m] == k[m] by {
        assert(s.subrange(i + 1, j)[m] == s[i + 1 + m]);
        assert(s.subrange(i, i + k.len() + 2)[1 + m] == s[i + 1 + m]);
        assert(seg[1 + m] == k[m]);
    }
    assert(s.subrange(i + 1, j) =~= k);
}

proof fn lemma_pair_at(s: Seq<u8>, i: int, p: (Seq<u8>, int))
    requires
        0 <= i,
        i + pair_bytes(p).len() <= s.len(),
        key_ok(p.0),
        0 <= p.1 < crate::decimal::pow10(32),
        s.subrange(i, i + pair_bytes(p).len()) == pair_bytes(p),
        i + pair_bytes(p).len() < s.len() ==> !is_digit(s[i + pair_bytes(p).len()]),
    ensures
        spec_pair(s, i) == Some(((p.0, p.1), i + pair_bytes(p).len())),
{
    let pb = pair_bytes(p);
    let klen = p.0.len() as int;
    let nb = crate::decimal::num_bytes(p.1);
    let plen = pb.len() as int;
    assert(plen == klen + 3 + nb.len());
    assert forall|m: int| 0 <= m < klen + 2 implies s.subrange(i, i + klen + 2)[m] == (seq![34u8]
        + p.0 + seq![34u8])[m] by {
        assert(s.subrange(i, i + klen + 2)[m] == s[i + m]);
        assert(s.subrange(i, i + plen)[m] == s[i + m]);
        assert(pb[m] == (seq![34u8] + p.0 + seq![34u8])[m]);
    }
    assert(s.subrange(i, i + klen + 2) =~= seq![34u8] + p.0 + seq![34u8]);
    lemma_key_at(s, i, p.0);
    assert(s[i + klen + 2] == s.subrange(i, i + plen)[klen + 2]);
    assert(pb[klen + 2] == 58);
    assert(s[i + klen + 2] == 58);
    assert(scan_ws(s, i + klen + 2) == i + klen + 2);
    assert forall|m: int| 0 <= m < nb.len() implies s.subrange(i + klen + 3, i + plen)[m]
        == nb[m] by {
        assert(s.subrange(i + klen + 3, i + plen)[m] == s[i + klen + 3 + m]);
        assert(s.subrange(i, i + plen)[klen + 3 + m] == s[i + klen + 3 + m]);
        assert(pb[klen + 3 + m] == nb[m]);
    }
    assert(s.subrange(i + klen + 3, i + plen) =~= nb);
    crate::decimal::lemma_number_at(s, i + klen + 3, p.1);
    // the numeral parsed, so its first byte is a digit, not whitespace
    assert(is_digit(s[i + klen + 3])) by {
        if !(i + klen + 3 < s.len() && is_digit(s[i + klen + 3])) {
            assert(scan_digits(s, i + klen + 3) == i + klen + 3);
            assert(spec_number(s, i + klen + 3) is None);
        }
    }
    assert(scan_ws(s, i + klen + 3) == i + klen + 3);
}

proof fn lemma_pairs_at(s: Seq<u8>, i: int, t: Seq<(Seq<u8>, int)>)
    requires
        0 <= i,
        t.len() >= 1,
        wf_table(t),
        i + pairs_bytes(t).len() < s.len(),
        s.subrange(i, i + pairs_bytes(t).len()) == pairs_bytes(t),
        s[i + pairs_bytes(t).len()] == 125,
    ensures
        spec_pairs(s, i) == Some((t, i + pairs_bytes(t).len())),
    decreases t.len(),
{
    let tb = pairs_bytes(t);
    let tlen = tb.len() as int;
    let p0 = t[0];
    let pb = pair_bytes(p0);
    let plen = pb.len() as int;
    assert(key_ok(p0.0) && 0 <= p0.1 < crate::decimal::pow10(32));
    if t.len() == 1 {
        assert(tb == pb);
        lemma_pair_at(s, i, p0);
        let m = i + plen;
        assert(scan_ws(s, m) == m);
        assert(seq![(p0.0, p0.1)] =~= t);
    } else {
        let rest = t.drop_first();
        let rb = pairs_bytes(rest);
        assert(tb == pb + seq![44u8] + rb);
        assert(tlen == plen + 1 + rb.len());
        assert forall|m: int| 0 <= m < plen implies s.subrange(i, i + plen)[m] == pb[m] by {
            assert(s.subrange(i, i + plen)[m] == s[i + m]);
            assert(s.subrange(i, i + tlen)[m] == s[i + m]);
            assert(tb[m] == pb[m]);
        }
        assert(s.subrange(i, i + plen) =~= pb);
        assert(s[i + plen] == s.subrange(i, i + tlen)[plen]);
        assert(tb[plen] == 44);
        assert(s[i + plen] == 44);
        assert(!is_digit(44u8));
        lemma_pair_at(s, i, p0);
        let m = i + plen;
        assert(scan_ws(s, m) == m);
        assert forall|q: int| 0 <= q < rb.len() implies s.subrange(m + 1, i + tlen)[q]
            == rb[q] by {
            assert(s.subrange(m + 1, i + tlen)[q] == s[m + 1 + q]);
            assert(s.subrange(i, i + tlen)[plen + 1 + q] == s[m + 1 + q]);
            assert(tb[plen + 1 + q] == rb[q]);
        }
        assert(s.subrange(m + 1, i + tlen) =~= rb);
        assert(rb[0] == pair_bytes(rest[0])[0]);
        assert(s[m + 1] == rb[0]);
        assert(s[m + 1] == 34);
        assert(scan_ws(s, m + 1) == m + 1);
        assert(wf_table(rest)) by {
            assert(forall|q: int| 0 <= q < rest.len() ==> rest[q] == t[q + 1]);
        }
        lemma_pairs_at(s, m + 1, rest);
        assert(seq![(p0.0, p0.1)] + rest =~= t);
    }
}

/// The round trip: the canonical body listing any well-formed table
/// decodes to exactly that table. With `fetch_from_body`'s contract this
/// pins a fetch on every such response: the rate mapped to the target
/// comes back exactly, and a missing target is the only way to a
/// `TargetNotFound`.
pub proof fn lemma_body_round_trip(t: Seq<(Seq<u8>, int)>)
    requires
        wf_table(t),
    ensures
        spec_parse_body(body_bytes(t)) == Some(t),
{
    let s = body_bytes(t);
    let tb = pairs_bytes(t);
    let tlen = tb.len() as int;
    assert(s.len() == 12 + tlen);
    assert forall|m: int| 0 <= m < 10 implies s[m] == rates_prefix()[m] by {
        assert(s[m] == (rates_prefix() + tb + seq![125u8, 125u8])[m]);
    }
    assert forall|m: int| 0 <= m < tlen implies s.subrange(10, 10 + tlen)[m] == tb[m] by {
        assert(s.subrange(10, 10 + tlen)[m] == s[10 + m]);
        assert(s[10 + m] == tb[m]);
    }
    assert(s.subrange(10, 10 + tlen) =~= tb);
    assert(s[10 + tlen] == 125);
    assert(s[10 + tlen + 1] == 125);
    // the fixed opening: `{"rates":{`
    assert(scan_ws(s, 0) == 0);
    assert(is_rates_key(s, 1));
    assert(scan_ws(s, 1) == 1);
    assert(scan_ws(s, 8) == 8);
    assert(scan_ws(s, 9) == 9);
    // the rates object at 9
    if t.len() == 0 {
        assert(tb == Seq::<u8>::empty());
        assert(s.len() == 12);
        assert(scan_ws(s, 10) == 10);
        assert(spec_rates_object(s, 9) == Some((Seq::<(Seq<u8>, int)>::empty(), 11int)));
        assert(t =~= Seq::<(Seq<u8>, int)>::empty());
        assert(spec_member(s, 1) == Some((Some(t), 11int)));
        assert(scan_ws(s, 11) == 11);
        assert(spec_members(s, 1, None) == Some((t, 12int)));
        assert(scan_ws(s, 12) == 12);
    } else {
        let p0 = t[0];
        assert(tb[0] == pair_bytes(p0)[0]);
        assert(pair_bytes(p0)[0] == 34);
        assert(s[10] == tb[0]);
        assert(s[10] == 34);
        assert(scan_ws(s, 10) == 10);
        lemma_pairs_at(s, 10, t);
        assert(spec_rates_object(s, 9) == Some((t, 10 + tlen + 1)));
        assert(spec_member(s, 1) == Some((Some(t), 10 + tlen + 1)));
        assert(scan_ws(s, 10 + tlen + 1) == 10 + tlen + 1);
        assert(spec_members(s, 1, None) == Some((t, 10 + tlen + 2)));
        assert(scan_ws(s, 10 + tlen + 2) == s.len());
    }
}

/// The first non-whitespace position at or after `i`.
fn ws(s: &[u8], i: usize) -> (r: usize)
    requires
        i <= s@.len(),
    ensures
        r as int == scan_ws(s@, i as int),
        i <= r <= s@.len(),
{
    let mut r = i;
    while r < s.len() && (s[r] == 32 || s[r] == 9 || s[r] == 10 || s[r] == 13)
        invariant
            i <= r <= s@.len(),
            forall|k: int| i <= k < r ==> is_ws(s@[k]),
        decreases s@.len() - r,
    {
        r = r + 1;
    }
    proof {
        lemma_scan_ws_eq(s@, i as int, r as int);
    }
    r
}

fn scan_string_x(s: &[u8], i: usize) -> (r: Option<usize>)
    requires
        i <= s@.len(),
    ensures
        match r {
            Some(e) => scan_string(s@, i as int) == Some(e as int) && i < e <= s@.len(),
            None => scan_string(s@, i as int) is None,
        },
    decreases s@.len() - i,
{
    if i >= s.len() {
        None
    } else if s[i] == 34 {
        Some(i + 1)
    } else if s[i] == 92 {
        if s.len() - i >= 2 {
            scan_string_x(s, i + 2)
        } else {
            None
        }
    } else {
        scan_string_x(s, i + 1)
    }
}

fn number_shape_x(s: &[u8], i: usize) -> (r: Option<usize>)
    requires
        i <= s@.len(),
    ensures
        match r {
            Some(e) => scan_number_shape(s@, i as int) == Some(e as int) && i < e <= s@.len(),
            None => scan_number_shape(s@, i as int) is None,
        },
{
    let i1 = if i < s.len() && s[i] == 45 {
        i + 1
    } else {
        i
    };
    let j = digits_end(s, i1);
    if j == i1 {
        return None;
    }
    // optional fraction
    let k = if j < s.len() && s[j] == 46 {
        let k2 = digits_end(s, j + 1);
        if k2 == j + 1 {
            return None;
        }
        k2
    } else {
        j
    };
    proof {
        assert(scan_frac_opt(s@, j as int) == Some(k as int));
    }
    // optional exponent
    if k < s.len() && (s[k] == 101 || s[k] == 69) {
        let e1 = if k + 1 < s.len() && (s[k + 1] == 43 || s[k + 1] == 45) {
            k + 2
        } else {
            k + 1
        };
        let e = digits_end(s, e1);
        if e == e1 {
            None
        } else {
            Some(e)
        }
    } else {
        Some(k)
    }
}

/// The end of the digit run starting at `i`.
fn digits_end(s: &[u8], i: usize) -> (j: usize)
    requires
        i <= s@.len(),
    ensures
        j as int == scan_digits(s@, i as int),
        i <= j <= s@.len(),
{
    let mut j = i;
    while j < s.len() && 48 <= s[j] && s[j] <= 57
        invariant
            i <= j <= s@.len(),
            forall|k: int| i <= k < j ==> is_digit(s@[k]),
        decreases s@.len() - j,
    {
        j = j + 1;
    }
    proof {
        crate::decimal::lemma_scan_digits_eq(s@, i as int, j as int);
    }
    j
}

fn skip_scalar_x(s: &[u8], i: usize) -> (r: Option<usize>)
    requires
        i <= s@.len(),
    ensures
        match r {
            Some(e) => skip_scalar(s@, i as int) == Some(e as int) && i < e <= s@.len(),
            None => skip_scalar(s@, i as int) is None,
        },
{
    if i >= s.len() {
        None
    } else if s[i] == 34 {
        scan_string_x(s, i + 1)
    } else if s[i] == 116 {
        if s.len() - i >= 4 && s[i + 1] == 114 && s[i + 2] == 117 && s[i + 3] == 101 {
            Some(i + 4)
        } else {
            None
        }
    } else if s[i] == 102 {
        if s.len() - i >= 5 && s[i + 1] == 97 && s[i + 2] == 108 && s[i + 3] == 115 && s[i + 4]
            == 101 {
            Some(i + 5)
        } else {
            None
        }
    } else if s[i] == 110 {
        if s.len() - i >= 4 && s[i + 1] == 117 && s[i + 2] == 108 && s[i + 3] == 108 {
            Some(i + 4)
        } else {
            None
        }
    } else {
        number_shape_x(s, i)
    }
}

fn parse_key(s: &[u8], i: usize) -> (r: Option<(Vec<u8>, usize)>)
    requires
        i <= s@.len(),
    ensures
        match r {
            Some((k, j)) => spec_key(s@, i as int) == Some((k@, j as int)) && i < j <= s@.len(),
            None => spec_key(s@, i as int) is None,
        },
{
    if i >= s.len() || s[i] != 34 {
        return None;
    }
    let mut j = i + 1;
    while j < s.len() && 65 <= s[j] && s[j] <= 90
        invariant
            i + 1 <= j <= s@.len(),
            forall|k: int| i + 1 <= k < j ==> is_upper(s@[k]),
        decreases s@.len() - j,
    {
        j = j + 1;
    }
    proof {
        lemma_scan_letters_eq(s@, i as int + 1, j as int);
    }
    if j == i + 1 {
        return None;
    }
    if j < s.len() && s[j] == 34 {
        let k = vstd::slice::slice_to_vec(vstd::slice::slice_subrange(s, i + 1, j));
        Some((k, j + 1))
    } else {
        None
    }
}

fn parse_pair(s: &[u8], i: usize) -> (r: Option<((Vec<u8>, Decimal), usize)>)
    requires
        i <= s@.len(),
    ensures
        match r {
            Some(((k, d), m)) => spec_pair(s@, i as int) == Some((((k@, d@), m as int)))
                && i < m <= s@.len(),
            None => spec_pair(s@, i as int) is None,
        },
{
    match parse_key(s, i) {
        None => None,
        Some((k, j)) => {
            let c = ws(s, j);
            if c < s.len() && s[c] == 58 {
                let v = ws(s, c + 1);
                match parse_number(s, v) {
                    None => None,
                    Some((d, m)) => Some(((k, d), m)),
                }
            } else {
                None
            }
        },
    }
}

fn parse_pairs(s: &[u8], i: usize, out: &mut Vec<(Vec<u8>, Decimal)>) -> (r: Option<usize>)
    requires
        i <= s@.len(),
    ensures
        match r {
            Some(e) => spec_pairs(s@, i as int) matches Some((t, ee))
                && ee == e as int
                && table_view(final(out)@) == table_view(old(out)@) + t
                && i < e <= s@.len(),
            None => spec_pairs(s@, i as int) is None,
        },
    decreases s@.len() - i,
{
    match parse_pair(s, i) {
        None => None,
        Some((kv, m)) => {
            let ghost kv_view = (kv.0@, kv.1@);
            out.push(kv);
            proof {
                assert(table_view(out@) =~= table_view(old(out)@) + seq![kv_view]);
            }
            let c = ws(s, m);
            if c < s.len() && s[c] == 44 {
                let n = ws(s, c + 1);
                match parse_pairs(s, n, out) {
                    None => None,
                    Some(e) => {
                        proof {
                            let (rest, ee) = spec_pairs(s@, n as int)->Some_0;
                            assert(table_view(final(out)@) =~= table_view(old(out)@) + (seq![
                                kv_view,
                            ] + rest));
                        }
                        Some(e)
                    },
                }
            } else {
                Some(c)
            }
        },
    }
}

fn parse_rates_object(s: &[u8], i: usize) -> (r: Option<(RateTable, usize)>)
    requires
        i <= s@.len(),
    ensures
        match r {
            Some((t, j)) => spec_rates_object(s@, i as int) == Some((t@, j as int)) && i < j
                <= s@.len(),
            None => spec_rates_object(s@, i as int) is None,
        },
{
    if i < s.len() && s[i] == 123 {
        let w = ws(s, i + 1);
        if w < s.len() && s[w] == 125 {
            let t = RateTable { pairs: Vec::new() };
            proof {
                assert(t@ =~= Seq::<(Seq<u8>, int)>::empty());
            }
            Some((t, w + 1))
        } else {
            let mut pairs: Vec<(Vec<u8>, Decimal)> = Vec::new();
            match parse_pairs(s, w, &mut pairs) {
                None => None,
                Some(c) => {
                    if c < s.len() && s[c] == 125 {
                        let t = RateTable { pairs };
                        proof {
                            let (tt, cc) = spec_pairs(s@, w as int)->Some_0;
                            assert(t@ =~= tt);
                        }
                        Some((t, c + 1))
                    } else {
                        None
                    }
                },
            }
        }
    } else {
        None
    }
}

/// The spec-level content of an optional rates table.
pub open spec fn seen_view(o: Option<RateTable>) -> Option<Seq<(Seq<u8>, int)>> {
    match o {
        Some(t) => Some(t@),
        None => None,
    }
}

fn parse_member(s: &[u8], i: usize) -> (r: Option<(Option<RateTable>, usize)>)
    requires
        i <= s@.len(),
    ensures
        match r {
            Some((mt, j)) => spec_member(s@, i as int) == Some((seen_view(mt), j as int)) && i < j
                <= s@.len(),
            None => spec_member(s@, i as int) is None,
        },
{
    if s.len() - i >= 7 && s[i] == 34 && s[i + 1] == 114 && s[i + 2] == 97 && s[i + 3] == 116 && s[i
        + 4] == 101 && s[i + 5] == 115 && s[i + 6] == 34 {
        proof {
            assert(is_rates_key(s@, i as int));
        }
        let c = ws(s, i + 7);
        if c < s.len() && s[c] == 58 {
            let v = ws(s, c + 1);
            match parse_rates_object(s, v) {
                None => None,
                Some((t, j)) => Some((Some(t), j)),
            }
        } else {
            None
        }
    } else if i < s.len() && s[i] == 34 {
        proof {
            assert(!is_rates_key(s@, i as int));
        }
        match scan_string_x(s, i + 1) {
            None => None,
            Some(ke) => {
                let c = ws(s, ke);
                if c < s.len() && s[c] == 58 {
                    let v = ws(s, c + 1);
                    match skip_scalar_x(s, v) {
                        None => None,
                        Some(j) => Some((None, j)),
                    }
                } else {
                    None
                }
            },
        }
    } else {
        None
    }
}

fn parse_members(s: &[u8], i: usize, seen: Option<RateTable>) -> (r: Option<(RateTable, usize)>)
    requires
        i <= s@.len(),
    ensures
        match r {
            Some((t, e)) => spec_members(s@, i as int, seen_view(seen)) == Some((t@, e as int))
                && i < e <= s@.len(),
            None => spec_members(s@, i as int, seen_view(seen)) is None,
        },
    decreases s@.len() - i,
{
    match parse_member(s, i) {
        None => None,
        Some((mt, j)) => {
            if mt.is_some() && seen.is_some() {
                return None;
            }
            let seen2 = if mt.is_some() {
                mt
            } else {
                seen
            };
            let c = ws(s, j);
            if c < s.len() && s[c] == 44 {
                let n = ws(s, c + 1);
                parse_members(s, n, seen2)
            } else if c < s.len() && s[c] == 125 {
                match seen2 {
                    None => None,
                    Some(t) => Some((t, c + 1)),
                }
            } else {
                None
            }
        },
    }
}

/// Decode a whole rates body into its mapping; `None` when the body does
/// not follow the wire format.
pub fn parse_rates_body(s: &[u8]) -> (r: Option<RateTable>)
    ensures
        match r {
            Some(t) => spec_parse_body(s@) == Some(t@),
            None => spec_parse_body(s@) is None,
        },
{
    let i0 = ws(s, 0);
    if i0 < s.len() && s[i0] == 123 {
        let w = ws(s, i0 + 1);
        match parse_members(s, w, None) {
            None => None,
            Some((t, e)) => {
                let z = ws(s, e);
                if z == s.len() {
                    Some(t)
                } else {
                    None
                }
            },
        }
    } else {
        None
    }
}

fn eq_bytes(a: &Vec<u8>, b: &[u8]) -> (r: bool)
    ensures
        r == (a@ == b@),
{
    if a.len() != b.len() {
        proof {
            assert(a@ != b@);
        }
        return false;
    }
    let mut i: usize = 0;
    while i < a.len()
        invariant
            i <= a@.len(),
            a@.len() == b@.len(),
            forall|k: int| 0 <= k < i ==> a@[k] == b@[k],
        decreases a@.len() - i,
    {
        if a[i] != b[i] {
            return false;
        }
        i = i + 1;
    }
    proof {
        assert(a@ =~= b@);
    }
    true
}

/// The rate the table maps `target` to, later duplicates shadowing earlier
/// ones; `None` when the code is absent.
pub fn rate_for(table: &RateTable, target: &[u8]) -> (r: Option<Decimal>)
    ensures
        match r {
            Some(d) => spec_lookup(table@, target@) == Some(d@),
            None => spec_lookup(table@, target@) is None,
        },
{
    let mut idx = table.pairs.len();
    proof {
        assert(table@.subrange(0, idx as int) =~= table@);
    }
    while idx > 0
        invariant
            idx <= table.pairs@.len(),
            spec_lookup(table@, target@) == spec_lookup(table@.subrange(0, idx as int), target@),
        decreases idx,
    {
        idx = idx - 1;
        let ghost pre = table@.subrange(0, idx as int + 1);
        if eq_bytes(&table.pairs[idx].0, target) {
            proof {
                assert(pre.last() == table@[idx as int]);
            }
            return Some(table.pairs[idx].1);
        }
        proof {
            assert(pre.last() == table@[idx as int]);
            assert(pre.drop_last() =~= table@.subrange(0, idx as int));
        }
    }
    proof {
        assert(table@.subrange(0, 0) =~= Seq::<(Seq<u8>, int)>::empty());
    }
    None
}

/// The compute half of a rate fetch: decode the response body and resolve
/// the target code, exactly as the grammar and the lookup above read it.
pub fn fetch_from_body(body: &[u8], target: &[u8]) -> (r: Result<Decimal, FetchError>)
    ensures
        match spec_parse_body(body@) {
            None => r matches Err(FetchError::Decode),
            Some(t) => match spec_lookup(t, target@) {
                Some(v) => r matches Ok(d) && d@ == v,
                None => r matches Err(FetchError::TargetNotFound),
            },
        },
{
    match parse_rates_body(body) {
        None => Err(FetchError::Decode),
        Some(t) => match rate_for(&t, target) {
            Some(d) => Ok(d),
            None => Err(FetchError::TargetNotFound),
        },
    }
}

} // verus!
