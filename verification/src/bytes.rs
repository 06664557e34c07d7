//! Byte-level building blocks of the wire codec: line splitting,
//! whitespace-delimited tokens, trimming, ASCII case folding, and decimal
//! and hexadecimal numerals. Every executable function carries an exact
//! contract against the corresponding spec function.

use vstd::prelude::*;

verus! {

pub const CR: u8 = 13;
pub const LF: u8 = 10;
pub const SP: u8 = 32;
pub const HTAB: u8 = 9;
pub const COLON: u8 = 58;

pub const SEMI: u8 = 59;

pub const COMMA: u8 = 44;

/// Largest body or chunk size the engine supports; a `content-length` or
/// chunk-size numeral above this is treated as unparseable.
pub const MAX_LEN: u32 = 0xFFFF_FFFF;

/// Horizontal whitespace: space or tab.
pub open spec fn is_ws(b: u8) -> bool {
    b == SP || b == HTAB
}

pub open spec fn is_digit(b: u8) -> bool {
    48 <= b <= 57
}

/// Value of a hexadecimal digit, or -1 for any other byte.
pub open spec fn hex_digit_val(b: u8) -> int {
    if 48 <= b <= 57 {
        b - 48
    } else if 65 <= b <= 70 {
        b - 55
    } else if 97 <= b <= 102 {
        b - 87
    } else {
        -1
    }
}

pub open spec fn is_hex_digit(b: u8) -> bool {
    hex_digit_val(b) >= 0
}

// ---------------------------------------------------------------------------
// Finding a byte
// ---------------------------------------------------------------------------

/// Index of the first occurrence of `t` in `s`, or -1 if absent. The
/// definition bounds its own result so that one unfolding already shows
/// `-1 <= first_pos(s, t) < s.len()`, which recursive parsers over lines
/// need for termination.
pub open spec fn first_pos(s: Seq<u8>, t: u8) -> int
    decreases s.len(),
{
    if s.len() == 0 {
        -1
    } else if s[0] == t {
        0
    } else {
        let r = first_pos(s.skip(1), t);
        if r < 0 {
            -1
        } else if r >= s.len() - 1 {
            s.len() - 1
        } else {
            r + 1
        }
    }
}

pub proof fn lemma_first_pos(s: Seq<u8>, t: u8)
    ensures
        first_pos(s, t) == -1 ==> forall|i: int| 0 <= i < s.len() ==> s[i] != t,
        first_pos(s, t) != -1 ==> {
            &&& 0 <= first_pos(s, t) < s.len()
            &&& s[first_pos(s, t)] == t
            &&& forall|i: int| 0 <= i < first_pos(s, t) ==> s[i] != t
        },
    decreases s.len(),
{
    if s.len() == 0 {
    } else if s[0] == t {
    } else {
        lemma_first_pos(s.skip(1), t);
        if first_pos(s.skip(1), t) == -1 {
            assert forall|i: int| 0 <= i < s.len() implies s[i] != t by {
                if i > 0 {
                    assert(s.skip(1)[i - 1] != t);
                }
            };
        } else {
            assert(s[first_pos(s, t)] == s.skip(1)[first_pos(s.skip(1), t)]);
            assert forall|i: int| 0 <= i < first_pos(s, t) implies s[i] != t by {
                if i > 0 {
                    assert(s.skip(1)[i - 1] != t);
                }
            };
        }
    }
}

/// The converse: if `t` first occurs at `i`, then `first_pos` is `i`.
pub proof fn lemma_first_pos_at(s: Seq<u8>, t: u8, i: int)
    requires
        0 <= i < s.len(),
        s[i] == t,
        forall|j: int| 0 <= j < i ==> s[j] != t,
    ensures
        first_pos(s, t) == i,
    decreases s.len(),
{
    if i == 0 {
    } else {
        assert(s[0] != t);
        assert(forall|j: int| 0 <= j < s.skip(1).len() ==> s.skip(1)[j] == s[j + 1]);
        lemma_first_pos_at(s.skip(1), t, i - 1);
    }
}

/// First occurrence of `t` in `v` at or after `from`.
pub fn find_first(v: &Vec<u8>, from: usize, t: u8) -> (r: Option<usize>)
    requires
        from <= v@.len(),
    ensures
        match r {
            Some(i) => from <= i < v@.len() && first_pos(v@.skip(from as int), t) == i - from,
            None => first_pos(v@.skip(from as int), t) == -1,
        },
{
    let ghost s = v@.skip(from as int);
    let mut i: usize = from;
    while i < v.len()
        invariant
            from <= i <= v@.len(),
            s == v@.skip(from as int),
            forall|j: int| 0 <= j < i - from ==> s[j] != t,
        decreases v@.len() - i,
    {
        if v[i] == t {
            proof {
                assert(s[i - from] == t);
                lemma_first_pos_at(s, t, i - from);
            }
            return Some(i);
        }
        proof {
            assert(s[i - from] == v@[i as int]);
        }
        i += 1;
    }
    proof {
        lemma_first_pos(s, t);
        if first_pos(s, t) != -1 {
            assert(s[first_pos(s, t)] == t);
        }
    }
    None
}

/// Index of the last occurrence of `t` in `s`, or -1 if absent.
pub open spec fn last_pos(s: Seq<u8>, t: u8) -> int
    decreases s.len(),
{
    if s.len() == 0 {
        -1
    } else if s[s.len() - 1] == t {
        s.len() - 1
    } else {
        last_pos(s.drop_last(), t)
    }
}

pub proof fn lemma_last_pos(s: Seq<u8>, t: u8)
    ensures
        last_pos(s, t) == -1 ==> forall|i: int| 0 <= i < s.len() ==> s[i] != t,
        last_pos(s, t) != -1 ==> {
            &&& 0 <= last_pos(s, t) < s.len()
            &&& s[last_pos(s, t)] == t
            &&& forall|i: int| last_pos(s, t) < i < s.len() ==> s[i] != t
        },
    decreases s.len(),
{
    if s.len() == 0 {
    } else if s[s.len() - 1] == t {
    } else {
        lemma_last_pos(s.drop_last(), t);
        assert(forall|i: int| 0 <= i < s.len() - 1 ==> s.drop_last()[i] == s[i]);
    }
}

pub proof fn lemma_last_pos_at(s: Seq<u8>, t: u8, i: int)
    requires
        0 <= i < s.len(),
        s[i] == t,
        forall|j: int| i < j < s.len() ==> s[j] != t,
    ensures
        last_pos(s, t) == i,
    decreases s.len(),
{
    if i == s.len() - 1 {
    } else {
        assert(s[s.len() - 1] != t);
        assert(forall|j: int| 0 <= j < s.len() - 1 ==> s.drop_last()[j] == s[j]);
        lemma_last_pos_at(s.drop_last(), t, i);
    }
}

/// Last occurrence of `t` in `v`.
pub fn find_last(v: &Vec<u8>, t: u8) -> (r: Option<usize>)
    ensures
        match r {
            Some(i) => i < v@.len() && last_pos(v@, t) == i,
            None => last_pos(v@, t) == -1,
        },
{
    let mut i: usize = v.len();
    while i > 0
        invariant
            i <= v@.len(),
            forall|j: int| i <= j < v@.len() ==> v@[j] != t,
        decreases i,
    {
        i -= 1;
        if v[i] == t {
            proof {
                lemma_last_pos_at(v@, t, i as int);
            }
            return Some(i);
        }
    }
    proof {
        lemma_last_pos(v@, t);
        if last_pos(v@, t) != -1 {
            assert(v@[last_pos(v@, t)] == t);
        }
    }
    None
}

// ---------------------------------------------------------------------------
// Lines
// ---------------------------------------------------------------------------

/// A line's payload: the bytes before the first LF, with one trailing CR
/// removed if present.
pub open spec fn strip_cr(s: Seq<u8>) -> Seq<u8> {
    if s.len() > 0 && s[s.len() - 1] == CR {
        s.drop_last()
    } else {
        s
    }
}

/// The payload of the first line of `s`; meaningful only when `s` holds an LF.
pub open spec fn line_of(s: Seq<u8>) -> Seq<u8> {
    strip_cr(s.take(first_pos(s, LF)))
}

/// What remains of `s` after its first line, LF included.
pub open spec fn after_line(s: Seq<u8>) -> Seq<u8> {
    s.skip(first_pos(s, LF) + 1)
}

// ---------------------------------------------------------------------------
// Whitespace runs and tokens
// ---------------------------------------------------------------------------

/// Length of the run of horizontal whitespace at the front of `s`.
pub open spec fn ws_prefix_len(s: Seq<u8>) -> int
    decreases s.len(),
{
    if s.len() > 0 && is_ws(s[0]) {
        1 + ws_prefix_len(s.skip(1))
    } else {
        0
    }
}

/// Length of the run of non-whitespace at the front of `s`.
pub open spec fn token_len(s: Seq<u8>) -> int
    decreases s.len(),
{
    if s.len() > 0 && !is_ws(s[0]) {
        1 + token_len(s.skip(1))
    } else {
        0
    }
}

pub proof fn lemma_ws_prefix(s: Seq<u8>)
    ensures
        0 <= ws_prefix_len(s) <= s.len(),
        forall|i: int| 0 <= i < ws_prefix_len(s) ==> is_ws(s[i]),
        ws_prefix_len(s) < s.len() ==> !is_ws(s[ws_prefix_len(s)]),
    decreases s.len(),
{
    if s.len() > 0 && is_ws(s[0]) {
        lemma_ws_prefix(s.skip(1));
        assert forall|i: int| 0 <= i < ws_prefix_len(s) implies is_ws(s[i]) by {
            if i > 0 {
                assert(is_ws(s.skip(1)[i - 1]));
            }
        };
        if ws_prefix_len(s) < s.len() {
            assert(s[ws_prefix_len(s)] == s.skip(1)[ws_prefix_len(s.skip(1))]);
        }
    }
}

pub proof fn lemma_ws_prefix_at(s: Seq<u8>, i: int)
    requires
        0 <= i <= s.len(),
        forall|j: int| 0 <= j < i ==> is_ws(s[j]),
        i < s.len() ==> !is_ws(s[i]),
    ensures
        ws_prefix_len(s) == i,
    decreases s.len(),
{
    if i == 0 {
    } else {
        assert(is_ws(s[0]));
        assert(forall|j: int| 0 <= j < s.skip(1).len() ==> s.skip(1)[j] == s[j + 1]);
        lemma_ws_prefix_at(s.skip(1), i - 1);
    }
}

pub proof fn lemma_token_len(s: Seq<u8>)
    ensures
        0 <= token_len(s) <= s.len(),
        forall|i: int| 0 <= i < token_len(s) ==> !is_ws(s[i]),
        token_len(s) < s.len() ==> is_ws(s[token_len(s)]),
    decreases s.len(),
{
    if s.len() > 0 && !is_ws(s[0]) {
        lemma_token_len(s.skip(1));
        assert forall|i: int| 0 <= i < token_len(s) implies !is_ws(s[i]) by {
            if i > 0 {
                assert(!is_ws(s.skip(1)[i - 1]));
            }
        };
        if token_len(s) < s.len() {
            assert(s[token_len(s)] == s.skip(1)[token_len(s.skip(1))]);
        }
    }
}

pub proof fn lemma_token_len_at(s: Seq<u8>, i: int)
    requires
        0 <= i <= s.len(),
        forall|j: int| 0 <= j < i ==> !is_ws(s[j]),
        i < s.len() ==> is_ws(s[i]),
    ensures
        token_len(s) == i,
    decreases s.len(),
{
    if i == 0 {
    } else {
        assert(!is_ws(s[0]));
        assert(forall|j: int| 0 <= j < s.skip(1).len() ==> s.skip(1)[j] == s[j + 1]);
        lemma_token_len_at(s.skip(1), i - 1);
    }
}

// ---------------------------------------------------------------------------
// Trimming
// ---------------------------------------------------------------------------

/// Length of the run of horizontal whitespace at the back of `s`.
pub open spec fn ws_suffix_len(s: Seq<u8>) -> int
    decreases s.len(),
{
    if s.len() > 0 && is_ws(s[s.len() - 1]) {
        1 + ws_suffix_len(s.drop_last())
    } else {
        0
    }
}

pub proof fn lemma_ws_suffix(s: Seq<u8>)
    ensures
        0 <= ws_suffix_len(s) <= s.len(),
        forall|i: int| s.len() - ws_suffix_len(s) <= i < s.len() ==> is_ws(s[i]),
        ws_suffix_len(s) < s.len() ==> !is_ws(s[s.len() - ws_suffix_len(s) - 1]),
    decreases s.len(),
{
    if s.len() > 0 && is_ws(s[s.len() - 1]) {
        lemma_ws_suffix(s.drop_last());
        assert(forall|i: int| 0 <= i < s.len() - 1 ==> s.drop_last()[i] == s[i]);
    }
}

pub proof fn lemma_ws_suffix_at(s: Seq<u8>, i: int)
    requires
        0 <= i <= s.len(),
        forall|j: int| s.len() - i <= j < s.len() ==> is_ws(s[j]),
        i < s.len() ==> !is_ws(s[s.len() - i - 1]),
    ensures
        ws_suffix_len(s) == i,
    decreases s.len(),
{
    if i == 0 {
    } else {
        assert(is_ws(s[s.len() - 1]));
        assert(forall|j: int| 0 <= j < s.len() - 1 ==> s.drop_last()[j] == s[j]);
        lemma_ws_suffix_at(s.drop_last(), i - 1);
    }
}

/// `s` with leading and trailing horizontal whitespace removed.
pub open spec fn trim_spec(s: Seq<u8>) -> Seq<u8> {
    if ws_prefix_len(s) == s.len() {
        Seq::empty()
    } else {
        s.subrange(ws_prefix_len(s), s.len() - ws_suffix_len(s))
    }
}

/// Copy of `v[a..b]`.
pub fn sub_vec(v: &Vec<u8>, a: usize, b: usize) -> (r: Vec<u8>)
    requires
        a <= b <= v@.len(),
    ensures
        r@ == v@.subrange(a as int, b as int),
{
    let mut r: Vec<u8> = Vec::new();
    let mut i: usize = a;
    while i < b
        invariant
            a <= i <= b <= v@.len(),
            r@ == v@.subrange(a as int, i as int),
        decreases b - i,
    {
        r.push(v[i]);
        proof {
            assert(r@ =~= v@.subrange(a as int, i + 1));
        }
        i += 1;
    }
    r
}

/// Trims horizontal whitespace from both ends of `v`.
pub fn trim(v: &Vec<u8>) -> (r: Vec<u8>)
    ensures
        r@ == trim_spec(v@),
{
    let n = v.len();
    let mut a: usize = 0;
    while a < n && (v[a] == SP || v[a] == HTAB)
        invariant
            0 <= a <= n == v@.len(),
            forall|j: int| 0 <= j < a ==> is_ws(v@[j]),
        decreases n - a,
    {
        a += 1;
    }
    proof {
        lemma_ws_prefix_at(v@, a as int);
    }
    if a == n {
        proof {
            assert(trim_spec(v@) =~= Seq::<u8>::empty());
        }
        return Vec::new();
    }
    let mut b: usize = n;
    while b > a && (v[b - 1] == SP || v[b - 1] == HTAB)
        invariant
            a <= b <= n == v@.len(),
            forall|j: int| b <= j < n ==> is_ws(v@[j]),
        decreases b,
    {
        b -= 1;
    }
    // the byte at `a` is not whitespace, so the trailing run stops before it
    proof {
        assert(!is_ws(v@[a as int]));
        if b > a {
            lemma_ws_suffix_at(v@, (n - b) as int);
        } else {
            assert(b == a);
            assert(is_ws(v@[a as int]));
        }
    }
    sub_vec(v, a, b)
}

// ---------------------------------------------------------------------------
// ASCII case folding
// ---------------------------------------------------------------------------

pub open spec fn lower(b: u8) -> u8 {
    if 65 <= b <= 90 {
        (b + 32) as u8
    } else {
        b
    }
}

pub open spec fn lower_seq(s: Seq<u8>) -> Seq<u8> {
    s.map_values(|b: u8| lower(b))
}

/// ASCII case-insensitive equality of two byte strings.
pub fn eq_ignore_case(a: &Vec<u8>, b: &Vec<u8>) -> (r: bool)
    ensures
        r == (lower_seq(a@) == lower_seq(b@)),
{
    if a.len() != b.len() {
        proof {
            assert(lower_seq(a@).len() != lower_seq(b@).len());
        }
        return false;
    }
    let n = a.len();
    let mut i: usize = 0;
    while i < n
        invariant
            0 <= i <= n,
            n == a@.len() == b@.len(),
            forall|j: int| 0 <= j < i ==> lower(a@[j]) == lower(b@[j]),
        decreases n - i,
    {
        let x = if 65 <= a[i] && a[i] <= 90 { a[i] + 32 } else { a[i] };
        let y = if 65 <= b[i] && b[i] <= 90 { b[i] + 32 } else { b[i] };
        if x != y {
            proof {
                assert(lower_seq(a@)[i as int] != lower_seq(b@)[i as int]);
            }
            return false;
        }
        i += 1;
    }
    proof {
        assert(lower_seq(a@) =~= lower_seq(b@));
    }
    true
}

// ---------------------------------------------------------------------------
// Decimal and hexadecimal numerals
// ---------------------------------------------------------------------------

pub open spec fn all_digits(s: Seq<u8>) -> bool {
    forall|i: int| 0 <= i < s.len() ==> is_digit(s[i])
}

pub open spec fn all_hex_digits(s: Seq<u8>) -> bool {
    forall|i: int| 0 <= i < s.len() ==> is_hex_digit(s[i])
}

/// Value of `s` read as a decimal numeral.
pub open spec fn dec_value(s: Seq<u8>) -> int
    decreases s.len(),
{
    if s.len() == 0 {
        0
    } else {
        dec_value(s.drop_last()) * 10 + (s[s.len() - 1] - 48)
    }
}

/// Value of `s` read as a hexadecimal numeral.
pub open spec fn hex_value(s: Seq<u8>) -> int
    decreases s.len(),
{
    if s.len() == 0 {
        0
    } else {
        hex_value(s.drop_last()) * 16 + hex_digit_val(s[s.len() - 1])
    }
}

/// A decimal numeral parses when it is non-empty, all digits, and its value
/// is within the supported range.
pub open spec fn parse_dec_spec(s: Seq<u8>) -> Option<u32> {
    if s.len() > 0 && all_digits(s) && dec_value(s) <= MAX_LEN {
        Some(dec_value(s) as u32)
    } else {
        None
    }
}

pub open spec fn parse_hex_spec(s: Seq<u8>) -> Option<u32> {
    if s.len() > 0 && all_hex_digits(s) && hex_value(s) <= MAX_LEN {
        Some(hex_value(s) as u32)
    } else {
        None
    }
}

pub proof fn lemma_dec_value_nonneg(s: Seq<u8>)
    requires
        all_digits(s),
    ensures
        dec_value(s) >= 0,
    decreases s.len(),
{
    if s.len() > 0 {
        assert(forall|i: int| 0 <= i < s.len() - 1 ==> s.drop_last()[i] == s[i]);
        lemma_dec_value_nonneg(s.drop_last());
    }
}

pub proof fn lemma_hex_value_nonneg(s: Seq<u8>)
    requires
        all_hex_digits(s),
    ensures
        hex_value(s) >= 0,
    decreases s.len(),
{
    if s.len() > 0 {
        assert(forall|i: int| 0 <= i < s.len() - 1 ==> s.drop_last()[i] == s[i]);
        lemma_hex_value_nonneg(s.drop_last());
    }
}

/// A prefix of a digit string never reads as a larger value than the whole.
pub proof fn lemma_dec_value_prefix(s: Seq<u8>, i: int)
    requires
        all_digits(s),
        0 <= i <= s.len(),
    ensures
        dec_value(s.take(i)) <= dec_value(s),
    decreases s.len() - i,
{
    if i == s.len() {
        assert(s.take(i) =~= s);
    } else {
        assert(s.take(i + 1).drop_last() =~= s.take(i));
        assert(forall|j: int| 0 <= j < i + 1 ==> s.take(i + 1)[j] == s[j]);
        lemma_dec_value_nonneg(s.take(i + 1).drop_last());
        assert(dec_value(s.take(i)) <= dec_value(s.take(i + 1)));
        lemma_dec_value_prefix(s, i + 1);
    }
}

pub proof fn lemma_hex_value_prefix(s: Seq<u8>, i: int)
    requires
        all_hex_digits(s),
        0 <= i <= s.len(),
    ensures
        hex_value(s.take(i)) <= hex_value(s),
    decreases s.len() - i,
{
    if i == s.len() {
        assert(s.take(i) =~= s);
    } else {
        assert(s.take(i + 1).drop_last() =~= s.take(i));
        assert(forall|j: int| 0 <= j < i + 1 ==> s.take(i + 1)[j] == s[j]);
        lemma_hex_value_nonneg(s.take(i + 1).drop_last());
        assert(hex_value(s.take(i)) <= hex_value(s.take(i + 1)));
        lemma_hex_value_prefix(s, i + 1);
    }
}

/// Parses a decimal numeral, rejecting values above the supported range.
pub fn parse_dec(v: &Vec<u8>) -> (r: Option<u32>)
    ensures
        r == parse_dec_spec(v@),
{
    let n = v.len();
    if n == 0 {
        return None;
    }
    let mut acc: u64 = 0;
    let mut i: usize = 0;
    while i < n
        invariant
            0 <= i <= n == v@.len(),
            all_digits(v@.take(i as int)),
            acc == dec_value(v@.take(i as int)),
            acc <= MAX_LEN,
        decreases n - i,
    {
        let b = v[i];
        if !(48 <= b && b <= 57) {
            proof {
                assert(!is_digit(v@[i as int]));
            }
            return None;
        }
        let next: u64 = acc * 10 + ((b - 48) as u64);
        proof {
            assert(v@.take(i + 1).drop_last() =~= v@.take(i as int));
            assert(all_digits(v@.take(i + 1)));
            assert(next == dec_value(v@.take(i + 1)));
        }
        if next > MAX_LEN as u64 {
            proof {
                if all_digits(v@) {
                    assert(v@.take(n as int) =~= v@);
                    lemma_dec_value_prefix(v@, i + 1);
                }
            }
            return None;
        }
        acc = next;
        i += 1;
    }
    proof {
        assert(v@.take(n as int) =~= v@);
        assert(acc == dec_value(v@));
    }
    Some(acc as u32)
}

/// Parses a hexadecimal numeral, rejecting values above the supported range.
pub fn parse_hex(v: &Vec<u8>) -> (r: Option<u32>)
    ensures
        r == parse_hex_spec(v@),
{
    let n = v.len();
    if n == 0 {
        return None;
    }
    let mut acc: u64 = 0;
    let mut i: usize = 0;
    while i < n
        invariant
            0 <= i <= n == v@.len(),
            all_hex_digits(v@.take(i as int)),
            acc == hex_value(v@.take(i as int)),
            acc <= MAX_LEN,
        decreases n - i,
    {
        let b = v[i];
        let d: u64 = if 48 <= b && b <= 57 {
            (b - 48) as u64
        } else if 65 <= b && b <= 70 {
            (b - 55) as u64
        } else if 97 <= b && b <= 102 {
            (b - 87) as u64
        } else {
            proof {
                assert(!is_hex_digit(v@[i as int]));
            }
            return None;
        };
        let next: u64 = acc * 16 + d;
        proof {
            assert(v@.take(i + 1).drop_last() =~= v@.take(i as int));
            assert(all_hex_digits(v@.take(i + 1)));
            assert(next == hex_value(v@.take(i + 1)));
        }
        if next > MAX_LEN as u64 {
            proof {
                if all_hex_digits(v@) {
                    assert(v@.take(n as int) =~= v@);
                    lemma_hex_value_prefix(v@, i + 1);
                }
            }
            return None;
        }
        acc = next;
        i += 1;
    }
    proof {
        assert(v@.take(n as int) =~= v@);
        assert(acc == hex_value(v@));
    }
    Some(acc as u32)
}

/// The decimal numeral of a non-negative number, most significant digit
/// first.
pub open spec fn dec_of(n: int) -> Seq<u8>
    recommends
        n >= 0,
    decreases n,
{
    if n < 10 {
        seq![(48 + if n >= 0 { n } else { 0 }) as u8]
    } else {
        dec_of(n / 10) + seq![(48 + n % 10) as u8]
    }
}

/// Renders `n` as a decimal numeral.
pub fn u64_to_dec(n: u64) -> (r: Vec<u8>)
    ensures
        r@ == dec_of(n as int),
    decreases n,
{
    if n < 10 {
        let mut v: Vec<u8> = Vec::new();
        v.push(48 + n as u8);
        proof {
            assert(v@ =~= dec_of(n as int));
        }
        v
    } else {
        let mut v = u64_to_dec(n / 10);
        v.push(48 + (n % 10) as u8);
        proof {
            assert(v@ =~= dec_of(n as int));
        }
        v
    }
}

} // verus!
