//! The mathematical model of the wire format: the shape of decoded values and
//! a total, spec-level description of what decoding a byte sequence yields.
//!
//! Every executable parser in this crate is proved to return exactly what the
//! corresponding `spec_parse_*` function here says, error kinds included.

use vstd::prelude::*;

verus! {

use crate::value::ConvertError;

/// The shape of a decoded value: a tagged tree over mathematical sequences.
///
/// A dictionary is modelled as its entry sequence, keys in first-occurrence
/// order and unique; `assoc_update` below gives a repeated key its later value.
pub enum SpecValue {
    Int(int),
    Str(Seq<char>),
    List(Seq<SpecValue>),
    Dict(Seq<(Seq<char>, SpecValue)>),
}

// ---------------------------------------------------------------------------
// Bytes: digits, ASCII, and the first occurrence of a byte
// ---------------------------------------------------------------------------

/// The byte `i`, opening an integer token.
pub const MARK_INT: u8 = 105;

/// The byte `l`, opening a list token.
pub const MARK_LIST: u8 = 108;

/// The byte `d`, opening a dictionary token.
pub const MARK_DICT: u8 = 100;

/// The byte `e`, terminating an integer, list, or dictionary token.
pub const MARK_END: u8 = 101;

/// The byte `:`, separating a string token's length from its payload.
pub const COLON: u8 = 58;

/// The byte `-`, signing a numeral.
pub const MINUS: u8 = 45;

/// The byte `0`.
pub const DIGIT_ZERO: u8 = 48;

/// The byte `9`.
pub const DIGIT_NINE: u8 = 57;

/// The byte is an ASCII decimal digit.
pub open spec fn is_digit(b: u8) -> bool {
    DIGIT_ZERO <= b <= DIGIT_NINE
}

/// Every byte of the sequence is an ASCII decimal digit.
pub open spec fn is_digits(s: Seq<u8>) -> bool {
    forall|i: int| 0 <= i < s.len() ==> is_digit(s[i])
}

/// Every byte of the sequence is ASCII.
pub open spec fn all_ascii(s: Seq<u8>) -> bool {
    forall|i: int| 0 <= i < s.len() ==> s[i] < 128
}

/// The characters that a sequence of ASCII bytes denotes, one per byte.
pub open spec fn chars_of_bytes(s: Seq<u8>) -> Seq<char> {
    Seq::new(s.len(), |i: int| s[i] as char)
}

/// The index of the first occurrence of `b` in `s`, if any.
pub open spec fn first_index(s: Seq<u8>, b: u8) -> Option<int>
    decreases s.len(),
{
    if s.len() == 0 {
        None
    } else if s[0] == b {
        Some(0int)
    } else {
        match first_index(s.drop_first(), b) {
            Some(i) => Some(i + 1),
            None => None,
        }
    }
}

/// `first_index` finds `b` exactly when `s` holds it, and then at the
/// earliest position.
pub proof fn lemma_first_index(s: Seq<u8>, b: u8)
    ensures
        match first_index(s, b) {
            Some(i) => 0 <= i < s.len() && s[i] == b && (forall|j: int| 0 <= j < i ==> s[j] != b),
            None => forall|j: int| 0 <= j < s.len() ==> s[j] != b,
        },
    decreases s.len(),
{
    if s.len() > 0 && s[0] != b {
        let tail = s.drop_first();
        lemma_first_index(tail, b);
        match first_index(tail, b) {
            Some(i) => {
                assert(first_index(s, b) == Some(i + 1));
                assert(s[i + 1] == tail[i]);
                assert forall|j: int| 0 <= j < i + 1 implies s[j] != b by {
                    if j > 0 {
                        assert(s[j] == tail[j - 1]);
                        assert(tail[j - 1] != b);
                    }
                }
            },
            None => {
                assert forall|j: int| 0 <= j < s.len() implies s[j] != b by {
                    if j > 0 {
                        assert(s[j] == tail[j - 1]);
                        assert(tail[j - 1] != b);
                    }
                }
            },
        }
    }
}

/// A position that holds `b`, with none earlier, is the one `first_index` returns.
pub proof fn lemma_first_index_is(s: Seq<u8>, b: u8, i: int)
    requires
        0 <= i < s.len(),
        s[i] == b,
        forall|j: int| 0 <= j < i ==> s[j] != b,
    ensures
        first_index(s, b) == Some(i),
{
    lemma_first_index(s, b);
    match first_index(s, b) {
        Some(k) => {
            if k < i {
                assert(s[k] != b);
            }
            if i < k {
                assert(s[i] != b);
            }
        },
        None => {
            assert(s[i] != b);
        },
    }
}

// ---------------------------------------------------------------------------
// Numerals: optionally signed ASCII decimal, within the signed 32-bit range
// ---------------------------------------------------------------------------

/// The non-negative value denoted by a sequence of decimal digits
/// (most significant first; an empty sequence denotes 0).
pub open spec fn digits_val(s: Seq<u8>) -> int
    decreases s.len(),
{
    if s.len() == 0 {
        0
    } else {
        10 * digits_val(s.drop_last()) + (s.last() - DIGIT_ZERO)
    }
}

/// The sequence is a well-formed numeral: at least one digit, with at most a
/// single leading minus sign (a plus sign is not admitted).
pub open spec fn valid_numeral(s: Seq<u8>) -> bool {
    if s.len() > 0 && s[0] == MINUS {
        s.len() >= 2 && is_digits(s.skip(1))
    } else {
        s.len() >= 1 && is_digits(s)
    }
}

/// The integer a well-formed numeral denotes.
pub open spec fn numeral_val(s: Seq<u8>) -> int {
    if s.len() > 0 && s[0] == MINUS {
        -digits_val(s.skip(1))
    } else {
        digits_val(s)
    }
}

/// The numeral is well formed and its value fits in a signed 32-bit integer.
pub open spec fn i32_numeral(s: Seq<u8>) -> bool {
    &&& valid_numeral(s)
    &&& i32::MIN <= numeral_val(s) <= i32::MAX
}

/// A sequence of digits denotes a non-negative value.
pub proof fn lemma_digits_val_nonneg(s: Seq<u8>)
    requires
        is_digits(s),
    ensures
        digits_val(s) >= 0,
    decreases s.len(),
{
    if s.len() > 0 {
        lemma_digits_val_nonneg(s.drop_last());
    }
}

/// Extending a digit sequence by one digit multiplies its value by ten and
/// adds the digit.
pub proof fn lemma_digits_val_push(s: Seq<u8>, d: u8)
    ensures
        digits_val(s.push(d)) == 10 * digits_val(s) + (d - 48),
{
    assert(s.push(d).drop_last() =~= s);
}

/// The value of a prefix of a digit sequence never exceeds the whole value.
pub proof fn lemma_digits_val_prefix_le(s: Seq<u8>, i: int)
    requires
        is_digits(s),
        0 <= i <= s.len(),
    ensures
        digits_val(s.subrange(0, i)) <= digits_val(s),
    decreases s.len(),
{
    if i == s.len() {
        assert(s.subrange(0, i) =~= s);
    } else {
        assert(s.drop_last() =~= s.subrange(0, s.len() - 1));
        assert(s.subrange(0, s.len() - 1).subrange(0, i) =~= s.subrange(0, i));
        lemma_digits_val_prefix_le(s.subrange(0, s.len() - 1), i);
        lemma_digits_val_nonneg(s.drop_last());
    }
}

// ---------------------------------------------------------------------------
// Dictionary entries: association sequences with unique keys
// ---------------------------------------------------------------------------

/// The index of the entry carrying key `k`, if any.
pub open spec fn key_index(entries: Seq<(Seq<char>, SpecValue)>, k: Seq<char>) -> Option<int>
    decreases entries.len(),
{
    if entries.len() == 0 {
        None
    } else if entries[0].0 == k {
        Some(0int)
    } else {
        match key_index(entries.drop_first(), k) {
            Some(i) => Some(i + 1),
            None => None,
        }
    }
}

/// `key_index` finds `k` exactly when an entry carries it, and then at the
/// earliest position.
pub proof fn lemma_key_index(entries: Seq<(Seq<char>, SpecValue)>, k: Seq<char>)
    ensures
        match key_index(entries, k) {
            Some(i) => 0 <= i < entries.len() && entries[i].0 == k && (forall|j: int|
                0 <= j < i ==> entries[j].0 != k),
            None => forall|j: int| 0 <= j < entries.len() ==> entries[j].0 != k,
        },
    decreases entries.len(),
{
    if entries.len() > 0 && entries[0].0 != k {
        let tail = entries.drop_first();
        lemma_key_index(tail, k);
        match key_index(tail, k) {
            Some(i) => {
                assert(key_index(entries, k) == Some(i + 1));
                assert(entries[i + 1] == tail[i]);
                assert forall|j: int| 0 <= j < i + 1 implies entries[j].0 != k by {
                    if j > 0 {
                        assert(entries[j] == tail[j - 1]);
                        assert(tail[j - 1].0 != k);
                    }
                }
            },
            None => {
                assert forall|j: int| 0 <= j < entries.len() implies entries[j].0 != k by {
                    if j > 0 {
                        assert(entries[j] == tail[j - 1]);
                        assert(tail[j - 1].0 != k);
                    }
                }
            },
        }
    }
}

/// A position whose entry carries `k`, with none earlier, is the one
/// `key_index` returns.
pub proof fn lemma_key_index_is(entries: Seq<(Seq<char>, SpecValue)>, k: Seq<char>, i: int)
    requires
        0 <= i < entries.len(),
        entries[i].0 == k,
        forall|j: int| 0 <= j < i ==> entries[j].0 != k,
    ensures
        key_index(entries, k) == Some(i),
{
    lemma_key_index(entries, k);
    match key_index(entries, k) {
        Some(m) => {
            if m < i {
                assert(entries[m].0 != k);
            }
            if i < m {
                assert(entries[i].0 != k);
            }
        },
        None => {
            assert(entries[i].0 != k);
        },
    }
}

/// Binding `k` to `v`: the existing entry for `k` is replaced in place, and a
/// fresh key is appended. A repeated key thus keeps its later value.
pub open spec fn assoc_update(
    entries: Seq<(Seq<char>, SpecValue)>,
    k: Seq<char>,
    v: SpecValue,
) -> Seq<(Seq<char>, SpecValue)> {
    match key_index(entries, k) {
        Some(i) => entries.update(i, (k, v)),
        None => entries.push((k, v)),
    }
}

/// The value bound to `k`, if any.
pub open spec fn assoc_lookup(entries: Seq<(Seq<char>, SpecValue)>, k: Seq<char>) -> Option<
    SpecValue,
> {
    match key_index(entries, k) {
        Some(i) => Some(entries[i].1),
        None => None,
    }
}

/// No two entries carry the same key.
pub open spec fn keys_unique(entries: Seq<(Seq<char>, SpecValue)>) -> bool {
    forall|i: int, j: int|
        0 <= i < j < entries.len() ==> entries[i].0 != entries[j].0
}

/// `assoc_update` preserves key uniqueness.
pub proof fn lemma_assoc_update_unique(
    entries: Seq<(Seq<char>, SpecValue)>,
    k: Seq<char>,
    v: SpecValue,
)
    requires
        keys_unique(entries),
    ensures
        keys_unique(assoc_update(entries, k, v)),
{
    lemma_key_index(entries, k);
}

// ---------------------------------------------------------------------------
// The decoder, as a total function on byte sequences
// ---------------------------------------------------------------------------

/// Dispatch on the first byte: a digit starts a string token, `i` an integer,
/// `l` a list, `d` a dictionary. An empty slice means a token was expected
/// where none stands; any other byte is malformed input.
pub open spec fn spec_parse(s: Seq<u8>) -> Result<(SpecValue, Seq<u8>), ConvertError>
    decreases s.len(), 1int,
{
    if s.len() == 0 {
        Err(ConvertError::EOF)
    } else if is_digit(s[0]) {
        spec_parse_str(s)
    } else if s[0] == MARK_INT {
        spec_parse_int(s)
    } else if s[0] == MARK_LIST {
        spec_parse_list(s)
    } else if s[0] == MARK_DICT {
        spec_parse_dict(s)
    } else {
        Err(ConvertError::InvalidFormat)
    }
}

/// An integer token: `i`, a signed decimal numeral, `e`. The numeral must be
/// non-empty, ASCII, and denote a signed 32-bit value.
pub open spec fn spec_parse_int(s: Seq<u8>) -> Result<(SpecValue, Seq<u8>), ConvertError> {
    if s.len() == 0 || s[0] != MARK_INT {
        Err(ConvertError::InvalidFormat)
    } else {
        match first_index(s, MARK_END) {
            None => Err(ConvertError::InvalidFormat),
            Some(e_idx) => if e_idx <= 1 {
                Err(ConvertError::BufferTooShort)
            } else {
                let numeral = s.subrange(1, e_idx);
                if !all_ascii(numeral) {
                    Err(ConvertError::InvalidEncoding)
                } else if !i32_numeral(numeral) {
                    Err(ConvertError::PayloadTooBig)
                } else {
                    Ok((SpecValue::Int(numeral_val(numeral)), s.skip(e_idx + 1)))
                }
            },
        }
    }
}

/// A string token: a decimal length, `:`, then exactly that many ASCII bytes.
/// The colon may be neither the first byte nor the last.
pub open spec fn spec_parse_str(s: Seq<u8>) -> Result<(SpecValue, Seq<u8>), ConvertError> {
    match first_index(s, COLON) {
        None => Err(ConvertError::InvalidFormat),
        Some(c) => if c == 0 || c == s.len() - 1 {
            Err(ConvertError::InvalidFormat)
        } else {
            let size_s = s.subrange(0, c);
            if !all_ascii(size_s) {
                Err(ConvertError::InvalidEncoding)
            } else if !i32_numeral(size_s) || numeral_val(size_s) < 0 {
                Err(ConvertError::PayloadTooBig)
            } else {
                let n = numeral_val(size_s);
                if s.len() < c + 1 + n {
                    Err(ConvertError::BufferTooShort)
                } else {
                    let payload = s.subrange(c + 1, c + 1 + n);
                    if !all_ascii(payload) {
                        Err(ConvertError::InvalidEncoding)
                    } else {
                        Ok((SpecValue::Str(chars_of_bytes(payload)), s.skip(c + 1 + n)))
                    }
                }
            }
        },
    }
}

/// A list token: `l`, the element tokens in order, `e`.
pub open spec fn spec_parse_list(s: Seq<u8>) -> Result<(SpecValue, Seq<u8>), ConvertError>
    decreases s.len(), 0int,
{
    if s.len() == 0 || s[0] != MARK_LIST {
        Err(ConvertError::InvalidFormat)
    } else {
        match spec_list_items(s.skip(1)) {
            Ok((vs, rest)) => Ok((SpecValue::List(vs), rest)),
            Err(e) => Err(e),
        }
    }
}

/// The elements of a list up to and including the terminating `e`.
///
/// The shrinking guard on the recursive call is discharged by
/// `lemma_spec_parse_consumes`: a successfully decoded token always consumes
/// at least one byte, so the guard never fails on a reachable path.
pub open spec fn spec_list_items(s: Seq<u8>) -> Result<(Seq<SpecValue>, Seq<u8>), ConvertError>
    decreases s.len(), 2int,
{
    if s.len() == 0 {
        Err(ConvertError::InvalidFormat)
    } else if s[0] == MARK_END {
        Ok((Seq::empty(), s.skip(1)))
    } else {
        match spec_parse(s) {
            Err(e) => Err(e),
            Ok((v, rest)) => if rest.len() < s.len() {
                match spec_list_items(rest) {
                    Err(e) => Err(e),
                    Ok((vs, rest2)) => Ok((seq![v] + vs, rest2)),
                }
            } else {
                Err(ConvertError::InvalidFormat)
            },
        }
    }
}

/// A dictionary token: `d`, then key and value tokens alternating, `e`.
pub open spec fn spec_parse_dict(s: Seq<u8>) -> Result<(SpecValue, Seq<u8>), ConvertError>
    decreases s.len(), 0int,
{
    if s.len() == 0 || s[0] != MARK_DICT {
        Err(ConvertError::InvalidFormat)
    } else {
        match spec_dict_items(s.skip(1), Seq::empty()) {
            Ok((es, rest)) => Ok((SpecValue::Dict(es), rest)),
            Err(e) => Err(e),
        }
    }
}

/// The entries of a dictionary up to and including the terminating `e`,
/// accumulated with `assoc_update` so that a repeated key keeps its later
/// value. A key token that decodes as anything but a string is malformed;
/// as in the rest of the grammar, that is noticed only after the following
/// value token has been decoded, so an error inside the value surfaces first.
///
/// The shrinking guards are discharged by `lemma_spec_parse_consumes`, as for
/// `spec_list_items`.
pub open spec fn spec_dict_items(
    s: Seq<u8>,
    acc: Seq<(Seq<char>, SpecValue)>,
) -> Result<(Seq<(Seq<char>, SpecValue)>, Seq<u8>), ConvertError>
    decreases s.len(), 2int,
{
    if s.len() == 0 {
        Err(ConvertError::InvalidFormat)
    } else if s[0] == MARK_END {
        Ok((acc, s.skip(1)))
    } else {
        match spec_parse(s) {
            Err(e) => Err(e),
            Ok((kv, r1)) => if r1.len() <= s.len() {
                match spec_parse(r1) {
                    Err(e) => Err(e),
                    Ok((vv, r2)) => match kv {
                        SpecValue::Str(ks) => if r2.len() < s.len() {
                            spec_dict_items(r2, assoc_update(acc, ks, vv))
                        } else {
                            Err(ConvertError::InvalidFormat)
                        },
                        _ => Err(ConvertError::InvalidFormat),
                    },
                }
            } else {
                Err(ConvertError::InvalidFormat)
            },
        }
    }
}

/// A successfully decoded token consumes at least one byte.
pub proof fn lemma_spec_parse_consumes(s: Seq<u8>)
    ensures
        spec_parse(s) matches Ok((v, rest)) ==> rest.len() < s.len(),
    decreases s.len(), 1int,
{
    if s.len() > 0 {
        if is_digit(s[0]) {
            lemma_first_index(s, COLON);
        } else if s[0] == MARK_INT {
            lemma_first_index(s, MARK_END);
        } else if s[0] == MARK_LIST {
            lemma_spec_list_items_consumes(s.skip(1));
        } else if s[0] == MARK_DICT {
            lemma_spec_dict_items_consumes(s.skip(1), Seq::empty());
        }
    }
}

/// Decoding list elements up to their terminator consumes at least the
/// terminator.
pub proof fn lemma_spec_list_items_consumes(s: Seq<u8>)
    ensures
        spec_list_items(s) matches Ok((vs, rest)) ==> rest.len() < s.len(),
    decreases s.len(), 2int,
{
    if s.len() > 0 && s[0] != MARK_END {
        match spec_parse(s) {
            Ok((v, r1)) => {
                lemma_spec_parse_consumes(s);
                if r1.len() < s.len() {
                    lemma_spec_list_items_consumes(r1);
                }
            },
            Err(e) => {},
        }
    }
}

/// Decoding dictionary entries up to their terminator consumes at least the
/// terminator.
pub proof fn lemma_spec_dict_items_consumes(s: Seq<u8>, acc: Seq<(Seq<char>, SpecValue)>)
    ensures
        spec_dict_items(s, acc) matches Ok((es, rest)) ==> rest.len() < s.len(),
    decreases s.len(), 2int,
{
    if s.len() > 0 && s[0] != MARK_END {
        match spec_parse(s) {
            Ok((kv, r1)) => {
                lemma_spec_parse_consumes(s);
                if r1.len() <= s.len() {
                    match spec_parse(r1) {
                        Ok((vv, r2)) => {
                            lemma_spec_parse_consumes(r1);
                            match kv {
                                SpecValue::Str(ks) => {
                                    if r2.len() < s.len() {
                                        lemma_spec_dict_items_consumes(
                                            r2,
                                            assoc_update(acc, ks, vv),
                                        );
                                    }
                                },
                                _ => {},
                            }
                        },
                        Err(e) => {},
                    }
                }
            },
            Err(e) => {},
        }
    }
}

/// The whole input must be exactly one token; anything left over fails, with
/// the same kind that signals a missing token.
pub open spec fn spec_decode(s: Seq<u8>) -> Result<SpecValue, ConvertError> {
    match spec_parse(s) {
        Err(e) => Err(e),
        Ok((v, rest)) => if rest.len() == 0 {
            Ok(v)
        } else {
            Err(ConvertError::EOF)
        },
    }
}

} // verus!
