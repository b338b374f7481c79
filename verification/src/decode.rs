//! The executable recursive-descent decoder.
//!
//! Each parser consumes one complete token from the front of a byte slice and
//! returns the decoded value together with the unconsumed remainder. Every
//! function's contract says that it returns exactly what the corresponding
//! spec-level parser in [`crate::model`] yields, error kinds included.

use vstd::prelude::*;
use vstd::slice::slice_subrange;

verus! {

use crate::model::{
    COLON, DIGIT_NINE, DIGIT_ZERO, MARK_DICT, MARK_END, MARK_INT, MARK_LIST, MINUS,
    SpecValue, all_ascii, chars_of_bytes, digits_val, first_index, i32_numeral, is_digits,
    numeral_val, spec_decode, spec_dict_items, spec_list_items, spec_parse, spec_parse_dict,
    spec_parse_int, spec_parse_list, spec_parse_str, valid_numeral, assoc_update,
    lemma_digits_val_nonneg, lemma_digits_val_prefix_le, lemma_digits_val_push,
    lemma_first_index, lemma_first_index_is, lemma_key_index, lemma_key_index_is,
    lemma_spec_parse_consumes,
};
use crate::value::{BencodeType, ConvertError, ParseResult, entries_view, seq_view};

/// The outcome of an executable parser agrees with a spec-level one: the same
/// success or the same error, and on success the same value and remainder.
pub open spec fn results_match<'a>(
    r: Result<ParseResult<'a>, ConvertError>,
    m: Result<(SpecValue, Seq<u8>), ConvertError>,
) -> bool {
    match (r, m) {
        (Ok(p), Ok(vr)) => p.value@ == vr.0 && p.next@ == vr.1,
        (Err(e1), Err(e2)) => e1 == e2,
        _ => false,
    }
}

/// Two string slices hold the same characters.
///
/// Equal views force equal byte encodings, and equal byte encodings decode to
/// equal views, so comparing the raw bytes decides view equality.
pub fn str_eq(a: &str, b: &str) -> (r: bool)
    ensures
        r == (a@ == b@),
{
    proof {
        vstd::utf8::encode_utf8_decode_utf8(a@);
        vstd::utf8::encode_utf8_decode_utf8(b@);
    }
    let ab = a.as_bytes();
    let bb = b.as_bytes();
    if ab.len() != bb.len() {
        return false;
    }
    let mut i: usize = 0;
    while i < ab.len()
        invariant
            0 <= i <= ab@.len(),
            ab@.len() == bb@.len(),
            ab@ == vstd::utf8::encode_utf8(a@),
            bb@ == vstd::utf8::encode_utf8(b@),
            vstd::utf8::decode_utf8(ab@) == a@,
            vstd::utf8::decode_utf8(bb@) == b@,
            forall|j: int| 0 <= j < i ==> ab@[j] == bb@[j],
        decreases ab@.len() - i,
    {
        if ab[i] != bb[i] {
            return false;
        }
        i += 1;
    }
    proof {
        assert(ab@ =~= bb@);
    }
    true
}

/// Relies on `ascii::AsciiStr::from_ascii`, which accepts a byte slice exactly
/// when every byte is ASCII, and on `ascii::AsciiStr::as_str`, which presents
/// the accepted bytes as a `&str` of one character per byte.
#[verifier::external_body]
fn ascii_to_string(bytes: &[u8]) -> (r: Option<String>)
    ensures
        r is Some <==> all_ascii(bytes@),
        r matches Some(s) ==> s@ == chars_of_bytes(bytes@),
{
    match ascii::AsciiStr::from_ascii(bytes) {
        Ok(a) => Some(a.as_str().to_string()),
        Err(_) => None,
    }
}

/// The position of the first occurrence of `b` in `s`, if any.
fn find_byte(s: &[u8], b: u8) -> (r: Option<usize>)
    ensures
        match r {
            Some(i) => first_index(s@, b) == Some(i as int),
            None => first_index(s@, b) is None,
        },
{
    let mut i: usize = 0;
    while i < s.len()
        invariant
            0 <= i <= s@.len(),
            forall|j: int| 0 <= j < i ==> s@[j] != b,
        decreases s@.len() - i,
    {
        if s[i] == b {
            proof {
                lemma_first_index_is(s@, b, i as int);
            }
            return Some(i);
        }
        i += 1;
    }
    proof {
        lemma_first_index(s@, b);
    }
    None
}

/// The signed 32-bit value an optionally signed decimal numeral denotes, or
/// `None` when the numeral is empty, holds a non-digit, or overflows.
fn parse_numeral_i32(s: &[u8]) -> (r: Option<i32>)
    ensures
        r is Some <==> i32_numeral(s@),
        r matches Some(v) ==> v as int == numeral_val(s@),
{
    let neg = s.len() > 0 && s[0] == MINUS;
    let start: usize = if neg {
        1
    } else {
        0
    };
    if s.len() == start {
        return None;
    }
    let bound: u64 = if neg {
        2147483648
    } else {
        2147483647
    };
    let mut acc: u64 = 0;
    let mut i: usize = start;
    while i < s.len()
        invariant
            start <= i <= s@.len(),
            s@.len() > start,
            neg == (s@.len() > 0 && s@[0] == MINUS),
            start == if neg { 1int } else { 0int },
            bound == if neg { 2147483648u64 } else { 2147483647u64 },
            is_digits(s@.subrange(start as int, i as int)),
            acc == digits_val(s@.subrange(start as int, i as int)),
            acc <= bound,
        decreases s@.len() - i,
    {
        let c = s[i];
        if c < DIGIT_ZERO || c > DIGIT_NINE {
            proof {
                if neg {
                    assert(!crate::model::is_digit(s@.skip(1)[i - 1]));
                } else {
                    assert(!crate::model::is_digit(s@[i as int]));
                }
            }
            return None;
        }
        let d = (c - DIGIT_ZERO) as u64;
        let next = acc * 10 + d;
        proof {
            let pre = s@.subrange(start as int, i as int);
            let pre2 = s@.subrange(start as int, i as int + 1);
            lemma_digits_val_push(pre, c);
            assert(pre.push(c) =~= pre2);
            assert(digits_val(pre2) == next);
            if next > bound && valid_numeral(s@) {
                let digits = s@.skip(start as int);
                if neg {
                    assert(is_digits(digits));
                } else {
                    assert(digits =~= s@);
                    assert(is_digits(digits));
                }
                lemma_digits_val_prefix_le(digits, i + 1 - start);
                assert(digits.subrange(0, i + 1 - start) =~= pre2);
                assert(digits_val(digits) >= digits_val(pre2));
                if neg {
                    assert(numeral_val(s@) == -digits_val(digits));
                    assert(numeral_val(s@) < i32::MIN);
                } else {
                    assert(numeral_val(s@) == digits_val(digits));
                    assert(numeral_val(s@) > i32::MAX);
                }
                assert(!i32_numeral(s@));
            }
        }
        if next > bound {
            return None;
        }
        acc = next;
        i += 1;
    }
    proof {
        let digits = s@.skip(start as int);
        assert(digits =~= s@.subrange(start as int, s@.len() as int));
        assert(is_digits(digits));
        assert(digits_val(digits) == acc);
        lemma_digits_val_nonneg(digits);
        if !neg {
            assert(s@ =~= digits);
        }
    }
    if neg {
        if acc == 2147483648 {
            Some(i32::MIN)
        } else {
            Some(-(acc as i32))
        }
    } else {
        Some(acc as i32)
    }
}

/// Decode an integer token from the front of `stream`.
pub fn parse_int<'a>(stream: &'a [u8]) -> (r: Result<ParseResult<'a>, ConvertError>)
    ensures
        results_match(r, spec_parse_int(stream@)),
{
    if stream.len() == 0 || stream[0] != MARK_INT {
        return Err(ConvertError::InvalidFormat);
    }
    match find_byte(stream, MARK_END) {
        None => Err(ConvertError::InvalidFormat),
        Some(e_idx) => {
            proof {
                lemma_first_index(stream@, MARK_END);
            }
            if e_idx <= 1 {
                return Err(ConvertError::BufferTooShort);
            }
            let numeral = &stream[1..e_idx];
            match ascii_to_string(numeral) {
                None => Err(ConvertError::InvalidEncoding),
                Some(_) => match parse_numeral_i32(numeral) {
                    None => Err(ConvertError::PayloadTooBig),
                    Some(v) => {
                        let next = slice_subrange(stream, e_idx + 1, stream.len());
                        proof {
                            assert(next@ =~= stream@.skip(e_idx + 1));
                        }
                        Ok(ParseResult::new(BencodeType::Integer(v), next))
                    },
                },
            }
        },
    }
}

/// Decode a string token from the front of `stream`.
pub fn parse_str<'a>(stream: &'a [u8]) -> (r: Result<ParseResult<'a>, ConvertError>)
    ensures
        results_match(r, spec_parse_str(stream@)),
{
    match find_byte(stream, COLON) {
        None => Err(ConvertError::InvalidFormat),
        Some(c) => {
            proof {
                lemma_first_index(stream@, COLON);
            }
            if c == 0 || c == stream.len() - 1 {
                return Err(ConvertError::InvalidFormat);
            }
            let size_slice = &stream[0..c];
            match ascii_to_string(size_slice) {
                None => Err(ConvertError::InvalidEncoding),
                Some(_) => match parse_numeral_i32(size_slice) {
                    None => Err(ConvertError::PayloadTooBig),
                    Some(n) => {
                        if n < 0 {
                            return Err(ConvertError::PayloadTooBig);
                        }
                        let n = n as usize;
                        if stream.len() - (c + 1) < n {
                            return Err(ConvertError::BufferTooShort);
                        }
                        let payload = &stream[c + 1..c + 1 + n];
                        match ascii_to_string(payload) {
                            None => Err(ConvertError::InvalidEncoding),
                            Some(pl) => {
                                let next = slice_subrange(stream, c + 1 + n, stream.len());
                                proof {
                                    assert(next@ =~= stream@.skip(c + 1 + n));
                                }
                                Ok(ParseResult::new(BencodeType::String(pl), next))
                            },
                        }
                    },
                },
            }
        },
    }
}

/// How far a partially decoded list has come: the elements already decoded,
/// prefixed to whatever decoding the rest of the input yields.
pub open spec fn list_progress(
    orig: Result<(Seq<SpecValue>, Seq<u8>), ConvertError>,
    done: Seq<SpecValue>,
    cur: Result<(Seq<SpecValue>, Seq<u8>), ConvertError>,
) -> bool {
    match cur {
        Ok((vs, rest)) => orig == Ok::<_, ConvertError>((done + vs, rest)),
        Err(e) => orig == Err::<(Seq<SpecValue>, Seq<u8>), _>(e),
    }
}

/// Decode a list token from the front of `stream`.
pub fn parse_list<'a>(stream: &'a [u8]) -> (r: Result<ParseResult<'a>, ConvertError>)
    ensures
        results_match(r, spec_parse_list(stream@)),
    decreases stream@.len(), 0int,
{
    if stream.len() == 0 || stream[0] != MARK_LIST {
        return Err(ConvertError::InvalidFormat);
    }
    let ghost items0 = stream@.skip(1);
    let mut cur: &[u8] = slice_subrange(stream, 1, stream.len());
    let mut res: Vec<BencodeType> = Vec::new();
    proof {
        assert(cur@ =~= items0);
        assert(seq_view(res@) =~= Seq::<SpecValue>::empty());
    }
    loop
        invariant
            stream@.len() > 0 && stream@[0] == MARK_LIST,
            items0 == stream@.skip(1),
            cur@.len() < stream@.len(),
            list_progress(spec_list_items(items0), seq_view(res@), spec_list_items(cur@)),
        decreases cur@.len(),
    {
        if cur.is_empty() {
            return Err(ConvertError::InvalidFormat);
        }
        if cur[0] == MARK_END {
            let next = slice_subrange(cur, 1, cur.len());
            proof {
                assert(seq_view(res@) + Seq::<SpecValue>::empty() =~= seq_view(res@));
            }
            return Ok(ParseResult::new(BencodeType::List(res), next));
        }
        let entry = match next_rule(cur) {
            Ok(p) => p,
            Err(e) => return Err(e),
        };
        proof {
            lemma_spec_parse_consumes(cur@);
        }
        let ghost prev_cur = cur@;
        let ghost prev_res = res@;
        let ghost prev_done = seq_view(res@);
        let ghost v = entry.value@;
        res.push(entry.value);
        cur = entry.next;
        proof {
            assert(res@.subrange(0, res@.len() - 1) =~= prev_res);
            assert(res@[res@.len() - 1] == entry.value);
            assert(seq_view(res@) == seq_view(prev_res).push(v));
            assert(seq_view(res@) =~= prev_done + seq![v]);
            match spec_list_items(cur@) {
                Ok((vs, rest)) => {
                    assert(spec_list_items(prev_cur) == Ok::<_, ConvertError>(
                        (seq![v] + vs, rest),
                    ));
                    assert((prev_done + seq![v]) + vs =~= prev_done + (seq![v] + vs));
                },
                Err(e) => {},
            }
        }
    }
}

/// Bind `key` to `val` among dictionary entries: replace the entry already
/// carrying the key, or append a fresh one.
fn dict_insert(entries: &mut Vec<(String, BencodeType)>, key: String, val: BencodeType)
    ensures
        entries_view(final(entries)@) == assoc_update(entries_view(old(entries)@), key@, val@),
{
    let ghost model = entries_view(entries@);
    proof {
        crate::value::lemma_entries_view(entries@);
    }
    let mut i: usize = 0;
    while i < entries.len()
        invariant
            0 <= i <= entries@.len(),
            entries@ == old(entries)@,
            model == entries_view(entries@),
            model.len() == entries@.len(),
            forall|j: int| 0 <= j < entries@.len() ==> model[j] == (entries@[j].0@, entries@[j].1@),
            forall|j: int| 0 <= j < i ==> model[j].0 != key@,
        decreases entries@.len() - i,
    {
        if str_eq(entries[i].0.as_str(), key.as_str()) {
            let ghost kv = key@;
            let ghost vv = val@;
            entries[i] = (key, val);
            proof {
                lemma_key_index_is(model, kv, i as int);
                crate::value::lemma_entries_view(entries@);
                assert(entries_view(entries@) =~= model.update(i as int, (kv, vv)));
            }
            return;
        }
        i += 1;
    }
    let ghost kv = key@;
    let ghost vv = val@;
    entries.push((key, val));
    proof {
        lemma_key_index(model, kv);
        crate::value::lemma_entries_view(entries@);
        assert(entries_view(entries@) =~= model.push((kv, vv)));
    }
}

/// Decode a dictionary token from the front of `stream`.
pub fn parse_dict<'a>(stream: &'a [u8]) -> (r: Result<ParseResult<'a>, ConvertError>)
    ensures
        results_match(r, spec_parse_dict(stream@)),
    decreases stream@.len(), 0int,
{
    if stream.len() == 0 || stream[0] != MARK_DICT {
        return Err(ConvertError::InvalidFormat);
    }
    let ghost items0 = stream@.skip(1);
    let mut cur: &[u8] = slice_subrange(stream, 1, stream.len());
    let mut entries: Vec<(String, BencodeType)> = Vec::new();
    proof {
        assert(cur@ =~= items0);
        assert(entries_view(entries@) =~= Seq::<(Seq<char>, SpecValue)>::empty());
    }
    loop
        invariant
            stream@.len() > 0 && stream@[0] == MARK_DICT,
            items0 == stream@.skip(1),
            cur@.len() < stream@.len(),
            spec_dict_items(items0, Seq::empty()) == spec_dict_items(
                cur@,
                entries_view(entries@),
            ),
        decreases cur@.len(),
    {
        if cur.is_empty() {
            return Err(ConvertError::InvalidFormat);
        }
        if cur[0] == MARK_END {
            let next = slice_subrange(cur, 1, cur.len());
            return Ok(ParseResult::new(BencodeType::Dictionary(entries), next));
        }
        let ghost prev_cur = cur@;
        let ghost prev_acc = entries_view(entries@);
        let kr = match next_rule(cur) {
            Ok(p) => p,
            Err(e) => return Err(e),
        };
        proof {
            lemma_spec_parse_consumes(cur@);
        }
        let vr = match next_rule(kr.next) {
            Ok(p) => p,
            Err(e) => return Err(e),
        };
        proof {
            lemma_spec_parse_consumes(kr.next@);
        }
        match kr.value {
            BencodeType::String(ks) => {
                let ghost ksv = ks@;
                let ghost vv = vr.value@;
                dict_insert(&mut entries, ks, vr.value);
                cur = vr.next;
                proof {
                    assert(spec_dict_items(prev_cur, prev_acc) == spec_dict_items(
                        cur@,
                        assoc_update(prev_acc, ksv, vv),
                    ));
                }
            },
            _ => {
                return Err(ConvertError::InvalidFormat);
            },
        }
    }
}

/// Dispatch on one lookahead byte: a digit starts a string token, `i` an
/// integer, `l` a list, `d` a dictionary. This function consumes nothing
/// itself; it only delegates.
pub fn next_rule<'a>(stream: &'a [u8]) -> (r: Result<ParseResult<'a>, ConvertError>)
    ensures
        results_match(r, spec_parse(stream@)),
    decreases stream@.len(), 1int,
{
    if stream.is_empty() {
        return Err(ConvertError::EOF);
    }
    let b = stream[0];
    if b >= DIGIT_ZERO && b <= DIGIT_NINE {
        parse_str(stream)
    } else if b == MARK_INT {
        parse_int(stream)
    } else if b == MARK_LIST {
        parse_list(stream)
    } else if b == MARK_DICT {
        parse_dict(stream)
    } else {
        Err(ConvertError::InvalidFormat)
    }
}

/// Decode the whole input as one token; any trailing bytes fail the call.
pub fn parse<'a>(stream: &'a [u8]) -> (r: Result<BencodeType, ConvertError>)
    ensures
        match r {
            Ok(v) => spec_decode(stream@) == Ok::<SpecValue, ConvertError>(v@),
            Err(e) => spec_decode(stream@) == Err::<SpecValue, ConvertError>(e),
        },
{
    match next_rule(stream) {
        Err(e) => Err(e),
        Ok(res) => if res.done() {
            Ok(res.value)
        } else {
            Err(ConvertError::EOF)
        },
    }
}

} // verus!
