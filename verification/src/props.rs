//! The decoder's laws, proved against the model in [`crate::model`]: a token
//! built from a value decodes back to exactly that value, consuming exactly
//! the token's own bytes; and the top-level entry point accepts nothing but a
//! single complete token.

use vstd::prelude::*;

verus! {

use crate::model::{
    COLON, MARK_DICT, MARK_END, MARK_INT, MARK_LIST, MINUS, SpecValue, all_ascii, assoc_lookup,
    assoc_update, chars_of_bytes, digits_val, first_index, i32_numeral, is_digit, is_digits,
    key_index, keys_unique, lemma_assoc_update_unique, lemma_digits_val_nonneg,
    lemma_digits_val_push, lemma_first_index, lemma_first_index_is, lemma_key_index,
    lemma_key_index_is, lemma_spec_parse_consumes, numeral_val, spec_decode, spec_dict_items,
    spec_list_items, spec_parse, spec_parse_int, spec_parse_str, valid_numeral,
};
use crate::value::ConvertError;

// ---------------------------------------------------------------------------
// Building tokens
// ---------------------------------------------------------------------------

/// The decimal digits of a non-negative number, most significant first.
pub open spec fn dec_digits(n: int) -> Seq<u8>
    decreases n,
{
    if n < 10 {
        seq![(48 + if n >= 0 { n } else { 0 }) as u8]
    } else {
        dec_digits(n / 10).push((48 + n % 10) as u8)
    }
}

/// `dec_digits` writes a number as digits that denote it again.
pub proof fn lemma_dec_digits(n: int)
    requires
        n >= 0,
    ensures
        is_digits(dec_digits(n)),
        dec_digits(n).len() >= 1,
        digits_val(dec_digits(n)) == n,
    decreases n,
{
    if n < 10 {
        assert(dec_digits(n) == seq![(48 + n) as u8]);
        assert(dec_digits(n).drop_last() =~= Seq::<u8>::empty());
        assert(digits_val(Seq::<u8>::empty()) == 0);
        assert(dec_digits(n).last() == (48 + n) as u8);
        assert(digits_val(dec_digits(n)) == n);
    } else {
        assert(0 <= n % 10 < 10 && n / 10 >= 1 && n == 10 * (n / 10) + n % 10) by (nonlinear_arith)
            requires n >= 10;
        lemma_dec_digits(n / 10);
        lemma_digits_val_push(dec_digits(n / 10), (48 + n % 10) as u8);
        assert forall|i: int| 0 <= i < dec_digits(n).len() implies is_digit(dec_digits(n)[i]) by {
            if i < dec_digits(n).len() - 1 {
                assert(dec_digits(n)[i] == dec_digits(n / 10)[i]);
            }
        }
    }
}

/// The numeral of an integer: its digits, signed when negative.
pub open spec fn int_numeral(n: int) -> Seq<u8> {
    if n < 0 {
        seq![MINUS] + dec_digits(-n)
    } else {
        dec_digits(n)
    }
}

/// The integer token for `n`.
pub open spec fn int_token(n: int) -> Seq<u8> {
    seq![MARK_INT] + int_numeral(n) + seq![MARK_END]
}

/// The string token for an ASCII payload: its length in decimal, a colon, and
/// the payload itself.
pub open spec fn str_token(payload: Seq<u8>) -> Seq<u8> {
    dec_digits(payload.len() as int) + seq![COLON] + payload
}

// ---------------------------------------------------------------------------
// Integer round trip
// ---------------------------------------------------------------------------

/// Decoding the integer token built from any `n` in signed 32-bit range
/// yields exactly `n` and consumes exactly the token's bytes: whatever is
/// appended after the token comes back untouched as the remainder.
pub proof fn lemma_int_token_decodes(n: int, extra: Seq<u8>)
    requires
        i32::MIN <= n <= i32::MAX,
    ensures
        spec_parse(int_token(n) + extra) == Ok::<_, ConvertError>((SpecValue::Int(n), extra)),
{
    let num = int_numeral(n);
    let s = int_token(n) + extra;
    let e_idx = 1 + num.len() as int;
    if n < 0 {
        lemma_dec_digits(-n);
        assert(num[0] == MINUS);
        assert forall|j: int| 1 <= j < num.len() implies is_digit(num[j]) by {
            assert(num[j] == dec_digits(-n)[j - 1]);
        }
        assert(num.skip(1) =~= dec_digits(-n));
        lemma_digits_val_nonneg(dec_digits(-n));
        assert(valid_numeral(num));
        assert(numeral_val(num) == n);
    } else {
        lemma_dec_digits(n);
        assert(num[0] != MINUS);
        assert(valid_numeral(num));
        assert(numeral_val(num) == n);
    }
    assert(s[0] == MARK_INT);
    assert(s[e_idx] == MARK_END);
    assert forall|j: int| 0 <= j < e_idx implies s[j] != MARK_END by {
        if j >= 1 {
            assert(s[j] == num[j - 1]);
            if num[j - 1] == MARK_END {
                assert(!is_digit(num[j - 1]) && num[j - 1] != MINUS);
            }
        }
    }
    lemma_first_index_is(s, MARK_END, e_idx);
    assert(s.subrange(1, e_idx) =~= num);
    assert(all_ascii(num));
    assert(i32_numeral(num));
    assert(s.skip(e_idx + 1) =~= extra);
    assert(!is_digit(s[0]));
    assert(spec_parse_int(s) == Ok::<_, ConvertError>((SpecValue::Int(n), extra)));
}

/// The integer token built from `n` decodes, on its own, to exactly `n`.
pub proof fn lemma_int_token_round_trip(n: int)
    requires
        i32::MIN <= n <= i32::MAX,
    ensures
        spec_decode(int_token(n)) == Ok::<SpecValue, ConvertError>(SpecValue::Int(n)),
{
    lemma_int_token_decodes(n, Seq::empty());
    assert(int_token(n) + Seq::<u8>::empty() =~= int_token(n));
}

// ---------------------------------------------------------------------------
// String round trip
// ---------------------------------------------------------------------------

/// Decoding the string token built from any ASCII payload yields exactly that
/// payload and leaves appended trailing bytes untouched in the remainder.
///
/// A token whose payload is empty and that ends the input is the one
/// exception: its colon is then the final byte, which the grammar rejects, so
/// the law asks for a payload or a non-empty continuation.
pub proof fn lemma_str_token_decodes(payload: Seq<u8>, extra: Seq<u8>)
    requires
        all_ascii(payload),
        payload.len() <= i32::MAX,
        payload.len() + extra.len() > 0,
    ensures
        spec_parse(str_token(payload) + extra) == Ok::<_, ConvertError>(
            (SpecValue::Str(chars_of_bytes(payload)), extra),
        ),
{
    let k = payload.len() as int;
    let dd = dec_digits(k);
    let c = dd.len() as int;
    let s = str_token(payload) + extra;
    lemma_dec_digits(k);
    assert(s.len() == c + 1 + k + extra.len());
    assert(s[c] == COLON);
    assert forall|j: int| 0 <= j < c implies s[j] != COLON by {
        assert(s[j] == dd[j]);
        assert(is_digit(dd[j]));
    }
    lemma_first_index_is(s, COLON, c);
    assert(c != 0);
    assert(c != s.len() - 1);
    assert(s.subrange(0, c) =~= dd);
    assert(all_ascii(dd));
    assert(dd[0] != MINUS);
    assert(valid_numeral(dd));
    assert(numeral_val(dd) == k);
    assert(i32_numeral(dd));
    assert(s.subrange(c + 1, c + 1 + k) =~= payload);
    assert(s.skip(c + 1 + k) =~= extra);
    assert(is_digit(s[0]));
    assert(spec_parse_str(s) == Ok::<_, ConvertError>(
        (SpecValue::Str(chars_of_bytes(payload)), extra),
    ));
}

/// The string token built from a non-empty ASCII payload decodes, on its own,
/// to exactly that payload.
pub proof fn lemma_str_token_round_trip(payload: Seq<u8>)
    requires
        all_ascii(payload),
        0 < payload.len() <= i32::MAX,
    ensures
        spec_decode(str_token(payload)) == Ok::<SpecValue, ConvertError>(
            SpecValue::Str(chars_of_bytes(payload)),
        ),
{
    lemma_str_token_decodes(payload, Seq::empty());
    assert(str_token(payload) + Seq::<u8>::empty() =~= str_token(payload));
}

// ---------------------------------------------------------------------------
// A decoded token is unaffected by what follows it
// ---------------------------------------------------------------------------

/// Extending the input behind a decodable integer token leaves the decode
/// unchanged and passes the extension through to the remainder.
proof fn lemma_parse_int_extend(s: Seq<u8>, ext: Seq<u8>)
    ensures
        spec_parse_int(s) matches Ok((v, rest)) ==> spec_parse_int(s + ext) == Ok::<
            _,
            ConvertError,
        >((v, rest + ext)),
{
    let t = s + ext;
    if s.len() > 0 && s[0] == MARK_INT {
        assert(t[0] == s[0]);
        match first_index(s, MARK_END) {
            Some(e) => {
                lemma_first_index(s, MARK_END);
                assert forall|j: int| 0 <= j < e implies t[j] != MARK_END by {
                    assert(t[j] == s[j]);
                }
                assert(t[e] == s[e]);
                lemma_first_index_is(t, MARK_END, e);
                if e > 1 {
                    assert(t.subrange(1, e) =~= s.subrange(1, e));
                    assert(t.skip(e + 1) =~= s.skip(e + 1) + ext);
                }
            },
            None => {},
        }
    }
}

/// Extending the input behind a decodable string token leaves the decode
/// unchanged and passes the extension through to the remainder.
proof fn lemma_parse_str_extend(s: Seq<u8>, ext: Seq<u8>)
    ensures
        spec_parse_str(s) matches Ok((v, rest)) ==> spec_parse_str(s + ext) == Ok::<
            _,
            ConvertError,
        >((v, rest + ext)),
{
    let t = s + ext;
    match first_index(s, COLON) {
        Some(c) => {
            lemma_first_index(s, COLON);
            assert forall|j: int| 0 <= j < c implies t[j] != COLON by {
                assert(t[j] == s[j]);
            }
            assert(t[c] == s[c]);
            lemma_first_index_is(t, COLON, c);
            if c != 0 && c != s.len() - 1 {
                assert(t.subrange(0, c) =~= s.subrange(0, c));
                let size_s = s.subrange(0, c);
                if all_ascii(size_s) && i32_numeral(size_s) && numeral_val(size_s) >= 0 {
                    let n = numeral_val(size_s);
                    if s.len() >= c + 1 + n {
                        assert(c != t.len() - 1);
                        assert(t.subrange(c + 1, c + 1 + n) =~= s.subrange(c + 1, c + 1 + n));
                        assert(t.skip(c + 1 + n) =~= s.skip(c + 1 + n) + ext);
                    }
                }
            }
        },
        None => {},
    }
}

/// Extending the input behind any decodable token leaves the decode unchanged
/// and passes the extension through to the remainder: no token parser looks
/// beyond the bytes its token consumes.
pub proof fn lemma_parse_extend(s: Seq<u8>, ext: Seq<u8>)
    ensures
        spec_parse(s) matches Ok((v, rest)) ==> spec_parse(s + ext) == Ok::<_, ConvertError>(
            (v, rest + ext),
        ),
    decreases s.len(), 1int,
{
    if s.len() > 0 {
        let t = s + ext;
        assert(t[0] == s[0]);
        if is_digit(s[0]) {
            lemma_parse_str_extend(s, ext);
        } else if s[0] == MARK_INT {
            lemma_parse_int_extend(s, ext);
        } else if s[0] == MARK_LIST {
            match spec_list_items(s.skip(1)) {
                Ok(r) => {
                    lemma_list_items_extend(s.skip(1), ext);
                    assert(t.skip(1) =~= s.skip(1) + ext);
                },
                Err(e) => {},
            }
        } else if s[0] == MARK_DICT {
            match spec_dict_items(s.skip(1), Seq::empty()) {
                Ok(r) => {
                    lemma_dict_items_extend(s.skip(1), Seq::empty(), ext);
                    assert(t.skip(1) =~= s.skip(1) + ext);
                },
                Err(e) => {},
            }
        }
    }
}

/// The list-element analogue of `lemma_parse_extend`.
proof fn lemma_list_items_extend(s: Seq<u8>, ext: Seq<u8>)
    ensures
        spec_list_items(s) matches Ok((vs, rest)) ==> spec_list_items(s + ext) == Ok::<
            _,
            ConvertError,
        >((vs, rest + ext)),
    decreases s.len(), 2int,
{
    let t = s + ext;
    if s.len() == 0 {
    } else if s[0] == MARK_END {
        assert(t[0] == MARK_END);
        assert(t.skip(1) =~= s.skip(1) + ext);
    } else {
        assert(t[0] == s[0]);
        match spec_parse(s) {
            Ok((v, r1)) => {
                lemma_spec_parse_consumes(s);
                lemma_parse_extend(s, ext);
                if r1.len() < s.len() {
                    lemma_list_items_extend(r1, ext);
                }
            },
            Err(e) => {},
        }
    }
}

/// The dictionary-entry analogue of `lemma_parse_extend`.
proof fn lemma_dict_items_extend(s: Seq<u8>, acc: Seq<(Seq<char>, SpecValue)>, ext: Seq<u8>)
    ensures
        spec_dict_items(s, acc) matches Ok((es, rest)) ==> spec_dict_items(s + ext, acc) == Ok::<
            _,
            ConvertError,
        >((es, rest + ext)),
    decreases s.len(), 2int,
{
    let t = s + ext;
    if s.len() == 0 {
    } else if s[0] == MARK_END {
        assert(t[0] == MARK_END);
        assert(t.skip(1) =~= s.skip(1) + ext);
    } else {
        assert(t[0] == s[0]);
        match spec_parse(s) {
            Ok((kv, r1)) => {
                lemma_spec_parse_consumes(s);
                lemma_parse_extend(s, ext);
                if r1.len() <= s.len() {
                    match spec_parse(r1) {
                        Ok((vv, r2)) => {
                            lemma_spec_parse_consumes(r1);
                            lemma_parse_extend(r1, ext);
                            match kv {
                                SpecValue::Str(ks) => {
                                    if r2.len() < s.len() {
                                        lemma_dict_items_extend(r2, assoc_update(acc, ks, vv), ext);
                                    }
                                },
                                _ => {},
                            }
                        },
                        Err(e) => {},
                    }
                }
            },
            Err(e) => {},
        }
    }
}

// ---------------------------------------------------------------------------
// List round trip
// ---------------------------------------------------------------------------

/// The concatenation of a sequence of token byte strings.
pub open spec fn cat_tokens(tokens: Seq<Seq<u8>>) -> Seq<u8>
    decreases tokens.len(),
{
    if tokens.len() == 0 {
        Seq::empty()
    } else {
        tokens[0] + cat_tokens(tokens.drop_first())
    }
}

/// The list token holding the given element tokens in order.
pub open spec fn list_token(tokens: Seq<Seq<u8>>) -> Seq<u8> {
    seq![MARK_LIST] + cat_tokens(tokens) + seq![MARK_END]
}

/// A token that decodes with an empty remainder starts with a byte that is
/// not the terminator.
proof fn lemma_whole_token_head(t: Seq<u8>)
    requires
        spec_parse(t) is Ok,
    ensures
        t.len() > 0,
        t[0] != MARK_END,
{
    if t.len() > 0 && t[0] == MARK_END {
        assert(!is_digit(t[0]));
        assert(spec_parse(t) is Err);
    }
}

/// Element tokens laid end to end, closed by the terminator, decode to their
/// values in order.
proof fn lemma_list_items_of_tokens(tokens: Seq<Seq<u8>>, vals: Seq<SpecValue>, extra: Seq<u8>)
    requires
        tokens.len() == vals.len(),
        forall|i: int|
            0 <= i < tokens.len() ==> #[trigger] spec_parse(tokens[i]) == Ok::<_, ConvertError>(
                (vals[i], Seq::<u8>::empty()),
            ),
    ensures
        spec_list_items(cat_tokens(tokens) + (seq![MARK_END] + extra)) == Ok::<_, ConvertError>(
            (vals, extra),
        ),
    decreases tokens.len(),
{
    let s = cat_tokens(tokens) + (seq![MARK_END] + extra);
    if tokens.len() == 0 {
        assert(s =~= seq![MARK_END] + extra);
        assert(s[0] == MARK_END);
        assert(s.skip(1) =~= extra);
        assert(vals =~= Seq::<SpecValue>::empty());
    } else {
        let t0 = tokens[0];
        let tail = cat_tokens(tokens.drop_first()) + (seq![MARK_END] + extra);
        assert(s =~= t0 + tail);
        assert(spec_parse(t0) == Ok::<_, ConvertError>((vals[0], Seq::<u8>::empty())));
        lemma_whole_token_head(t0);
        lemma_parse_extend(t0, tail);
        assert(Seq::<u8>::empty() + tail =~= tail);
        assert(spec_parse(s) == Ok::<_, ConvertError>((vals[0], tail)));
        assert(s[0] == t0[0]);
        assert(s[0] != MARK_END);
        assert(tail.len() < s.len());
        assert forall|i: int|
            0 <= i < tokens.drop_first().len() implies #[trigger] spec_parse(
            tokens.drop_first()[i],
        ) == Ok::<_, ConvertError>((vals.drop_first()[i], Seq::<u8>::empty())) by {
            assert(tokens.drop_first()[i] == tokens[i + 1]);
            assert(vals.drop_first()[i] == vals[i + 1]);
        }
        lemma_list_items_of_tokens(tokens.drop_first(), vals.drop_first(), extra);
        assert(seq![vals[0]] + vals.drop_first() =~= vals);
    }
}

/// Decoding a list token built from any sequence of decodable sub-tokens
/// yields their values, in the order the sub-tokens appear, with whatever
/// follows the list untouched in the remainder. In particular the list has as
/// many elements as there were sub-tokens.
pub proof fn lemma_list_token_decodes(tokens: Seq<Seq<u8>>, vals: Seq<SpecValue>, extra: Seq<u8>)
    requires
        tokens.len() == vals.len(),
        forall|i: int|
            0 <= i < tokens.len() ==> #[trigger] spec_parse(tokens[i]) == Ok::<_, ConvertError>(
                (vals[i], Seq::<u8>::empty()),
            ),
    ensures
        spec_parse(list_token(tokens) + extra) == Ok::<_, ConvertError>(
            (SpecValue::List(vals), extra),
        ),
{
    let s = list_token(tokens) + extra;
    assert(s[0] == MARK_LIST);
    assert(!is_digit(s[0]));
    assert(s.skip(1) =~= cat_tokens(tokens) + (seq![MARK_END] + extra));
    lemma_list_items_of_tokens(tokens, vals, extra);
}

/// The list token built from decodable sub-tokens decodes, on its own, to
/// their values in order: as many elements as sub-tokens, each in its place.
pub proof fn lemma_list_token_round_trip(tokens: Seq<Seq<u8>>, vals: Seq<SpecValue>)
    requires
        tokens.len() == vals.len(),
        forall|i: int|
            0 <= i < tokens.len() ==> #[trigger] spec_parse(tokens[i]) == Ok::<_, ConvertError>(
                (vals[i], Seq::<u8>::empty()),
            ),
    ensures
        spec_decode(list_token(tokens)) == Ok::<SpecValue, ConvertError>(SpecValue::List(vals)),
{
    lemma_list_token_decodes(tokens, vals, Seq::empty());
    assert(list_token(tokens) + Seq::<u8>::empty() =~= list_token(tokens));
}

// ---------------------------------------------------------------------------
// Dictionary round trip
// ---------------------------------------------------------------------------

/// Key and value tokens, interleaved pairwise.
pub open spec fn pair_tokens(kts: Seq<Seq<u8>>, vts: Seq<Seq<u8>>) -> Seq<Seq<u8>>
    decreases kts.len(),
{
    if kts.len() == 0 || vts.len() == 0 {
        Seq::empty()
    } else {
        seq![kts[0], vts[0]] + pair_tokens(kts.drop_first(), vts.drop_first())
    }
}

/// The dictionary token holding the given key and value tokens, alternating.
pub open spec fn dict_token(kts: Seq<Seq<u8>>, vts: Seq<Seq<u8>>) -> Seq<u8> {
    seq![MARK_DICT] + cat_tokens(pair_tokens(kts, vts)) + seq![MARK_END]
}

/// Key/value pairs bound left to right, so that a repeated key keeps its
/// later value.
pub open spec fn assoc_fold(
    acc: Seq<(Seq<char>, SpecValue)>,
    keys: Seq<Seq<char>>,
    vals: Seq<SpecValue>,
) -> Seq<(Seq<char>, SpecValue)>
    decreases keys.len(),
{
    if keys.len() == 0 || vals.len() == 0 {
        acc
    } else {
        assoc_fold(assoc_update(acc, keys[0], vals[0]), keys.drop_first(), vals.drop_first())
    }
}

/// Key/value pair tokens laid end to end, closed by the terminator, decode to
/// the entries their pairs fold to.
proof fn lemma_dict_items_of_tokens(
    keys: Seq<Seq<char>>,
    kts: Seq<Seq<u8>>,
    vts: Seq<Seq<u8>>,
    vals: Seq<SpecValue>,
    extra: Seq<u8>,
    acc: Seq<(Seq<char>, SpecValue)>,
)
    requires
        keys.len() == kts.len(),
        kts.len() == vts.len(),
        vts.len() == vals.len(),
        forall|i: int|
            0 <= i < kts.len() ==> #[trigger] spec_parse(kts[i]) == Ok::<_, ConvertError>(
                (SpecValue::Str(keys[i]), Seq::<u8>::empty()),
            ),
        forall|i: int|
            0 <= i < vts.len() ==> #[trigger] spec_parse(vts[i]) == Ok::<_, ConvertError>(
                (vals[i], Seq::<u8>::empty()),
            ),
    ensures
        spec_dict_items(cat_tokens(pair_tokens(kts, vts)) + (seq![MARK_END] + extra), acc)
            == Ok::<_, ConvertError>((assoc_fold(acc, keys, vals), extra)),
    decreases kts.len(),
{
    let s = cat_tokens(pair_tokens(kts, vts)) + (seq![MARK_END] + extra);
    if kts.len() == 0 {
        assert(s =~= seq![MARK_END] + extra);
        assert(s[0] == MARK_END);
        assert(s.skip(1) =~= extra);
    } else {
        let kt0 = kts[0];
        let vt0 = vts[0];
        let pt = pair_tokens(kts, vts);
        let pt_rest = pair_tokens(kts.drop_first(), vts.drop_first());
        assert(pt == seq![kt0, vt0] + pt_rest);
        assert(pt[0] == kt0);
        assert(pt.drop_first() =~= seq![vt0] + pt_rest);
        assert((seq![vt0] + pt_rest)[0] == vt0);
        assert((seq![vt0] + pt_rest).drop_first() =~= pt_rest);
        let tail2 = cat_tokens(pt_rest) + (seq![MARK_END] + extra);
        let tail1 = vt0 + tail2;
        assert(cat_tokens(pt) == kt0 + cat_tokens(pt.drop_first()));
        assert(cat_tokens(seq![vt0] + pt_rest) == vt0 + cat_tokens(pt_rest));
        assert(s =~= kt0 + tail1);
        assert(spec_parse(kt0) == Ok::<_, ConvertError>(
            (SpecValue::Str(keys[0]), Seq::<u8>::empty()),
        ));
        assert(spec_parse(vt0) == Ok::<_, ConvertError>((vals[0], Seq::<u8>::empty())));
        lemma_whole_token_head(kt0);
        lemma_whole_token_head(vt0);
        lemma_parse_extend(kt0, tail1);
        assert(Seq::<u8>::empty() + tail1 =~= tail1);
        assert(spec_parse(s) == Ok::<_, ConvertError>((SpecValue::Str(keys[0]), tail1)));
        assert(s[0] == kt0[0]);
        assert(s[0] != MARK_END);
        assert(tail1.len() < s.len());
        lemma_parse_extend(vt0, tail2);
        assert(Seq::<u8>::empty() + tail2 =~= tail2);
        assert(spec_parse(tail1) == Ok::<_, ConvertError>((vals[0], tail2)));
        assert(tail2.len() < s.len());
        assert forall|i: int|
            0 <= i < kts.drop_first().len() implies #[trigger] spec_parse(kts.drop_first()[i])
            == Ok::<_, ConvertError>(
            (SpecValue::Str(keys.drop_first()[i]), Seq::<u8>::empty()),
        ) by {
            assert(kts.drop_first()[i] == kts[i + 1]);
            assert(keys.drop_first()[i] == keys[i + 1]);
        }
        assert forall|i: int|
            0 <= i < vts.drop_first().len() implies #[trigger] spec_parse(vts.drop_first()[i])
            == Ok::<_, ConvertError>((vals.drop_first()[i], Seq::<u8>::empty())) by {
            assert(vts.drop_first()[i] == vts[i + 1]);
            assert(vals.drop_first()[i] == vals[i + 1]);
        }
        lemma_dict_items_of_tokens(
            keys.drop_first(),
            kts.drop_first(),
            vts.drop_first(),
            vals.drop_first(),
            extra,
            assoc_update(acc, keys[0], vals[0]),
        );
    }
}

/// Decoding a dictionary token whose keys are string tokens yields the
/// entries that binding each pair in order produces: one entry per distinct
/// key, a repeated key keeping its later value (see the `assoc_fold` laws
/// below). Whatever follows the dictionary is untouched in the remainder.
pub proof fn lemma_dict_token_decodes(
    keys: Seq<Seq<char>>,
    kts: Seq<Seq<u8>>,
    vts: Seq<Seq<u8>>,
    vals: Seq<SpecValue>,
    extra: Seq<u8>,
)
    requires
        keys.len() == kts.len(),
        kts.len() == vts.len(),
        vts.len() == vals.len(),
        forall|i: int|
            0 <= i < kts.len() ==> #[trigger] spec_parse(kts[i]) == Ok::<_, ConvertError>(
                (SpecValue::Str(keys[i]), Seq::<u8>::empty()),
            ),
        forall|i: int|
            0 <= i < vts.len() ==> #[trigger] spec_parse(vts[i]) == Ok::<_, ConvertError>(
                (vals[i], Seq::<u8>::empty()),
            ),
    ensures
        spec_parse(dict_token(kts, vts) + extra) == Ok::<_, ConvertError>(
            (SpecValue::Dict(assoc_fold(Seq::empty(), keys, vals)), extra),
        ),
{
    let s = dict_token(kts, vts) + extra;
    assert(s[0] == MARK_DICT);
    assert(!is_digit(s[0]));
    assert(s.skip(1) =~= cat_tokens(pair_tokens(kts, vts)) + (seq![MARK_END] + extra));
    lemma_dict_items_of_tokens(keys, kts, vts, vals, extra, Seq::empty());
}

/// The dictionary token built from decodable key and value tokens decodes,
/// on its own, to the entries their pairs fold to.
pub proof fn lemma_dict_token_round_trip(
    keys: Seq<Seq<char>>,
    kts: Seq<Seq<u8>>,
    vts: Seq<Seq<u8>>,
    vals: Seq<SpecValue>,
)
    requires
        keys.len() == kts.len(),
        kts.len() == vts.len(),
        vts.len() == vals.len(),
        forall|i: int|
            0 <= i < kts.len() ==> #[trigger] spec_parse(kts[i]) == Ok::<_, ConvertError>(
                (SpecValue::Str(keys[i]), Seq::<u8>::empty()),
            ),
        forall|i: int|
            0 <= i < vts.len() ==> #[trigger] spec_parse(vts[i]) == Ok::<_, ConvertError>(
                (vals[i], Seq::<u8>::empty()),
            ),
    ensures
        spec_decode(dict_token(kts, vts)) == Ok::<SpecValue, ConvertError>(
            SpecValue::Dict(assoc_fold(Seq::empty(), keys, vals)),
        ),
{
    lemma_dict_token_decodes(keys, kts, vts, vals, Seq::empty());
    assert(dict_token(kts, vts) + Seq::<u8>::empty() =~= dict_token(kts, vts));
}

// ---------------------------------------------------------------------------
// What folding key/value pairs yields
// ---------------------------------------------------------------------------

/// Binding one key relates lookups exactly: the bound key answers the new
/// value, every other key answers as before.
pub proof fn lemma_assoc_update_lookup(
    entries: Seq<(Seq<char>, SpecValue)>,
    k0: Seq<char>,
    v0: SpecValue,
    k: Seq<char>,
)
    ensures
        assoc_lookup(assoc_update(entries, k0, v0), k) == (if k == k0 {
            Some(v0)
        } else {
            assoc_lookup(entries, k)
        }),
{
    lemma_key_index(entries, k0);
    lemma_key_index(entries, k);
    match key_index(entries, k0) {
        Some(i) => {
            let u = entries.update(i, (k0, v0));
            if k == k0 {
                lemma_key_index_is(u, k0, i);
            } else {
                match key_index(entries, k) {
                    Some(m) => {
                        assert(m != i);
                        lemma_key_index_is(u, k, m);
                        assert(u[m].1 == entries[m].1);
                    },
                    None => {
                        lemma_key_index(u, k);
                        match key_index(u, k) {
                            Some(m2) => {
                                assert(u[m2].0 == k);
                                if m2 != i {
                                    assert(entries[m2].0 == k);
                                }
                                assert(false);
                            },
                            None => {},
                        }
                    },
                }
            }
        },
        None => {
            let u = entries.push((k0, v0));
            if k == k0 {
                lemma_key_index_is(u, k0, entries.len() as int);
            } else {
                match key_index(entries, k) {
                    Some(m) => {
                        lemma_key_index_is(u, k, m);
                        assert(u[m].1 == entries[m].1);
                    },
                    None => {
                        lemma_key_index(u, k);
                        match key_index(u, k) {
                            Some(m2) => {
                                assert(u[m2].0 == k);
                                if m2 < entries.len() {
                                    assert(entries[m2].0 == k);
                                }
                                assert(false);
                            },
                            None => {},
                        }
                    },
                }
            }
        },
    }
}

/// Folding pairs onto entries with unique keys keeps the keys unique: the
/// result holds one entry per distinct key.
pub proof fn lemma_assoc_fold_unique(
    acc: Seq<(Seq<char>, SpecValue)>,
    keys: Seq<Seq<char>>,
    vals: Seq<SpecValue>,
)
    requires
        keys_unique(acc),
    ensures
        keys_unique(assoc_fold(acc, keys, vals)),
    decreases keys.len(),
{
    if keys.len() > 0 && vals.len() > 0 {
        lemma_assoc_update_unique(acc, keys[0], vals[0]);
        lemma_assoc_fold_unique(
            assoc_update(acc, keys[0], vals[0]),
            keys.drop_first(),
            vals.drop_first(),
        );
    }
}

/// The position of the last occurrence of `k` among `keys`, if any.
pub open spec fn last_occurrence(keys: Seq<Seq<char>>, k: Seq<char>) -> Option<int>
    decreases keys.len(),
{
    if keys.len() == 0 {
        None
    } else {
        match last_occurrence(keys.drop_first(), k) {
            Some(i) => Some(i + 1),
            None => if keys[0] == k {
                Some(0int)
            } else {
                None
            },
        }
    }
}

/// A last occurrence lies within the keys and carries the key looked for.
pub proof fn lemma_last_occurrence(keys: Seq<Seq<char>>, k: Seq<char>)
    ensures
        match last_occurrence(keys, k) {
            Some(i) => 0 <= i < keys.len() && keys[i] == k,
            None => true,
        },
    decreases keys.len(),
{
    if keys.len() > 0 {
        lemma_last_occurrence(keys.drop_first(), k);
        match last_occurrence(keys.drop_first(), k) {
            Some(i) => {
                assert(keys.drop_first()[i] == keys[i + 1]);
            },
            None => {},
        }
    }
}

/// After folding key/value pairs, a key answers the value of its last
/// occurrence among the pairs: a repeated key keeps its later value. A key
/// that never occurs answers as it did before the fold.
pub proof fn lemma_assoc_fold_last_wins(
    acc: Seq<(Seq<char>, SpecValue)>,
    keys: Seq<Seq<char>>,
    vals: Seq<SpecValue>,
    k: Seq<char>,
)
    requires
        keys.len() == vals.len(),
    ensures
        assoc_lookup(assoc_fold(acc, keys, vals), k) == (match last_occurrence(keys, k) {
            Some(i) => Some(vals[i]),
            None => assoc_lookup(acc, k),
        }),
    decreases keys.len(),
{
    if keys.len() > 0 {
        let acc2 = assoc_update(acc, keys[0], vals[0]);
        lemma_assoc_fold_last_wins(acc2, keys.drop_first(), vals.drop_first(), k);
        lemma_assoc_update_lookup(acc, keys[0], vals[0], k);
        lemma_last_occurrence(keys.drop_first(), k);
        match last_occurrence(keys.drop_first(), k) {
            Some(i) => {
                assert(vals.drop_first()[i] == vals[i + 1]);
            },
            None => {},
        }
    }
}

/// Folding pairs whose keys are all distinct appends one entry per pair, in
/// order, behind entries whose keys the pairs do not touch.
pub proof fn lemma_assoc_fold_distinct(
    acc: Seq<(Seq<char>, SpecValue)>,
    keys: Seq<Seq<char>>,
    vals: Seq<SpecValue>,
)
    requires
        keys.len() == vals.len(),
        forall|i: int, j: int| 0 <= i < j < keys.len() ==> keys[i] != keys[j],
        forall|i: int, j: int|
            0 <= i < acc.len() && 0 <= j < keys.len() ==> acc[i].0 != keys[j],
    ensures
        assoc_fold(acc, keys, vals).len() == acc.len() + keys.len(),
        forall|i: int| 0 <= i < acc.len() ==> assoc_fold(acc, keys, vals)[i] == acc[i],
        forall|i: int|
            0 <= i < keys.len() ==> assoc_fold(acc, keys, vals)[acc.len() + i] == (
            keys[i],
            vals[i],
            ),
    decreases keys.len(),
{
    if keys.len() > 0 {
        lemma_key_index(acc, keys[0]);
        match key_index(acc, keys[0]) {
            Some(i) => {
                assert(acc[i].0 == keys[0]);
                assert(false);
            },
            None => {},
        }
        let acc2 = acc.push((keys[0], vals[0]));
        assert(assoc_update(acc, keys[0], vals[0]) == acc2);
        assert forall|i: int, j: int|
            0 <= i < acc2.len() && 0 <= j < keys.drop_first().len() implies acc2[i].0
            != keys.drop_first()[j] by {
            assert(keys.drop_first()[j] == keys[j + 1]);
            if i < acc.len() {
                assert(acc2[i] == acc[i]);
            } else {
                assert(acc2[i].0 == keys[0]);
            }
        }
        lemma_assoc_fold_distinct(acc2, keys.drop_first(), vals.drop_first());
        let f = assoc_fold(acc, keys, vals);
        assert(f == assoc_fold(acc2, keys.drop_first(), vals.drop_first()));
        assert forall|i: int| 0 <= i < acc.len() implies f[i] == acc[i] by {
            assert(f[i] == acc2[i]);
            assert(acc2[i] == acc[i]);
        }
        assert forall|i: int| 0 <= i < keys.len() implies f[acc.len() + i] == (
        keys[i],
        vals[i],
        ) by {
            if i == 0 {
                assert(f[acc2.len() - 1] == acc2[acc2.len() - 1]);
            } else {
                let m = i - 1;
                assert(f[acc2.len() + m] == (keys.drop_first()[m], vals.drop_first()[m]));
                assert(keys.drop_first()[i - 1] == keys[i]);
                assert(vals.drop_first()[i - 1] == vals[i]);
            }
        }
    }
}

// ---------------------------------------------------------------------------
// The entry point accepts exactly one complete token
// ---------------------------------------------------------------------------

/// Decoding an empty input fails: a token was expected where none stands.
pub proof fn lemma_decode_empty_fails()
    ensures
        spec_decode(Seq::empty()) == Err::<SpecValue, ConvertError>(ConvertError::EOF),
{
}

/// The top-level decode fails whenever bytes remain after a structurally
/// complete value.
pub proof fn lemma_decode_rejects_trailing(s: Seq<u8>, v: SpecValue, rest: Seq<u8>)
    requires
        spec_parse(s) == Ok::<_, ConvertError>((v, rest)),
        rest.len() > 0,
    ensures
        spec_decode(s) == Err::<SpecValue, ConvertError>(ConvertError::EOF),
{
}

} // verus!
