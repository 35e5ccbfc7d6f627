//! The drivers: whole-value encoding, sizing and decoding.
//!
//! These walk a [`Value`] tree (or a [`Shape`] tree when decoding) and call
//! the per-shape operations of the encoder, size-checker and decoder, one
//! primitive at a time, depth-first and left-to-right.

use crate::config::{Endianness, SizeLimit};
use crate::error::ErrorKind;
use crate::ser::{lemma_after_add_split, Serializer, SizeChecker};
use crate::de::Deserializer;
use crate::value::{
    encoded_len, lemma_decode_ok, lemma_list_bytes_snoc, lemma_list_bytes_split,
    lemma_list_matches_snoc, lemma_list_prefix_free, lemma_list_take_skip, lemma_list_wf_snoc,
    lemma_pairs_bytes_snoc, lemma_pairs_bytes_split, lemma_pairs_match_snoc,
    lemma_pairs_prefix_free, lemma_pairs_take_skip, lemma_pairs_wf_snoc, lemma_prefix_free,
    lemma_record_matches_snoc, lemma_record_prefix_free, lemma_record_take_skip,
    lemma_record_unroll, lemma_value_len, char_free, lemma_list_char_free_split,
    lemma_pairs_char_free_split, list_bytes, list_char_free, list_len, list_matches, list_wf,
    matches_shape, pairs_bytes, pairs_char_free, pairs_len, pairs_match, pairs_wf, record_matches,
    val_eq, value_bytes, value_wf, Shape, Value,
};
use crate::wire;
use vstd::prelude::*;
use vstd::slice::slice_index_get;

verus! {

broadcast use vstd::std_specs::vec::group_vec_axioms;

/// Accounts the exact number of wire bytes `v` occupies, against the
/// checker's byte budget.  Succeeds exactly when the budget and the running
/// total admit the value's full encoded length.
pub fn size_value(c: &mut SizeChecker, v: &Value) -> (r: Result<(), ErrorKind>)
    ensures
        old(c).can_add(encoded_len(*v)) ==> r == Ok::<(), ErrorKind>(()) && *final(c) == old(
            c,
        ).after_add(encoded_len(*v)) && value_wf(*v),
        !old(c).can_add(encoded_len(*v)) ==> r == Err::<(), ErrorKind>(ErrorKind::SizeLimit),
    decreases *v,
{
    match v {
        Value::Unit => {
            let r = c.serialize_unit();
            proof {
                assert(*c == old(c).after_add(0));
            }
            r
        },
        Value::Bool(b) => c.serialize_bool(*b),
        Value::U8(x) => c.serialize_u8(*x),
        Value::U16(x) => c.serialize_u16(*x),
        Value::U32(x) => c.serialize_u32(*x),
        Value::U64(x) => c.serialize_u64(*x),
        Value::I8(x) => c.serialize_i8(*x),
        Value::I16(x) => c.serialize_i16(*x),
        Value::I32(x) => c.serialize_i32(*x),
        Value::I64(x) => c.serialize_i64(*x),
        Value::F32Bits(x) => c.serialize_f32_bits(*x),
        Value::F64Bits(x) => c.serialize_f64_bits(*x),
        Value::Char(ch) => c.serialize_char(*ch),
        Value::Str(st) => c.serialize_str(st.as_str()),
        Value::Bytes(b) => c.serialize_bytes(b.as_slice()),
        Value::Opt(o) => match o {
            Option::None => c.serialize_none(),
            Option::Some(p) => {
                proof {
                    lemma_after_add_split(*c, 1, encoded_len(**p));
                }
                match c.serialize_some() {
                    Ok(()) => size_value(c, &**p),
                    Err(k) => Err(k),
                }
            },
        },
        Value::List(vs) => {
            proof {
                lemma_after_add_split(*c, 8, list_len(vs@));
            }
            match c.serialize_seq(Some(vs.len())) {
                Ok(()) => {},
                Err(k) => {
                    return Err(k);
                },
            }
            size_list(c, vs, Ghost(*old(c)))
        },
        Value::Pairs(ps) => {
            proof {
                lemma_after_add_split(*c, 8, pairs_len(ps@));
            }
            match c.serialize_map(Some(ps.len())) {
                Ok(()) => {},
                Err(k) => {
                    return Err(k);
                },
            }
            size_pairs(c, ps, Ghost(*old(c)))
        },
        Value::Record(vs) => size_list_only(c, vs),
        Value::Variant(i, p) => {
            proof {
                lemma_after_add_split(*c, 4, encoded_len(**p));
            }
            match c.serialize_variant_index(*i) {
                Ok(()) => size_value(c, &**p),
                Err(k) => Err(k),
            }
        },
    }
}

/// Accounts the elements of a sequence, after its count prefix has been
/// accounted against the checker handed in as `pre`.
fn size_list(c: &mut SizeChecker, vs: &Vec<Value>, pre: Ghost<SizeChecker>) -> (r: Result<
    (),
    ErrorKind,
>)
    requires
        pre@.can_add(8),
        *old(c) == pre@.after_add(8),
    ensures
        pre@.can_add(8 + list_len(vs@)) ==> r == Ok::<(), ErrorKind>(()) && *final(c) == pre@.after_add(8 + list_len(vs@)) && list_wf(vs@) && vs@.len() <= usize::MAX,
        !pre@.can_add(8 + list_len(vs@)) ==> r == Err::<(), ErrorKind>(ErrorKind::SizeLimit),
    decreases *vs,
{
    let n = vs.len();
    proof {
        assert(vs@.take(0) =~= Seq::<Value>::empty());
        assert(list_len(Seq::<Value>::empty()) == 0);
    }
    let mut i: usize = 0;
    while i < n
        invariant
            i <= n,
            n == vs@.len(),
            pre@.can_add(8),
            pre@.can_add(8 + list_len(vs@.take(i as int))),
            *c == pre@.after_add(8 + list_len(vs@.take(i as int))),
            list_wf(vs@.take(i as int)),
        decreases n - i,
    {
        let elem = slice_index_get(vs.as_slice(), i);
        let ghost taken = 8 + list_len(vs@.take(i as int));
        proof {
            lemma_after_add_split(pre@, taken, encoded_len(vs@[i as int]));
            lemma_list_bytes_split(vs@, i as int, Endianness::Little);
            let t = vs@.skip(i as int);
            assert(t[0] == vs@[i as int]);
            assert(list_len(t) == encoded_len(t[0]) + list_len(t.drop_first()));
        }
        match size_value(c, elem) {
            Ok(()) => {
                proof {
                    lemma_list_bytes_snoc(vs@.take(i as int), vs@[i as int], Endianness::Little);
                    assert(vs@.take(i + 1) =~= vs@.take(i as int).push(vs@[i as int]));
                    lemma_list_wf_snoc(vs@.take(i as int), vs@[i as int]);
                }
                i = i + 1;
            },
            Err(k) => {
                proof {
                    if pre@.can_add(8 + list_len(vs@)) {
                        assert(list_len(vs@) >= list_len(vs@.take(i as int)) + encoded_len(
                            vs@[i as int],
                        ));
                        assert(false);
                    }
                }
                return Err(k);
            },
        }
    }
    proof {
        assert(vs@.take(n as int) =~= vs@);
    }
    Ok(())
}

/// Accounts the elements of a record, which carries no prefix.
fn size_list_only(c: &mut SizeChecker, vs: &Vec<Value>) -> (r: Result<(), ErrorKind>)
    ensures
        old(c).can_add(list_len(vs@)) ==> r == Ok::<(), ErrorKind>(()) && *final(c) == old(
            c,
        ).after_add(list_len(vs@)) && list_wf(vs@),
        !old(c).can_add(list_len(vs@)) ==> r == Err::<(), ErrorKind>(ErrorKind::SizeLimit),
    decreases *vs,
{
    let ghost pre = *c;
    let n = vs.len();
    proof {
        assert(vs@.take(0) =~= Seq::<Value>::empty());
        assert(list_len(Seq::<Value>::empty()) == 0);
    }
    let mut i: usize = 0;
    while i < n
        invariant
            i <= n,
            n == vs@.len(),
            pre == *old(c),
            pre.can_add(list_len(vs@.take(i as int))),
            *c == pre.after_add(list_len(vs@.take(i as int))),
            list_wf(vs@.take(i as int)),
        decreases n - i,
    {
        let elem = slice_index_get(vs.as_slice(), i);
        let ghost taken = list_len(vs@.take(i as int));
        proof {
            lemma_after_add_split(pre, taken, encoded_len(vs@[i as int]));
            lemma_list_bytes_split(vs@, i as int, Endianness::Little);
            let t = vs@.skip(i as int);
            assert(t[0] == vs@[i as int]);
            assert(list_len(t) == encoded_len(t[0]) + list_len(t.drop_first()));
        }
        match size_value(c, elem) {
            Ok(()) => {
                proof {
                    lemma_list_bytes_snoc(vs@.take(i as int), vs@[i as int], Endianness::Little);
                    assert(vs@.take(i + 1) =~= vs@.take(i as int).push(vs@[i as int]));
                    lemma_list_wf_snoc(vs@.take(i as int), vs@[i as int]);
                }
                i = i + 1;
            },
            Err(k) => {
                proof {
                    if pre.can_add(list_len(vs@)) {
                        assert(list_len(vs@) >= list_len(vs@.take(i as int)) + encoded_len(
                            vs@[i as int],
                        ));
                        assert(false);
                    }
                }
                return Err(k);
            },
        }
    }
    proof {
        assert(vs@.take(n as int) =~= vs@);
    }
    Ok(())
}

/// Accounts the pairs of a map, after its count prefix has been accounted
/// against the checker handed in as `pre`.
fn size_pairs(c: &mut SizeChecker, ps: &Vec<(Value, Value)>, pre: Ghost<SizeChecker>) -> (r: Result<
    (),
    ErrorKind,
>)
    requires
        pre@.can_add(8),
        *old(c) == pre@.after_add(8),
    ensures
        pre@.can_add(8 + pairs_len(ps@)) ==> r == Ok::<(), ErrorKind>(()) && *final(c) == pre@.after_add(8 + pairs_len(ps@)) && pairs_wf(ps@) && ps@.len() <= usize::MAX,
        !pre@.can_add(8 + pairs_len(ps@)) ==> r == Err::<(), ErrorKind>(ErrorKind::SizeLimit),
    decreases *ps,
{
    let n = ps.len();
    proof {
        assert(ps@.take(0) =~= Seq::<(Value, Value)>::empty());
        assert(pairs_len(Seq::<(Value, Value)>::empty()) == 0);
    }
    let mut i: usize = 0;
    while i < n
        invariant
            i <= n,
            n == ps@.len(),
            pre@.can_add(8),
            pre@.can_add(8 + pairs_len(ps@.take(i as int))),
            *c == pre@.after_add(8 + pairs_len(ps@.take(i as int))),
            pairs_wf(ps@.take(i as int)),
        decreases n - i,
    {
        let pair = slice_index_get(ps.as_slice(), i);
        let ghost taken = 8 + pairs_len(ps@.take(i as int));
        let ghost kv = ps@[i as int];
        proof {
            lemma_after_add_split(pre@, taken, encoded_len(kv.0));
            lemma_after_add_split(
                pre@,
                taken + encoded_len(kv.0),
                encoded_len(kv.1),
            );
            lemma_pairs_bytes_split(ps@, i as int, Endianness::Little);
            let t = ps@.skip(i as int);
            assert(t[0] == kv);
            assert(pairs_len(t) == encoded_len(t[0].0) + encoded_len(t[0].1) + pairs_len(
                t.drop_first(),
            ));
        }
        match size_value(c, &pair.0) {
            Ok(()) => {},
            Err(k) => {
                proof {
                    if pre@.can_add(8 + pairs_len(ps@)) {
                        assert(pairs_len(ps@) >= pairs_len(ps@.take(i as int)) + encoded_len(kv.0)
                            + encoded_len(kv.1));
                        assert(false);
                    }
                }
                return Err(k);
            },
        }
        match size_value(c, &pair.1) {
            Ok(()) => {
                proof {
                    lemma_pairs_bytes_snoc(ps@.take(i as int), kv, Endianness::Little);
                    assert(ps@.take(i + 1) =~= ps@.take(i as int).push(kv));
                    lemma_pairs_wf_snoc(ps@.take(i as int), kv);
                }
                i = i + 1;
            },
            Err(k) => {
                proof {
                    if pre@.can_add(8 + pairs_len(ps@)) {
                        assert(pairs_len(ps@) >= pairs_len(ps@.take(i as int)) + encoded_len(kv.0)
                            + encoded_len(kv.1));
                        assert(false);
                    }
                }
                return Err(k);
            },
        }
    }
    proof {
        assert(ps@.take(n as int) =~= ps@);
    }
    Ok(())
}

/// A buffer-filling failure restated as a prefix of the appended stream.
proof fn lemma_partial_to_take(pre: Serializer, post: Serializer, bytes: Seq<u8>)
    requires
        pre.wf(),
        !pre.fits(bytes.len()),
        pre.wrote_partial(post, bytes),
    ensures
        post.out@ == (pre.out@ + bytes).take(pre.cap as int),
{
    wire::lemma_take_concat(pre.out@, bytes, pre.cap as int);
}

/// Writes the full wire bytes of `v` into the encoder's buffer.  Succeeds
/// exactly when the value's whole encoding fits; on failure the buffer has
/// been filled to its capacity with the encoding's longest fitting prefix.
pub fn encode_value(s: &mut Serializer, v: &Value) -> (r: Result<(), ErrorKind>)
    requires
        old(s).wf(),
    ensures
        old(s).fits(encoded_len(*v)) ==> r == Ok::<(), ErrorKind>(()) && old(s).wrote(
            *final(s),
            value_bytes(*v, old(s).endian),
        ) && value_wf(*v),
        !old(s).fits(encoded_len(*v)) ==> r == Err::<(), ErrorKind>(ErrorKind::CapacityError)
            && final(s).cap == old(s).cap && final(s).endian == old(s).endian && final(s).out@ == (
        old(s).out@ + value_bytes(*v, old(s).endian)).take(old(s).cap as int) && final(s).out@.len() == old(s).cap,
    decreases *v,
{
    let ghost e = old(s).endian;
    proof {
        lemma_value_len(*v, e);
    }
    match v {
        Value::Unit => {
            let r = s.serialize_unit();
            proof {
                assert(old(s).out@ + value_bytes(*v, e) =~= old(s).out@);
            }
            r
        },
        Value::Bool(b) => {
            let r = s.serialize_bool(*b);
            proof {
                if !old(s).fits(encoded_len(*v)) {
                    lemma_partial_to_take(*old(s), *s, value_bytes(*v, e));
                }
            }
            r
        },
        Value::U8(x) => {
            let r = s.serialize_u8(*x);
            proof {
                if !old(s).fits(encoded_len(*v)) {
                    lemma_partial_to_take(*old(s), *s, value_bytes(*v, e));
                }
            }
            r
        },
        Value::U16(x) => {
            let r = s.serialize_u16(*x);
            proof {
                if !old(s).fits(encoded_len(*v)) {
                    lemma_partial_to_take(*old(s), *s, value_bytes(*v, e));
                }
            }
            r
        },
        Value::U32(x) => {
            let r = s.serialize_u32(*x);
            proof {
                if !old(s).fits(encoded_len(*v)) {
                    lemma_partial_to_take(*old(s), *s, value_bytes(*v, e));
                }
            }
            r
        },
        Value::U64(x) => {
            let r = s.serialize_u64(*x);
            proof {
                if !old(s).fits(encoded_len(*v)) {
                    lemma_partial_to_take(*old(s), *s, value_bytes(*v, e));
                }
            }
            r
        },
        Value::I8(x) => {
            let r = s.serialize_i8(*x);
            proof {
                if !old(s).fits(encoded_len(*v)) {
                    lemma_partial_to_take(*old(s), *s, value_bytes(*v, e));
                }
            }
            r
        },
        Value::I16(x) => {
            let r = s.serialize_i16(*x);
            proof {
                if !old(s).fits(encoded_len(*v)) {
                    lemma_partial_to_take(*old(s), *s, value_bytes(*v, e));
                }
            }
            r
        },
        Value::I32(x) => {
            let r = s.serialize_i32(*x);
            proof {
                if !old(s).fits(encoded_len(*v)) {
                    lemma_partial_to_take(*old(s), *s, value_bytes(*v, e));
                }
            }
            r
        },
        Value::I64(x) => {
            let r = s.serialize_i64(*x);
            proof {
                if !old(s).fits(encoded_len(*v)) {
                    lemma_partial_to_take(*old(s), *s, value_bytes(*v, e));
                }
            }
            r
        },
        Value::F32Bits(x) => {
            let r = s.serialize_f32_bits(*x);
            proof {
                if !old(s).fits(encoded_len(*v)) {
                    lemma_partial_to_take(*old(s), *s, value_bytes(*v, e));
                }
            }
            r
        },
        Value::F64Bits(x) => {
            let r = s.serialize_f64_bits(*x);
            proof {
                if !old(s).fits(encoded_len(*v)) {
                    lemma_partial_to_take(*old(s), *s, value_bytes(*v, e));
                }
            }
            r
        },
        Value::Char(ch) => {
            let r = s.serialize_char(*ch);
            proof {
                if !old(s).fits(encoded_len(*v)) {
                    lemma_partial_to_take(*old(s), *s, value_bytes(*v, e));
                }
            }
            r
        },
        Value::Str(st) => {
            let r = s.serialize_str(st.as_str());
            proof {
                if !old(s).fits(encoded_len(*v)) {
                    lemma_partial_to_take(*old(s), *s, value_bytes(*v, e));
                }
            }
            r
        },
        Value::Bytes(b) => {
            let r = s.serialize_bytes(b.as_slice());
            proof {
                if !old(s).fits(encoded_len(*v)) {
                    lemma_partial_to_take(*old(s), *s, value_bytes(*v, e));
                }
            }
            r
        },
        Value::Opt(o) => match o {
            Option::None => {
                let r = s.serialize_none();
                proof {
                    if !old(s).fits(encoded_len(*v)) {
                        lemma_partial_to_take(*old(s), *s, value_bytes(*v, e));
                    }
                }
                r
            },
            Option::Some(p) => {
                let ghost tag = seq![1u8];
                let ghost pb = value_bytes(**p, e);
                proof {
                    lemma_value_len(**p, e);
                }
                match s.serialize_some() {
                    Ok(()) => {},
                    Err(k) => {
                        proof {
                            lemma_partial_to_take(*old(s), *s, tag);
                            wire::lemma_take_concat(tag, pb, old(s).cap - old(s).out@.len());
                            assert((old(s).out@ + (tag + pb)).take(old(s).cap as int) =~= (old(s).out@ + tag).take(old(s).cap as int));
                        }
                        return Err(k);
                    },
                }
                let r = encode_value(s, &**p);
                proof {
                    if old(s).fits(encoded_len(*v)) {
                        assert(old(s).out@ + tag + pb =~= old(s).out@ + (tag + pb));
                    } else if old(s).fits(1) {
                        assert((old(s).out@ + tag) + pb =~= old(s).out@ + (tag + pb));
                    }
                }
                r
            },
        },
        Value::List(vs) => {
            let ghost prefix = wire::u64_bytes(e, vs@.len() as u64);
            let ghost body = list_bytes(vs@, e);
            proof {
                lemma_value_len(*v, e);
                crate::value::lemma_list_len(vs@, e);
            }
            match s.serialize_seq(Some(vs.len())) {
                Ok(()) => {},
                Err(k) => {
                    proof {
                        lemma_partial_to_take(*old(s), *s, prefix);
                        wire::lemma_take_concat(prefix, body, old(s).cap - old(s).out@.len());
                        assert((old(s).out@ + (prefix + body)).take(old(s).cap as int) =~= (old(s).out@ + prefix).take(old(s).cap as int));
                    }
                    return Err(k);
                },
            }
            encode_list(s, vs, Ghost(*old(s)))
        },
        Value::Pairs(ps) => {
            let ghost prefix = wire::u64_bytes(e, ps@.len() as u64);
            let ghost body = pairs_bytes(ps@, e);
            proof {
                lemma_value_len(*v, e);
                crate::value::lemma_pairs_len(ps@, e);
            }
            match s.serialize_map(Some(ps.len())) {
                Ok(()) => {},
                Err(k) => {
                    proof {
                        lemma_partial_to_take(*old(s), *s, prefix);
                        wire::lemma_take_concat(prefix, body, old(s).cap - old(s).out@.len());
                        assert((old(s).out@ + (prefix + body)).take(old(s).cap as int) =~= (old(s).out@ + prefix).take(old(s).cap as int));
                    }
                    return Err(k);
                },
            }
            encode_pairs(s, ps, Ghost(*old(s)))
        },
        Value::Record(vs) => encode_list_only(s, vs),
        Value::Variant(i, p) => {
            let ghost tag = wire::u32_bytes(e, *i);
            let ghost pb = value_bytes(**p, e);
            proof {
                lemma_value_len(**p, e);
                crate::value::lemma_wire_lens(e);
            }
            match s.serialize_variant_index(*i) {
                Ok(()) => {},
                Err(k) => {
                    proof {
                        lemma_partial_to_take(*old(s), *s, tag);
                        wire::lemma_take_concat(tag, pb, old(s).cap - old(s).out@.len());
                        assert((old(s).out@ + (tag + pb)).take(old(s).cap as int) =~= (old(s).out@ + tag).take(old(s).cap as int));
                    }
                    return Err(k);
                },
            }
            let r = encode_value(s, &**p);
            proof {
                if old(s).fits(encoded_len(*v)) {
                    assert(old(s).out@ + tag + pb =~= old(s).out@ + (tag + pb));
                } else if old(s).fits(4) {
                    assert((old(s).out@ + tag) + pb =~= old(s).out@ + (tag + pb));
                }
            }
            r
        },
    }
}

/// Writes the elements of a sequence, after its count prefix has been
/// written by the encoder handed in as `pre`.
fn encode_list(s: &mut Serializer, vs: &Vec<Value>, pre: Ghost<Serializer>) -> (r: Result<
    (),
    ErrorKind,
>)
    requires
        old(s).wf(),
        pre@.wf(),
        old(s).cap == pre@.cap,
        old(s).endian == pre@.endian,
        old(s).out@ == pre@.out@ + wire::u64_bytes(pre@.endian, vs@.len() as u64),
    ensures
        ({
            let whole = wire::u64_bytes(pre@.endian, vs@.len() as u64) + list_bytes(
                vs@,
                pre@.endian,
            );
            &&& pre@.fits(whole.len()) ==> r == Ok::<(), ErrorKind>(()) && pre@.wrote(
                *final(s),
                whole,
            ) && list_wf(vs@)
            &&& !pre@.fits(whole.len()) ==> r == Err::<(), ErrorKind>(ErrorKind::CapacityError)
                && final(s).cap == pre@.cap && final(s).endian == pre@.endian && final(s).out@ == (
            pre@.out@ + whole).take(pre@.cap as int) && final(s).out@.len() == pre@.cap
        }),
    decreases *vs,
{
    let ghost e = pre@.endian;
    let ghost prefix = wire::u64_bytes(e, vs@.len() as u64);
    let n = vs.len();
    proof {
        assert(vs@.take(0) =~= Seq::<Value>::empty());
        assert(list_bytes(Seq::<Value>::empty(), e) == Seq::<u8>::empty());
        assert(list_wf(Seq::<Value>::empty()));
        assert(s.out@ =~= pre@.out@ + prefix + list_bytes(vs@.take(0), e));
    }
    let mut i: usize = 0;
    while i < n
        invariant
            i <= n,
            n == vs@.len(),
            s.wf(),
            pre@.wf(),
            s.cap == pre@.cap,
            s.endian == pre@.endian,
            e == pre@.endian,
            prefix == wire::u64_bytes(e, vs@.len() as u64),
            s.out@ == pre@.out@ + prefix + list_bytes(vs@.take(i as int), e),
            list_wf(vs@.take(i as int)),
        decreases n - i,
    {
        let elem = slice_index_get(vs.as_slice(), i);
        let ghost done = list_bytes(vs@.take(i as int), e);
        let ghost eb = value_bytes(vs@[i as int], e);
        proof {
            lemma_list_bytes_split(vs@, i as int, e);
            let t = vs@.skip(i as int);
            assert(t[0] == vs@[i as int]);
            assert(list_bytes(t, e) == value_bytes(t[0], e) + list_bytes(t.drop_first(), e));
            assert(t.drop_first() =~= vs@.skip(i + 1));
            lemma_value_len(vs@[i as int], e);
        }
        match encode_value(s, elem) {
            Ok(()) => {
                proof {
                    lemma_list_bytes_snoc(vs@.take(i as int), vs@[i as int], e);
                    assert(vs@.take(i + 1) =~= vs@.take(i as int).push(vs@[i as int]));
                    lemma_list_wf_snoc(vs@.take(i as int), vs@[i as int]);
                    assert(s.out@ =~= pre@.out@ + prefix + list_bytes(vs@.take(i + 1), e));
                }
                i = i + 1;
            },
            Err(k) => {
                proof {
                    let whole = prefix + list_bytes(vs@, e);
                    let head = pre@.out@ + prefix + done + eb;
                    let rest = list_bytes(vs@.skip(i + 1), e);
                    assert(pre@.out@ + whole =~= head + rest);
                    wire::lemma_take_concat(head, rest, pre@.cap as int);
                    assert(s.out@ =~= ((pre@.out@ + prefix + done) + eb).take(pre@.cap as int));
                    assert((pre@.out@ + prefix + done) + eb =~= head);
                    assert(s.out@ =~= (pre@.out@ + whole).take(pre@.cap as int));
                }
                return Err(k);
            },
        }
    }
    proof {
        assert(vs@.take(n as int) =~= vs@);
        assert(pre@.out@ + prefix + list_bytes(vs@, e) =~= pre@.out@ + (prefix + list_bytes(
            vs@,
            e,
        )));
    }
    Ok(())
}

/// Writes the fields of a record, which carries no prefix.
fn encode_list_only(s: &mut Serializer, vs: &Vec<Value>) -> (r: Result<(), ErrorKind>)
    requires
        old(s).wf(),
    ensures
        ({
            let whole = list_bytes(vs@, old(s).endian);
            &&& old(s).fits(whole.len()) ==> r == Ok::<(), ErrorKind>(()) && old(s).wrote(
                *final(s),
                whole,
            ) && list_wf(vs@)
            &&& !old(s).fits(whole.len()) ==> r == Err::<(), ErrorKind>(ErrorKind::CapacityError)
                && final(s).cap == old(s).cap && final(s).endian == old(s).endian && final(s).out@
                == (old(s).out@ + whole).take(old(s).cap as int) && final(s).out@.len() == old(s).cap
        }),
    decreases *vs,
{
    let ghost pre = *old(s);
    let ghost e = old(s).endian;
    let n = vs.len();
    proof {
        assert(vs@.take(0) =~= Seq::<Value>::empty());
        assert(list_bytes(Seq::<Value>::empty(), e) == Seq::<u8>::empty());
        assert(list_wf(Seq::<Value>::empty()));
        assert(s.out@ =~= pre.out@ + list_bytes(vs@.take(0), e));
    }
    let mut i: usize = 0;
    while i < n
        invariant
            i <= n,
            n == vs@.len(),
            s.wf(),
            pre.wf(),
            pre == *old(s),
            s.cap == pre.cap,
            s.endian == pre.endian,
            e == pre.endian,
            s.out@ == pre.out@ + list_bytes(vs@.take(i as int), e),
            list_wf(vs@.take(i as int)),
        decreases n - i,
    {
        let elem = slice_index_get(vs.as_slice(), i);
        let ghost done = list_bytes(vs@.take(i as int), e);
        let ghost eb = value_bytes(vs@[i as int], e);
        proof {
            lemma_list_bytes_split(vs@, i as int, e);
            let t = vs@.skip(i as int);
            assert(t[0] == vs@[i as int]);
            assert(list_bytes(t, e) == value_bytes(t[0], e) + list_bytes(t.drop_first(), e));
            assert(t.drop_first() =~= vs@.skip(i + 1));
            lemma_value_len(vs@[i as int], e);
        }
        match encode_value(s, elem) {
            Ok(()) => {
                proof {
                    lemma_list_bytes_snoc(vs@.take(i as int), vs@[i as int], e);
                    assert(vs@.take(i + 1) =~= vs@.take(i as int).push(vs@[i as int]));
                    lemma_list_wf_snoc(vs@.take(i as int), vs@[i as int]);
                    assert(s.out@ =~= pre.out@ + list_bytes(vs@.take(i + 1), e));
                }
                i = i + 1;
            },
            Err(k) => {
                proof {
                    let whole = list_bytes(vs@, e);
                    let head = pre.out@ + done + eb;
                    let rest = list_bytes(vs@.skip(i + 1), e);
                    assert(pre.out@ + whole =~= head + rest);
                    wire::lemma_take_concat(head, rest, pre.cap as int);
                    assert(s.out@ =~= ((pre.out@ + done) + eb).take(pre.cap as int));
                    assert((pre.out@ + done) + eb =~= head);
                    assert(s.out@ =~= (pre.out@ + whole).take(pre.cap as int));
                }
                return Err(k);
            },
        }
    }
    proof {
        assert(vs@.take(n as int) =~= vs@);
    }
    Ok(())
}

/// Writes the pairs of a map, after its count prefix has been written by
/// the encoder handed in as `pre`.
fn encode_pairs(s: &mut Serializer, ps: &Vec<(Value, Value)>, pre: Ghost<Serializer>) -> (r: Result<
    (),
    ErrorKind,
>)
    requires
        old(s).wf(),
        pre@.wf(),
        old(s).cap == pre@.cap,
        old(s).endian == pre@.endian,
        old(s).out@ == pre@.out@ + wire::u64_bytes(pre@.endian, ps@.len() as u64),
    ensures
        ({
            let whole = wire::u64_bytes(pre@.endian, ps@.len() as u64) + pairs_bytes(
                ps@,
                pre@.endian,
            );
            &&& pre@.fits(whole.len()) ==> r == Ok::<(), ErrorKind>(()) && pre@.wrote(
                *final(s),
                whole,
            ) && pairs_wf(ps@)
            &&& !pre@.fits(whole.len()) ==> r == Err::<(), ErrorKind>(ErrorKind::CapacityError)
                && final(s).cap == pre@.cap && final(s).endian == pre@.endian && final(s).out@ == (
            pre@.out@ + whole).take(pre@.cap as int) && final(s).out@.len() == pre@.cap
        }),
    decreases *ps,
{
    let ghost e = pre@.endian;
    let ghost prefix = wire::u64_bytes(e, ps@.len() as u64);
    let n = ps.len();
    proof {
        assert(ps@.take(0) =~= Seq::<(Value, Value)>::empty());
        assert(pairs_bytes(Seq::<(Value, Value)>::empty(), e) == Seq::<u8>::empty());
        assert(pairs_wf(Seq::<(Value, Value)>::empty()));
        assert(s.out@ =~= pre@.out@ + prefix + pairs_bytes(ps@.take(0), e));
    }
    let mut i: usize = 0;
    while i < n
        invariant
            i <= n,
            n == ps@.len(),
            s.wf(),
            pre@.wf(),
            s.cap == pre@.cap,
            s.endian == pre@.endian,
            e == pre@.endian,
            prefix == wire::u64_bytes(e, ps@.len() as u64),
            s.out@ == pre@.out@ + prefix + pairs_bytes(ps@.take(i as int), e),
            pairs_wf(ps@.take(i as int)),
        decreases n - i,
    {
        let pair = slice_index_get(ps.as_slice(), i);
        let ghost done = pairs_bytes(ps@.take(i as int), e);
        let ghost kv = ps@[i as int];
        let ghost kb = value_bytes(kv.0, e);
        let ghost vb = value_bytes(kv.1, e);
        proof {
            lemma_pairs_bytes_split(ps@, i as int, e);
            let t = ps@.skip(i as int);
            assert(t[0] == kv);
            assert(pairs_bytes(t, e) == value_bytes(t[0].0, e) + value_bytes(t[0].1, e)
                + pairs_bytes(t.drop_first(), e));
            assert(t.drop_first() =~= ps@.skip(i + 1));
            lemma_value_len(kv.0, e);
            lemma_value_len(kv.1, e);
        }
        match encode_value(s, &pair.0) {
            Ok(()) => {},
            Err(k) => {
                proof {
                    let whole = prefix + pairs_bytes(ps@, e);
                    let head = pre@.out@ + prefix + done + kb;
                    let rest = vb + pairs_bytes(ps@.skip(i + 1), e);
                    assert(pre@.out@ + whole =~= head + rest);
                    wire::lemma_take_concat(head, rest, pre@.cap as int);
                    assert(s.out@ =~= ((pre@.out@ + prefix + done) + kb).take(pre@.cap as int));
                    assert((pre@.out@ + prefix + done) + kb =~= head);
                    assert(s.out@ =~= (pre@.out@ + whole).take(pre@.cap as int));
                }
                return Err(k);
            },
        }
        match encode_value(s, &pair.1) {
            Ok(()) => {
                proof {
                    lemma_pairs_bytes_snoc(ps@.take(i as int), kv, e);
                    assert(ps@.take(i + 1) =~= ps@.take(i as int).push(kv));
                    lemma_pairs_wf_snoc(ps@.take(i as int), kv);
                    assert(s.out@ =~= pre@.out@ + prefix + pairs_bytes(ps@.take(i + 1), e));
                }
                i = i + 1;
            },
            Err(k) => {
                proof {
                    let whole = prefix + pairs_bytes(ps@, e);
                    let head = pre@.out@ + prefix + done + kb + vb;
                    let rest = pairs_bytes(ps@.skip(i + 1), e);
                    assert(pre@.out@ + whole =~= head + rest);
                    wire::lemma_take_concat(head, rest, pre@.cap as int);
                    assert(s.out@ =~= ((pre@.out@ + prefix + done + kb) + vb).take(
                        pre@.cap as int,
                    ));
                    assert((pre@.out@ + prefix + done + kb) + vb =~= head);
                    assert(s.out@ =~= (pre@.out@ + whole).take(pre@.cap as int));
                }
                return Err(k);
            },
        }
    }
    proof {
        assert(ps@.take(n as int) =~= ps@);
        assert(pre@.out@ + prefix + pairs_bytes(ps@, e) =~= pre@.out@ + (prefix + pairs_bytes(
            ps@,
            e,
        )));
    }
    Ok(())
}


/// The decoder's whole contract, shared by [`decode_value`] and its
/// helpers, stated over the decoder states around the call.
pub open spec fn decode_contract<'de>(
    pre: Deserializer<'de>,
    post: Deserializer<'de>,
    sh: Shape,
    r: Result<Value, ErrorKind>,
) -> bool {
    let s = pre.bytes();
    let e = pre.endian;
    let l = pre.limit;
    &&& (r matches Ok(x) ==> matches_shape(x, sh) && value_wf(x) && value_bytes(x, e).is_prefix_of(
        s,
    ) && l.allows(encoded_len(x)) && pre.consumed(post, encoded_len(x)))
    &&& (forall|w: Value|
        matches_shape(w, sh) && value_wf(w) && (#[trigger] value_bytes(w, e)).is_prefix_of(s)
            && l.allows(encoded_len(w)) ==> (r matches Ok(x) && val_eq(x, w)))
    &&& (forall|w: Value|
        matches_shape(w, sh) && value_wf(w) && (#[trigger] value_bytes(w, e)).is_prefix_of(s)
            && !l.allows(encoded_len(w)) ==> r == Err::<Value, ErrorKind>(ErrorKind::SizeLimit))
    &&& (forall|w: Value|
        matches_shape(w, sh) && value_wf(w) && s.len() < (#[trigger] value_bytes(w, e)).len() && s
            == value_bytes(w, e).take(s.len() as int) ==> r is Err)
    &&& (forall|w: Value|
        matches_shape(w, sh) && value_wf(w) && char_free(w) && s.len() < (#[trigger] value_bytes(
            w,
            e,
        )).len() && s == value_bytes(w, e).take(s.len() as int) ==> r == Err::<Value, ErrorKind>(
            ErrorKind::SizeLimit,
        ))
}

/// Decodes one value of the given shape from the decoder's input, consuming
/// exactly the value's wire bytes and charging them against the budget.
///
/// The contract pins the result down completely: when the input starts with
/// the encoding of a well-formed value of the shape and the budget admits
/// it, that value (up to structural equality) comes back; when the budget
/// falls short of such a value, the error is the budget error; and a
/// truncated encoding never decodes.
#[verifier::rlimit(100)]
pub fn decode_value<'de>(d: &mut Deserializer<'de>, shape: &Shape) -> (r: Result<Value, ErrorKind>)
    ensures
        decode_contract(*old(d), *final(d), *shape, r),
    decreases *shape, 1nat,
{
    let ghost s = d.bytes();
    let ghost e = d.endian;
    let ghost l = d.limit;
    match shape {
        Shape::Unit => {
            let x = Value::Unit;
            proof {
                assert(value_bytes(x, e) =~= s.subrange(0, 0));
                assert(value_bytes(x, e).is_prefix_of(s));
                assert(s.skip(0) =~= s);
                lemma_decode_ok(x, *shape, e, s);
            }
            Ok(x)
        },
        Shape::Bool => {
            let rr = d.deserialize_bool();
            match rr {
                Ok(b) => {
                    let x = Value::Bool(b);
                    proof {
                        assert(value_bytes(x, e) =~= s.subrange(0, 1));
                        assert(value_bytes(x, e).is_prefix_of(s));
                        lemma_decode_ok(x, *shape, e, s);
                    }
                    Ok(x)
                },
                Err(k) => {
                    proof {
                        assert forall|w: Value|
                            matches_shape(w, *shape) && value_wf(w) && (#[trigger] value_bytes(
                                w,
                                e,
                            )).is_prefix_of(s) implies (encoded_len(w) == 1 && value_bytes(
                            w,
                            e,
                        ).len() == 1 && (value_bytes(w, e)[0] == 0 || value_bytes(w, e)[0] == 1)
                            && s.len() >= 1 && value_bytes(w, e)[0] == s[0]) by {
                            lemma_value_len(w, e);
                        }
                        assert forall|w: Value|
                            matches_shape(w, *shape) && value_wf(w) && s.len() < (
                            #[trigger] value_bytes(w, e)).len() && s == value_bytes(w, e).take(
                                s.len() as int,
                            ) implies k == ErrorKind::SizeLimit by {
                            lemma_value_len(w, e);
                        }
                    }
                    Err(k)
                },
            }
        },
        Shape::U8 => {
            let rr = d.deserialize_u8();
            match rr {
                Ok(b) => {
                    let x = Value::U8(b);
                    proof {
                        assert(value_bytes(x, e) =~= s.subrange(0, 1));
                        assert(value_bytes(x, e).is_prefix_of(s));
                        lemma_decode_ok(x, *shape, e, s);
                    }
                    Ok(x)
                },
                Err(k) => {
                    proof {
                        assert forall|w: Value|
                            matches_shape(w, *shape) && value_wf(w) && (#[trigger] value_bytes(
                                w,
                                e,
                            )).is_prefix_of(s) implies encoded_len(w) == 1 by {}
                    }
                    Err(k)
                },
            }
        },
        Shape::I8 => {
            let rr = d.deserialize_i8();
            match rr {
                Ok(b) => {
                    let x = Value::I8(b);
                    proof {
                        assert(value_bytes(x, e) =~= s.subrange(0, 1)) by {
                            let b0 = s[0];
                            assert((b0 as i8) as u8 == b0) by (bit_vector);
                        }
                        assert(value_bytes(x, e).is_prefix_of(s));
                        lemma_decode_ok(x, *shape, e, s);
                    }
                    Ok(x)
                },
                Err(k) => {
                    proof {
                        assert forall|w: Value|
                            matches_shape(w, *shape) && value_wf(w) && (#[trigger] value_bytes(
                                w,
                                e,
                            )).is_prefix_of(s) implies encoded_len(w) == 1 by {}
                    }
                    Err(k)
                },
            }
        },
        Shape::U16 => {
            let rr = d.deserialize_u16();
            proof {
                wire::lemma_u16_bytes(e);
            }
            match rr {
                Ok(v0) => {
                    let x = Value::U16(v0);
                    proof {
                        assert(value_bytes(x, e) == s.take(2));
                        assert(value_bytes(x, e).is_prefix_of(s)) by {
                            assert(s.take(2) =~= s.subrange(0, 2));
                        }
                        lemma_decode_ok(x, *shape, e, s);
                    }
                    Ok(x)
                },
                Err(k) => {
                    proof {
                        assert forall|w: Value|
                            matches_shape(w, *shape) && value_wf(w) && (#[trigger] value_bytes(
                                w,
                                e,
                            )).is_prefix_of(s) implies encoded_len(w) == 2 by {}
                    }
                    Err(k)
                },
            }
        },
        Shape::U32 => {
            let rr = d.deserialize_u32();
            proof {
                wire::lemma_u32_bytes(e);
            }
            match rr {
                Ok(v0) => {
                    let x = Value::U32(v0);
                    proof {
                        assert(value_bytes(x, e) == s.take(4));
                        assert(value_bytes(x, e).is_prefix_of(s)) by {
                            assert(s.take(4) =~= s.subrange(0, 4));
                        }
                        lemma_decode_ok(x, *shape, e, s);
                    }
                    Ok(x)
                },
                Err(k) => {
                    proof {
                        assert forall|w: Value|
                            matches_shape(w, *shape) && value_wf(w) && (#[trigger] value_bytes(
                                w,
                                e,
                            )).is_prefix_of(s) implies encoded_len(w) == 4 by {}
                    }
                    Err(k)
                },
            }
        },
        Shape::U64 => {
            let rr = d.deserialize_u64();
            proof {
                wire::lemma_u64_bytes(e);
            }
            match rr {
                Ok(v0) => {
                    let x = Value::U64(v0);
                    proof {
                        assert(value_bytes(x, e) == s.take(8));
                        assert(value_bytes(x, e).is_prefix_of(s)) by {
                            assert(s.take(8) =~= s.subrange(0, 8));
                        }
                        lemma_decode_ok(x, *shape, e, s);
                    }
                    Ok(x)
                },
                Err(k) => {
                    proof {
                        assert forall|w: Value|
                            matches_shape(w, *shape) && value_wf(w) && (#[trigger] value_bytes(
                                w,
                                e,
                            )).is_prefix_of(s) implies encoded_len(w) == 8 by {}
                    }
                    Err(k)
                },
            }
        },
        Shape::I16 => {
            let rr = d.deserialize_i16();
            proof {
                wire::lemma_u16_bytes(e);
            }
            match rr {
                Ok(v0) => {
                    let x = Value::I16(v0);
                    proof {
                        assert(value_bytes(x, e) == s.take(2)) by {
                            let y = wire::u16_of_bytes(e, s.take(2));
                            assert((y as i16) as u16 == y) by (bit_vector);
                        }
                        assert(value_bytes(x, e).is_prefix_of(s)) by {
                            assert(s.take(2) =~= s.subrange(0, 2));
                        }
                        lemma_decode_ok(x, *shape, e, s);
                    }
                    Ok(x)
                },
                Err(k) => {
                    proof {
                        assert forall|w: Value|
                            matches_shape(w, *shape) && value_wf(w) && (#[trigger] value_bytes(
                                w,
                                e,
                            )).is_prefix_of(s) implies encoded_len(w) == 2 by {}
                    }
                    Err(k)
                },
            }
        },
        Shape::I32 => {
            let rr = d.deserialize_i32();
            proof {
                wire::lemma_u32_bytes(e);
            }
            match rr {
                Ok(v0) => {
                    let x = Value::I32(v0);
                    proof {
                        assert(value_bytes(x, e) == s.take(4)) by {
                            let y = wire::u32_of_bytes(e, s.take(4));
                            assert((y as i32) as u32 == y) by (bit_vector);
                        }
                        assert(value_bytes(x, e).is_prefix_of(s)) by {
                            assert(s.take(4) =~= s.subrange(0, 4));
                        }
                        lemma_decode_ok(x, *shape, e, s);
                    }
                    Ok(x)
                },
                Err(k) => {
                    proof {
                        assert forall|w: Value|
                            matches_shape(w, *shape) && value_wf(w) && (#[trigger] value_bytes(
                                w,
                                e,
                            )).is_prefix_of(s) implies encoded_len(w) == 4 by {}
                    }
                    Err(k)
                },
            }
        },
        Shape::I64 => {
            let rr = d.deserialize_i64();
            proof {
                wire::lemma_u64_bytes(e);
            }
            match rr {
                Ok(v0) => {
                    let x = Value::I64(v0);
                    proof {
                        assert(value_bytes(x, e) == s.take(8)) by {
                            let y = wire::u64_of_bytes(e, s.take(8));
                            assert((y as i64) as u64 == y) by (bit_vector);
                        }
                        assert(value_bytes(x, e).is_prefix_of(s)) by {
                            assert(s.take(8) =~= s.subrange(0, 8));
                        }
                        lemma_decode_ok(x, *shape, e, s);
                    }
                    Ok(x)
                },
                Err(k) => {
                    proof {
                        assert forall|w: Value|
                            matches_shape(w, *shape) && value_wf(w) && (#[trigger] value_bytes(
                                w,
                                e,
                            )).is_prefix_of(s) implies encoded_len(w) == 8 by {}
                    }
                    Err(k)
                },
            }
        },
        Shape::F32 => {
            let rr = d.deserialize_f32_bits();
            proof {
                wire::lemma_u32_bytes(e);
            }
            match rr {
                Ok(v0) => {
                    let x = Value::F32Bits(v0);
                    proof {
                        assert(value_bytes(x, e) == s.take(4));
                        assert(value_bytes(x, e).is_prefix_of(s)) by {
                            assert(s.take(4) =~= s.subrange(0, 4));
                        }
                        lemma_decode_ok(x, *shape, e, s);
                    }
                    Ok(x)
                },
                Err(k) => {
                    proof {
                        assert forall|w: Value|
                            matches_shape(w, *shape) && value_wf(w) && (#[trigger] value_bytes(
                                w,
                                e,
                            )).is_prefix_of(s) implies encoded_len(w) == 4 by {}
                    }
                    Err(k)
                },
            }
        },
        Shape::F64 => {
            let rr = d.deserialize_f64_bits();
            proof {
                wire::lemma_u64_bytes(e);
            }
            match rr {
                Ok(v0) => {
                    let x = Value::F64Bits(v0);
                    proof {
                        assert(value_bytes(x, e) == s.take(8));
                        assert(value_bytes(x, e).is_prefix_of(s)) by {
                            assert(s.take(8) =~= s.subrange(0, 8));
                        }
                        lemma_decode_ok(x, *shape, e, s);
                    }
                    Ok(x)
                },
                Err(k) => {
                    proof {
                        assert forall|w: Value|
                            matches_shape(w, *shape) && value_wf(w) && (#[trigger] value_bytes(
                                w,
                                e,
                            )).is_prefix_of(s) implies encoded_len(w) == 8 by {}
                    }
                    Err(k)
                },
            }
        },
        Shape::Char => {
            let rr = d.deserialize_char();
            match rr {
                Ok(c) => {
                    let x = Value::Char(c);
                    proof {
                        assert(l.allows(1) && s.len() >= 1);
                        let w0 = crate::utf8::char_width(s[0]);
                        assert(w0 >= 1 && l.allows(w0) && s.len() >= w0);
                        assert(vstd::utf8::valid_first_scalar(s)
                            && vstd::utf8::length_of_first_scalar(s) == w0);
                        assert(crate::utf8::char_bytes(c) == s.take(w0 as int));
                        assert(s.take(w0 as int).len() == w0);
                        assert(crate::utf8::char_bytes(c).len() == w0);
                        lemma_char_value_bytes(c, e);
                        assert(value_bytes(x, e) == crate::utf8::char_bytes(c));
                        assert(s.take(w0 as int) =~= s.subrange(0, w0 as int));
                        assert(value_bytes(x, e).is_prefix_of(s));
                        assert(encoded_len(x) == w0);
                        lemma_decode_ok(x, *shape, e, s);
                    }
                    Ok(x)
                },
                Err(k) => {
                    proof {
                        assert forall|w: Value|
                            matches_shape(w, *shape) && value_wf(w) && (#[trigger] value_bytes(
                                w,
                                e,
                            )).is_prefix_of(s) implies (encoded_len(w) == crate::utf8::char_width(
                            s[0],
                        ) && s.len() >= 1 && encoded_len(w) >= 1 && vstd::utf8::valid_first_scalar(
                            s,
                        ) && vstd::utf8::length_of_first_scalar(s) == encoded_len(w)
                            && encoded_len(w) <= s.len()) by {
                            let c0 = w->Char_0;
                            crate::utf8::lemma_char_bytes_prefix(c0, s);
                            lemma_value_len(w, e);
                        }
                        assert forall|w: Value|
                            matches_shape(w, *shape) && value_wf(w) && char_free(w) implies
                        false by {}
                    }
                    Err(k)
                },
            }
        },

        Shape::Str => {
            let rr = d.deserialize_str();
            proof {
                wire::lemma_u64_bytes(e);
            }
            match rr {
                Ok(st) => {
                    let owned = st.to_owned();
                    let x = Value::Str(owned);
                    proof {
                        let n = wire::u64_of_bytes(e, s.take(8)) as nat;
                        assert(vstd::utf8::encode_utf8(x->Str_0@) == s.subrange(8, 8 + n as int));
                        assert(vstd::utf8::encode_utf8(x->Str_0@).len() == n);
                        assert(wire::u64_bytes(e, n as u64) == s.take(8)) by {
                            assert(s.take(8) =~= s.subrange(0, 8));
                        }
                        assert(value_bytes(x, e) =~= s.subrange(0, 8 + n as int));
                        assert(value_bytes(x, e).is_prefix_of(s));
                        assert(value_wf(x));
                        assert(encoded_len(x) == 8 + n);
                        lemma_decode_ok(x, *shape, e, s);
                    }
                    Ok(x)
                },
                Err(k) => {
                    proof {
                        if s.len() >= 8 && l.allows(8) {
                            let n64 = wire::u64_of_bytes(e, s.take(8));
                            assert forall|w: Value|
                                matches_shape(w, *shape) && value_wf(w) && (#[trigger] value_bytes(
                                    w,
                                    e,
                                )).is_prefix_of(s) implies (encoded_len(w) == 8 + n64 && n64
                                <= usize::MAX && 8 + n64 <= s.len()
                                && vstd::utf8::valid_utf8(s.subrange(8, 8 + n64 as int))) by {
                                let pay = vstd::utf8::encode_utf8(w->Str_0@);
                                let pre = wire::u64_bytes(e, pay.len() as u64);
                                lemma_value_len(w, e);
                                wire::lemma_prefix_parts(pre, pay, s);
                                assert(pre =~= s.subrange(0, 8));
                                assert(s.take(8) =~= s.subrange(0, 8));
                                assert(pay.len() as u64 == n64);
                                vstd::utf8::encode_utf8_valid_utf8(w->Str_0@);
                                assert(pay =~= s.subrange(8, 8 + pay.len() as int));
                            }
                            assert forall|w: Value|
                                matches_shape(w, *shape) && value_wf(w) && s.len() < (
                                #[trigger] value_bytes(w, e)).len() && s == value_bytes(
                                    w,
                                    e,
                                ).take(s.len() as int) implies (encoded_len(w) == 8 + n64 && n64
                                <= usize::MAX) by {
                                let pay = vstd::utf8::encode_utf8(w->Str_0@);
                                let pre = wire::u64_bytes(e, pay.len() as u64);
                                lemma_value_len(w, e);
                                assert(value_bytes(w, e) == pre + pay);
                                assert(pre =~= s.subrange(0, 8)) by {
                                    assert(forall|j: int|
                                        0 <= j < 8 ==> s[j] == value_bytes(w, e)[j]);
                                }
                                assert(s.take(8) =~= s.subrange(0, 8));
                                assert(pay.len() as u64 == n64);
                            }
                        } else {
                            assert forall|w: Value|
                                matches_shape(w, *shape) && value_wf(w) && (#[trigger] value_bytes(
                                    w,
                                    e,
                                )).is_prefix_of(s) implies (encoded_len(w) >= 8 && value_bytes(
                                w,
                                e,
                            ).len() >= 8) by {
                                lemma_value_len(w, e);
                            }
                        }
                    }
                    Err(k)
                },
            }
        },
        Shape::Bytes => {
            let rr = d.deserialize_bytes();
            proof {
                wire::lemma_u64_bytes(e);
            }
            match rr {
                Ok(sp) => {
                    let owned = vstd::slice::slice_to_vec(sp);
                    let x = Value::Bytes(owned);
                    proof {
                        let n = wire::u64_of_bytes(e, s.take(8)) as nat;
                        assert(x->Bytes_0@ == s.subrange(8, 8 + n as int));
                        assert(wire::u64_bytes(e, n as u64) == s.take(8)) by {
                            assert(s.take(8) =~= s.subrange(0, 8));
                        }
                        assert(value_bytes(x, e) =~= s.subrange(0, 8 + n as int));
                        assert(value_bytes(x, e).is_prefix_of(s));
                        assert(value_wf(x));
                        assert(encoded_len(x) == 8 + n);
                        lemma_decode_ok(x, *shape, e, s);
                    }
                    Ok(x)
                },
                Err(k) => {
                    proof {
                        if s.len() >= 8 && l.allows(8) {
                            let n64 = wire::u64_of_bytes(e, s.take(8));
                            assert forall|w: Value|
                                matches_shape(w, *shape) && value_wf(w) && (#[trigger] value_bytes(
                                    w,
                                    e,
                                )).is_prefix_of(s) implies (encoded_len(w) == 8 + n64 && n64
                                <= usize::MAX && 8 + n64 <= s.len()) by {
                                let pay = w->Bytes_0@;
                                let pre = wire::u64_bytes(e, pay.len() as u64);
                                lemma_value_len(w, e);
                                wire::lemma_prefix_parts(pre, pay, s);
                                assert(pre =~= s.subrange(0, 8));
                                assert(s.take(8) =~= s.subrange(0, 8));
                                assert(pay.len() as u64 == n64);
                            }
                            assert forall|w: Value|
                                matches_shape(w, *shape) && value_wf(w) && s.len() < (
                                #[trigger] value_bytes(w, e)).len() && s == value_bytes(
                                    w,
                                    e,
                                ).take(s.len() as int) implies (encoded_len(w) == 8 + n64 && n64
                                <= usize::MAX) by {
                                let pay = w->Bytes_0@;
                                let pre = wire::u64_bytes(e, pay.len() as u64);
                                lemma_value_len(w, e);
                                assert(value_bytes(w, e) == pre + pay);
                                assert(pre =~= s.subrange(0, 8)) by {
                                    assert(forall|j: int|
                                        0 <= j < 8 ==> s[j] == value_bytes(w, e)[j]);
                                }
                                assert(s.take(8) =~= s.subrange(0, 8));
                                assert(pay.len() as u64 == n64);
                            }
                        } else {
                            assert forall|w: Value|
                                matches_shape(w, *shape) && value_wf(w) && (#[trigger] value_bytes(
                                    w,
                                    e,
                                )).is_prefix_of(s) implies (encoded_len(w) >= 8 && value_bytes(
                                w,
                                e,
                            ).len() >= 8) by {
                                lemma_value_len(w, e);
                            }
                        }
                    }
                    Err(k)
                },
            }
        },
        Shape::Opt(bx) => {
            let rr = d.deserialize_option();
            match rr {
                Ok(false) => {
                    let x = Value::Opt(None);
                    proof {
                        assert(value_bytes(x, e) =~= s.subrange(0, 1));
                        assert(value_bytes(x, e).is_prefix_of(s));
                        lemma_decode_ok(x, *shape, e, s);
                    }
                    Ok(x)
                },
                Ok(true) => {
                    let telem: &Shape = &**bx;
                    let ghost d1 = *d;
                    let rr2 = decode_value(d, telem);
                    match rr2 {
                        Ok(xi) => {
                            let ghost gxi = xi;
                            let x = Value::Opt(Some(Box::new(xi)));
                            proof {
                                assert(seq![1u8] =~= s.subrange(0, 1));
                                assert(seq![1u8].is_prefix_of(s));
                                assert(d1.bytes() == s.skip(1));
                                wire::lemma_prefix_join(seq![1u8], value_bytes(gxi, e), s);
                                assert(value_bytes(x, e) == seq![1u8] + value_bytes(gxi, e));
                                lemma_value_len(gxi, e);
                                crate::config::lemma_charge_split(l, 1, encoded_len(gxi));
                                assert(s.skip(1).skip(encoded_len(gxi) as int) =~= s.skip(
                                    1 + encoded_len(gxi) as int,
                                ));
                                assert(value_wf(x));
                                assert(matches_shape(x, *shape));
                                lemma_decode_ok(x, *shape, e, s);
                            }
                            Ok(x)
                        },
                        Err(k) => {
                            proof {
                                assert forall|w: Value|
                                    matches_shape(w, *shape) && value_wf(w)
                                        && (#[trigger] value_bytes(w, e)).is_prefix_of(s)
                                        && l.allows(encoded_len(w)) implies false by {
                                    match w->Opt_0 {
                                        Option::None => {
                                            assert(value_bytes(w, e)[0] == s[0]);
                                        },
                                        Option::Some(p) => {
                                            wire::lemma_prefix_parts(
                                                seq![1u8],
                                                value_bytes(*p, e),
                                                s,
                                            );
                                            crate::config::lemma_charge_split(
                                                l,
                                                1,
                                                encoded_len(*p),
                                            );
                                        },
                                    }
                                }
                                assert forall|w: Value|
                                    matches_shape(w, *shape) && value_wf(w)
                                        && (#[trigger] value_bytes(w, e)).is_prefix_of(s)
                                        && !l.allows(encoded_len(w)) implies k
                                    == ErrorKind::SizeLimit by {
                                    match w->Opt_0 {
                                        Option::None => {
                                            assert(value_bytes(w, e)[0] == s[0]);
                                        },
                                        Option::Some(p) => {
                                            wire::lemma_prefix_parts(
                                                seq![1u8],
                                                value_bytes(*p, e),
                                                s,
                                            );
                                            crate::config::lemma_charge_split(
                                                l,
                                                1,
                                                encoded_len(*p),
                                            );
                                        },
                                    }
                                }
                                assert forall|w: Value|
                                    matches_shape(w, *shape) && value_wf(w) && char_free(w)
                                        && s.len() < (#[trigger] value_bytes(w, e)).len() && s
                                        == value_bytes(w, e).take(s.len() as int) implies k
                                    == ErrorKind::SizeLimit by {
                                    match w->Opt_0 {
                                        Option::None => {
                                            lemma_value_len(w, e);
                                            assert(false);
                                        },
                                        Option::Some(p) => {
                                            lemma_value_len(*p, e);
                                            assert(value_bytes(w, e) == seq![1u8] + value_bytes(
                                                *p,
                                                e,
                                            ));
                                            assert(d1.bytes() =~= value_bytes(*p, e).take(
                                                s.len() - 1,
                                            )) by {
                                                assert(forall|j: int|
                                                    0 <= j < s.len() ==> s[j] == value_bytes(
                                                        w,
                                                        e,
                                                    )[j]);
                                            }
                                        },
                                    }
                                }
                            }
                            Err(k)
                        },
                    }
                },
                Err(k) => {
                    proof {
                        assert forall|w: Value|
                            matches_shape(w, *shape) && value_wf(w) && (#[trigger] value_bytes(
                                w,
                                e,
                            )).is_prefix_of(s) implies (encoded_len(w) >= 1 && value_bytes(
                            w,
                            e,
                        ).len() >= 1 && (s.len() >= 1 ==> s[0] == 0 || s[0] == 1)) by {
                            lemma_value_len(w, e);
                            match w->Opt_0 {
                                Option::None => {
                                    if s.len() >= 1 {
                                        assert(value_bytes(w, e)[0] == s[0]);
                                    }
                                },
                                Option::Some(p) => {
                                    if s.len() >= 1 {
                                        assert(value_bytes(w, e)[0] == s[0]);
                                    }
                                },
                            }
                        }
                        assert forall|w: Value|
                            matches_shape(w, *shape) && value_wf(w) && s.len() < (
                            #[trigger] value_bytes(w, e)).len() && s == value_bytes(w, e).take(
                                s.len() as int,
                            ) implies k == ErrorKind::SizeLimit by {
                            lemma_value_len(w, e);
                            if s.len() >= 1 {
                                assert(s[0] == value_bytes(w, e)[0]);
                                match w->Opt_0 {
                                    Option::None => {},
                                    Option::Some(p) => {},
                                }
                            }
                        }
                    }
                    Err(k)
                },
            }
        },
        Shape::Variant(ssv) => {
            let rr = d.deserialize_u32();
            proof {
                wire::lemma_u32_bytes(e);
            }
            match rr {
                Ok(idx) => {
                    if (idx as usize) < ssv.len() {
                        let telem: &Shape = slice_index_get(ssv.as_slice(), idx as usize);
                        let ghost d1 = *d;
                        let rr2 = decode_value(d, telem);
                        match rr2 {
                            Ok(xi) => {
                                let ghost gxi = xi;
                                let x = Value::Variant(idx, Box::new(xi));
                                proof {
                                    let tag = wire::u32_bytes(e, idx);
                                    assert(tag == s.take(4));
                                    assert(tag =~= s.subrange(0, 4));
                                    assert(tag.is_prefix_of(s));
                                    assert(d1.bytes() == s.skip(4));
                                    wire::lemma_prefix_join(tag, value_bytes(gxi, e), s);
                                    assert(value_bytes(x, e) == tag + value_bytes(gxi, e));
                                    lemma_value_len(gxi, e);
                                    crate::config::lemma_charge_split(l, 4, encoded_len(gxi));
                                    assert(s.skip(4).skip(encoded_len(gxi) as int) =~= s.skip(
                                        4 + encoded_len(gxi) as int,
                                    ));
                                    assert(value_wf(x));
                                    assert(matches_shape(x, *shape));
                                    lemma_decode_ok(x, *shape, e, s);
                                }
                                Ok(x)
                            },
                            Err(k) => {
                                proof {
                                    assert forall|w: Value|
                                        matches_shape(w, *shape) && value_wf(w)
                                            && (#[trigger] value_bytes(w, e)).is_prefix_of(s)
                                            && l.allows(encoded_len(w)) implies false by {
                                        let i0 = w->Variant_0;
                                        let p0 = w->Variant_1;
                                        let tag0 = wire::u32_bytes(e, i0);
                                        wire::lemma_prefix_parts(tag0, value_bytes(*p0, e), s);
                                        assert(tag0 =~= s.subrange(0, 4));
                                        assert(s.take(4) =~= s.subrange(0, 4));
                                        assert(i0 == idx);
                                        crate::config::lemma_charge_split(l, 4, encoded_len(*p0));
                                    }
                                    assert forall|w: Value|
                                        matches_shape(w, *shape) && value_wf(w)
                                            && (#[trigger] value_bytes(w, e)).is_prefix_of(s)
                                            && !l.allows(encoded_len(w)) implies k
                                        == ErrorKind::SizeLimit by {
                                        let i0 = w->Variant_0;
                                        let p0 = w->Variant_1;
                                        let tag0 = wire::u32_bytes(e, i0);
                                        wire::lemma_prefix_parts(tag0, value_bytes(*p0, e), s);
                                        assert(tag0 =~= s.subrange(0, 4));
                                        assert(s.take(4) =~= s.subrange(0, 4));
                                        assert(i0 == idx);
                                        crate::config::lemma_charge_split(l, 4, encoded_len(*p0));
                                    }
                                    assert forall|w: Value|
                                        matches_shape(w, *shape) && value_wf(w) && char_free(w)
                                            && s.len() < (#[trigger] value_bytes(w, e)).len() && s
                                            == value_bytes(w, e).take(s.len() as int) implies k
                                        == ErrorKind::SizeLimit by {
                                        let i0 = w->Variant_0;
                                        let p0 = w->Variant_1;
                                        let tag0 = wire::u32_bytes(e, i0);
                                        lemma_value_len(w, e);
                                        lemma_value_len(*p0, e);
                                        assert(value_bytes(w, e) == tag0 + value_bytes(*p0, e));
                                        assert(tag0 =~= s.subrange(0, 4)) by {
                                            assert(forall|j: int|
                                                0 <= j < s.len() ==> s[j] == value_bytes(
                                                    w,
                                                    e,
                                                )[j]);
                                        }
                                        assert(s.take(4) =~= s.subrange(0, 4));
                                        assert(i0 == idx);
                                        assert(d1.bytes() =~= value_bytes(*p0, e).take(
                                            s.len() - 4,
                                        )) by {
                                            assert(forall|j: int|
                                                0 <= j < s.len() ==> s[j] == value_bytes(
                                                    w,
                                                    e,
                                                )[j]);
                                        }
                                    }
                                }
                                Err(k)
                            },
                        }
                    } else {
                        proof {
                            assert forall|w: Value|
                                matches_shape(w, *shape) && value_wf(w) && (#[trigger] value_bytes(
                                    w,
                                    e,
                                )).is_prefix_of(s) implies false by {
                                let i0 = w->Variant_0;
                                let p0 = w->Variant_1;
                                let tag0 = wire::u32_bytes(e, i0);
                                wire::lemma_prefix_parts(tag0, value_bytes(*p0, e), s);
                                assert(tag0 =~= s.subrange(0, 4));
                                assert(s.take(4) =~= s.subrange(0, 4));
                                assert(i0 == idx);
                            }
                            assert forall|w: Value|
                                matches_shape(w, *shape) && value_wf(w) && s.len() < (
                                #[trigger] value_bytes(w, e)).len() && s == value_bytes(
                                    w,
                                    e,
                                ).take(s.len() as int) implies false by {
                                let i0 = w->Variant_0;
                                let p0 = w->Variant_1;
                                let tag0 = wire::u32_bytes(e, i0);
                                lemma_value_len(w, e);
                                assert(value_bytes(w, e) == tag0 + value_bytes(*p0, e));
                                assert(tag0 =~= s.subrange(0, 4)) by {
                                    assert(forall|j: int|
                                        0 <= j < s.len() ==> s[j] == value_bytes(w, e)[j]);
                                }
                                assert(s.take(4) =~= s.subrange(0, 4));
                                assert(i0 == idx);
                            }
                        }
                        Err(ErrorKind::Serde)
                    }
                },
                Err(k) => {
                    proof {
                        assert forall|w: Value|
                            matches_shape(w, *shape) && value_wf(w) && (#[trigger] value_bytes(
                                w,
                                e,
                            )).is_prefix_of(s) implies (encoded_len(w) >= 4 && value_bytes(
                            w,
                            e,
                        ).len() >= 4) by {
                            lemma_value_len(w, e);
                        }
                    }
                    Err(k)
                },
            }
        },
        Shape::List(_) => decode_list_value(d, shape),
        Shape::Pairs(_, _) => decode_pairs_value(d, shape),
        Shape::Record(_) => decode_record_value(d, shape),
    }
}

/// Decodes a sequence: a 64-bit count, then that many elements of the
/// element shape.
fn decode_list_value<'de>(d: &mut Deserializer<'de>, shape: &Shape) -> (r: Result<
    Value,
    ErrorKind,
>)
    requires
        *shape matches Shape::List(_),
    ensures
        decode_contract(*old(d), *final(d), *shape, r),
    decreases *shape, 0nat,
{
    let ghost s = d.bytes();
    let ghost e = d.endian;
    let ghost l = d.limit;
    proof {
        wire::lemma_u64_bytes(e);
    }
    let telem: &Shape = match shape {
        Shape::List(bx) => &**bx,
        _ => {
            proof {
                assert(false);
            }
            shape
        },
    };
    let nr = d.deserialize_len();
    let n = match nr {
        Ok(n) => n,
        Err(k) => {
            proof {
                if s.len() >= 8 && l.allows(8) {
                    let n64 = wire::u64_of_bytes(e, s.take(8));
                    assert forall|w: Value|
                        matches_shape(w, *shape) && value_wf(w) && (#[trigger] value_bytes(
                            w,
                            e,
                        )).is_prefix_of(s) implies false by {
                        let ws = w->List_0@;
                        lemma_value_len(w, e);
                        wire::lemma_prefix_parts(
                            wire::u64_bytes(e, ws.len() as u64),
                            list_bytes(ws, e),
                            s,
                        );
                        assert(wire::u64_bytes(e, ws.len() as u64) =~= s.subrange(0, 8));
                        assert(s.take(8) =~= s.subrange(0, 8));
                        assert(ws.len() as u64 == n64);
                    }
                    assert forall|w: Value|
                        matches_shape(w, *shape) && value_wf(w) && s.len() < (
                        #[trigger] value_bytes(w, e)).len() && s == value_bytes(w, e).take(
                            s.len() as int,
                        ) implies false by {
                        let ws = w->List_0@;
                        lemma_value_len(w, e);
                        lemma_trunc_tail(
                            w,
                            e,
                            s,
                            wire::u64_bytes(e, ws.len() as u64),
                            list_bytes(ws, e),
                        );
                        assert(s.take(8) =~= s.subrange(0, 8));
                        assert(ws.len() as u64 == n64);
                    }
                } else {
                    assert forall|w: Value|
                        matches_shape(w, *shape) && value_wf(w) && (#[trigger] value_bytes(
                            w,
                            e,
                        )).is_prefix_of(s) implies (encoded_len(w) >= 8 && value_bytes(
                        w,
                        e,
                    ).len() >= 8) by {
                        lemma_value_len(w, e);
                    }
                }
            }
            return Err(k);
        },
    };
    let ghost pre8 = wire::u64_bytes(e, n as u64);
    let mut items: Vec<Value> = Vec::new();
    proof {
        assert(s.take(8) =~= s.subrange(0, 8));
        assert(pre8 == s.take(8));
        assert(items@ =~= Seq::<Value>::empty());
        assert(list_bytes(Seq::<Value>::empty(), e) == Seq::<u8>::empty());
        assert(list_len(Seq::<Value>::empty()) == 0);
        assert(list_matches(Seq::<Value>::empty(), *telem));
        assert(list_wf(Seq::<Value>::empty()));
        assert(Seq::<u8>::empty() =~= s.skip(8).subrange(0, 0));
        assert(Seq::<u8>::empty().is_prefix_of(s.skip(8)));
        assert(s.skip(8).skip(0) =~= s.skip(8));
    }
    let mut i: usize = 0;
    while i < n
        invariant
            i <= n,
            items@.len() == i,
            s == old(d).bytes(),
            e == old(d).endian,
            l == old(d).limit,
            s.len() >= 8,
            l.allows(8),
            n == wire::u64_of_bytes(e, s.take(8)),
            pre8 == wire::u64_bytes(e, n as u64),
            pre8 == s.take(8),
            *shape matches Shape::List(bbb) && *bbb == *telem,
            list_matches(items@, *telem),
            list_wf(items@),
            list_bytes(items@, e).is_prefix_of(s.skip(8)),
            d.endian == e,
            d.reader.slice@ == s.skip(8).skip(list_bytes(items@, e).len() as int),
            d.limit == l.charge(8 + list_len(items@)),
            l.allows(8 + list_len(items@)),
        decreases n - i,
    {
        let ghost prev = items@;
        let ghost done = list_bytes(items@, e);
        let ghost diter = *d;
        let rr2 = decode_value(d, telem);
        match rr2 {
            Ok(xi) => {
                let ghost gxi = xi;
                items.push(xi);
                proof {
                    wire::lemma_u64_bytes(e);
                    assert(items@ == prev.push(gxi));
                    lemma_list_bytes_snoc(prev, gxi, e);
                    lemma_list_matches_snoc(prev, gxi, *telem);
                    lemma_list_wf_snoc(prev, gxi);
                    lemma_value_len(gxi, e);
                    wire::lemma_prefix_join(done, value_bytes(gxi, e), s.skip(8));
                    assert(s.skip(8).skip(done.len() as int).skip(encoded_len(gxi) as int) =~= s.skip(8).skip(done.len() as int + encoded_len(gxi) as int));
                    crate::config::lemma_charge_split(l, 8 + list_len(prev), encoded_len(gxi));
                }
                i = i + 1;
            },
            Err(k) => {
                proof {
                    wire::lemma_u64_bytes(e);
                    assert forall|w: Value|
                        matches_shape(w, *shape) && value_wf(w) && (#[trigger] value_bytes(
                            w,
                            e,
                        )).is_prefix_of(s) && l.allows(encoded_len(w)) implies false by {
                        lemma_list_err_step(
                            w, *shape, *telem, e, s, l, items@, diter, *d, rr2, n as nat, i as nat,
                        );
                    }
                    assert forall|w: Value|
                        matches_shape(w, *shape) && value_wf(w) && (#[trigger] value_bytes(
                            w,
                            e,
                        )).is_prefix_of(s) && !l.allows(encoded_len(w)) implies k
                        == ErrorKind::SizeLimit by {
                        lemma_list_err_step(
                            w, *shape, *telem, e, s, l, items@, diter, *d, rr2, n as nat, i as nat,
                        );
                    }
                    assert forall|w: Value|
                        matches_shape(w, *shape) && value_wf(w) && char_free(w) && s.len() < (
                        #[trigger] value_bytes(w, e)).len() && s == value_bytes(w, e).take(
                            s.len() as int,
                        ) implies k == ErrorKind::SizeLimit by {
                        lemma_list_err_trunc(
                            w, *shape, *telem, e, s, l, items@, diter, *d, rr2, n as nat, i as nat,
                        );
                    }
                }
                return Err(k);
            },
        }
    }
    let ghost gitems = items@;
    let x = Value::List(items);
    proof {
        assert(x->List_0@ == gitems);
        assert(pre8.is_prefix_of(s)) by {
            assert(pre8 =~= s.subrange(0, 8));
        }
        wire::lemma_prefix_join(pre8, list_bytes(gitems, e), s);
        assert(value_bytes(x, e) == pre8 + list_bytes(gitems, e));
        crate::value::lemma_list_len(gitems, e);
        assert(s.skip(8).skip(list_bytes(gitems, e).len() as int) =~= s.skip(
            8 + list_len(gitems) as int,
        ));
        assert(value_wf(x));
        assert(matches_shape(x, *shape));
        lemma_decode_ok(x, *shape, e, s);
    }
    Ok(x)
}

/// The contradiction behind a failed sequence element: were the stream to
/// start with a valid sequence within budget, the failed element's decode
/// would have been obliged to succeed; and when the budget fell short, the
/// failure was the budget error.
proof fn lemma_list_err_step<'de>(
    w: Value,
    sh: Shape,
    telem: Shape,
    e: Endianness,
    s: Seq<u8>,
    l: SizeLimit,
    items: Seq<Value>,
    diter: Deserializer<'de>,
    dpost: Deserializer<'de>,
    rr2: Result<Value, ErrorKind>,
    n: nat,
    i: nat,
)
    requires
        sh matches Shape::List(bbb) && *bbb == telem,
        matches_shape(w, sh),
        value_wf(w),
        value_bytes(w, e).is_prefix_of(s),
        s.len() >= 8,
        n <= usize::MAX,
        i < n,
        items.len() == i,
        n == wire::u64_of_bytes(e, s.take(8)),
        list_matches(items, telem),
        list_wf(items),
        list_bytes(items, e).is_prefix_of(s.skip(8)),
        diter.endian == e,
        diter.reader.slice@ == s.skip(8).skip(list_bytes(items, e).len() as int),
        diter.limit == l.charge(8 + list_len(items)),
        l.allows(8 + list_len(items)),
        decode_contract(diter, dpost, telem, rr2),
        rr2 is Err,
    ensures
        l.allows(encoded_len(w)) ==> false,
        !l.allows(encoded_len(w)) ==> rr2 == Err::<Value, ErrorKind>(ErrorKind::SizeLimit),
{
    wire::lemma_u64_bytes(e);
    let ws = w->List_0@;
    lemma_value_len(w, e);
    let wpre = wire::u64_bytes(e, ws.len() as u64);
    wire::lemma_prefix_parts(wpre, list_bytes(ws, e), s);
    assert(wpre =~= s.subrange(0, 8));
    assert(s.take(8) =~= s.subrange(0, 8));
    assert(ws.len() as u64 == n as u64);
    assert(ws.len() == n);
    lemma_list_take_skip(ws, i as int, telem);
    lemma_list_bytes_split(ws, i as int, e);
    wire::lemma_prefix_parts(
        list_bytes(ws.take(i as int), e),
        list_bytes(ws.skip(i as int), e),
        s.skip(8),
    );
    lemma_list_prefix_free(items, ws.take(i as int), telem, e, s.skip(8));
    crate::value::lemma_list_len(items, e);
    crate::value::lemma_list_len(ws.take(i as int), e);
    assert(list_len(items) == list_len(ws.take(i as int)));
    let t0 = ws.skip(i as int);
    assert(t0[0] == ws[i as int]);
    assert(list_bytes(t0, e) == value_bytes(t0[0], e) + list_bytes(t0.drop_first(), e));
    assert(list_len(t0) == encoded_len(t0[0]) + list_len(t0.drop_first()));
    wire::lemma_prefix_parts(
        value_bytes(ws[i as int], e),
        list_bytes(t0.drop_first(), e),
        s.skip(8).skip(list_bytes(items, e).len() as int),
    );
    assert(matches_shape(ws[i as int], telem) && value_wf(ws[i as int]));
    crate::config::lemma_charge_split(l, 8 + list_len(items), encoded_len(ws[i as int]));
    if diter.limit.allows(encoded_len(ws[i as int])) {
        assert(rr2 is Ok);
        assert(false);
    } else {
        assert(rr2 == Err::<Value, ErrorKind>(ErrorKind::SizeLimit));
        if l.allows(encoded_len(w)) {
            assert(encoded_len(w) == 8 + list_len(ws));
            assert(list_len(ws) >= list_len(ws.take(i as int)) + encoded_len(ws[i as int]));
            assert(false);
        }
    }
}

/// Decodes a tuple or record: the fields in declaration order, no prefix.
fn decode_record_value<'de>(d: &mut Deserializer<'de>, shape: &Shape) -> (r: Result<
    Value,
    ErrorKind,
>)
    requires
        *shape matches Shape::Record(_),
    ensures
        decode_contract(*old(d), *final(d), *shape, r),
    decreases *shape, 0nat,
{
    let ghost s = d.bytes();
    let ghost e = d.endian;
    let ghost l = d.limit;
    let ssv: &Vec<Shape> = match shape {
        Shape::Record(v0) => v0,
        _ => {
            proof {
                assert(false);
            }
            return Err(ErrorKind::Serde);
        },
    };
    let n = ssv.len();
    let mut items: Vec<Value> = Vec::new();
    proof {
        assert(items@ =~= Seq::<Value>::empty());
        assert(list_bytes(Seq::<Value>::empty(), e) == Seq::<u8>::empty());
        assert(list_len(Seq::<Value>::empty()) == 0);
        assert(ssv@.take(0) =~= Seq::<Shape>::empty());
        assert(record_matches(Seq::<Value>::empty(), Seq::<Shape>::empty()));
        assert(list_wf(Seq::<Value>::empty()));
        assert(Seq::<u8>::empty() =~= s.subrange(0, 0));
        assert(Seq::<u8>::empty().is_prefix_of(s));
        assert(s.skip(0) =~= s);
    }
    let mut i: usize = 0;
    while i < n
        invariant
            i <= n,
            items@.len() == i,
            s == old(d).bytes(),
            e == old(d).endian,
            l == old(d).limit,
            n == ssv@.len(),
            *shape matches Shape::Record(v0) && v0@ == ssv@,
            record_matches(items@, ssv@.take(i as int)),
            list_wf(items@),
            list_bytes(items@, e).is_prefix_of(s),
            d.endian == e,
            d.reader.slice@ == s.skip(list_bytes(items@, e).len() as int),
            d.limit == l.charge(list_len(items@)),
            l.allows(list_len(items@)),
        decreases n - i,
    {
        let telem: &Shape = slice_index_get(ssv.as_slice(), i);
        let ghost prev = items@;
        let ghost done = list_bytes(items@, e);
        let ghost diter = *d;
        let rr2 = decode_value(d, telem);
        match rr2 {
            Ok(xi) => {
                let ghost gxi = xi;
                items.push(xi);
                proof {
                    assert(items@ == prev.push(gxi));
                    lemma_list_bytes_snoc(prev, gxi, e);
                    lemma_record_matches_snoc(prev, ssv@.take(i as int), gxi, ssv@[i as int]);
                    assert(ssv@.take(i + 1) =~= ssv@.take(i as int).push(ssv@[i as int]));
                    lemma_list_wf_snoc(prev, gxi);
                    lemma_value_len(gxi, e);
                    wire::lemma_prefix_join(done, value_bytes(gxi, e), s);
                    assert(s.skip(done.len() as int).skip(encoded_len(gxi) as int) =~= s.skip(
                        done.len() as int + encoded_len(gxi) as int,
                    ));
                    crate::config::lemma_charge_split(l, list_len(prev), encoded_len(gxi));
                }
                i = i + 1;
            },
            Err(k) => {
                proof {
                    assert forall|w: Value|
                        matches_shape(w, *shape) && value_wf(w) && (#[trigger] value_bytes(
                            w,
                            e,
                        )).is_prefix_of(s) && l.allows(encoded_len(w)) implies false by {
                        lemma_record_err_step(
                            w, *shape, ssv@, ssv@[i as int], e, s, l, items@, diter, *d, rr2,
                            i as nat,
                        );
                    }
                    assert forall|w: Value|
                        matches_shape(w, *shape) && value_wf(w) && (#[trigger] value_bytes(
                            w,
                            e,
                        )).is_prefix_of(s) && !l.allows(encoded_len(w)) implies k
                        == ErrorKind::SizeLimit by {
                        lemma_record_err_step(
                            w, *shape, ssv@, ssv@[i as int], e, s, l, items@, diter, *d, rr2,
                            i as nat,
                        );
                    }
                    assert forall|w: Value|
                        matches_shape(w, *shape) && value_wf(w) && char_free(w) && s.len() < (
                        #[trigger] value_bytes(w, e)).len() && s == value_bytes(w, e).take(
                            s.len() as int,
                        ) implies k == ErrorKind::SizeLimit by {
                        lemma_record_err_trunc(
                            w, *shape, ssv@, ssv@[i as int], e, s, l, items@, diter, *d, rr2,
                            i as nat,
                        );
                    }
                }
                return Err(k);
            },
        }
    }
    let ghost gitems = items@;
    let x = Value::Record(items);
    proof {
        assert(x->Record_0@ == gitems);
        assert(ssv@.take(n as int) =~= ssv@);
        assert(value_bytes(x, e) == list_bytes(gitems, e));
        crate::value::lemma_list_len(gitems, e);
        assert(s.skip(list_bytes(gitems, e).len() as int) =~= s.skip(list_len(gitems) as int));
        assert(value_wf(x));
        assert(matches_shape(x, *shape));
        lemma_decode_ok(x, *shape, e, s);
    }
    Ok(x)
}

/// The contradiction behind a failed record field, parallel to the
/// sequence case.
proof fn lemma_record_err_step<'de>(
    w: Value,
    sh: Shape,
    ss: Seq<Shape>,
    telem: Shape,
    e: Endianness,
    s: Seq<u8>,
    l: SizeLimit,
    items: Seq<Value>,
    diter: Deserializer<'de>,
    dpost: Deserializer<'de>,
    rr2: Result<Value, ErrorKind>,
    i: nat,
)
    requires
        sh matches Shape::Record(v0) && v0@ == ss,
        i < ss.len(),
        telem == ss[i as int],
        matches_shape(w, sh),
        value_wf(w),
        value_bytes(w, e).is_prefix_of(s),
        items.len() == i,
        record_matches(items, ss.take(i as int)),
        list_wf(items),
        list_bytes(items, e).is_prefix_of(s),
        diter.endian == e,
        diter.reader.slice@ == s.skip(list_bytes(items, e).len() as int),
        diter.limit == l.charge(list_len(items)),
        l.allows(list_len(items)),
        decode_contract(diter, dpost, telem, rr2),
        rr2 is Err,
    ensures
        l.allows(encoded_len(w)) ==> false,
        !l.allows(encoded_len(w)) ==> rr2 == Err::<Value, ErrorKind>(ErrorKind::SizeLimit),
{
    let ws = w->Record_0@;
    lemma_value_len(w, e);
    assert(ws.len() == ss.len()) by {
        if ws.len() != ss.len() {
            assert(!record_matches(ws, ss));
        }
    }
    lemma_record_take_skip(ws, ss, i as int);
    lemma_list_bytes_split(ws, i as int, e);
    wire::lemma_prefix_parts(
        list_bytes(ws.take(i as int), e),
        list_bytes(ws.skip(i as int), e),
        s,
    );
    assert(ss.take(i as int) =~= ss.take(i as int));
    lemma_record_prefix_free(items, ws.take(i as int), ss.take(i as int), e, s);
    crate::value::lemma_list_len(items, e);
    crate::value::lemma_list_len(ws.take(i as int), e);
    assert(list_len(items) == list_len(ws.take(i as int)));
    let t0 = ws.skip(i as int);
    assert(t0[0] == ws[i as int]);
    assert(list_bytes(t0, e) == value_bytes(t0[0], e) + list_bytes(t0.drop_first(), e));
    assert(list_len(t0) == encoded_len(t0[0]) + list_len(t0.drop_first()));
    wire::lemma_prefix_parts(
        value_bytes(ws[i as int], e),
        list_bytes(t0.drop_first(), e),
        s.skip(list_bytes(items, e).len() as int),
    );
    lemma_record_unroll(ws, ss, i as int);
    crate::config::lemma_charge_split(l, list_len(items), encoded_len(ws[i as int]));
    if diter.limit.allows(encoded_len(ws[i as int])) {
        assert(rr2 is Ok);
        assert(false);
    } else {
        assert(rr2 == Err::<Value, ErrorKind>(ErrorKind::SizeLimit));
        if l.allows(encoded_len(w)) {
            assert(encoded_len(w) == list_len(ws));
            assert(list_len(ws) >= list_len(ws.take(i as int)) + encoded_len(ws[i as int]));
            assert(false);
        }
    }
}

/// Decodes a map: a 64-bit pair count, then that many key-value pairs.
fn decode_pairs_value<'de>(d: &mut Deserializer<'de>, shape: &Shape) -> (r: Result<
    Value,
    ErrorKind,
>)
    requires
        *shape matches Shape::Pairs(_, _),
    ensures
        decode_contract(*old(d), *final(d), *shape, r),
    decreases *shape, 0nat,
{
    let ghost s = d.bytes();
    let ghost e = d.endian;
    let ghost l = d.limit;
    proof {
        wire::lemma_u64_bytes(e);
    }
    let (tkey, tval): (&Shape, &Shape) = match shape {
        Shape::Pairs(kb, wb) => (&**kb, &**wb),
        _ => {
            proof {
                assert(false);
            }
            return Err(ErrorKind::Serde);
        },
    };
    let nr = d.deserialize_len();
    let n = match nr {
        Ok(n) => n,
        Err(k) => {
            proof {
                if s.len() >= 8 && l.allows(8) {
                    let n64 = wire::u64_of_bytes(e, s.take(8));
                    assert forall|w: Value|
                        matches_shape(w, *shape) && value_wf(w) && (#[trigger] value_bytes(
                            w,
                            e,
                        )).is_prefix_of(s) implies false by {
                        let ws = w->Pairs_0@;
                        lemma_value_len(w, e);
                        wire::lemma_prefix_parts(
                            wire::u64_bytes(e, ws.len() as u64),
                            pairs_bytes(ws, e),
                            s,
                        );
                        assert(wire::u64_bytes(e, ws.len() as u64) =~= s.subrange(0, 8));
                        assert(s.take(8) =~= s.subrange(0, 8));
                        assert(ws.len() as u64 == n64);
                    }
                    assert forall|w: Value|
                        matches_shape(w, *shape) && value_wf(w) && s.len() < (
                        #[trigger] value_bytes(w, e)).len() && s == value_bytes(w, e).take(
                            s.len() as int,
                        ) implies false by {
                        let ws = w->Pairs_0@;
                        lemma_value_len(w, e);
                        lemma_trunc_tail(
                            w,
                            e,
                            s,
                            wire::u64_bytes(e, ws.len() as u64),
                            pairs_bytes(ws, e),
                        );
                        assert(s.take(8) =~= s.subrange(0, 8));
                        assert(ws.len() as u64 == n64);
                    }
                } else {
                    assert forall|w: Value|
                        matches_shape(w, *shape) && value_wf(w) && (#[trigger] value_bytes(
                            w,
                            e,
                        )).is_prefix_of(s) implies (encoded_len(w) >= 8 && value_bytes(
                        w,
                        e,
                    ).len() >= 8) by {
                        lemma_value_len(w, e);
                    }
                }
            }
            return Err(k);
        },
    };
    let ghost pre8 = wire::u64_bytes(e, n as u64);
    let mut items: Vec<(Value, Value)> = Vec::new();
    proof {
        assert(s.take(8) =~= s.subrange(0, 8));
        assert(pre8 == s.take(8));
        assert(items@ =~= Seq::<(Value, Value)>::empty());
        assert(pairs_bytes(Seq::<(Value, Value)>::empty(), e) == Seq::<u8>::empty());
        assert(pairs_len(Seq::<(Value, Value)>::empty()) == 0);
        assert(pairs_match(Seq::<(Value, Value)>::empty(), *tkey, *tval));
        assert(pairs_wf(Seq::<(Value, Value)>::empty()));
        assert(Seq::<u8>::empty() =~= s.skip(8).subrange(0, 0));
        assert(Seq::<u8>::empty().is_prefix_of(s.skip(8)));
        assert(s.skip(8).skip(0) =~= s.skip(8));
    }
    let mut i: usize = 0;
    while i < n
        invariant
            i <= n,
            items@.len() == i,
            s == old(d).bytes(),
            e == old(d).endian,
            l == old(d).limit,
            s.len() >= 8,
            l.allows(8),
            n == wire::u64_of_bytes(e, s.take(8)),
            pre8 == wire::u64_bytes(e, n as u64),
            pre8 == s.take(8),
            *shape matches Shape::Pairs(kb, wb) && *kb == *tkey && *wb == *tval,
            pairs_match(items@, *tkey, *tval),
            pairs_wf(items@),
            pairs_bytes(items@, e).is_prefix_of(s.skip(8)),
            d.endian == e,
            d.reader.slice@ == s.skip(8).skip(pairs_bytes(items@, e).len() as int),
            d.limit == l.charge(8 + pairs_len(items@)),
            l.allows(8 + pairs_len(items@)),
        decreases n - i,
    {
        let ghost prev = items@;
        let ghost done = pairs_bytes(items@, e);
        let ghost diter = *d;
        let rk = decode_value(d, tkey);
        let xk = match rk {
            Ok(xk) => xk,
            Err(k) => {
                proof {
                    wire::lemma_u64_bytes(e);
                    assert forall|w: Value|
                        matches_shape(w, *shape) && value_wf(w) && (#[trigger] value_bytes(
                            w,
                            e,
                        )).is_prefix_of(s) && l.allows(encoded_len(w)) implies false by {
                        lemma_pairs_key_err_step(
                            w, *shape, *tkey, *tval, e, s, l, items@, diter, *d, rk, n as nat,
                            i as nat,
                        );
                    }
                    assert forall|w: Value|
                        matches_shape(w, *shape) && value_wf(w) && (#[trigger] value_bytes(
                            w,
                            e,
                        )).is_prefix_of(s) && !l.allows(encoded_len(w)) implies k
                        == ErrorKind::SizeLimit by {
                        lemma_pairs_key_err_step(
                            w, *shape, *tkey, *tval, e, s, l, items@, diter, *d, rk, n as nat,
                            i as nat,
                        );
                    }
                    assert forall|w: Value|
                        matches_shape(w, *shape) && value_wf(w) && char_free(w) && s.len() < (
                        #[trigger] value_bytes(w, e)).len() && s == value_bytes(w, e).take(
                            s.len() as int,
                        ) implies k == ErrorKind::SizeLimit by {
                        lemma_pairs_key_err_trunc(
                            w, *shape, *tkey, *tval, e, s, l, items@, diter, *d, rk, n as nat,
                            i as nat,
                        );
                    }
                }
                return Err(k);
            },
        };
        let ghost gxk = xk;
        let ghost dk = *d;
        let rv = decode_value(d, tval);
        match rv {
            Ok(xv) => {
                let ghost gxv = xv;
                items.push((xk, xv));
                proof {
                    wire::lemma_u64_bytes(e);
                    assert(items@ == prev.push((gxk, gxv)));
                    lemma_pairs_bytes_snoc(prev, (gxk, gxv), e);
                    lemma_pairs_match_snoc(prev, (gxk, gxv), *tkey, *tval);
                    lemma_pairs_wf_snoc(prev, (gxk, gxv));
                    lemma_value_len(gxk, e);
                    lemma_value_len(gxv, e);
                    wire::lemma_prefix_join(
                        value_bytes(gxk, e),
                        value_bytes(gxv, e),
                        s.skip(8).skip(done.len() as int),
                    );
                    wire::lemma_prefix_join(
                        done,
                        value_bytes(gxk, e) + value_bytes(gxv, e),
                        s.skip(8),
                    );
                    assert(done + (value_bytes(gxk, e) + value_bytes(gxv, e)) =~= done
                        + value_bytes(gxk, e) + value_bytes(gxv, e));
                    assert(s.skip(8).skip(done.len() as int).skip(
                        encoded_len(gxk) as int,
                    ).skip(encoded_len(gxv) as int) =~= s.skip(8).skip(
                        done.len() as int + encoded_len(gxk) as int + encoded_len(gxv) as int,
                    ));
                    crate::config::lemma_charge_split(l, 8 + pairs_len(prev), encoded_len(gxk));
                    crate::config::lemma_charge_split(
                        l,
                        8 + pairs_len(prev) + encoded_len(gxk),
                        encoded_len(gxv),
                    );
                }
                i = i + 1;
            },
            Err(k) => {
                proof {
                    wire::lemma_u64_bytes(e);
                    assert forall|w: Value|
                        matches_shape(w, *shape) && value_wf(w) && (#[trigger] value_bytes(
                            w,
                            e,
                        )).is_prefix_of(s) && l.allows(encoded_len(w)) implies false by {
                        lemma_pairs_val_err_step(
                            w, *shape, *tkey, *tval, e, s, l, items@, gxk, diter, dk, *d, rv,
                            n as nat, i as nat,
                        );
                    }
                    assert forall|w: Value|
                        matches_shape(w, *shape) && value_wf(w) && (#[trigger] value_bytes(
                            w,
                            e,
                        )).is_prefix_of(s) && !l.allows(encoded_len(w)) implies k
                        == ErrorKind::SizeLimit by {
                        lemma_pairs_val_err_step(
                            w, *shape, *tkey, *tval, e, s, l, items@, gxk, diter, dk, *d, rv,
                            n as nat, i as nat,
                        );
                    }
                    assert forall|w: Value|
                        matches_shape(w, *shape) && value_wf(w) && char_free(w) && s.len() < (
                        #[trigger] value_bytes(w, e)).len() && s == value_bytes(w, e).take(
                            s.len() as int,
                        ) implies k == ErrorKind::SizeLimit by {
                        lemma_pairs_val_err_trunc(
                            w, *shape, *tkey, *tval, e, s, l, items@, gxk, diter, dk, *d, rv,
                            n as nat, i as nat,
                        );
                    }
                }
                return Err(k);
            },
        }
    }
    let ghost gitems = items@;
    let x = Value::Pairs(items);
    proof {
        assert(x->Pairs_0@ == gitems);
        assert(pre8.is_prefix_of(s)) by {
            assert(pre8 =~= s.subrange(0, 8));
        }
        wire::lemma_prefix_join(pre8, pairs_bytes(gitems, e), s);
        assert(value_bytes(x, e) == pre8 + pairs_bytes(gitems, e));
        crate::value::lemma_pairs_len(gitems, e);
        assert(s.skip(8).skip(pairs_bytes(gitems, e).len() as int) =~= s.skip(
            8 + pairs_len(gitems) as int,
        ));
        assert(value_wf(x));
        assert(matches_shape(x, *shape));
        lemma_decode_ok(x, *shape, e, s);
    }
    Ok(x)
}

/// Shared decomposition for a map decode at pair `i`: the hypothetical
/// valid map pins the bytes of the pairs decoded so far and locates the
/// pair's key and value encodings in the stream.
proof fn lemma_pairs_common(
    w: Value,
    sh: Shape,
    tkey: Shape,
    tval: Shape,
    e: Endianness,
    s: Seq<u8>,
    items: Seq<(Value, Value)>,
    n: nat,
    i: nat,
)
    requires
        sh matches Shape::Pairs(kb, wb) && *kb == tkey && *wb == tval,
        matches_shape(w, sh),
        value_wf(w),
        value_bytes(w, e).is_prefix_of(s),
        s.len() >= 8,
        n <= usize::MAX,
        i < n,
        items.len() == i,
        n == wire::u64_of_bytes(e, s.take(8)),
        pairs_match(items, tkey, tval),
        pairs_wf(items),
        pairs_bytes(items, e).is_prefix_of(s.skip(8)),
    ensures
        ({
            let ws = w->Pairs_0@;
            &&& ws.len() == n
            &&& encoded_len(w) == 8 + pairs_len(ws)
            &&& pairs_len(items) == pairs_len(ws.take(i as int))
            &&& matches_shape(ws[i as int].0, tkey)
            &&& matches_shape(ws[i as int].1, tval)
            &&& value_wf(ws[i as int].0)
            &&& value_wf(ws[i as int].1)
            &&& value_bytes(ws[i as int].0, e).is_prefix_of(
                s.skip(8).skip(pairs_bytes(items, e).len() as int),
            )
            &&& value_bytes(ws[i as int].1, e).is_prefix_of(
                s.skip(8).skip(pairs_bytes(items, e).len() as int).skip(
                    value_bytes(ws[i as int].0, e).len() as int,
                ),
            )
            &&& pairs_len(ws) >= pairs_len(ws.take(i as int)) + encoded_len(ws[i as int].0)
                + encoded_len(ws[i as int].1)
        }),
{
    wire::lemma_u64_bytes(e);
    let ws = w->Pairs_0@;
    lemma_value_len(w, e);
    let wpre = wire::u64_bytes(e, ws.len() as u64);
    wire::lemma_prefix_parts(wpre, pairs_bytes(ws, e), s);
    assert(wpre =~= s.subrange(0, 8));
    assert(s.take(8) =~= s.subrange(0, 8));
    assert(ws.len() as u64 == n as u64);
    assert(ws.len() == n);
    lemma_pairs_take_skip(ws, i as int, tkey, tval);
    lemma_pairs_bytes_split(ws, i as int, e);
    wire::lemma_prefix_parts(
        pairs_bytes(ws.take(i as int), e),
        pairs_bytes(ws.skip(i as int), e),
        s.skip(8),
    );
    lemma_pairs_prefix_free(items, ws.take(i as int), tkey, tval, e, s.skip(8));
    crate::value::lemma_pairs_len(items, e);
    crate::value::lemma_pairs_len(ws.take(i as int), e);
    let t0 = ws.skip(i as int);
    assert(t0[0] == ws[i as int]);
    assert(pairs_bytes(t0, e) == value_bytes(t0[0].0, e) + value_bytes(t0[0].1, e) + pairs_bytes(
        t0.drop_first(),
        e,
    ));
    assert(pairs_len(t0) == encoded_len(t0[0].0) + encoded_len(t0[0].1) + pairs_len(
        t0.drop_first(),
    ));
    let tail = s.skip(8).skip(pairs_bytes(items, e).len() as int);
    assert(value_bytes(t0[0].0, e) + value_bytes(t0[0].1, e) + pairs_bytes(t0.drop_first(), e)
        =~= value_bytes(t0[0].0, e) + (value_bytes(t0[0].1, e) + pairs_bytes(
        t0.drop_first(),
        e,
    )));
    wire::lemma_prefix_parts(
        value_bytes(t0[0].0, e),
        value_bytes(t0[0].1, e) + pairs_bytes(t0.drop_first(), e),
        tail,
    );
    wire::lemma_prefix_parts(
        value_bytes(t0[0].1, e),
        pairs_bytes(t0.drop_first(), e),
        tail.skip(value_bytes(t0[0].0, e).len() as int),
    );
}

/// The contradiction behind a failed map key, parallel to the sequence
/// case.
proof fn lemma_pairs_key_err_step<'de>(
    w: Value,
    sh: Shape,
    tkey: Shape,
    tval: Shape,
    e: Endianness,
    s: Seq<u8>,
    l: SizeLimit,
    items: Seq<(Value, Value)>,
    diter: Deserializer<'de>,
    dpost: Deserializer<'de>,
    rk: Result<Value, ErrorKind>,
    n: nat,
    i: nat,
)
    requires
        sh matches Shape::Pairs(kb, wb) && *kb == tkey && *wb == tval,
        matches_shape(w, sh),
        value_wf(w),
        value_bytes(w, e).is_prefix_of(s),
        s.len() >= 8,
        n <= usize::MAX,
        i < n,
        items.len() == i,
        n == wire::u64_of_bytes(e, s.take(8)),
        pairs_match(items, tkey, tval),
        pairs_wf(items),
        pairs_bytes(items, e).is_prefix_of(s.skip(8)),
        diter.endian == e,
        diter.reader.slice@ == s.skip(8).skip(pairs_bytes(items, e).len() as int),
        diter.limit == l.charge(8 + pairs_len(items)),
        l.allows(8 + pairs_len(items)),
        decode_contract(diter, dpost, tkey, rk),
        rk is Err,
    ensures
        l.allows(encoded_len(w)) ==> false,
        !l.allows(encoded_len(w)) ==> rk == Err::<Value, ErrorKind>(ErrorKind::SizeLimit),
{
    lemma_pairs_common(w, sh, tkey, tval, e, s, items, n, i);
    let ws = w->Pairs_0@;
    crate::config::lemma_charge_split(l, 8 + pairs_len(items), encoded_len(ws[i as int].0));
    if diter.limit.allows(encoded_len(ws[i as int].0)) {
        assert(rk is Ok);
        assert(false);
    } else {
        assert(rk == Err::<Value, ErrorKind>(ErrorKind::SizeLimit));
        if l.allows(encoded_len(w)) {
            assert(false);
        }
    }
}

/// The contradiction behind a failed map value: the key before it decoded
/// to the hypothetical map's key, so the value's encoding is next on the
/// wire and its decode was obliged to succeed within the budget.
proof fn lemma_pairs_val_err_step<'de>(
    w: Value,
    sh: Shape,
    tkey: Shape,
    tval: Shape,
    e: Endianness,
    s: Seq<u8>,
    l: SizeLimit,
    items: Seq<(Value, Value)>,
    gxk: Value,
    diter: Deserializer<'de>,
    dk: Deserializer<'de>,
    dpost: Deserializer<'de>,
    rv: Result<Value, ErrorKind>,
    n: nat,
    i: nat,
)
    requires
        sh matches Shape::Pairs(kb, wb) && *kb == tkey && *wb == tval,
        matches_shape(w, sh),
        value_wf(w),
        value_bytes(w, e).is_prefix_of(s),
        s.len() >= 8,
        n <= usize::MAX,
        i < n,
        items.len() == i,
        n == wire::u64_of_bytes(e, s.take(8)),
        pairs_match(items, tkey, tval),
        pairs_wf(items),
        pairs_bytes(items, e).is_prefix_of(s.skip(8)),
        diter.endian == e,
        diter.reader.slice@ == s.skip(8).skip(pairs_bytes(items, e).len() as int),
        diter.limit == l.charge(8 + pairs_len(items)),
        l.allows(8 + pairs_len(items)),
        matches_shape(gxk, tkey),
        value_wf(gxk),
        value_bytes(gxk, e).is_prefix_of(diter.bytes()),
        diter.limit.allows(encoded_len(gxk)),
        diter.consumed(dk, encoded_len(gxk)),
        decode_contract(dk, dpost, tval, rv),
        rv is Err,
    ensures
        l.allows(encoded_len(w)) ==> false,
        !l.allows(encoded_len(w)) ==> rv == Err::<Value, ErrorKind>(ErrorKind::SizeLimit),
{
    lemma_pairs_common(w, sh, tkey, tval, e, s, items, n, i);
    let ws = w->Pairs_0@;
    let tail = s.skip(8).skip(pairs_bytes(items, e).len() as int);
    lemma_prefix_free(gxk, ws[i as int].0, tkey, e, tail);
    lemma_value_len(gxk, e);
    lemma_value_len(ws[i as int].0, e);
    assert(dk.bytes() == tail.skip(value_bytes(ws[i as int].0, e).len() as int));
    crate::config::lemma_charge_split(l, 8 + pairs_len(items), encoded_len(gxk));
    crate::config::lemma_charge_split(
        l,
        8 + pairs_len(items) + encoded_len(gxk),
        encoded_len(ws[i as int].1),
    );
    if dk.limit.allows(encoded_len(ws[i as int].1)) {
        assert(rv is Ok);
        assert(false);
    } else {
        assert(rv == Err::<Value, ErrorKind>(ErrorKind::SizeLimit));
        if l.allows(encoded_len(w)) {
            assert(false);
        }
    }
}

/// The framing of a single character value, spelt out.
proof fn lemma_char_value_bytes(c: char, e: Endianness)
    ensures
        value_bytes(Value::Char(c), e) == crate::utf8::char_bytes(c),
        encoded_len(Value::Char(c)) == crate::utf8::char_bytes(c).len(),
        matches_shape(Value::Char(c), Shape::Char),
        value_wf(Value::Char(c)),
{
}


/// Computes the exact number of wire bytes `v` would occupy, charging them
/// against the byte budget: the dry-run twin of [`serialize_value`].
pub fn serialized_size(v: &Value, limit: SizeLimit) -> (r: Result<u64, ErrorKind>)
    ensures
        limit.allows(encoded_len(*v)) && encoded_len(*v) <= u64::MAX ==> r == Ok::<u64, ErrorKind>(
            encoded_len(*v) as u64,
        ) && value_wf(*v),
        !(limit.allows(encoded_len(*v)) && encoded_len(*v) <= u64::MAX) ==> r == Err::<
            u64,
            ErrorKind,
        >(ErrorKind::SizeLimit),
{
    let mut c = SizeChecker::new(limit);
    match size_value(&mut c, v) {
        Ok(()) => Ok(c.written),
        Err(k) => Err(k),
    }
}

/// Encodes `v` into a fresh buffer in byte order `e`, after pre-validating
/// its size against the byte budget.  A budget smaller than the value's
/// encoded length fails with [`ErrorKind::SizeLimit`] and produces nothing.
pub fn serialize_value(v: &Value, e: Endianness, limit: SizeLimit) -> (r: Result<
    Vec<u8>,
    ErrorKind,
>)
    ensures
        limit.allows(encoded_len(*v)) && encoded_len(*v) <= usize::MAX ==> (r matches Ok(b) && b@
            == value_bytes(*v, e) && value_wf(*v)),
        !(limit.allows(encoded_len(*v)) && encoded_len(*v) <= usize::MAX) ==> r == Err::<
            Vec<u8>,
            ErrorKind,
        >(ErrorKind::SizeLimit),
{
    let size = match serialized_size(v, limit) {
        Ok(n) => n,
        Err(k) => {
            return Err(k);
        },
    };
    if size > usize::MAX as u64 {
        return Err(ErrorKind::SizeLimit);
    }
    let mut s = Serializer::new(Vec::new(), size as usize, e);
    proof {
        lemma_value_len(*v, e);
    }
    match encode_value(&mut s, v) {
        Ok(()) => {
            proof {
                assert(s.out@ =~= value_bytes(*v, e));
            }
            Ok(s.out)
        },
        Err(k) => {
            proof {
                assert(false);
            }
            Err(k)
        },
    }
}

/// Decodes one value of `shape` from the front of `bytes` in byte order
/// `e`, within the byte budget.  Exactly the value's own wire bytes are
/// read; trailing bytes are left alone.
pub fn deserialize_value(shape: &Shape, bytes: &[u8], e: Endianness, limit: SizeLimit) -> (r:
    Result<Value, ErrorKind>)
    ensures
        r matches Ok(x) ==> matches_shape(x, *shape) && value_wf(x) && value_bytes(
            x,
            e,
        ).is_prefix_of(bytes@) && limit.allows(encoded_len(x)),
        forall|w: Value|
            matches_shape(w, *shape) && value_wf(w) && (#[trigger] value_bytes(w, e)).is_prefix_of(
                bytes@,
            ) && limit.allows(encoded_len(w)) ==> (r matches Ok(x) && val_eq(x, w)),
        forall|w: Value|
            matches_shape(w, *shape) && value_wf(w) && (#[trigger] value_bytes(w, e)).is_prefix_of(
                bytes@,
            ) && !limit.allows(encoded_len(w)) ==> r == Err::<Value, ErrorKind>(
                ErrorKind::SizeLimit,
            ),
        forall|w: Value|
            matches_shape(w, *shape) && value_wf(w) && bytes@.len() < (#[trigger] value_bytes(
                w,
                e,
            )).len() && bytes@ == value_bytes(w, e).take(bytes@.len() as int) ==> r is Err,
        forall|w: Value|
            matches_shape(w, *shape) && value_wf(w) && char_free(w) && bytes@.len() < (
            #[trigger] value_bytes(w, e)).len() && bytes@ == value_bytes(w, e).take(
                bytes@.len() as int,
            ) ==> r == Err::<Value, ErrorKind>(ErrorKind::SizeLimit),
{
    let reader = crate::read::SliceReader::new(bytes);
    let mut d = Deserializer::new(reader, e, limit);
    decode_value(&mut d, shape)
}


/// Round trip: when a stream starts with the encoding of a well-formed
/// value of the decoder's shape and the byte budget admits that value, the
/// decode is obliged to succeed and return a structurally equal value.
/// Together with [`serialize_value`]'s guarantee that encoding produces
/// exactly [`value_bytes`], this is the statement that decoding undoes
/// encoding, in either byte order.
pub proof fn lemma_round_trip<'de>(
    pre: Deserializer<'de>,
    post: Deserializer<'de>,
    sh: Shape,
    r: Result<Value, ErrorKind>,
    v: Value,
)
    requires
        decode_contract(pre, post, sh, r),
        matches_shape(v, sh),
        value_wf(v),
        value_bytes(v, pre.endian).is_prefix_of(pre.bytes()),
        pre.limit.allows(encoded_len(v)),
    ensures
        r matches Ok(x) && val_eq(x, v),
{
}

/// Truncation safety: a stream that is a strict prefix of some well-formed
/// value's encoding never decodes to anything; the decoder fails rather
/// than inventing a value.  When the value contains no character, the
/// failure is moreover exactly the input-too-short error; a character cut
/// mid-encoding surfaces as a malformed-character error instead, because
/// the decoder commits to a width before reading the remaining bytes.
pub proof fn lemma_truncation_fails<'de>(
    pre: Deserializer<'de>,
    post: Deserializer<'de>,
    sh: Shape,
    r: Result<Value, ErrorKind>,
    v: Value,
)
    requires
        decode_contract(pre, post, sh, r),
        matches_shape(v, sh),
        value_wf(v),
        pre.bytes().len() < value_bytes(v, pre.endian).len(),
        pre.bytes() == value_bytes(v, pre.endian).take(pre.bytes().len() as int),
    ensures
        r is Err,
        char_free(v) ==> r == Err::<Value, ErrorKind>(ErrorKind::SizeLimit),
{
}

/// Budget enforcement: on a stream that starts with a well-formed value's
/// encoding, a byte budget smaller than that value's encoded length makes
/// the decode fail with the budget error and nothing else.
pub proof fn lemma_budget_fails<'de>(
    pre: Deserializer<'de>,
    post: Deserializer<'de>,
    sh: Shape,
    r: Result<Value, ErrorKind>,
    v: Value,
)
    requires
        decode_contract(pre, post, sh, r),
        matches_shape(v, sh),
        value_wf(v),
        value_bytes(v, pre.endian).is_prefix_of(pre.bytes()),
        !pre.limit.allows(encoded_len(v)),
    ensures
        r == Err::<Value, ErrorKind>(ErrorKind::SizeLimit),
{
}


/// Shared decomposition of a truncated composite: the stream is a strict
/// prefix of the hypothetical value's encoding, so past the count prefix it
/// is a strict prefix of the elements' bytes.
proof fn lemma_trunc_tail(w: Value, e: Endianness, s: Seq<u8>, wpre: Seq<u8>, body: Seq<u8>)
    requires
        value_bytes(w, e) == wpre + body,
        wpre.len() == 8,
        s.len() >= 8,
        s.len() < value_bytes(w, e).len(),
        s == value_bytes(w, e).take(s.len() as int),
    ensures
        wpre == s.subrange(0, 8),
        s.skip(8) == body.take(s.len() - 8),
        s.len() - 8 < body.len(),
{
    assert(forall|j: int| 0 <= j < s.len() ==> s[j] == value_bytes(w, e)[j]);
    assert(wpre =~= s.subrange(0, 8));
    assert(s.skip(8) =~= body.take(s.len() - 8));
}

/// A truncated element run behind a failed element decode: the decode that
/// failed was looking at either the whole of the element's encoding (and
/// then only the budget could stop it) or a strict prefix of it; both ways
/// the failure is the budget-or-input error.
proof fn lemma_run_err_trunc<'de>(
    welem: Value,
    telem: Shape,
    e: Endianness,
    tail: Seq<u8>,
    diter: Deserializer<'de>,
    dpost: Deserializer<'de>,
    rr2: Result<Value, ErrorKind>,
)
    requires
        matches_shape(welem, telem),
        value_wf(welem),
        char_free(welem),
        diter.endian == e,
        diter.bytes().len() <= value_bytes(welem, e).len() + tail.len(),
        diter.bytes() == (value_bytes(welem, e) + tail).take(diter.bytes().len() as int),
        decode_contract(diter, dpost, telem, rr2),
        rr2 is Err,
    ensures
        rr2 == Err::<Value, ErrorKind>(ErrorKind::SizeLimit),
{
    let eb = value_bytes(welem, e);
    let c2 = diter.bytes().len() as int;
    if c2 >= eb.len() {
        wire::lemma_take_concat(eb, tail, c2);
        assert(eb.is_prefix_of(diter.bytes())) by {
            assert(eb =~= diter.bytes().subrange(0, eb.len() as int));
        }
        if diter.limit.allows(encoded_len(welem)) {
            assert(rr2 is Ok);
            assert(false);
        }
    } else {
        wire::lemma_take_concat(eb, tail, c2);
        assert(diter.bytes() == eb.take(c2));
        lemma_value_len(welem, e);
    }
}

/// The truncated-sequence case of a failed element: the failure is the
/// budget-or-input error.
proof fn lemma_list_err_trunc<'de>(
    w: Value,
    sh: Shape,
    telem: Shape,
    e: Endianness,
    s: Seq<u8>,
    l: SizeLimit,
    items: Seq<Value>,
    diter: Deserializer<'de>,
    dpost: Deserializer<'de>,
    rr2: Result<Value, ErrorKind>,
    n: nat,
    i: nat,
)
    requires
        sh matches Shape::List(bbb) && *bbb == telem,
        matches_shape(w, sh),
        value_wf(w),
        char_free(w),
        s.len() < value_bytes(w, e).len(),
        s == value_bytes(w, e).take(s.len() as int),
        s.len() >= 8,
        n <= usize::MAX,
        i < n,
        items.len() == i,
        n == wire::u64_of_bytes(e, s.take(8)),
        list_matches(items, telem),
        list_wf(items),
        list_bytes(items, e).is_prefix_of(s.skip(8)),
        diter.endian == e,
        diter.reader.slice@ == s.skip(8).skip(list_bytes(items, e).len() as int),
        diter.limit == l.charge(8 + list_len(items)),
        l.allows(8 + list_len(items)),
        decode_contract(diter, dpost, telem, rr2),
        rr2 is Err,
    ensures
        rr2 == Err::<Value, ErrorKind>(ErrorKind::SizeLimit),
{
    wire::lemma_u64_bytes(e);
    let ws = w->List_0@;
    lemma_value_len(w, e);
    let wpre = wire::u64_bytes(e, ws.len() as u64);
    let body = list_bytes(ws, e);
    lemma_trunc_tail(w, e, s, wpre, body);
    assert(s.take(8) =~= s.subrange(0, 8));
    assert(ws.len() as u64 == n as u64);
    assert(ws.len() == n);
    let cut = s.len() - 8;
    assert(s.skip(8).is_prefix_of(body)) by {
        assert(s.skip(8) =~= body.subrange(0, cut));
    }
    wire::lemma_prefix_trans(list_bytes(items, e), s.skip(8), body);
    lemma_list_take_skip(ws, i as int, telem);
    lemma_list_bytes_split(ws, i as int, e);
    wire::lemma_prefix_parts(
        list_bytes(ws.take(i as int), e),
        list_bytes(ws.skip(i as int), e),
        body,
    );
    lemma_list_prefix_free(items, ws.take(i as int), telem, e, body);
    let done = list_bytes(items, e);
    let t0 = ws.skip(i as int);
    assert(t0[0] == ws[i as int]);
    assert(list_bytes(t0, e) == value_bytes(t0[0], e) + list_bytes(t0.drop_first(), e));
    let eb = value_bytes(ws[i as int], e);
    let rest = list_bytes(t0.drop_first(), e);
    assert(body =~= done + (eb + rest));
    let c2 = cut - done.len();
    assert(diter.bytes().len() == c2);
    assert(diter.bytes() =~= (eb + rest).take(c2)) by {
        assert(forall|j: int| 0 <= j < s.len() ==> s[j] == value_bytes(w, e)[j]);
        assert(forall|j: int|
            0 <= j < c2 ==> diter.bytes()[j] == body[done.len() + j]);
        assert(forall|j: int|
            0 <= j < c2 ==> body[done.len() + j] == (eb + rest)[j]);
    }
    assert(char_free(ws[i as int])) by {
        lemma_list_char_free_split(ws, i as int);
    }
    lemma_run_err_trunc(ws[i as int], telem, e, rest, diter, dpost, rr2);
}

/// The truncated-record case of a failed field: the failure is the
/// budget-or-input error.
proof fn lemma_record_err_trunc<'de>(
    w: Value,
    sh: Shape,
    ss: Seq<Shape>,
    telem: Shape,
    e: Endianness,
    s: Seq<u8>,
    l: SizeLimit,
    items: Seq<Value>,
    diter: Deserializer<'de>,
    dpost: Deserializer<'de>,
    rr2: Result<Value, ErrorKind>,
    i: nat,
)
    requires
        sh matches Shape::Record(v0) && v0@ == ss,
        i < ss.len(),
        telem == ss[i as int],
        matches_shape(w, sh),
        value_wf(w),
        char_free(w),
        s.len() < value_bytes(w, e).len(),
        s == value_bytes(w, e).take(s.len() as int),
        items.len() == i,
        record_matches(items, ss.take(i as int)),
        list_wf(items),
        list_bytes(items, e).is_prefix_of(s),
        diter.endian == e,
        diter.reader.slice@ == s.skip(list_bytes(items, e).len() as int),
        diter.limit == l.charge(list_len(items)),
        l.allows(list_len(items)),
        decode_contract(diter, dpost, telem, rr2),
        rr2 is Err,
    ensures
        rr2 == Err::<Value, ErrorKind>(ErrorKind::SizeLimit),
{
    let ws = w->Record_0@;
    lemma_value_len(w, e);
    assert(ws.len() == ss.len()) by {
        if ws.len() != ss.len() {
            assert(!record_matches(ws, ss));
        }
    }
    let body = list_bytes(ws, e);
    let cut = s.len() as int;
    assert(s.is_prefix_of(body)) by {
        assert(s =~= body.subrange(0, cut));
    }
    wire::lemma_prefix_trans(list_bytes(items, e), s, body);
    lemma_record_take_skip(ws, ss, i as int);
    lemma_list_bytes_split(ws, i as int, e);
    wire::lemma_prefix_parts(
        list_bytes(ws.take(i as int), e),
        list_bytes(ws.skip(i as int), e),
        body,
    );
    lemma_record_prefix_free(items, ws.take(i as int), ss.take(i as int), e, body);
    let done = list_bytes(items, e);
    let t0 = ws.skip(i as int);
    assert(t0[0] == ws[i as int]);
    assert(list_bytes(t0, e) == value_bytes(t0[0], e) + list_bytes(t0.drop_first(), e));
    let eb = value_bytes(ws[i as int], e);
    let rest = list_bytes(t0.drop_first(), e);
    assert(body =~= done + (eb + rest));
    let c2 = cut - done.len();
    assert(diter.bytes().len() == c2);
    assert(diter.bytes() =~= (eb + rest).take(c2)) by {
        assert(forall|j: int| 0 <= j < s.len() ==> s[j] == body[j]);
        assert(forall|j: int|
            0 <= j < c2 ==> diter.bytes()[j] == body[done.len() + j]);
        assert(forall|j: int|
            0 <= j < c2 ==> body[done.len() + j] == (eb + rest)[j]);
    }
    lemma_record_unroll(ws, ss, i as int);
    assert(char_free(ws[i as int])) by {
        lemma_list_char_free_split(ws, i as int);
    }
    lemma_run_err_trunc(ws[i as int], telem, e, rest, diter, dpost, rr2);
}


/// Shared decomposition for a truncated map at pair `i`.
proof fn lemma_pairs_trunc_common(
    w: Value,
    sh: Shape,
    tkey: Shape,
    tval: Shape,
    e: Endianness,
    s: Seq<u8>,
    items: Seq<(Value, Value)>,
    n: nat,
    i: nat,
)
    requires
        sh matches Shape::Pairs(kb, wb) && *kb == tkey && *wb == tval,
        matches_shape(w, sh),
        value_wf(w),
        char_free(w),
        s.len() < value_bytes(w, e).len(),
        s == value_bytes(w, e).take(s.len() as int),
        s.len() >= 8,
        n <= usize::MAX,
        i < n,
        items.len() == i,
        n == wire::u64_of_bytes(e, s.take(8)),
        pairs_match(items, tkey, tval),
        pairs_wf(items),
        pairs_bytes(items, e).is_prefix_of(s.skip(8)),
    ensures
        ({
            let ws = w->Pairs_0@;
            let done = pairs_bytes(items, e);
            let kb2 = value_bytes(ws[i as int].0, e);
            let vb2 = value_bytes(ws[i as int].1, e);
            let rest = pairs_bytes(ws.skip(i as int).drop_first(), e);
            &&& ws.len() == n
            &&& done.len() <= s.len() - 8
            &&& matches_shape(ws[i as int].0, tkey)
            &&& matches_shape(ws[i as int].1, tval)
            &&& value_wf(ws[i as int].0)
            &&& value_wf(ws[i as int].1)
            &&& char_free(ws[i as int].0)
            &&& char_free(ws[i as int].1)
            &&& s.skip(8).skip(done.len() as int) == (kb2 + (vb2 + rest)).take(
                s.len() - 8 - done.len(),
            )
            &&& s.len() - 8 - done.len() <= kb2.len() + (vb2.len() + rest.len())
        }),
{
    wire::lemma_u64_bytes(e);
    let ws = w->Pairs_0@;
    lemma_value_len(w, e);
    let wpre = wire::u64_bytes(e, ws.len() as u64);
    let body = pairs_bytes(ws, e);
    lemma_trunc_tail(w, e, s, wpre, body);
    assert(s.take(8) =~= s.subrange(0, 8));
    assert(ws.len() as u64 == n as u64);
    assert(ws.len() == n);
    let cut = s.len() - 8;
    assert(s.skip(8).is_prefix_of(body)) by {
        assert(s.skip(8) =~= body.subrange(0, cut));
    }
    wire::lemma_prefix_trans(pairs_bytes(items, e), s.skip(8), body);
    lemma_pairs_take_skip(ws, i as int, tkey, tval);
    lemma_pairs_bytes_split(ws, i as int, e);
    wire::lemma_prefix_parts(
        pairs_bytes(ws.take(i as int), e),
        pairs_bytes(ws.skip(i as int), e),
        body,
    );
    lemma_pairs_prefix_free(items, ws.take(i as int), tkey, tval, e, body);
    let done = pairs_bytes(items, e);
    let t0 = ws.skip(i as int);
    assert(t0[0] == ws[i as int]);
    assert(pairs_bytes(t0, e) == value_bytes(t0[0].0, e) + value_bytes(t0[0].1, e) + pairs_bytes(
        t0.drop_first(),
        e,
    ));
    let kb2 = value_bytes(ws[i as int].0, e);
    let vb2 = value_bytes(ws[i as int].1, e);
    let rest = pairs_bytes(t0.drop_first(), e);
    assert(body =~= done + (kb2 + (vb2 + rest)));
    let c2 = cut - done.len();
    assert(s.skip(8).skip(done.len() as int) =~= (kb2 + (vb2 + rest)).take(c2)) by {
        assert(forall|j: int| 0 <= j < s.len() ==> s[j] == value_bytes(w, e)[j]);
        assert(forall|j: int|
            0 <= j < c2 ==> s.skip(8).skip(done.len() as int)[j] == body[done.len() + j]);
        assert(forall|j: int|
            0 <= j < c2 ==> body[done.len() + j] == (kb2 + (vb2 + rest))[j]);
    }
    assert(char_free(ws[i as int].0) && char_free(ws[i as int].1)) by {
        lemma_pairs_char_free_split(ws, i as int);
    }
}

/// The truncated-map case of a failed key: the failure is the
/// budget-or-input error.
proof fn lemma_pairs_key_err_trunc<'de>(
    w: Value,
    sh: Shape,
    tkey: Shape,
    tval: Shape,
    e: Endianness,
    s: Seq<u8>,
    l: SizeLimit,
    items: Seq<(Value, Value)>,
    diter: Deserializer<'de>,
    dpost: Deserializer<'de>,
    rk: Result<Value, ErrorKind>,
    n: nat,
    i: nat,
)
    requires
        sh matches Shape::Pairs(kb, wb) && *kb == tkey && *wb == tval,
        matches_shape(w, sh),
        value_wf(w),
        char_free(w),
        s.len() < value_bytes(w, e).len(),
        s == value_bytes(w, e).take(s.len() as int),
        s.len() >= 8,
        n <= usize::MAX,
        i < n,
        items.len() == i,
        n == wire::u64_of_bytes(e, s.take(8)),
        pairs_match(items, tkey, tval),
        pairs_wf(items),
        pairs_bytes(items, e).is_prefix_of(s.skip(8)),
        diter.endian == e,
        diter.reader.slice@ == s.skip(8).skip(pairs_bytes(items, e).len() as int),
        diter.limit == l.charge(8 + pairs_len(items)),
        l.allows(8 + pairs_len(items)),
        decode_contract(diter, dpost, tkey, rk),
        rk is Err,
    ensures
        rk == Err::<Value, ErrorKind>(ErrorKind::SizeLimit),
{
    lemma_pairs_trunc_common(w, sh, tkey, tval, e, s, items, n, i);
    let ws = w->Pairs_0@;
    let vb2 = value_bytes(ws[i as int].1, e);
    let rest = pairs_bytes(ws.skip(i as int).drop_first(), e);
    lemma_run_err_trunc(ws[i as int].0, tkey, e, vb2 + rest, diter, dpost, rk);
}

/// The truncated-map case of a failed value, after its key decoded: the
/// failure is the budget-or-input error.
proof fn lemma_pairs_val_err_trunc<'de>(
    w: Value,
    sh: Shape,
    tkey: Shape,
    tval: Shape,
    e: Endianness,
    s: Seq<u8>,
    l: SizeLimit,
    items: Seq<(Value, Value)>,
    gxk: Value,
    diter: Deserializer<'de>,
    dk: Deserializer<'de>,
    dpost: Deserializer<'de>,
    rv: Result<Value, ErrorKind>,
    n: nat,
    i: nat,
)
    requires
        sh matches Shape::Pairs(kb, wb) && *kb == tkey && *wb == tval,
        matches_shape(w, sh),
        value_wf(w),
        char_free(w),
        s.len() < value_bytes(w, e).len(),
        s == value_bytes(w, e).take(s.len() as int),
        s.len() >= 8,
        n <= usize::MAX,
        i < n,
        items.len() == i,
        n == wire::u64_of_bytes(e, s.take(8)),
        pairs_match(items, tkey, tval),
        pairs_wf(items),
        pairs_bytes(items, e).is_prefix_of(s.skip(8)),
        diter.endian == e,
        diter.reader.slice@ == s.skip(8).skip(pairs_bytes(items, e).len() as int),
        diter.limit == l.charge(8 + pairs_len(items)),
        l.allows(8 + pairs_len(items)),
        matches_shape(gxk, tkey),
        value_wf(gxk),
        value_bytes(gxk, e).is_prefix_of(diter.bytes()),
        diter.limit.allows(encoded_len(gxk)),
        diter.consumed(dk, encoded_len(gxk)),
        decode_contract(dk, dpost, tval, rv),
        rv is Err,
    ensures
        rv == Err::<Value, ErrorKind>(ErrorKind::SizeLimit),
{
    lemma_pairs_trunc_common(w, sh, tkey, tval, e, s, items, n, i);
    let ws = w->Pairs_0@;
    let done = pairs_bytes(items, e);
    let kb2 = value_bytes(ws[i as int].0, e);
    let vb2 = value_bytes(ws[i as int].1, e);
    let rest = pairs_bytes(ws.skip(i as int).drop_first(), e);
    let c2 = s.len() - 8 - done.len();
    // the decoded key's bytes and the hypothetical key's bytes both lead
    // the same run, so they coincide
    assert(diter.bytes().is_prefix_of(kb2 + (vb2 + rest))) by {
        assert(diter.bytes() =~= (kb2 + (vb2 + rest)).subrange(0, c2 as int));
    }
    wire::lemma_prefix_trans(value_bytes(gxk, e), diter.bytes(), kb2 + (vb2 + rest));
    wire::lemma_prefix_parts(kb2, vb2 + rest, kb2 + (vb2 + rest));
    lemma_prefix_free(gxk, ws[i as int].0, tkey, e, kb2 + (vb2 + rest));
    lemma_value_len(gxk, e);
    lemma_value_len(ws[i as int].0, e);
    let c3 = c2 - kb2.len();
    assert(dk.bytes() =~= (vb2 + rest).take(c3)) by {
        assert(forall|j: int|
            0 <= j < c3 ==> dk.bytes()[j] == diter.bytes()[kb2.len() + j]);
        assert(forall|j: int|
            0 <= j < c3 ==> (kb2 + (vb2 + rest))[kb2.len() + j] == (vb2 + rest)[j]);
    }
    lemma_run_err_trunc(ws[i as int].1, tval, e, rest, dk, dpost, rv);
}

} // verus!
