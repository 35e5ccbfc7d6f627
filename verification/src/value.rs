//! The value universe: the tree of shapes the codec can carry, and the
//! specification of their wire framing.
//!
//! [`value_bytes`] is the single source of truth for what the encoder
//! writes, what the size-checker counts and what the decoder consumes.

use crate::config::Endianness;
use crate::utf8::char_bytes;
use crate::wire;
use vstd::prelude::*;

verus! {

broadcast use vstd::std_specs::vec::group_vec_axioms;

/// A typed value of the codec's universe.
#[derive(Debug, PartialEq)]
pub enum Value {
    /// The empty value: contributes no bytes.
    Unit,
    /// A boolean: one byte, 0 or 1.
    Bool(bool),
    /// An unsigned byte.
    U8(u8),
    /// An unsigned 16-bit integer.
    U16(u16),
    /// An unsigned 32-bit integer.
    U32(u32),
    /// An unsigned 64-bit integer.
    U64(u64),
    /// A signed byte.
    I8(i8),
    /// A signed 16-bit integer.
    I16(i16),
    /// A signed 32-bit integer.
    I32(i32),
    /// A signed 64-bit integer.
    I64(i64),
    /// A 32-bit float, carried as its IEEE-754 bit pattern.
    F32Bits(u32),
    /// A 64-bit float, carried as its IEEE-754 bit pattern.
    F64Bits(u64),
    /// A character: one to four UTF-8 bytes, no prefix.
    Char(char),
    /// A string: 64-bit byte length, then UTF-8 bytes.
    Str(String),
    /// A byte blob: 64-bit length, then raw bytes.
    Bytes(Vec<u8>),
    /// An optional: a one-byte tag, then the payload if present.
    Opt(Option<Box<Value>>),
    /// A homogeneous sequence: 64-bit count, then the elements.
    List(Vec<Value>),
    /// A keyed map: 64-bit pair count, then key and value alternating.
    Pairs(Vec<(Value, Value)>),
    /// A tuple or record: the fields in order, no prefix.
    Record(Vec<Value>),
    /// A tagged variant: 32-bit index, then the payload.
    Variant(u32, Box<Value>),
}

/// The shape a decoder expects: the type-directed mirror of [`Value`].
#[derive(Debug, PartialEq)]
pub enum Shape {
    Unit,
    Bool,
    U8,
    U16,
    U32,
    U64,
    I8,
    I16,
    I32,
    I64,
    F32,
    F64,
    Char,
    Str,
    Bytes,
    /// An optional of the given payload shape.
    Opt(Box<Shape>),
    /// A sequence of elements of one shape.
    List(Box<Shape>),
    /// A map with the given key and value shapes.
    Pairs(Box<Shape>, Box<Shape>),
    /// A tuple or record with the given field shapes.
    Record(Vec<Shape>),
    /// A tagged variant: one payload shape per variant index.
    Variant(Vec<Shape>),
}

/// The wire bytes of a value in byte order `e`.
pub open spec fn value_bytes(v: Value, e: Endianness) -> Seq<u8>
    decreases v,
{
    match v {
        Value::Unit => Seq::empty(),
        Value::Bool(b) => seq![if b {
            1u8
        } else {
            0u8
        }],
        Value::U8(x) => seq![x],
        Value::U16(x) => wire::u16_bytes(e, x),
        Value::U32(x) => wire::u32_bytes(e, x),
        Value::U64(x) => wire::u64_bytes(e, x),
        Value::I8(x) => seq![x as u8],
        Value::I16(x) => wire::u16_bytes(e, x as u16),
        Value::I32(x) => wire::u32_bytes(e, x as u32),
        Value::I64(x) => wire::u64_bytes(e, x as u64),
        Value::F32Bits(x) => wire::u32_bytes(e, x),
        Value::F64Bits(x) => wire::u64_bytes(e, x),
        Value::Char(c) => char_bytes(c),
        Value::Str(s) => {
            let payload = vstd::utf8::encode_utf8(s@);
            wire::u64_bytes(e, payload.len() as u64) + payload
        },
        Value::Bytes(b) => wire::u64_bytes(e, b@.len() as u64) + b@,
        Value::Opt(o) => match o {
            Option::None => seq![0u8],
            Option::Some(p) => seq![1u8] + value_bytes(*p, e),
        },
        Value::List(vs) => wire::u64_bytes(e, vs@.len() as u64) + list_bytes(vs@, e),
        Value::Pairs(ps) => wire::u64_bytes(e, ps@.len() as u64) + pairs_bytes(ps@, e),
        Value::Record(vs) => list_bytes(vs@, e),
        Value::Variant(i, p) => wire::u32_bytes(e, i) + value_bytes(*p, e),
    }
}

/// The concatenated wire bytes of a run of values.
pub open spec fn list_bytes(vs: Seq<Value>, e: Endianness) -> Seq<u8>
    decreases vs,
{
    if vs.len() == 0 {
        Seq::empty()
    } else {
        value_bytes(vs[0], e) + list_bytes(vs.drop_first(), e)
    }
}

/// The concatenated wire bytes of a run of key-value pairs.
pub open spec fn pairs_bytes(ps: Seq<(Value, Value)>, e: Endianness) -> Seq<u8>
    decreases ps,
{
    if ps.len() == 0 {
        Seq::empty()
    } else {
        value_bytes(ps[0].0, e) + value_bytes(ps[0].1, e) + pairs_bytes(ps.drop_first(), e)
    }
}

/// The number of wire bytes a value occupies; the same in either byte
/// order.
pub open spec fn encoded_len(v: Value) -> nat
    decreases v,
{
    match v {
        Value::Unit => 0,
        Value::Bool(_) => 1,
        Value::U8(_) => 1,
        Value::U16(_) => 2,
        Value::U32(_) => 4,
        Value::U64(_) => 8,
        Value::I8(_) => 1,
        Value::I16(_) => 2,
        Value::I32(_) => 4,
        Value::I64(_) => 8,
        Value::F32Bits(_) => 4,
        Value::F64Bits(_) => 8,
        Value::Char(c) => char_bytes(c).len(),
        Value::Str(s) => 8 + vstd::utf8::encode_utf8(s@).len(),
        Value::Bytes(b) => 8 + b@.len(),
        Value::Opt(o) => match o {
            Option::None => 1,
            Option::Some(p) => 1 + encoded_len(*p),
        },
        Value::List(vs) => 8 + list_len(vs@),
        Value::Pairs(ps) => 8 + pairs_len(ps@),
        Value::Record(vs) => list_len(vs@),
        Value::Variant(_, p) => 4 + encoded_len(*p),
    }
}

/// The number of wire bytes a run of values occupies.
pub open spec fn list_len(vs: Seq<Value>) -> nat
    decreases vs,
{
    if vs.len() == 0 {
        0
    } else {
        encoded_len(vs[0]) + list_len(vs.drop_first())
    }
}

/// The number of wire bytes a run of pairs occupies.
pub open spec fn pairs_len(ps: Seq<(Value, Value)>) -> nat
    decreases ps,
{
    if ps.len() == 0 {
        0
    } else {
        encoded_len(ps[0].0) + encoded_len(ps[0].1) + pairs_len(ps.drop_first())
    }
}

/// Whether a value has the given shape.
pub open spec fn matches_shape(v: Value, s: Shape) -> bool
    decreases v,
{
    match v {
        Value::Unit => s is Unit,
        Value::Bool(_) => s is Bool,
        Value::U8(_) => s is U8,
        Value::U16(_) => s is U16,
        Value::U32(_) => s is U32,
        Value::U64(_) => s is U64,
        Value::I8(_) => s is I8,
        Value::I16(_) => s is I16,
        Value::I32(_) => s is I32,
        Value::I64(_) => s is I64,
        Value::F32Bits(_) => s is F32,
        Value::F64Bits(_) => s is F64,
        Value::Char(_) => s is Char,
        Value::Str(_) => s is Str,
        Value::Bytes(_) => s is Bytes,
        Value::Opt(o) => match s {
            Shape::Opt(t) => match o {
                Option::None => true,
                Option::Some(p) => matches_shape(*p, *t),
            },
            _ => false,
        },
        Value::List(vs) => match s {
            Shape::List(t) => list_matches(vs@, *t),
            _ => false,
        },
        Value::Pairs(ps) => match s {
            Shape::Pairs(k, w) => pairs_match(ps@, *k, *w),
            _ => false,
        },
        Value::Record(vs) => match s {
            Shape::Record(ss) => record_matches(vs@, ss@),
            _ => false,
        },
        Value::Variant(i, p) => match s {
            Shape::Variant(ss) => (i as int) < ss@.len() && matches_shape(*p, ss@[i as int]),
            _ => false,
        },
    }
}

/// Whether every value in a run has the given shape.
pub open spec fn list_matches(vs: Seq<Value>, t: Shape) -> bool
    decreases vs,
{
    if vs.len() == 0 {
        true
    } else {
        matches_shape(vs[0], t) && list_matches(vs.drop_first(), t)
    }
}

/// Whether every pair in a run has the given key and value shapes.
pub open spec fn pairs_match(ps: Seq<(Value, Value)>, k: Shape, w: Shape) -> bool
    decreases ps,
{
    if ps.len() == 0 {
        true
    } else {
        matches_shape(ps[0].0, k) && matches_shape(ps[0].1, w) && pairs_match(ps.drop_first(), k, w)
    }
}

/// Whether a run of fields matches a run of field shapes, position by
/// position.
pub open spec fn record_matches(vs: Seq<Value>, ss: Seq<Shape>) -> bool
    decreases vs,
{
    if vs.len() != ss.len() {
        false
    } else if vs.len() == 0 {
        true
    } else {
        matches_shape(vs[0], ss[0]) && record_matches(vs.drop_first(), ss.drop_first())
    }
}

/// Whether every length in the value fits the machine's address space, so
/// that the value could exist in memory and its length prefixes are exact.
pub open spec fn value_wf(v: Value) -> bool
    decreases v,
{
    match v {
        Value::Str(s) => vstd::utf8::encode_utf8(s@).len() <= usize::MAX,
        Value::Bytes(b) => b@.len() <= usize::MAX,
        Value::Opt(o) => match o {
            Option::None => true,
            Option::Some(p) => value_wf(*p),
        },
        Value::List(vs) => vs@.len() <= usize::MAX && list_wf(vs@),
        Value::Pairs(ps) => ps@.len() <= usize::MAX && pairs_wf(ps@),
        Value::Record(vs) => list_wf(vs@),
        Value::Variant(_, p) => value_wf(*p),
        _ => true,
    }
}

/// Well-formedness of every value in a run.
pub open spec fn list_wf(vs: Seq<Value>) -> bool
    decreases vs,
{
    if vs.len() == 0 {
        true
    } else {
        value_wf(vs[0]) && list_wf(vs.drop_first())
    }
}

/// Well-formedness of every pair in a run.
pub open spec fn pairs_wf(ps: Seq<(Value, Value)>) -> bool
    decreases ps,
{
    if ps.len() == 0 {
        true
    } else {
        value_wf(ps[0].0) && value_wf(ps[0].1) && pairs_wf(ps.drop_first())
    }
}

/// Whether a value contains no character anywhere.  Characters are the one
/// shape whose truncation surfaces as a malformed-character error rather
/// than as an input-too-short error, because the decoder reads their
/// remaining bytes only after committing to a width.
pub open spec fn char_free(v: Value) -> bool
    decreases v,
{
    match v {
        Value::Char(_) => false,
        Value::Opt(o) => match o {
            Option::None => true,
            Option::Some(p) => char_free(*p),
        },
        Value::List(vs) => list_char_free(vs@),
        Value::Pairs(ps) => pairs_char_free(ps@),
        Value::Record(vs) => list_char_free(vs@),
        Value::Variant(_, p) => char_free(*p),
        _ => true,
    }
}

/// Character-freedom of every value in a run.
pub open spec fn list_char_free(vs: Seq<Value>) -> bool
    decreases vs,
{
    if vs.len() == 0 {
        true
    } else {
        char_free(vs[0]) && list_char_free(vs.drop_first())
    }
}

/// Character-freedom of every pair in a run.
pub open spec fn pairs_char_free(ps: Seq<(Value, Value)>) -> bool
    decreases ps,
{
    if ps.len() == 0 {
        true
    } else {
        char_free(ps[0].0) && char_free(ps[0].1) && pairs_char_free(ps.drop_first())
    }
}

/// Splitting a character-free run leaves both halves character-free, and
/// each position character-free.
pub proof fn lemma_list_char_free_split(vs: Seq<Value>, i: int)
    requires
        0 <= i < vs.len(),
        list_char_free(vs),
    ensures
        char_free(vs[i]),
        list_char_free(vs.skip(i)),
    decreases i,
{
    if i == 0 {
        assert(vs.skip(0) =~= vs);
    } else {
        lemma_list_char_free_split(vs.drop_first(), i - 1);
        assert(vs.drop_first()[i - 1] == vs[i]);
        assert(vs.drop_first().skip(i - 1) =~= vs.skip(i));
    }
}

/// Splitting a character-free pair run leaves each side of each position
/// character-free.
pub proof fn lemma_pairs_char_free_split(ps: Seq<(Value, Value)>, i: int)
    requires
        0 <= i < ps.len(),
        pairs_char_free(ps),
    ensures
        char_free(ps[i].0),
        char_free(ps[i].1),
    decreases i,
{
    if i > 0 {
        lemma_pairs_char_free_split(ps.drop_first(), i - 1);
        assert(ps.drop_first()[i - 1] == ps[i]);
    }
}

/// Structural equality of two values: equal leaves, with strings, blobs
/// and containers compared element by element.
pub open spec fn val_eq(a: Value, b: Value) -> bool
    decreases a,
{
    match (a, b) {
        (Value::Unit, Value::Unit) => true,
        (Value::Bool(x), Value::Bool(y)) => x == y,
        (Value::U8(x), Value::U8(y)) => x == y,
        (Value::U16(x), Value::U16(y)) => x == y,
        (Value::U32(x), Value::U32(y)) => x == y,
        (Value::U64(x), Value::U64(y)) => x == y,
        (Value::I8(x), Value::I8(y)) => x == y,
        (Value::I16(x), Value::I16(y)) => x == y,
        (Value::I32(x), Value::I32(y)) => x == y,
        (Value::I64(x), Value::I64(y)) => x == y,
        (Value::F32Bits(x), Value::F32Bits(y)) => x == y,
        (Value::F64Bits(x), Value::F64Bits(y)) => x == y,
        (Value::Char(x), Value::Char(y)) => x == y,
        (Value::Str(x), Value::Str(y)) => x@ == y@,
        (Value::Bytes(x), Value::Bytes(y)) => x@ == y@,
        (Value::Opt(x), Value::Opt(y)) => match (x, y) {
            (Option::None, Option::None) => true,
            (Option::Some(p), Option::Some(q)) => val_eq(*p, *q),
            _ => false,
        },
        (Value::List(xs), Value::List(ys)) => lists_eq(xs@, ys@),
        (Value::Pairs(xs), Value::Pairs(ys)) => pairs_eq(xs@, ys@),
        (Value::Record(xs), Value::Record(ys)) => lists_eq(xs@, ys@),
        (Value::Variant(i, p), Value::Variant(j, q)) => i == j && val_eq(*p, *q),
        _ => false,
    }
}

/// Structural equality of two runs of values.
pub open spec fn lists_eq(xs: Seq<Value>, ys: Seq<Value>) -> bool
    decreases xs,
{
    if xs.len() != ys.len() {
        false
    } else if xs.len() == 0 {
        true
    } else {
        val_eq(xs[0], ys[0]) && lists_eq(xs.drop_first(), ys.drop_first())
    }
}

/// Structural equality of two runs of pairs.
pub open spec fn pairs_eq(xs: Seq<(Value, Value)>, ys: Seq<(Value, Value)>) -> bool
    decreases xs,
{
    if xs.len() != ys.len() {
        false
    } else if xs.len() == 0 {
        true
    } else {
        val_eq(xs[0].0, ys[0].0) && val_eq(xs[0].1, ys[0].1) && pairs_eq(
            xs.drop_first(),
            ys.drop_first(),
        )
    }
}

/// The byte count spec agrees with the framing spec: a value's wire bytes
/// have exactly its encoded length, in either byte order.
pub proof fn lemma_value_len(v: Value, e: Endianness)
    ensures
        value_bytes(v, e).len() == encoded_len(v),
    decreases v,
{
    lemma_wire_lens(e);
    match v {
        Value::Opt(o) => match o {
            Option::None => {},
            Option::Some(p) => {
                lemma_value_len(*p, e);
            },
        },
        Value::List(vs) => {
            lemma_list_len(vs@, e);
        },
        Value::Pairs(ps) => {
            lemma_pairs_len(ps@, e);
        },
        Value::Record(vs) => {
            lemma_list_len(vs@, e);
        },
        Value::Variant(_, p) => {
            lemma_value_len(*p, e);
        },
        _ => {},
    }
}

/// The byte count of a run of values agrees with its framing.
pub proof fn lemma_list_len(vs: Seq<Value>, e: Endianness)
    ensures
        list_bytes(vs, e).len() == list_len(vs),
    decreases vs,
{
    if vs.len() != 0 {
        lemma_value_len(vs[0], e);
        lemma_list_len(vs.drop_first(), e);
    }
}

/// The byte count of a run of pairs agrees with its framing.
pub proof fn lemma_pairs_len(ps: Seq<(Value, Value)>, e: Endianness)
    ensures
        pairs_bytes(ps, e).len() == pairs_len(ps),
    decreases ps,
{
    if ps.len() != 0 {
        lemma_value_len(ps[0].0, e);
        lemma_value_len(ps[0].1, e);
        lemma_pairs_len(ps.drop_first(), e);
    }
}

/// Whether a value's encoding involves no multi-byte field: no integers
/// wider than one byte and no length or count prefixes.  Characters
/// qualify, since UTF-8 bytes do not depend on the byte order.
pub open spec fn endian_independent(v: Value) -> bool
    decreases v,
{
    match v {
        Value::Unit => true,
        Value::Bool(_) => true,
        Value::U8(_) => true,
        Value::I8(_) => true,
        Value::Char(_) => true,
        Value::Opt(o) => match o {
            Option::None => true,
            Option::Some(p) => endian_independent(*p),
        },
        Value::Record(vs) => list_endian_independent(vs@),
        _ => false,
    }
}

/// Endian-independence of every field in a run.
pub open spec fn list_endian_independent(vs: Seq<Value>) -> bool
    decreases vs,
{
    if vs.len() == 0 {
        true
    } else {
        endian_independent(vs[0]) && list_endian_independent(vs.drop_first())
    }
}

/// A value with no multi-byte fields has the same wire bytes in either
/// byte order.
pub proof fn lemma_endian_independent(v: Value, e1: Endianness, e2: Endianness)
    requires
        endian_independent(v),
    ensures
        value_bytes(v, e1) == value_bytes(v, e2),
    decreases v,
{
    match v {
        Value::Opt(o) => match o {
            Option::None => {},
            Option::Some(p) => {
                lemma_endian_independent(*p, e1, e2);
                assert(value_bytes(v, e1) =~= value_bytes(v, e2));
            },
        },
        Value::Record(vs) => {
            lemma_list_endian_independent(vs@, e1, e2);
        },
        _ => {},
    }
}

/// The run form of [`lemma_endian_independent`].
pub proof fn lemma_list_endian_independent(vs: Seq<Value>, e1: Endianness, e2: Endianness)
    requires
        list_endian_independent(vs),
    ensures
        list_bytes(vs, e1) == list_bytes(vs, e2),
    decreases vs,
{
    if vs.len() != 0 {
        lemma_endian_independent(vs[0], e1, e2);
        lemma_list_endian_independent(vs.drop_first(), e1, e2);
        assert(list_bytes(vs, e1) =~= list_bytes(vs, e2));
    }
}

/// The fixed-width byte specs have their stated lengths.
pub proof fn lemma_wire_lens(e: Endianness)
    ensures
        forall|x: u16| (#[trigger] wire::u16_bytes(e, x)).len() == 2,
        forall|x: u32| (#[trigger] wire::u32_bytes(e, x)).len() == 4,
        forall|x: u64| (#[trigger] wire::u64_bytes(e, x)).len() == 8,
{
    wire::lemma_u16_bytes(e);
    wire::lemma_u32_bytes(e);
    wire::lemma_u64_bytes(e);
}

/// Appending one value to a run appends its bytes.
pub proof fn lemma_list_bytes_snoc(vs: Seq<Value>, v: Value, e: Endianness)
    ensures
        list_bytes(vs.push(v), e) == list_bytes(vs, e) + value_bytes(v, e),
        list_len(vs.push(v)) == list_len(vs) + encoded_len(v),
    decreases vs,
{
    let w = vs.push(v);
    if vs.len() == 0 {
        assert(w[0] == v);
        assert(w.drop_first() =~= Seq::<Value>::empty());
        assert(list_bytes(Seq::<Value>::empty(), e) == Seq::<u8>::empty());
        assert(list_len(Seq::<Value>::empty()) == 0);
        assert(vs =~= Seq::<Value>::empty());
        assert(list_bytes(w, e) =~= list_bytes(vs, e) + value_bytes(v, e));
    } else {
        assert(w[0] == vs[0]);
        assert(w.drop_first() =~= vs.drop_first().push(v));
        lemma_list_bytes_snoc(vs.drop_first(), v, e);
        assert(list_bytes(w, e) =~= list_bytes(vs, e) + value_bytes(v, e));
    }
}

/// Appending one pair to a run appends both sides' bytes.
pub proof fn lemma_pairs_bytes_snoc(ps: Seq<(Value, Value)>, p: (Value, Value), e: Endianness)
    ensures
        pairs_bytes(ps.push(p), e) == pairs_bytes(ps, e) + value_bytes(p.0, e) + value_bytes(
            p.1,
            e,
        ),
        pairs_len(ps.push(p)) == pairs_len(ps) + encoded_len(p.0) + encoded_len(p.1),
    decreases ps,
{
    let w = ps.push(p);
    if ps.len() == 0 {
        assert(w[0] == p);
        assert(w.drop_first() =~= Seq::<(Value, Value)>::empty());
        assert(pairs_bytes(Seq::<(Value, Value)>::empty(), e) == Seq::<u8>::empty());
        assert(pairs_len(Seq::<(Value, Value)>::empty()) == 0);
        assert(ps =~= Seq::<(Value, Value)>::empty());
        assert(pairs_bytes(w, e) =~= pairs_bytes(ps, e) + value_bytes(p.0, e) + value_bytes(
            p.1,
            e,
        ));
    } else {
        assert(w[0] == ps[0]);
        assert(w.drop_first() =~= ps.drop_first().push(p));
        lemma_pairs_bytes_snoc(ps.drop_first(), p, e);
        assert(pairs_bytes(w, e) =~= pairs_bytes(ps, e) + value_bytes(p.0, e) + value_bytes(
            p.1,
            e,
        ));
    }
}

/// Membership facts for a matching run: taking a prefix keeps the match,
/// and appending a matching value extends it.
pub proof fn lemma_list_matches_snoc(vs: Seq<Value>, v: Value, t: Shape)
    requires
        list_matches(vs, t),
        matches_shape(v, t),
    ensures
        list_matches(vs.push(v), t),
    decreases vs,
{
    let w = vs.push(v);
    if vs.len() == 0 {
        assert(w.drop_first() =~= Seq::<Value>::empty());
        assert(list_matches(Seq::<Value>::empty(), t));
    } else {
        assert(w.drop_first() =~= vs.drop_first().push(v));
        lemma_list_matches_snoc(vs.drop_first(), v, t);
    }
}

/// Appending a matching pair keeps a pair run matching.
pub proof fn lemma_pairs_match_snoc(ps: Seq<(Value, Value)>, p: (Value, Value), k: Shape, w: Shape)
    requires
        pairs_match(ps, k, w),
        matches_shape(p.0, k),
        matches_shape(p.1, w),
    ensures
        pairs_match(ps.push(p), k, w),
    decreases ps,
{
    let q = ps.push(p);
    if ps.len() == 0 {
        assert(q.drop_first() =~= Seq::<(Value, Value)>::empty());
        assert(pairs_match(Seq::<(Value, Value)>::empty(), k, w));
    } else {
        assert(q.drop_first() =~= ps.drop_first().push(p));
        lemma_pairs_match_snoc(ps.drop_first(), p, k, w);
    }
}

/// A run's bytes split at any point into the bytes of the prefix and the
/// bytes of the suffix.
pub proof fn lemma_list_bytes_split(vs: Seq<Value>, i: int, e: Endianness)
    requires
        0 <= i <= vs.len(),
    ensures
        list_bytes(vs, e) == list_bytes(vs.take(i), e) + list_bytes(vs.skip(i), e),
        list_len(vs) == list_len(vs.take(i)) + list_len(vs.skip(i)),
    decreases i,
{
    if i == 0 {
        assert(vs.take(0) =~= Seq::<Value>::empty());
        assert(vs.skip(0) =~= vs);
        assert(list_bytes(Seq::<Value>::empty(), e) == Seq::<u8>::empty());
        assert(list_bytes(vs, e) =~= list_bytes(vs.take(0), e) + list_bytes(vs.skip(0), e));
    } else {
        lemma_list_bytes_split(vs, i - 1, e);
        lemma_list_bytes_snoc(vs.take(i - 1), vs[i - 1], e);
        assert(vs.take(i) =~= vs.take(i - 1).push(vs[i - 1]));
        let t = vs.skip(i - 1);
        assert(t[0] == vs[i - 1]);
        assert(t.drop_first() =~= vs.skip(i));
        assert(list_bytes(t, e) == value_bytes(vs[i - 1], e) + list_bytes(vs.skip(i), e));
        assert(list_bytes(vs, e) =~= list_bytes(vs.take(i), e) + list_bytes(vs.skip(i), e));
    }
}

/// A pair run's bytes split at any point into prefix and suffix bytes.
pub proof fn lemma_pairs_bytes_split(ps: Seq<(Value, Value)>, i: int, e: Endianness)
    requires
        0 <= i <= ps.len(),
    ensures
        pairs_bytes(ps, e) == pairs_bytes(ps.take(i), e) + pairs_bytes(ps.skip(i), e),
        pairs_len(ps) == pairs_len(ps.take(i)) + pairs_len(ps.skip(i)),
    decreases i,
{
    if i == 0 {
        assert(ps.take(0) =~= Seq::<(Value, Value)>::empty());
        assert(ps.skip(0) =~= ps);
        assert(pairs_bytes(Seq::<(Value, Value)>::empty(), e) == Seq::<u8>::empty());
        assert(pairs_bytes(ps, e) =~= pairs_bytes(ps.take(0), e) + pairs_bytes(ps.skip(0), e));
    } else {
        lemma_pairs_bytes_split(ps, i - 1, e);
        lemma_pairs_bytes_snoc(ps.take(i - 1), ps[i - 1], e);
        assert(ps.take(i) =~= ps.take(i - 1).push(ps[i - 1]));
        let t = ps.skip(i - 1);
        assert(t[0] == ps[i - 1]);
        assert(t.drop_first() =~= ps.skip(i));
        assert(pairs_bytes(t, e) == value_bytes(ps[i - 1].0, e) + value_bytes(ps[i - 1].1, e)
            + pairs_bytes(ps.skip(i), e));
        assert(pairs_bytes(ps, e) =~= pairs_bytes(ps.take(i), e) + pairs_bytes(ps.skip(i), e));
    }
}

/// No two distinct values of one shape have one encoding a prefix of the
/// other: two encodings of the same shape leading the same stream are the
/// same encoding, of structurally equal values.  This is what makes the
/// wire format unambiguous and truncation detectable.
pub proof fn lemma_prefix_free(v1: Value, v2: Value, sh: Shape, e: Endianness, stream: Seq<u8>)
    requires
        matches_shape(v1, sh),
        matches_shape(v2, sh),
        value_wf(v1),
        value_wf(v2),
        value_bytes(v1, e).is_prefix_of(stream),
        value_bytes(v2, e).is_prefix_of(stream),
    ensures
        value_bytes(v1, e) == value_bytes(v2, e),
        val_eq(v1, v2),
    decreases v1,
{
    lemma_wire_lens(e);
    let b1 = value_bytes(v1, e);
    let b2 = value_bytes(v2, e);
    match (v1, v2) {
        (Value::Unit, Value::Unit) => {
            assert(b1 =~= b2);
        },
        (Value::Bool(x1), Value::Bool(x2)) => {
            assert(b1[0] == stream[0] && b2[0] == stream[0]);
            assert(b1 =~= b2);
        },
        (Value::U8(x1), Value::U8(x2)) => {
            assert(b1[0] == stream[0] && b2[0] == stream[0]);
            assert(b1 =~= b2);
        },
        (Value::I8(x1), Value::I8(x2)) => {
            assert(b1[0] == stream[0] && b2[0] == stream[0]);
            assert(x1 as u8 == x2 as u8);
            assert(x1 == x2) by (bit_vector)
                requires
                    x1 as u8 == x2 as u8,
            ;
            assert(b1 =~= b2);
        },
        (Value::U16(x1), Value::U16(x2)) => {
            lemma_fixed_prefix_eq(b1, b2, stream, 2);
            wire::lemma_u16_bytes(e);
        },
        (Value::U32(x1), Value::U32(x2)) => {
            lemma_fixed_prefix_eq(b1, b2, stream, 4);
            wire::lemma_u32_bytes(e);
        },
        (Value::U64(x1), Value::U64(x2)) => {
            lemma_fixed_prefix_eq(b1, b2, stream, 8);
            wire::lemma_u64_bytes(e);
        },
        (Value::I16(x1), Value::I16(x2)) => {
            lemma_fixed_prefix_eq(b1, b2, stream, 2);
            wire::lemma_u16_bytes(e);
            assert(x1 as u16 == x2 as u16);
            assert(x1 == x2) by (bit_vector)
                requires
                    x1 as u16 == x2 as u16,
            ;
        },
        (Value::I32(x1), Value::I32(x2)) => {
            lemma_fixed_prefix_eq(b1, b2, stream, 4);
            wire::lemma_u32_bytes(e);
            assert(x1 as u32 == x2 as u32);
            assert(x1 == x2) by (bit_vector)
                requires
                    x1 as u32 == x2 as u32,
            ;
        },
        (Value::I64(x1), Value::I64(x2)) => {
            lemma_fixed_prefix_eq(b1, b2, stream, 8);
            wire::lemma_u64_bytes(e);
            assert(x1 as u64 == x2 as u64);
            assert(x1 == x2) by (bit_vector)
                requires
                    x1 as u64 == x2 as u64,
            ;
        },
        (Value::F32Bits(x1), Value::F32Bits(x2)) => {
            lemma_fixed_prefix_eq(b1, b2, stream, 4);
            wire::lemma_u32_bytes(e);
        },
        (Value::F64Bits(x1), Value::F64Bits(x2)) => {
            lemma_fixed_prefix_eq(b1, b2, stream, 8);
            wire::lemma_u64_bytes(e);
        },
        (Value::Char(c1), Value::Char(c2)) => {
            crate::utf8::lemma_char_bytes_prefix(c1, stream);
            crate::utf8::lemma_char_bytes_prefix(c2, stream);
            vstd::utf8::char_u32_cast(c1, c1 as u32);
            vstd::utf8::char_u32_cast(c2, c2 as u32);
        },
        (Value::Str(s1), Value::Str(s2)) => {
            let p1 = vstd::utf8::encode_utf8(s1@);
            let p2 = vstd::utf8::encode_utf8(s2@);
            lemma_len_prefix_eq(
                wire::u64_bytes(e, p1.len() as u64),
                p1,
                wire::u64_bytes(e, p2.len() as u64),
                p2,
                stream,
                e,
            );
            vstd::utf8::encode_utf8_decode_utf8(s1@);
            vstd::utf8::encode_utf8_decode_utf8(s2@);
            assert(s1@ == s2@);
        },
        (Value::Bytes(x1), Value::Bytes(x2)) => {
            lemma_len_prefix_eq(
                wire::u64_bytes(e, x1@.len() as u64),
                x1@,
                wire::u64_bytes(e, x2@.len() as u64),
                x2@,
                stream,
                e,
            );
        },
        (Value::Opt(o1), Value::Opt(o2)) => {
            match (o1, o2) {
                (Option::None, Option::None) => {
                    assert(b1 =~= b2);
                },
                (Option::Some(p1), Option::Some(p2)) => {
                    let t = sh->Opt_0;
                    wire::lemma_prefix_parts(seq![1u8], value_bytes(*p1, e), stream);
                    wire::lemma_prefix_parts(seq![1u8], value_bytes(*p2, e), stream);
                    lemma_prefix_free(*p1, *p2, *t, e, stream.skip(1));
                    assert(b1 =~= b2);
                },
                (Option::None, Option::Some(_)) => {
                    assert(b1[0] == stream[0] && b2[0] == stream[0]);
                    assert(false);
                },
                (Option::Some(_), Option::None) => {
                    assert(b1[0] == stream[0] && b2[0] == stream[0]);
                    assert(false);
                },
            }
        },
        (Value::Variant(i1, p1), Value::Variant(i2, p2)) => {
            let t1 = wire::u32_bytes(e, i1);
            let t2 = wire::u32_bytes(e, i2);
            wire::lemma_prefix_parts(t1, value_bytes(*p1, e), stream);
            wire::lemma_prefix_parts(t2, value_bytes(*p2, e), stream);
            assert(t1 =~= stream.subrange(0, 4));
            assert(t2 =~= stream.subrange(0, 4));
            wire::lemma_u32_bytes(e);
            assert(i1 == i2);
            let ss = sh->Variant_0;
            lemma_prefix_free(*p1, *p2, ss[i1 as int], e, stream.skip(4));
            assert(b1 =~= b2);
        },
        (Value::List(vs1), Value::List(vs2)) => {
            let pre1 = wire::u64_bytes(e, vs1@.len() as u64);
            let pre2 = wire::u64_bytes(e, vs2@.len() as u64);
            wire::lemma_prefix_parts(pre1, list_bytes(vs1@, e), stream);
            wire::lemma_prefix_parts(pre2, list_bytes(vs2@, e), stream);
            assert(pre1 =~= stream.subrange(0, 8));
            assert(pre2 =~= stream.subrange(0, 8));
            wire::lemma_u64_bytes(e);
            assert(vs1@.len() as u64 == vs2@.len() as u64);
            assert(vs1@.len() == vs2@.len());
            let t = sh->List_0;
            lemma_list_prefix_free(vs1@, vs2@, *t, e, stream.skip(8));
            assert(b1 =~= b2);
        },
        (Value::Record(vs1), Value::Record(vs2)) => {
            let ss = sh->Record_0;
            lemma_record_prefix_free(vs1@, vs2@, ss@, e, stream);
            assert(b1 =~= b2);
        },
        (Value::Pairs(ps1), Value::Pairs(ps2)) => {
            let pre1 = wire::u64_bytes(e, ps1@.len() as u64);
            let pre2 = wire::u64_bytes(e, ps2@.len() as u64);
            wire::lemma_prefix_parts(pre1, pairs_bytes(ps1@, e), stream);
            wire::lemma_prefix_parts(pre2, pairs_bytes(ps2@, e), stream);
            assert(pre1 =~= stream.subrange(0, 8));
            assert(pre2 =~= stream.subrange(0, 8));
            wire::lemma_u64_bytes(e);
            assert(ps1@.len() as u64 == ps2@.len() as u64);
            assert(ps1@.len() == ps2@.len());
            let k = sh->Pairs_0;
            let w = sh->Pairs_1;
            lemma_pairs_prefix_free(ps1@, ps2@, *k, *w, e, stream.skip(8));
            assert(b1 =~= b2);
        },
        _ => {
            assert(false);
        },
    }
}

/// Two fixed-width fields leading the same stream are byte-identical.
proof fn lemma_fixed_prefix_eq(b1: Seq<u8>, b2: Seq<u8>, stream: Seq<u8>, w: int)
    requires
        b1.len() == w,
        b2.len() == w,
        b1.is_prefix_of(stream),
        b2.is_prefix_of(stream),
    ensures
        b1 == b2,
{
    assert(b1 =~= stream.subrange(0, w));
    assert(b2 =~= stream.subrange(0, w));
}

/// Two length-prefixed atoms of the same kind leading the same stream are
/// byte-identical with equal payloads.
proof fn lemma_len_prefix_eq(
    pre1: Seq<u8>,
    pay1: Seq<u8>,
    pre2: Seq<u8>,
    pay2: Seq<u8>,
    stream: Seq<u8>,
    e: Endianness,
)
    requires
        pre1 == wire::u64_bytes(e, pay1.len() as u64),
        pre2 == wire::u64_bytes(e, pay2.len() as u64),
        pay1.len() <= usize::MAX,
        pay2.len() <= usize::MAX,
        (pre1 + pay1).is_prefix_of(stream),
        (pre2 + pay2).is_prefix_of(stream),
    ensures
        pay1 == pay2,
        pre1 + pay1 == pre2 + pay2,
{
    wire::lemma_u64_bytes(e);
    wire::lemma_prefix_parts(pre1, pay1, stream);
    wire::lemma_prefix_parts(pre2, pay2, stream);
    assert(pre1 =~= stream.subrange(0, 8));
    assert(pre2 =~= stream.subrange(0, 8));
    assert(pay1.len() as u64 == pay2.len() as u64);
    assert(pay1.len() == pay2.len());
    assert(pay1 =~= stream.skip(8).subrange(0, pay1.len() as int));
    assert(pay2 =~= stream.skip(8).subrange(0, pay2.len() as int));
}

/// Prefix-freedom for runs of values of one shape and equal count.
pub proof fn lemma_list_prefix_free(
    vs1: Seq<Value>,
    vs2: Seq<Value>,
    t: Shape,
    e: Endianness,
    stream: Seq<u8>,
)
    requires
        vs1.len() == vs2.len(),
        list_matches(vs1, t),
        list_matches(vs2, t),
        list_wf(vs1),
        list_wf(vs2),
        list_bytes(vs1, e).is_prefix_of(stream),
        list_bytes(vs2, e).is_prefix_of(stream),
    ensures
        list_bytes(vs1, e) == list_bytes(vs2, e),
        lists_eq(vs1, vs2),
    decreases vs1,
{
    if vs1.len() == 0 {
        assert(list_bytes(vs1, e) =~= list_bytes(vs2, e));
    } else {
        wire::lemma_prefix_parts(value_bytes(vs1[0], e), list_bytes(vs1.drop_first(), e), stream);
        wire::lemma_prefix_parts(value_bytes(vs2[0], e), list_bytes(vs2.drop_first(), e), stream);
        lemma_prefix_free(vs1[0], vs2[0], t, e, stream);
        lemma_list_prefix_free(
            vs1.drop_first(),
            vs2.drop_first(),
            t,
            e,
            stream.skip(value_bytes(vs1[0], e).len() as int),
        );
    }
}

/// Prefix-freedom for runs of fields against a run of field shapes.
pub proof fn lemma_record_prefix_free(
    vs1: Seq<Value>,
    vs2: Seq<Value>,
    ss: Seq<Shape>,
    e: Endianness,
    stream: Seq<u8>,
)
    requires
        record_matches(vs1, ss),
        record_matches(vs2, ss),
        list_wf(vs1),
        list_wf(vs2),
        list_bytes(vs1, e).is_prefix_of(stream),
        list_bytes(vs2, e).is_prefix_of(stream),
    ensures
        list_bytes(vs1, e) == list_bytes(vs2, e),
        lists_eq(vs1, vs2),
    decreases vs1,
{
    if vs1.len() == 0 {
        assert(list_bytes(vs1, e) =~= list_bytes(vs2, e));
    } else {
        wire::lemma_prefix_parts(value_bytes(vs1[0], e), list_bytes(vs1.drop_first(), e), stream);
        wire::lemma_prefix_parts(value_bytes(vs2[0], e), list_bytes(vs2.drop_first(), e), stream);
        lemma_prefix_free(vs1[0], vs2[0], ss[0], e, stream);
        lemma_record_prefix_free(
            vs1.drop_first(),
            vs2.drop_first(),
            ss.drop_first(),
            e,
            stream.skip(value_bytes(vs1[0], e).len() as int),
        );
    }
}

/// Prefix-freedom for runs of pairs of one key and value shape and equal
/// count.
pub proof fn lemma_pairs_prefix_free(
    ps1: Seq<(Value, Value)>,
    ps2: Seq<(Value, Value)>,
    k: Shape,
    w: Shape,
    e: Endianness,
    stream: Seq<u8>,
)
    requires
        ps1.len() == ps2.len(),
        pairs_match(ps1, k, w),
        pairs_match(ps2, k, w),
        pairs_wf(ps1),
        pairs_wf(ps2),
        pairs_bytes(ps1, e).is_prefix_of(stream),
        pairs_bytes(ps2, e).is_prefix_of(stream),
    ensures
        pairs_bytes(ps1, e) == pairs_bytes(ps2, e),
        pairs_eq(ps1, ps2),
    decreases ps1,
{
    if ps1.len() == 0 {
        assert(pairs_bytes(ps1, e) =~= pairs_bytes(ps2, e));
    } else {
        let kb1 = value_bytes(ps1[0].0, e);
        let vb1 = value_bytes(ps1[0].1, e);
        let kb2 = value_bytes(ps2[0].0, e);
        let vb2 = value_bytes(ps2[0].1, e);
        assert(pairs_bytes(ps1, e) =~= kb1 + (vb1 + pairs_bytes(ps1.drop_first(), e)));
        assert(pairs_bytes(ps2, e) =~= kb2 + (vb2 + pairs_bytes(ps2.drop_first(), e)));
        wire::lemma_prefix_parts(kb1, vb1 + pairs_bytes(ps1.drop_first(), e), stream);
        wire::lemma_prefix_parts(kb2, vb2 + pairs_bytes(ps2.drop_first(), e), stream);
        lemma_prefix_free(ps1[0].0, ps2[0].0, k, e, stream);
        let rest = stream.skip(kb1.len() as int);
        wire::lemma_prefix_parts(vb1, pairs_bytes(ps1.drop_first(), e), rest);
        wire::lemma_prefix_parts(vb2, pairs_bytes(ps2.drop_first(), e), rest);
        lemma_prefix_free(ps1[0].1, ps2[0].1, w, e, rest);
        lemma_pairs_prefix_free(
            ps1.drop_first(),
            ps2.drop_first(),
            k,
            w,
            e,
            rest.skip(vb1.len() as int),
        );
        assert(pairs_bytes(ps1, e) =~= pairs_bytes(ps2, e));
    }
}

/// Splitting a matching, well-formed run leaves both halves matching and
/// well-formed.
pub proof fn lemma_list_take_skip(ws: Seq<Value>, i: int, t: Shape)
    requires
        0 <= i <= ws.len(),
        list_matches(ws, t),
        list_wf(ws),
    ensures
        list_matches(ws.take(i), t),
        list_wf(ws.take(i)),
        list_matches(ws.skip(i), t),
        list_wf(ws.skip(i)),
    decreases i,
{
    if i == 0 {
        assert(ws.take(0) =~= Seq::<Value>::empty());
        assert(ws.skip(0) =~= ws);
    } else {
        lemma_list_take_skip(ws, i - 1, t);
        let prev = ws.skip(i - 1);
        assert(prev[0] == ws[i - 1]);
        assert(prev.drop_first() =~= ws.skip(i));
        assert(ws.take(i) =~= ws.take(i - 1).push(ws[i - 1]));
        lemma_list_matches_snoc(ws.take(i - 1), ws[i - 1], t);
        lemma_list_wf_snoc(ws.take(i - 1), ws[i - 1]);
    }
}

/// Splitting a matching, well-formed pair run leaves both halves matching
/// and well-formed.
pub proof fn lemma_pairs_take_skip(ps: Seq<(Value, Value)>, i: int, k: Shape, w: Shape)
    requires
        0 <= i <= ps.len(),
        pairs_match(ps, k, w),
        pairs_wf(ps),
    ensures
        pairs_match(ps.take(i), k, w),
        pairs_wf(ps.take(i)),
        pairs_match(ps.skip(i), k, w),
        pairs_wf(ps.skip(i)),
    decreases i,
{
    if i == 0 {
        assert(ps.take(0) =~= Seq::<(Value, Value)>::empty());
        assert(ps.skip(0) =~= ps);
    } else {
        lemma_pairs_take_skip(ps, i - 1, k, w);
        let prev = ps.skip(i - 1);
        assert(prev[0] == ps[i - 1]);
        assert(prev.drop_first() =~= ps.skip(i));
        assert(ps.take(i) =~= ps.take(i - 1).push(ps[i - 1]));
        lemma_pairs_match_snoc(ps.take(i - 1), ps[i - 1], k, w);
        lemma_pairs_wf_snoc(ps.take(i - 1), ps[i - 1]);
    }
}

/// Splitting a run of matching record fields leaves both halves matching
/// the corresponding halves of the field shapes.
pub proof fn lemma_record_take_skip(ws: Seq<Value>, ss: Seq<Shape>, i: int)
    requires
        0 <= i <= ws.len(),
        record_matches(ws, ss),
        list_wf(ws),
    ensures
        record_matches(ws.take(i), ss.take(i)),
        list_wf(ws.take(i)),
        record_matches(ws.skip(i), ss.skip(i)),
        list_wf(ws.skip(i)),
    decreases ws.len() - i,
{
    if i == ws.len() {
        assert(ws.skip(i) =~= Seq::<Value>::empty());
        assert(ss.skip(i) =~= Seq::<Shape>::empty());
        assert(ws.take(i) =~= ws);
        assert(ss.take(i) =~= ss);
    } else {
        lemma_record_take_skip(ws, ss, i + 1);
        lemma_record_unroll(ws, ss, i);
        let wsk = ws.skip(i);
        let ssk = ss.skip(i);
        assert(wsk[0] == ws[i]);
        assert(ssk[0] == ss[i]);
        assert(wsk.drop_first() =~= ws.skip(i + 1));
        assert(ssk.drop_first() =~= ss.skip(i + 1));
        lemma_record_prefix_take(ws, ss, i);
    }
}

/// Matching the first `i` fields follows from matching them all.
proof fn lemma_record_prefix_take(ws: Seq<Value>, ss: Seq<Shape>, i: int)
    requires
        0 <= i <= ws.len(),
        record_matches(ws, ss),
        list_wf(ws),
    ensures
        record_matches(ws.take(i), ss.take(i)),
        list_wf(ws.take(i)),
    decreases i,
{
    if i == 0 {
        assert(ws.take(0) =~= Seq::<Value>::empty());
        assert(ss.take(0) =~= Seq::<Shape>::empty());
    } else {
        lemma_record_prefix_take(ws, ss, i - 1);
        lemma_record_unroll(ws, ss, i - 1);
        assert(ws.take(i) =~= ws.take(i - 1).push(ws[i - 1]));
        assert(ss.take(i) =~= ss.take(i - 1).push(ss[i - 1]));
        lemma_record_matches_snoc(ws.take(i - 1), ss.take(i - 1), ws[i - 1], ss[i - 1]);
        lemma_list_wf_snoc(ws.take(i - 1), ws[i - 1]);
    }
}

/// Position `i` of a matching record run matches its field shape, and is
/// well-formed.
pub proof fn lemma_record_unroll(ws: Seq<Value>, ss: Seq<Shape>, i: int)
    requires
        0 <= i < ws.len(),
        record_matches(ws, ss),
        list_wf(ws),
    ensures
        ws.len() == ss.len(),
        matches_shape(ws[i], ss[i]),
        value_wf(ws[i]),
    decreases i,
{
    if i > 0 {
        lemma_record_unroll(ws.drop_first(), ss.drop_first(), i - 1);
    }
}

/// Appending a matching field to a matching record run keeps it matching
/// the extended field shapes.
pub proof fn lemma_record_matches_snoc(ws: Seq<Value>, ss: Seq<Shape>, v: Value, t: Shape)
    requires
        record_matches(ws, ss),
        matches_shape(v, t),
    ensures
        record_matches(ws.push(v), ss.push(t)),
    decreases ws,
{
    let w2 = ws.push(v);
    let s2 = ss.push(t);
    if ws.len() == 0 {
        assert(w2.drop_first() =~= Seq::<Value>::empty());
        assert(s2.drop_first() =~= Seq::<Shape>::empty());
        assert(record_matches(Seq::<Value>::empty(), Seq::<Shape>::empty()));
    } else {
        assert(w2.drop_first() =~= ws.drop_first().push(v));
        assert(s2.drop_first() =~= ss.drop_first().push(t));
        lemma_record_matches_snoc(ws.drop_first(), ss.drop_first(), v, t);
    }
}

/// What a successful decode pins down: any matching well-formed value whose
/// encoding leads the same stream is structurally equal, with the same
/// encoding and length; and no matching value has the stream as a strict
/// prefix of its encoding.
pub proof fn lemma_decode_ok(x: Value, sh: Shape, e: Endianness, s: Seq<u8>)
    requires
        matches_shape(x, sh),
        value_wf(x),
        value_bytes(x, e).is_prefix_of(s),
    ensures
        forall|w: Value|
            matches_shape(w, sh) && value_wf(w) && (#[trigger] value_bytes(w, e)).is_prefix_of(s)
                ==> val_eq(x, w) && value_bytes(w, e) == value_bytes(x, e) && encoded_len(w)
                == encoded_len(x),
        forall|w: Value|
            matches_shape(w, sh) && value_wf(w) && s.len() < (#[trigger] value_bytes(w, e)).len()
                && s == value_bytes(w, e).take(s.len() as int) ==> false,
{
    assert forall|w: Value|
        matches_shape(w, sh) && value_wf(w) && (#[trigger] value_bytes(w, e)).is_prefix_of(
            s,
        ) implies val_eq(x, w) && value_bytes(w, e) == value_bytes(x, e) && encoded_len(w)
        == encoded_len(x) by {
        lemma_prefix_free(x, w, sh, e, s);
        lemma_value_len(x, e);
        lemma_value_len(w, e);
    }
    assert forall|w: Value|
        matches_shape(w, sh) && value_wf(w) && s.len() < (#[trigger] value_bytes(w, e)).len() && s
            == value_bytes(w, e).take(s.len() as int) implies false by {
        let bw = value_bytes(w, e);
        assert(s.is_prefix_of(bw));
        wire::lemma_prefix_trans(value_bytes(x, e), s, bw);
        assert(bw.is_prefix_of(bw));
        lemma_prefix_free(x, w, sh, e, bw);
    }
}

/// Appending a well-formed value keeps a run well-formed.
pub proof fn lemma_list_wf_snoc(vs: Seq<Value>, v: Value)
    requires
        list_wf(vs),
        value_wf(v),
    ensures
        list_wf(vs.push(v)),
    decreases vs,
{
    let w = vs.push(v);
    if vs.len() == 0 {
        assert(w.drop_first() =~= Seq::<Value>::empty());
        assert(list_wf(Seq::<Value>::empty()));
    } else {
        assert(w.drop_first() =~= vs.drop_first().push(v));
        lemma_list_wf_snoc(vs.drop_first(), v);
    }
}

/// Appending a well-formed pair keeps a pair run well-formed.
pub proof fn lemma_pairs_wf_snoc(ps: Seq<(Value, Value)>, p: (Value, Value))
    requires
        pairs_wf(ps),
        value_wf(p.0),
        value_wf(p.1),
    ensures
        pairs_wf(ps.push(p)),
    decreases ps,
{
    let q = ps.push(p);
    if ps.len() == 0 {
        assert(q.drop_first() =~= Seq::<(Value, Value)>::empty());
        assert(pairs_wf(Seq::<(Value, Value)>::empty()));
    } else {
        assert(q.drop_first() =~= ps.drop_first().push(p));
        lemma_pairs_wf_snoc(ps.drop_first(), p);
    }
}

} // verus!
