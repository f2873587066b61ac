use vstd::prelude::*;

use crate::de::{any_read, next_atom, utf8_str, Deserializer, Visit, VisitModel, DecodedBytes};
use crate::error::Error;
use crate::de::{
    lemma_bool_round_trip, lemma_bytes_round_trip, lemma_float_round_trip, lemma_signed_round_trip,
    lemma_unsigned_round_trip,
};
use crate::format::{
    fits_signed, lemma_atom_header_round_trip, lemma_parse_atom_bound, lemma_pow256_values, pow256,
    signed_width, spec_in_memory_int_size, unsigned_width, AtomModel, NucleusModel,
};
use crate::format::{
    atom_header_bytes, bytes_atom_bytes, float_atom_bytes, signed_atom_bytes,
    unsigned_atom_bytes, Float, Integer, Kind,
};
use crate::ser::Serializer;
use vstd::string::StringSliceAdditionalSpecFns;
use vstd::utf8::{encode_utf8, valid_utf8};

verus! {

/// A value in memory, for data without a fixed schema. It is written as
/// the atoms its variant names, and read back from what a self-describing
/// read finds.
#[derive(Debug, PartialEq)]
pub enum Value {
    /// The absence of a value.
    Nothing,
    /// A unit.
    Unit,
    /// A boolean.
    Bool(bool),
    /// An integer, in the carrier it was given or read in.
    Integer(Integer),
    /// A float, as its bits in the width it was given or read in.
    Float(Float),
    /// Bytes.
    Bytes(Vec<u8>),
    /// A string.
    String(String),
    /// A sequence of values.
    Sequence(Vec<Value>),
    /// A sequence of key-value pairs.
    Mappings(Vec<(Value, Value)>),
}

/// The atoms that `v` is written as.
pub open spec fn value_bytes(v: Value) -> Seq<u8>
    decreases v, 0nat,
{
    match v {
        Value::Nothing => seq![0u8],
        Value::Unit => seq![1u8],
        Value::Bool(b) => seq![
            if b {
                3u8
            } else {
                2u8
            },
        ],
        Value::Integer(i) => integer_atom_bytes(i),
        Value::Float(f) => float_atom_bytes(f),
        Value::Bytes(b) => bytes_atom_bytes(b@),
        Value::String(s) => bytes_atom_bytes(encode_utf8(s@)),
        Value::Sequence(values) => atom_header_bytes(Kind::Sequence, values@.len() as u64)
            + values_bytes(values@, 0),
        Value::Mappings(entries) => atom_header_bytes(Kind::Mapping, entries@.len() as u64)
            + entries_bytes(entries@, 0),
    }
}

/// The atom an integer is written as: signed or unsigned as its carrier,
/// in the narrowest width that holds it.
pub open spec fn integer_atom_bytes(i: Integer) -> Seq<u8> {
    if i.is_signed() {
        signed_atom_bytes(i.value())
    } else {
        unsigned_atom_bytes(i.value() as nat)
    }
}

/// The measure that bounds how deep reading a value from `first` can go.
pub open spec fn first_measure(first: Result<(AtomModel, Seq<u8>, nat), Error>) -> nat {
    if first is Ok {
        first->Ok_0.1.len() + 2
    } else {
        0
    }
}

/// Reads a value the way [`Value::read_from`] does, starting from the atom
/// `first` (with the input and budget after it) and the symbols known: the
/// bytes the value read is written as, and the input, budget and symbols
/// left after it.
pub open spec fn value_parse(
    first: Result<(AtomModel, Seq<u8>, nat), Error>,
    symbols: Seq<Seq<u8>>,
) -> Result<(Seq<u8>, Seq<u8>, nat, Seq<Seq<u8>>), Error>
    decreases first_measure(first), 0nat,
{
    match first {
        Err(e) => Err(e),
        Ok((a, rest, b)) => {
            let (found, rest2, syms2) = any_read(a, rest, symbols);
            if rest2.len() > rest.len() {
                Err(Error::Eof)
            } else {
                match found {
                    Err(e) => Err(e),
                    Ok(VisitModel::Nothing) => Ok((seq![0u8], rest2, b, syms2)),
                    Ok(VisitModel::Unit) => Ok((seq![1u8], rest2, b, syms2)),
                    Ok(VisitModel::Bool(x)) => Ok(
                        (
                            seq![
                                if x {
                                    3u8
                                } else {
                                    2u8
                                },
                            ],
                            rest2,
                            b,
                            syms2,
                        ),
                    ),
                    Ok(VisitModel::Integer(i)) => Ok((integer_atom_bytes(i), rest2, b, syms2)),
                    Ok(VisitModel::Float(f)) => Ok((float_atom_bytes(f), rest2, b, syms2)),
                    Ok(VisitModel::Str(t)) => Ok((bytes_atom_bytes(t), rest2, b, syms2)),
                    Ok(VisitModel::Bytes(t)) => Ok((bytes_atom_bytes(t), rest2, b, syms2)),
                    Ok(VisitModel::Sequence(n)) => match values_parse(rest2, b, syms2, n as nat) {
                        Ok((enc, r, b2, s2)) => Ok(
                            (atom_header_bytes(Kind::Sequence, n) + enc, r, b2, s2),
                        ),
                        Err(e) => Err(e),
                    },
                    Ok(VisitModel::Mapping(Some(n))) => match entries_parse(
                        rest2,
                        b,
                        syms2,
                        n as nat,
                    ) {
                        Ok((enc, r, b2, s2)) => Ok(
                            (atom_header_bytes(Kind::Mapping, n) + enc, r, b2, s2),
                        ),
                        Err(e) => Err(e),
                    },
                    Ok(VisitModel::Named) => match entries_parse(rest2, b, syms2, 1) {
                        Ok((enc, r, b2, s2)) => Ok(
                            (atom_header_bytes(Kind::Mapping, 1) + enc, r, b2, s2),
                        ),
                        Err(e) => Err(e),
                    },
                    Ok(VisitModel::Mapping(None)) => match dynamic_parse(rest2, b, syms2) {
                        Ok((enc, k, r, b2, s2)) => Ok(
                            (atom_header_bytes(Kind::Mapping, k as u64) + enc, r, b2, s2),
                        ),
                        Err(e) => Err(e),
                    },
                }
            }
        },
    }
}

/// Reads `count` values from the front of `rest`, as [`value_parse`] does
/// for each: the bytes they are written as, and what is left.
pub open spec fn values_parse(rest: Seq<u8>, budget: nat, symbols: Seq<Seq<u8>>, count: nat) -> Result<
    (Seq<u8>, Seq<u8>, nat, Seq<Seq<u8>>),
    Error,
>
    decreases rest.len() + 1, count,
{
    if count == 0 {
        Ok((Seq::empty(), rest, budget, symbols))
    } else {
        let child = next_atom(rest, None, budget);
        if child is Ok && child->Ok_0.1.len() >= rest.len() {
            Err(Error::Eof)
        } else {
            match value_parse(child, symbols) {
                Err(e) => Err(e),
                Ok((enc, r, b2, s2)) => if r.len() > rest.len() {
                    Err(Error::Eof)
                } else {
                    match values_parse(r, b2, s2, (count - 1) as nat) {
                        Ok((enc2, r2, b3, s3)) => Ok((enc + enc2, r2, b3, s3)),
                        Err(e) => Err(e),
                    }
                },
            }
        }
    }
}

/// Reads `count` entries, each a key and a value, from the front of `rest`.
pub open spec fn entries_parse(rest: Seq<u8>, budget: nat, symbols: Seq<Seq<u8>>, count: nat) -> Result<
    (Seq<u8>, Seq<u8>, nat, Seq<Seq<u8>>),
    Error,
>
    decreases rest.len() + 1, count,
{
    if count == 0 {
        Ok((Seq::empty(), rest, budget, symbols))
    } else {
        let key_atom = next_atom(rest, None, budget);
        if key_atom is Ok && key_atom->Ok_0.1.len() >= rest.len() {
            Err(Error::Eof)
        } else {
            match value_parse(key_atom, symbols) {
                Err(e) => Err(e),
                Ok((key, r1, b1, s1)) => {
                    let value_atom = next_atom(r1, None, b1);
                    if r1.len() > rest.len() || (value_atom is Ok && value_atom->Ok_0.1.len()
                        >= r1.len()) {
                        Err(Error::Eof)
                    } else {
                        match value_parse(value_atom, s1) {
                            Err(e) => Err(e),
                            Ok((value, r2, b2, s2)) => if r2.len() > rest.len() {
                                Err(Error::Eof)
                            } else {
                                match entries_parse(r2, b2, s2, (count - 1) as nat) {
                                    Ok((enc, r3, b3, s3)) => Ok((key + value + enc, r3, b3, s3)),
                                    Err(e) => Err(e),
                                }
                            },
                        }
                    }
                },
            }
        }
    }
}

/// Reads entries from the front of `rest` up to the end marker of a map
/// without a length: the bytes they are written as, their count, and what
/// is left after the marker.
pub open spec fn dynamic_parse(rest: Seq<u8>, budget: nat, symbols: Seq<Seq<u8>>) -> Result<
    (Seq<u8>, nat, Seq<u8>, nat, Seq<Seq<u8>>),
    Error,
>
    decreases rest.len() + 1, 1nat,
{
    let key_atom = next_atom(rest, None, budget);
    match key_atom {
        Err(e) => Err(e),
        Ok((a, r0, b0)) => if a.kind == Kind::Special && a.nucleus == Some(
            NucleusModel::DynamicEnd,
        ) {
            Ok((Seq::empty(), 0, r0, b0, symbols))
        } else if r0.len() >= rest.len() {
            Err(Error::Eof)
        } else {
            match value_parse(key_atom, symbols) {
                Err(e) => Err(e),
                Ok((key, r1, b1, s1)) => {
                    let value_atom = next_atom(r1, None, b1);
                    if r1.len() >= rest.len() || (value_atom is Ok && value_atom->Ok_0.1.len()
                        >= r1.len()) {
                        Err(Error::Eof)
                    } else {
                        match value_parse(value_atom, s1) {
                            Err(e) => Err(e),
                            Ok((value, r2, b2, s2)) => if r2.len() >= rest.len() {
                                Err(Error::Eof)
                            } else {
                                match dynamic_parse(r2, b2, s2) {
                                    Ok((enc, k, r3, b3, s3)) => Ok(
                                        (key + value + enc, k + 1, r3, b3, s3),
                                    ),
                                    Err(e) => Err(e),
                                }
                            },
                        }
                    }
                },
            }
        },
    }
}

/// `res` with `pre` put in front of the bytes it found.
pub open spec fn prefixed(
    pre: Seq<u8>,
    res: Result<(Seq<u8>, Seq<u8>, nat, Seq<Seq<u8>>), Error>,
) -> Result<(Seq<u8>, Seq<u8>, nat, Seq<Seq<u8>>), Error> {
    match res {
        Ok((enc, r, b, s)) => Ok((pre + enc, r, b, s)),
        Err(e) => Err(e),
    }
}

/// `res` with `pre` put in front of the bytes it found and `k` added to
/// the entries it counted.
pub open spec fn prefixed_count(
    pre: Seq<u8>,
    k: nat,
    res: Result<(Seq<u8>, nat, Seq<u8>, nat, Seq<Seq<u8>>), Error>,
) -> Result<(Seq<u8>, nat, Seq<u8>, nat, Seq<Seq<u8>>), Error> {
    match res {
        Ok((enc, kk, r, b, s)) => Ok((pre + enc, k + kk, r, b, s)),
        Err(e) => Err(e),
    }
}

/// Reading an atom never lengthens the input left, and shortens it when no
/// atom was looked at before.
proof fn lemma_next_atom_shrinks(remaining: Seq<u8>, peeked: Option<AtomModel>, budget: nat)
    ensures
        next_atom(remaining, peeked, budget) matches Ok((a, rest, b)) ==> rest.len()
            <= remaining.len() && (peeked is None ==> rest.len() < remaining.len()),
{
    lemma_parse_atom_bound(remaining, budget);
}

/// A self-describing read never lengthens the input left.
proof fn lemma_any_read_shrinks(a: AtomModel, rest: Seq<u8>, symbols: Seq<Seq<u8>>)
    ensures
        any_read(a, rest, symbols).1.len() <= rest.len(),
{
}

/// Appending a value appends its atoms.
proof fn lemma_values_bytes_push(values: Seq<Value>, x: Value, i: nat)
    requires
        i <= values.len(),
    ensures
        values_bytes(values.push(x), i) == values_bytes(values, i) + value_bytes(x),
    decreases values.len() - i,
{
    if i < values.len() {
        lemma_values_bytes_push(values, x, i + 1);
        assert(values.push(x)[i as int] == values[i as int]);
        assert(values_bytes(values.push(x), i) =~= values_bytes(values, i) + value_bytes(x));
    } else {
        assert(values.push(x)[i as int] == x);
        assert(values_bytes(values.push(x), i + 1) =~= Seq::<u8>::empty());
        assert(values_bytes(values.push(x), i) =~= values_bytes(values, i) + value_bytes(x));
    }
}

/// Appending an entry appends the atoms of its key and value.
proof fn lemma_entries_bytes_push(entries: Seq<(Value, Value)>, x: (Value, Value), i: nat)
    requires
        i <= entries.len(),
    ensures
        entries_bytes(entries.push(x), i) == entries_bytes(entries, i) + value_bytes(x.0)
            + value_bytes(x.1),
    decreases entries.len() - i,
{
    if i < entries.len() {
        lemma_entries_bytes_push(entries, x, i + 1);
        assert(entries.push(x)[i as int] == entries[i as int]);
        assert(entries_bytes(entries.push(x), i) =~= entries_bytes(entries, i) + value_bytes(x.0)
            + value_bytes(x.1));
    } else {
        assert(entries.push(x)[i as int] == x);
        assert(entries_bytes(entries.push(x), i + 1) =~= Seq::<u8>::empty());
        assert(entries_bytes(entries.push(x), i) =~= entries_bytes(entries, i) + value_bytes(x.0)
            + value_bytes(x.1));
    }
}

/// Putting two prefixes in front one after the other puts both.
proof fn lemma_prefixed_twice(
    p: Seq<u8>,
    q: Seq<u8>,
    res: Result<(Seq<u8>, Seq<u8>, nat, Seq<Seq<u8>>), Error>,
)
    ensures
        prefixed(p, prefixed(q, res)) == prefixed(p + q, res),
{
    if res is Ok {
        let (enc, r, b, s) = res->Ok_0;
        assert(p + (q + enc) =~= (p + q) + enc);
    }
}

/// Putting two prefixes and counts in front one after the other puts both.
proof fn lemma_prefixed_count_twice(
    p: Seq<u8>,
    k: nat,
    q: Seq<u8>,
    j: nat,
    res: Result<(Seq<u8>, nat, Seq<u8>, nat, Seq<Seq<u8>>), Error>,
)
    ensures
        prefixed_count(p, k, prefixed_count(q, j, res)) == prefixed_count(p + q, k + j, res),
{
    if res is Ok {
        let (enc, kk, r, b, s) = res->Ok_0;
        assert(p + (q + enc) =~= (p + q) + enc);
    }
}

/// One step of reading values: the first value, then the rest.
proof fn lemma_values_step(rem: Seq<u8>, bud: nat, sy: Seq<Seq<u8>>, count: nat)
    requires
        count > 0,
    ensures
        value_parse(next_atom(rem, None, bud), sy) matches Err(e) ==> values_parse(
            rem,
            bud,
            sy,
            count,
        ) == Err::<(Seq<u8>, Seq<u8>, nat, Seq<Seq<u8>>), Error>(e),
        value_parse(next_atom(rem, None, bud), sy) matches Ok((enc, r, b2, s2)) ==> (r.len()
            <= rem.len() ==> values_parse(rem, bud, sy, count) == prefixed(
            enc,
            values_parse(r, b2, s2, (count - 1) as nat),
        )),
{
    lemma_next_atom_shrinks(rem, None, bud);
}

/// One step of reading a map that ends with a marker: the marker, or a
/// key and its value followed by the rest.
proof fn lemma_dynamic_step(rem: Seq<u8>, bud: nat, sy: Seq<Seq<u8>>)
    ensures
        next_atom(rem, None, bud) matches Err(e) ==> dynamic_parse(rem, bud, sy) == Err::<
            (Seq<u8>, nat, Seq<u8>, nat, Seq<Seq<u8>>),
            Error,
        >(e),
        next_atom(rem, None, bud) matches Ok((a, r0, b0)) ==> (a.kind == Kind::Special
            && a.nucleus == Some(NucleusModel::DynamicEnd) ==> dynamic_parse(rem, bud, sy) == Ok::<
            (Seq<u8>, nat, Seq<u8>, nat, Seq<Seq<u8>>),
            Error,
        >((Seq::empty(), 0, r0, b0, sy))),
        next_atom(rem, None, bud) matches Ok((a, r0, b0)) ==> (!(a.kind == Kind::Special
            && a.nucleus == Some(NucleusModel::DynamicEnd)) ==> {
            &&& value_parse(next_atom(rem, None, bud), sy) matches Err(e) ==> dynamic_parse(
                rem,
                bud,
                sy,
            ) == Err::<(Seq<u8>, nat, Seq<u8>, nat, Seq<Seq<u8>>), Error>(e)
            &&& value_parse(next_atom(rem, None, bud), sy) matches Ok((kenc, r1, b1, s1)) ==> (
            r1.len() < rem.len() ==> {
                &&& value_parse(next_atom(r1, None, b1), s1) matches Err(e) ==> dynamic_parse(
                    rem,
                    bud,
                    sy,
                ) == Err::<(Seq<u8>, nat, Seq<u8>, nat, Seq<Seq<u8>>), Error>(e)
                &&& value_parse(next_atom(r1, None, b1), s1) matches Ok((venc, r2, b2, s2)) ==> (
                r2.len() < rem.len() ==> dynamic_parse(rem, bud, sy) == prefixed_count(
                    kenc + venc,
                    1,
                    dynamic_parse(r2, b2, s2),
                ))
            })
        }),
{
    lemma_next_atom_shrinks(rem, None, bud);
    if value_parse(next_atom(rem, None, bud), sy) is Ok {
        let (kenc, r1, b1, s1) = value_parse(next_atom(rem, None, bud), sy)->Ok_0;
        lemma_next_atom_shrinks(r1, None, b1);
    }
}

/// A key and a value read with the given results make one step of
/// reading entries.
proof fn lemma_entries_step_ok(
    rem: Seq<u8>,
    bud: nat,
    sy: Seq<Seq<u8>>,
    count: nat,
    key: (Seq<u8>, Seq<u8>, nat, Seq<Seq<u8>>),
    value: (Seq<u8>, Seq<u8>, nat, Seq<Seq<u8>>),
)
    requires
        count > 0,
        value_parse(next_atom(rem, None, bud), sy) == Ok::<(Seq<u8>, Seq<u8>, nat, Seq<Seq<u8>>), Error>(key),
        key.1.len() <= rem.len(),
        value_parse(next_atom(key.1, None, key.2), key.3) == Ok::<(Seq<u8>, Seq<u8>, nat, Seq<Seq<u8>>), Error>(value),
        value.1.len() <= rem.len(),
    ensures
        entries_parse(rem, bud, sy, count) == prefixed(
            key.0 + value.0,
            entries_parse(value.1, value.2, value.3, (count - 1) as nat),
        ),
{
    lemma_next_atom_shrinks(rem, None, bud);
    lemma_next_atom_shrinks(key.1, None, key.2);
}

/// A key or a value that fails makes reading entries fail the same way.
proof fn lemma_entries_step_err(rem: Seq<u8>, bud: nat, sy: Seq<Seq<u8>>, count: nat, e: Error)
    requires
        count > 0,
        value_parse(next_atom(rem, None, bud), sy) == Err::<(Seq<u8>, Seq<u8>, nat, Seq<Seq<u8>>), Error>(e) || (value_parse(
            next_atom(rem, None, bud),
            sy,
        ) is Ok && value_parse(next_atom(rem, None, bud), sy)->Ok_0.1.len() <= rem.len()
            && value_parse(
            next_atom(
                value_parse(next_atom(rem, None, bud), sy)->Ok_0.1,
                None,
                value_parse(next_atom(rem, None, bud), sy)->Ok_0.2,
            ),
            value_parse(next_atom(rem, None, bud), sy)->Ok_0.3,
        ) == Err::<(Seq<u8>, Seq<u8>, nat, Seq<Seq<u8>>), Error>(e)),
    ensures
        entries_parse(rem, bud, sy, count) == Err::<(Seq<u8>, Seq<u8>, nat, Seq<Seq<u8>>), Error>(e),
{
    lemma_next_atom_shrinks(rem, None, bud);
    if value_parse(next_atom(rem, None, bud), sy) is Ok {
        let k = value_parse(next_atom(rem, None, bud), sy)->Ok_0;
        lemma_next_atom_shrinks(k.1, None, k.2);
    }
}

/// A key and a value read with the given results, after an atom that is
/// not the end marker, make one step of reading a map without a length.
proof fn lemma_dynamic_step_ok(
    rem: Seq<u8>,
    bud: nat,
    sy: Seq<Seq<u8>>,
    key: (Seq<u8>, Seq<u8>, nat, Seq<Seq<u8>>),
    value: (Seq<u8>, Seq<u8>, nat, Seq<Seq<u8>>),
)
    requires
        next_atom(rem, None, bud) is Ok,
        !(next_atom(rem, None, bud)->Ok_0.0.kind == Kind::Special && next_atom(rem, None, bud)->Ok_0.0.nucleus
            == Some(NucleusModel::DynamicEnd)),
        value_parse(next_atom(rem, None, bud), sy) == Ok::<(Seq<u8>, Seq<u8>, nat, Seq<Seq<u8>>), Error>(key),
        key.1.len() <= next_atom(rem, None, bud)->Ok_0.1.len(),
        value_parse(next_atom(key.1, None, key.2), key.3) == Ok::<(Seq<u8>, Seq<u8>, nat, Seq<Seq<u8>>), Error>(value),
        value.1.len() <= key.1.len(),
    ensures
        dynamic_parse(rem, bud, sy) == prefixed_count(
            key.0 + value.0,
            1,
            dynamic_parse(value.1, value.2, value.3),
        ),
{
    lemma_next_atom_shrinks(rem, None, bud);
    lemma_next_atom_shrinks(key.1, None, key.2);
}

/// After an atom that is not the end marker, a key or a value that fails
/// makes reading the map fail the same way.
proof fn lemma_dynamic_step_err(rem: Seq<u8>, bud: nat, sy: Seq<Seq<u8>>, e: Error)
    requires
        next_atom(rem, None, bud) is Ok,
        !(next_atom(rem, None, bud)->Ok_0.0.kind == Kind::Special && next_atom(rem, None, bud)->Ok_0.0.nucleus
            == Some(NucleusModel::DynamicEnd)),
        value_parse(next_atom(rem, None, bud), sy) == Err::<(Seq<u8>, Seq<u8>, nat, Seq<Seq<u8>>), Error>(e) || (value_parse(
            next_atom(rem, None, bud),
            sy,
        ) is Ok && value_parse(next_atom(rem, None, bud), sy)->Ok_0.1.len() <= next_atom(rem, None, bud)->Ok_0.1.len()
            && value_parse(
            next_atom(
                value_parse(next_atom(rem, None, bud), sy)->Ok_0.1,
                None,
                value_parse(next_atom(rem, None, bud), sy)->Ok_0.2,
            ),
            value_parse(next_atom(rem, None, bud), sy)->Ok_0.3,
        ) == Err::<(Seq<u8>, Seq<u8>, nat, Seq<Seq<u8>>), Error>(e)),
    ensures
        dynamic_parse(rem, bud, sy) == Err::<(Seq<u8>, nat, Seq<u8>, nat, Seq<Seq<u8>>), Error>(e),
{
    lemma_next_atom_shrinks(rem, None, bud);
    if value_parse(next_atom(rem, None, bud), sy) is Ok {
        let k = value_parse(next_atom(rem, None, bud), sy)->Ok_0;
        lemma_next_atom_shrinks(k.1, None, k.2);
    }
}

/// A copy of `bytes`.
fn copy_bytes(bytes: &[u8]) -> (r: Vec<u8>)
    ensures
        r@ == bytes@,
{
    let mut copy: Vec<u8> = Vec::new();
    let mut i: usize = 0;
    while i < bytes.len()
        invariant
            i <= bytes@.len(),
            copy@ == bytes@.take(i as int),
        decreases bytes.len() - i,
    {
        copy.push(bytes[i]);
        proof {
            assert(bytes@.take(i + 1 as int) =~= bytes@.take(i as int).push(bytes@[i as int]));
        }
        i = i + 1;
    }
    proof {
        assert(bytes@.take(i as int) =~= bytes@);
    }
    copy
}

/// The atoms of the values of `values` from index `i` on.
pub open spec fn values_bytes(values: Seq<Value>, i: nat) -> Seq<u8>
    decreases values, values.len() - i,
{
    if i >= values.len() {
        Seq::empty()
    } else {
        value_bytes(values[i as int]) + values_bytes(values, i + 1)
    }
}

/// The atoms of the entries of `entries` from index `i` on: each key, then
/// its value.
pub open spec fn entries_bytes(entries: Seq<(Value, Value)>, i: nat) -> Seq<u8>
    decreases entries, entries.len() - i,
{
    if i >= entries.len() {
        Seq::empty()
    } else {
        value_bytes(entries[i as int].0) + value_bytes(entries[i as int].1) + entries_bytes(
            entries,
            i + 1,
        )
    }
}

impl Value {
    /// Whether the value holds nothing: the absence of a value, or empty
    /// bytes, string, sequence or mappings.
    pub open spec fn spec_is_empty(self) -> bool {
        match self {
            Value::Nothing => true,
            Value::Bytes(b) => b@.len() == 0,
            Value::String(s) => s@.len() == 0,
            Value::Sequence(v) => v@.len() == 0,
            Value::Mappings(m) => m@.len() == 0,
            _ => false,
        }
    }

    /// Returns a sequence holding `values`.
    pub fn from_sequence(values: Vec<Value>) -> (r: Value)
        ensures
            r == Value::Sequence(values),
    {
        Value::Sequence(values)
    }

    /// Returns mappings holding `entries`.
    pub fn from_mappings(entries: Vec<(Value, Value)>) -> (r: Value)
        ensures
            r == Value::Mappings(entries),
    {
        Value::Mappings(entries)
    }

    /// Returns true if the value holds nothing.
    pub fn is_empty(&self) -> (r: bool)
        ensures
            r == self.spec_is_empty(),
    {
        match self {
            Value::Nothing => true,
            Value::Bytes(b) => b.len() == 0,
            Value::String(s) => s.as_str().is_empty(),
            Value::Sequence(v) => v.len() == 0,
            Value::Mappings(m) => m.len() == 0,
            _ => false,
        }
    }

    /// Returns the value as a boolean: false for the absence of a value,
    /// `false`, zero and empty values; true otherwise.
    pub fn as_bool(&self) -> (r: bool)
        ensures
            match *self {
                Value::Nothing => !r,
                Value::Unit => r,
                Value::Bool(b) => r == b,
                Value::Integer(i) => r == (i.value() != 0),
                Value::Float(f) => r == (f.bits() % pow2_of_width(f) != 0),
                _ => r == !self.spec_is_empty(),
            },
    {
        match self {
            Value::Nothing => false,
            Value::Unit => true,
            Value::Bool(b) => *b,
            Value::Integer(i) => !i.is_zero(),
            Value::Float(f) => !f.is_zero(),
            _ => !self.is_empty(),
        }
    }

    /// Returns the integer held, if the value is an integer.
    pub fn as_integer(&self) -> (r: Option<Integer>)
        ensures
            *self matches Value::Integer(i) ==> r == Some(i),
            !(self is Integer) ==> r is None,
    {
        match self {
            Value::Integer(i) => Some(*i),
            _ => None,
        }
    }

    /// Returns the float held, if the value is a float.
    pub fn as_float(&self) -> (r: Option<Float>)
        ensures
            *self matches Value::Float(f) ==> r == Some(f),
            !(self is Float) ==> r is None,
    {
        match self {
            Value::Float(f) => Some(*f),
            _ => None,
        }
    }

    /// Returns the value as a string: a string, or bytes that are UTF-8.
    pub fn as_str(&self) -> (r: Option<&str>)
        ensures
            self matches Value::String(s) ==> r is Some && r->Some_0@ == s@,
            self matches Value::Bytes(b) ==> (r is Some <==> valid_utf8(b@)) && (r is Some
                ==> r->Some_0.spec_bytes() == b@),
            !(self is String) && !(self is Bytes) ==> r is None,
    {
        match self {
            Value::String(s) => Some(s.as_str()),
            Value::Bytes(b) => utf8_str(b.as_slice()),
            _ => None,
        }
    }

    /// Returns the value as bytes: bytes, or the UTF-8 bytes of a string.
    pub fn as_bytes(&self) -> (r: Option<&[u8]>)
        ensures
            self matches Value::Bytes(b) ==> r is Some && r->Some_0@ == b@,
            self matches Value::String(s) ==> r is Some && r->Some_0@ == encode_utf8(s@),
            !(self is String) && !(self is Bytes) ==> r is None,
    {
        match self {
            Value::Bytes(b) => Some(b.as_slice()),
            Value::String(s) => Some(s.as_str().as_bytes()),
            _ => None,
        }
    }

    /// Returns the values of a sequence; other values have none.
    pub fn values(&self) -> (r: &[Value])
        ensures
            self matches Value::Sequence(v) ==> r@ == v@,
            !(self is Sequence) ==> r@.len() == 0,
    {
        match self {
            Value::Sequence(v) => v.as_slice(),
            _ => &[],
        }
    }

    /// Returns the entries of mappings; other values have none.
    pub fn mappings(&self) -> (r: &[(Value, Value)])
        ensures
            self matches Value::Mappings(m) ==> r@ == m@,
            !(self is Mappings) ==> r@.len() == 0,
    {
        match self {
            Value::Mappings(m) => m.as_slice(),
            _ => &[],
        }
    }

    /// Reads the next value without a type request: whatever a
    /// self-describing read finds, with sequences and maps read element by
    /// element. A byte atom that holds UTF-8 is read as a string.
    pub fn read_from<'de>(deserializer: &mut Deserializer<'de>) -> (r: Result<Value, Error>)
        ensures
            r matches Ok(v) ==> value_parse(old(deserializer).next(), old(deserializer).symbols())
                matches Ok((enc, rest, b, syms)) && value_bytes(v) == enc
                && final(deserializer).remaining() == rest && final(deserializer).budget() == b
                && final(deserializer).symbols() == syms && final(deserializer).peeked() is None
                && final(deserializer).is_persistent() == old(deserializer).is_persistent()
                && final(deserializer).remaining().len() <= old(deserializer).remaining().len(),
            r matches Err(e) ==> value_parse(old(deserializer).next(), old(deserializer).symbols())
                == Err::<(Seq<u8>, Seq<u8>, nat, Seq<Seq<u8>>), Error>(e),
        decreases old(deserializer).remaining().len() + (if old(deserializer).peeked() is Some {
            1nat
        } else {
            0nat
        }), 1nat,
    {
        let ghost first = deserializer.next();
        let ghost syms0 = deserializer.symbols();
        proof {
            lemma_next_atom_shrinks(
                deserializer.remaining(),
                deserializer.peeked(),
                deserializer.budget(),
            );
        }
        let visit = match deserializer.deserialize_any() {
            Ok(v) => v,
            Err(e) => return Err(e),
        };
        proof {
            let (a, rest, bb) = first->Ok_0;
            lemma_any_read_shrinks(a, rest, syms0);
        }
        match visit {
            Visit::Nothing => Ok(Value::Nothing),
            Visit::Unit => Ok(Value::Unit),
            Visit::Bool(x) => Ok(Value::Bool(x)),
            Visit::Integer(i) => Ok(Value::Integer(i)),
            Visit::Float(f) => Ok(Value::Float(f)),
            Visit::Str(text) => {
                let owned = text.as_str().to_owned();
                Ok(Value::String(owned))
            },
            Visit::Bytes(DecodedBytes::Owned(v)) => Ok(Value::Bytes(v)),
            Visit::Bytes(DecodedBytes::Borrowed(bytes)) => Ok(Value::Bytes(copy_bytes(bytes))),
            Visit::Sequence(n) => Value::read_sequence(deserializer, n),
            Visit::Mapping(Some(n)) => Value::read_entries(deserializer, n),
            Visit::Named => Value::read_entries(deserializer, 1),
            Visit::Mapping(None) => Value::read_dynamic(deserializer),
        }
    }

    /// Reads `n` values into a sequence.
    fn read_sequence<'de>(deserializer: &mut Deserializer<'de>, n: u64) -> (r: Result<Value, Error>)
        requires
            old(deserializer).peeked() is None,
        ensures
            r matches Ok(v) ==> values_parse(old(deserializer).remaining(), old(deserializer).budget(), old(deserializer).symbols(), n as nat)
                matches Ok((enc, rest, b, syms)) && value_bytes(v) == atom_header_bytes(Kind::Sequence, n) + enc
                && final(deserializer).remaining() == rest && final(deserializer).budget() == b
                && final(deserializer).symbols() == syms && final(deserializer).peeked() is None
                && final(deserializer).is_persistent() == old(deserializer).is_persistent()
                && final(deserializer).remaining().len() <= old(deserializer).remaining().len(),
            r matches Err(e) ==> values_parse(old(deserializer).remaining(), old(deserializer).budget(), old(deserializer).symbols(), n as nat)
                == Err::<(Seq<u8>, Seq<u8>, nat, Seq<Seq<u8>>), Error>(e),
        decreases old(deserializer).remaining().len(), 3nat,
    {
        let ghost rest2 = deserializer.remaining();
        let ghost b = deserializer.budget();
        let ghost s2 = deserializer.symbols();
        let mut values: Vec<Value> = Vec::new();
        let mut i: u64 = 0;
        proof {
            assert(values_bytes(values@, 0) =~= Seq::<u8>::empty());
            lemma_prefixed_twice(Seq::empty(), Seq::empty(), values_parse(rest2, b, s2, n as nat));
            assert(prefixed(Seq::empty(), values_parse(rest2, b, s2, n as nat)) == values_parse(rest2, b, s2, n as nat)) by {
                if values_parse(rest2, b, s2, n as nat) is Ok {
                    let (enc, r, bb, ss) = values_parse(rest2, b, s2, n as nat)->Ok_0;
                    assert(Seq::<u8>::empty() + enc =~= enc);
                }
            }
        }
        while i < n
            invariant
                i <= n,
                values@.len() == i,
                rest2 == old(deserializer).remaining(),
                b == old(deserializer).budget(),
                s2 == old(deserializer).symbols(),
                deserializer.peeked() is None,
                deserializer.is_persistent() == old(deserializer).is_persistent(),
                deserializer.remaining().len() <= rest2.len(),
                values_parse(rest2, b, s2, n as nat) == prefixed(
                    values_bytes(values@, 0),
                    values_parse(
                        deserializer.remaining(),
                        deserializer.budget(),
                        deserializer.symbols(),
                        (n - i) as nat,
                    ),
                ),
            decreases n - i,
        {
            let ghost rem = deserializer.remaining();
            let ghost bud = deserializer.budget();
            let ghost sy = deserializer.symbols();
            proof {
                lemma_values_step(rem, bud, sy, (n - i) as nat);
            }
            let element = match Value::read_from(deserializer) {
                Ok(v) => v,
                Err(e) => {
                    proof {
                        assert(values_parse(rem, bud, sy, (n - i) as nat) == Err::<(Seq<u8>, Seq<u8>, nat, Seq<Seq<u8>>), Error>(e));
                        assert(prefixed(values_bytes(values@, 0), Err::<(Seq<u8>, Seq<u8>, nat, Seq<Seq<u8>>), Error>(e)) == Err::<(Seq<u8>, Seq<u8>, nat, Seq<Seq<u8>>), Error>(e));
                    }
                    return Err(e);
                },
            };
            proof {
                lemma_values_bytes_push(values@, element, 0);
                lemma_prefixed_twice(
                    values_bytes(values@, 0),
                    value_bytes(element),
                    values_parse(deserializer.remaining(), deserializer.budget(), deserializer.symbols(), (n - i - 1) as nat),
                );
            }
            values.push(element);
            i = i + 1;
        }
        proof {
            assert(values_bytes(values@, 0) + Seq::<u8>::empty() =~= values_bytes(values@, 0));
        }
        Ok(Value::Sequence(values))
    }

    /// Reads one entry: a key, then its value.
    fn read_entry<'de>(deserializer: &mut Deserializer<'de>) -> (r: Result<(Value, Value), Error>)
        ensures
            r matches Ok((k, v)) ==> value_parse(old(deserializer).next(), old(deserializer).symbols())
                matches Ok((kenc, r1, b1, s1)) && (value_bytes(k) == kenc && r1.len()
                <= old(deserializer).remaining().len() && (value_parse(next_atom(r1, None, b1), s1)
                matches Ok((venc, r2, b2, s2)) && (value_bytes(v) == venc && r2.len() <= r1.len()
                && final(deserializer).remaining() == r2 && final(deserializer).budget() == b2
                && final(deserializer).symbols() == s2 && final(deserializer).peeked() is None
                && final(deserializer).is_persistent() == old(deserializer).is_persistent()))),
            r matches Err(e) ==> value_parse(old(deserializer).next(), old(deserializer).symbols())
                == Err::<(Seq<u8>, Seq<u8>, nat, Seq<Seq<u8>>), Error>(e) || (value_parse(
                old(deserializer).next(),
                old(deserializer).symbols(),
            ) matches Ok((kenc, r1, b1, s1)) && (r1.len() <= old(deserializer).remaining().len()
                && value_parse(next_atom(r1, None, b1), s1) == Err::<(Seq<u8>, Seq<u8>, nat, Seq<Seq<u8>>), Error>(e))),
        decreases old(deserializer).remaining().len() + (if old(deserializer).peeked() is Some {
            1nat
        } else {
            0nat
        }), 2nat,
    {
        let key = match Value::read_from(deserializer) {
            Ok(v) => v,
            Err(e) => return Err(e),
        };
        let value = match Value::read_from(deserializer) {
            Ok(v) => v,
            Err(e) => return Err(e),
        };
        Ok((key, value))
    }

    /// Reads `n` entries, each a key and a value.
    #[verifier::rlimit(60)]
    fn read_entries<'de>(deserializer: &mut Deserializer<'de>, n: u64) -> (r: Result<Value, Error>)
        requires
            old(deserializer).peeked() is None,
        ensures
            r matches Ok(v) ==> entries_parse(old(deserializer).remaining(), old(deserializer).budget(), old(deserializer).symbols(), n as nat)
                matches Ok((enc, rest, b, syms)) && value_bytes(v) == atom_header_bytes(Kind::Mapping, n) + enc
                && final(deserializer).remaining() == rest && final(deserializer).budget() == b
                && final(deserializer).symbols() == syms && final(deserializer).peeked() is None
                && final(deserializer).is_persistent() == old(deserializer).is_persistent()
                && final(deserializer).remaining().len() <= old(deserializer).remaining().len(),
            r matches Err(e) ==> entries_parse(old(deserializer).remaining(), old(deserializer).budget(), old(deserializer).symbols(), n as nat)
                == Err::<(Seq<u8>, Seq<u8>, nat, Seq<Seq<u8>>), Error>(e),
        decreases old(deserializer).remaining().len(), 3nat,
    {
        let ghost rest2 = deserializer.remaining();
        let ghost b = deserializer.budget();
        let ghost s2 = deserializer.symbols();
        let mut entries: Vec<(Value, Value)> = Vec::new();
        let mut i: u64 = 0;
        proof {
            assert(entries_bytes(entries@, 0) =~= Seq::<u8>::empty());
            assert(prefixed(Seq::empty(), entries_parse(rest2, b, s2, n as nat)) == entries_parse(rest2, b, s2, n as nat)) by {
                if entries_parse(rest2, b, s2, n as nat) is Ok {
                    let (enc, r, bb, ss) = entries_parse(rest2, b, s2, n as nat)->Ok_0;
                    assert(Seq::<u8>::empty() + enc =~= enc);
                }
            }
        }
        while i < n
            invariant
                i <= n,
                entries@.len() == i,
                rest2 == old(deserializer).remaining(),
                b == old(deserializer).budget(),
                s2 == old(deserializer).symbols(),
                deserializer.peeked() is None,
                deserializer.is_persistent() == old(deserializer).is_persistent(),
                deserializer.remaining().len() <= rest2.len(),
                entries_parse(rest2, b, s2, n as nat) == prefixed(
                    entries_bytes(entries@, 0),
                    entries_parse(
                        deserializer.remaining(),
                        deserializer.budget(),
                        deserializer.symbols(),
                        (n - i) as nat,
                    ),
                ),
            decreases n - i,
        {
            let ghost rem = deserializer.remaining();
            let ghost bud = deserializer.budget();
            let ghost sy = deserializer.symbols();
            let (key, value) = match Value::read_entry(deserializer) {
                Ok(kv) => kv,
                Err(e) => {
                    proof {
                        lemma_entries_step_err(rem, bud, sy, (n - i) as nat, e);
                        assert(prefixed(entries_bytes(entries@, 0), Err::<(Seq<u8>, Seq<u8>, nat, Seq<Seq<u8>>), Error>(e)) == Err::<(Seq<u8>, Seq<u8>, nat, Seq<Seq<u8>>), Error>(e));
                    }
                    return Err(e);
                },
            };
            proof {
                let k = value_parse(next_atom(rem, None, bud), sy)->Ok_0;
                let v = value_parse(next_atom(k.1, None, k.2), k.3)->Ok_0;
                lemma_entries_step_ok(rem, bud, sy, (n - i) as nat, k, v);
                lemma_entries_bytes_push(entries@, (key, value), 0);
                lemma_prefixed_twice(
                    entries_bytes(entries@, 0),
                    value_bytes(key) + value_bytes(value),
                    entries_parse(deserializer.remaining(), deserializer.budget(), deserializer.symbols(), (n - i - 1) as nat),
                );
                assert(entries_bytes(entries@, 0) + (value_bytes(key) + value_bytes(value)) =~= entries_bytes(entries@, 0) + value_bytes(key) + value_bytes(value));
            }
            entries.push((key, value));
            i = i + 1;
        }
        proof {
            assert(entries_bytes(entries@, 0) + Seq::<u8>::empty() =~= entries_bytes(entries@, 0));
        }
        Ok(Value::Mappings(entries))
    }

    /// Reads entries up to the end marker of a map without a length.
    #[verifier::rlimit(60)]
    fn read_dynamic<'de>(deserializer: &mut Deserializer<'de>) -> (r: Result<Value, Error>)
        requires
            old(deserializer).peeked() is None,
        ensures
            r matches Ok(v) ==> dynamic_parse(old(deserializer).remaining(), old(deserializer).budget(), old(deserializer).symbols())
                matches Ok((enc, k, rest, b, syms)) && value_bytes(v) == atom_header_bytes(Kind::Mapping, k as u64) + enc
                && final(deserializer).remaining() == rest && final(deserializer).budget() == b
                && final(deserializer).symbols() == syms && final(deserializer).peeked() is None
                && final(deserializer).is_persistent() == old(deserializer).is_persistent()
                && final(deserializer).remaining().len() <= old(deserializer).remaining().len(),
            r matches Err(e) ==> dynamic_parse(old(deserializer).remaining(), old(deserializer).budget(), old(deserializer).symbols())
                == Err::<(Seq<u8>, nat, Seq<u8>, nat, Seq<Seq<u8>>), Error>(e),
        decreases old(deserializer).remaining().len(), 3nat,
    {
        let ghost rest2 = deserializer.remaining();
        let ghost b = deserializer.budget();
        let ghost s2 = deserializer.symbols();
        let mut entries: Vec<(Value, Value)> = Vec::new();
        let mut done = false;
        proof {
            assert(entries_bytes(entries@, 0) =~= Seq::<u8>::empty());
            assert(prefixed_count(Seq::empty(), 0, dynamic_parse(rest2, b, s2)) == dynamic_parse(rest2, b, s2)) by {
                if dynamic_parse(rest2, b, s2) is Ok {
                    let (enc, k, r, bb, ss) = dynamic_parse(rest2, b, s2)->Ok_0;
                    assert(Seq::<u8>::empty() + enc =~= enc);
                }
            }
        }
        while !done
            invariant
                rest2 == old(deserializer).remaining(),
                b == old(deserializer).budget(),
                s2 == old(deserializer).symbols(),
                deserializer.peeked() is None,
                deserializer.is_persistent() == old(deserializer).is_persistent(),
                deserializer.remaining().len() <= rest2.len(),
                !done ==> dynamic_parse(rest2, b, s2) == prefixed_count(
                    entries_bytes(entries@, 0),
                    entries@.len(),
                    dynamic_parse(
                        deserializer.remaining(),
                        deserializer.budget(),
                        deserializer.symbols(),
                    ),
                ),
                done ==> dynamic_parse(rest2, b, s2) == Ok::<
                    (Seq<u8>, nat, Seq<u8>, nat, Seq<Seq<u8>>),
                    Error,
                >(
                    (
                        entries_bytes(entries@, 0),
                        entries@.len(),
                        deserializer.remaining(),
                        deserializer.budget(),
                        deserializer.symbols(),
                    ),
                ),
            decreases deserializer.remaining().len() + (if done {
                0nat
            } else {
                1nat
            }),
        {
            let ghost rem = deserializer.remaining();
            let ghost bud = deserializer.budget();
            let ghost sy = deserializer.symbols();
            proof {
                lemma_next_atom_shrinks(rem, None, bud);
                lemma_dynamic_step(rem, bud, sy);
            }
            let end = match deserializer.next_is_dynamic_end() {
                Ok(x) => x,
                Err(e) => {
                    proof {
                        assert(dynamic_parse(rem, bud, sy) == Err::<(Seq<u8>, nat, Seq<u8>, nat, Seq<Seq<u8>>), Error>(e));
                        assert(prefixed_count(entries_bytes(entries@, 0), entries@.len(), Err::<(Seq<u8>, nat, Seq<u8>, nat, Seq<Seq<u8>>), Error>(e)) == Err::<(Seq<u8>, nat, Seq<u8>, nat, Seq<Seq<u8>>), Error>(e));
                    }
                    return Err(e);
                },
            };
            if end {
                proof {
                    assert(entries_bytes(entries@, 0) + Seq::<u8>::empty() =~= entries_bytes(entries@, 0));
                }
                done = true;
            } else {
                let (key, value) = match Value::read_entry(deserializer) {
                    Ok(kv) => kv,
                    Err(e) => {
                        proof {
                            lemma_dynamic_step_err(rem, bud, sy, e);
                            assert(prefixed_count(entries_bytes(entries@, 0), entries@.len(), Err::<(Seq<u8>, nat, Seq<u8>, nat, Seq<Seq<u8>>), Error>(e)) == Err::<(Seq<u8>, nat, Seq<u8>, nat, Seq<Seq<u8>>), Error>(e));
                        }
                        return Err(e);
                    },
                };
                proof {
                    let k = value_parse(next_atom(rem, None, bud), sy)->Ok_0;
                    let v = value_parse(next_atom(k.1, None, k.2), k.3)->Ok_0;
                    lemma_dynamic_step_ok(rem, bud, sy, k, v);
                    lemma_entries_bytes_push(entries@, (key, value), 0);
                    lemma_prefixed_count_twice(
                        entries_bytes(entries@, 0),
                        entries@.len(),
                        value_bytes(key) + value_bytes(value),
                        1,
                        dynamic_parse(deserializer.remaining(), deserializer.budget(), deserializer.symbols()),
                    );
                    assert(entries_bytes(entries@, 0) + (value_bytes(key) + value_bytes(value)) =~= entries_bytes(entries@, 0) + value_bytes(key) + value_bytes(value));
                }
                entries.push((key, value));
            }
        }
        Ok(Value::Mappings(entries))
    }

    /// Writes the value: scalars as their atoms, strings as bytes, and
    /// sequences and mappings as their length followed by their contents.
    pub fn write_to(&self, serializer: &mut Serializer)
        requires
            old(serializer).well_formed(),
        ensures
            final(serializer).well_formed(),
            final(serializer).symbols() == old(serializer).symbols(),
            final(serializer).mode() == old(serializer).mode(),
            final(serializer).written() == old(serializer).written() + value_bytes(*self),
        decreases self,
    {
        match self {
            Value::Nothing => serializer.serialize_none(),
            Value::Unit => serializer.serialize_unit(),
            Value::Bool(b) => serializer.serialize_bool(*b),
            Value::Integer(i) => serializer.write_integer(*i),
            Value::Float(f) => serializer.serialize_float(*f),
            Value::Bytes(b) => serializer.serialize_bytes(b.as_slice()),
            Value::String(s) => serializer.serialize_str(s.as_str()),
            Value::Sequence(values) => {
                serializer.serialize_tuple(values.len());
                let ghost start = serializer.written();
                let mut i: usize = 0;
                while i < values.len()
                    invariant
                        i <= values@.len(),
                        *self == Value::Sequence(*values),
                        serializer.well_formed(),
                        serializer.symbols() == old(serializer).symbols(),
                        serializer.mode() == old(serializer).mode(),
                        serializer.written() + values_bytes(values@, i as nat) == start
                            + values_bytes(values@, 0),
                    decreases values.len() - i,
                {
                    let ghost before = serializer.written();
                    proof {
                        assert(decreases_to!(*self => (*self)->Sequence_0));
                        vstd::std_specs::vec::axiom_vec_index_decreases(*values, i as int);
                        assert(decreases_to!(*self => values[i as int]));
                    }
                    values[i].write_to(serializer);
                    proof {
                        assert(before + values_bytes(values@, i as nat) =~= serializer.written()
                            + values_bytes(values@, (i + 1) as nat));
                    }
                    i = i + 1;
                }
                proof {
                    assert(serializer.written() =~= serializer.written() + values_bytes(
                        values@,
                        i as nat,
                    ));
                    assert(serializer.written() =~= old(serializer).written() + value_bytes(*self));
                }
            },
            Value::Mappings(entries) => {
                serializer.serialize_map(Some(entries.len()));
                let ghost start = serializer.written();
                let mut i: usize = 0;
                while i < entries.len()
                    invariant
                        i <= entries@.len(),
                        *self == Value::Mappings(*entries),
                        serializer.well_formed(),
                        serializer.symbols() == old(serializer).symbols(),
                        serializer.mode() == old(serializer).mode(),
                        serializer.written() + entries_bytes(entries@, i as nat) == start
                            + entries_bytes(entries@, 0),
                    decreases entries.len() - i,
                {
                    let ghost before = serializer.written();
                    proof {
                        assert(decreases_to!(*self => (*self)->Mappings_0));
                        vstd::std_specs::vec::axiom_vec_index_decreases(*entries, i as int);
                        assert(decreases_to!(entries[i as int] => entries[i as int].0));
                        assert(decreases_to!(entries[i as int] => entries[i as int].1));
                        assert(decreases_to!(*self => entries[i as int].0));
                        assert(decreases_to!(*self => entries[i as int].1));
                    }
                    entries[i].0.write_to(serializer);
                    entries[i].1.write_to(serializer);
                    proof {
                        assert(before + entries_bytes(entries@, i as nat) =~= serializer.written()
                            + entries_bytes(entries@, (i + 1) as nat));
                    }
                    i = i + 1;
                }
                proof {
                    assert(serializer.written() =~= serializer.written() + entries_bytes(
                        entries@,
                        i as nat,
                    ));
                    assert(serializer.written() =~= old(serializer).written() + value_bytes(*self));
                }
            },
        }
    }
}

/// Two to the power of the bit width of `f` with the sign bit left out: the
/// bits modulo this are zero exactly for positive and negative zero.
pub open spec fn pow2_of_width(f: Float) -> nat {
    match f.0 {
        crate::format::InnerFloat::F16(_) => 0x8000,
        crate::format::InnerFloat::F32(_) => 0x8000_0000,
        crate::format::InnerFloat::F64(_) => 0x8000_0000_0000_0000,
    }
}

/// The allocation budget that reading `v` back takes.
pub open spec fn value_cost(v: Value) -> nat
    decreases v, 0nat,
{
    match v {
        Value::Integer(i) => if i.is_signed() {
            spec_in_memory_int_size(signed_width(i.value()))
        } else {
            spec_in_memory_int_size(unsigned_width(i.value() as nat))
        },
        Value::Float(f) => f.width(),
        Value::Bytes(b) => b@.len(),
        Value::String(s) => encode_utf8(s@).len(),
        Value::Sequence(values) => values_cost(values@, 0),
        Value::Mappings(entries) => entries_cost(entries@, 0),
        _ => 0,
    }
}

/// The allocation budget that reading back the values from index `i` on takes.
pub open spec fn values_cost(values: Seq<Value>, i: nat) -> nat
    decreases values, values.len() - i,
{
    if i >= values.len() {
        0
    } else {
        value_cost(values[i as int]) + values_cost(values, i + 1)
    }
}

/// The allocation budget that reading back the entries from index `i` on takes.
pub open spec fn entries_cost(entries: Seq<(Value, Value)>, i: nat) -> nat
    decreases entries, entries.len() - i,
{
    if i >= entries.len() {
        0
    } else {
        value_cost(entries[i as int].0) + value_cost(entries[i as int].1) + entries_cost(
            entries,
            i + 1,
        )
    }
}

/// Whether every string in `v` has a byte length that an atom header can carry.
pub open spec fn value_fits(v: Value) -> bool
    decreases v, 0nat,
{
    match v {
        Value::Bytes(b) => b@.len() <= u64::MAX,
        Value::String(s) => encode_utf8(s@).len() <= u64::MAX,
        Value::Sequence(values) => values@.len() <= u64::MAX && values_fit(values@, 0),
        Value::Mappings(entries) => entries@.len() <= u64::MAX && entries_fit(entries@, 0),
        _ => true,
    }
}

/// Whether the values from index `i` on fit.
pub open spec fn values_fit(values: Seq<Value>, i: nat) -> bool
    decreases values, values.len() - i,
{
    i >= values.len() || (value_fits(values[i as int]) && values_fit(values, i + 1))
}

/// Whether the entries from index `i` on fit.
pub open spec fn entries_fit(entries: Seq<(Value, Value)>, i: nat) -> bool
    decreases entries, entries.len() - i,
{
    i >= entries.len() || (value_fits(entries[i as int].0) && value_fits(entries[i as int].1)
        && entries_fit(entries, i + 1))
}

/// The round trip of a value that is neither a sequence nor mappings.
#[verifier::rlimit(100)]
proof fn lemma_scalar_round_trip(v: Value, tail: Seq<u8>, budget: nat, symbols: Seq<Seq<u8>>)
    requires
        !(v is Sequence) && !(v is Mappings),
        value_fits(v),
        budget >= value_cost(v),
    ensures
        value_parse(next_atom(value_bytes(v) + tail, None, budget), symbols) == Ok::<(Seq<u8>, Seq<u8>, nat, Seq<Seq<u8>>), Error>(
            (value_bytes(v), tail, (budget - value_cost(v)) as nat, symbols),
        ),
{
    let bytes = value_bytes(v) + tail;
    lemma_pow256_values();
    match v {
        Value::Nothing => {
            lemma_atom_header_round_trip(Kind::Special, 0, tail);
            assert(atom_header_bytes(Kind::Special, 0) =~= seq![0u8]);
            assert(bytes.skip(1) =~= tail);
        },
        Value::Unit => {
            lemma_atom_header_round_trip(Kind::Special, 1, tail);
            assert(atom_header_bytes(Kind::Special, 1) =~= seq![1u8]);
            assert(bytes.skip(1) =~= tail);
        },
        Value::Bool(x) => {
            lemma_bool_round_trip(x, tail, budget);
            assert(bytes.skip(1) =~= tail);
        },
        Value::Integer(i) => {
            if i.is_signed() {
                assert(fits_signed(i.value(), 16));
                lemma_signed_round_trip(i.value(), tail, budget, 0, 0);
                assert(bytes.skip(signed_atom_bytes(i.value()).len() as int) =~= tail);
            } else {
                assert(i.value() < pow256(16));
                lemma_unsigned_round_trip(i.value() as nat, tail, budget, 0, 0);
                assert(bytes.skip(unsigned_atom_bytes(i.value() as nat).len() as int) =~= tail);
            }
        },
        Value::Float(f) => {
            lemma_float_round_trip(f, tail, budget);
            assert(bytes.skip(float_atom_bytes(f).len() as int) =~= tail);
        },
        Value::Bytes(b) => {
            lemma_bytes_round_trip(b@, tail, budget, symbols);
            assert(bytes.skip(bytes_atom_bytes(b@).len() as int) =~= tail);
        },
        Value::String(s) => {
            lemma_bytes_round_trip(encode_utf8(s@), tail, budget, symbols);
            assert(bytes.skip(bytes_atom_bytes(encode_utf8(s@)).len() as int) =~= tail);
        },
        _ => {},
    }
}

/// Reading back what a value is written as, from whatever follows it, reads
/// a value that is written as the same bytes: the same scalars (integers
/// keep their sign and value, floats their bits, byte strings their bytes,
/// read as strings when UTF-8) in the same sequences and mappings. It takes
/// exactly those bytes, leaves the symbols as they are, and takes the
/// value's cost from the budget.
pub proof fn lemma_value_round_trip(v: Value, tail: Seq<u8>, budget: nat, symbols: Seq<Seq<u8>>)
    requires
        value_fits(v),
        budget >= value_cost(v),
    ensures
        value_parse(next_atom(value_bytes(v) + tail, None, budget), symbols) == Ok::<(Seq<u8>, Seq<u8>, nat, Seq<Seq<u8>>), Error>(
            (value_bytes(v), tail, (budget - value_cost(v)) as nat, symbols),
        ),
    decreases v, 0nat,
{
    let bytes = value_bytes(v) + tail;
    match v {
        Value::Sequence(values) => lemma_sequence_round_trip(values@, tail, budget, symbols),
        Value::Mappings(entries) => lemma_mappings_round_trip(entries@, tail, budget, symbols),
        _ => lemma_scalar_round_trip(v, tail, budget, symbols),
    }
}

/// The round trip of a sequence, from the round trips of its values.
proof fn lemma_sequence_round_trip(
    values: Seq<Value>,
    tail: Seq<u8>,
    budget: nat,
    symbols: Seq<Seq<u8>>,
)
    requires
        values.len() <= u64::MAX,
        values_fit(values, 0),
        budget >= values_cost(values, 0),
    ensures
        value_parse(
            next_atom(
                atom_header_bytes(Kind::Sequence, values.len() as u64) + values_bytes(values, 0)
                    + tail,
                None,
                budget,
            ),
            symbols,
        ) == Ok::<(Seq<u8>, Seq<u8>, nat, Seq<Seq<u8>>), Error>(
            (
                atom_header_bytes(Kind::Sequence, values.len() as u64) + values_bytes(values, 0),
                tail,
                (budget - values_cost(values, 0)) as nat,
                symbols,
            ),
        ),
    decreases values, values.len() + 1,
{
    let header = atom_header_bytes(Kind::Sequence, values.len() as u64);
    let body = values_bytes(values, 0);
    let bytes = header + body + tail;
    lemma_atom_header_round_trip(Kind::Sequence, values.len() as u64, body + tail);
    assert(bytes =~= header + (body + tail));
    assert(bytes.skip(header.len() as int) =~= body + tail);
    lemma_values_round_trip(values, 0, tail, budget, symbols);
}

/// The round trip of mappings, from the round trips of their entries.
proof fn lemma_mappings_round_trip(
    entries: Seq<(Value, Value)>,
    tail: Seq<u8>,
    budget: nat,
    symbols: Seq<Seq<u8>>,
)
    requires
        entries.len() <= u64::MAX,
        entries_fit(entries, 0),
        budget >= entries_cost(entries, 0),
    ensures
        value_parse(
            next_atom(
                atom_header_bytes(Kind::Mapping, entries.len() as u64) + entries_bytes(entries, 0)
                    + tail,
                None,
                budget,
            ),
            symbols,
        ) == Ok::<(Seq<u8>, Seq<u8>, nat, Seq<Seq<u8>>), Error>(
            (
                atom_header_bytes(Kind::Mapping, entries.len() as u64) + entries_bytes(entries, 0),
                tail,
                (budget - entries_cost(entries, 0)) as nat,
                symbols,
            ),
        ),
    decreases entries, entries.len() + 1,
{
    let header = atom_header_bytes(Kind::Mapping, entries.len() as u64);
    let body = entries_bytes(entries, 0);
    let bytes = header + body + tail;
    lemma_atom_header_round_trip(Kind::Mapping, entries.len() as u64, body + tail);
    assert(bytes =~= header + (body + tail));
    assert(bytes.skip(header.len() as int) =~= body + tail);
    lemma_entries_round_trip(entries, 0, tail, budget, symbols);
}

/// Reading back the values from index `i` on, as a sequence reads them,
/// gives the bytes they are written as.
pub proof fn lemma_values_round_trip(
    values: Seq<Value>,
    i: nat,
    tail: Seq<u8>,
    budget: nat,
    symbols: Seq<Seq<u8>>,
)
    requires
        i <= values.len(),
        values_fit(values, i),
        budget >= values_cost(values, i),
    ensures
        values_parse(values_bytes(values, i) + tail, budget, symbols, (values.len() - i) as nat)
            == Ok::<(Seq<u8>, Seq<u8>, nat, Seq<Seq<u8>>), Error>(
            (values_bytes(values, i), tail, (budget - values_cost(values, i)) as nat, symbols),
        ),
    decreases values, values.len() - i,
{
    if i < values.len() {
        let x = values[i as int];
        let rest = values_bytes(values, i + 1) + tail;
        let bytes = values_bytes(values, i) + tail;
        assert(bytes =~= value_bytes(x) + rest);
        lemma_value_round_trip(x, rest, budget, symbols);
        lemma_next_atom_shrinks(bytes, None, budget);
        lemma_values_round_trip(values, i + 1, tail, (budget - value_cost(x)) as nat, symbols);
        assert(value_bytes(x) + values_bytes(values, i + 1) =~= values_bytes(values, i));
    } else {
        assert(values_bytes(values, i) + tail =~= tail);
    }
}

/// Reading back the entries from index `i` on, as a map reads them, gives
/// the bytes they are written as.
#[verifier::rlimit(100)]
pub proof fn lemma_entries_round_trip(
    entries: Seq<(Value, Value)>,
    i: nat,
    tail: Seq<u8>,
    budget: nat,
    symbols: Seq<Seq<u8>>,
)
    requires
        i <= entries.len(),
        entries_fit(entries, i),
        budget >= entries_cost(entries, i),
    ensures
        entries_parse(entries_bytes(entries, i) + tail, budget, symbols, (entries.len() - i) as nat)
            == Ok::<(Seq<u8>, Seq<u8>, nat, Seq<Seq<u8>>), Error>(
            (entries_bytes(entries, i), tail, (budget - entries_cost(entries, i)) as nat, symbols),
        ),
    decreases entries, entries.len() - i,
{
    if i < entries.len() {
        let k = entries[i as int].0;
        let v = entries[i as int].1;
        let after_value = entries_bytes(entries, i + 1) + tail;
        let after_key = value_bytes(v) + after_value;
        let bytes = entries_bytes(entries, i) + tail;
        assert(bytes =~= value_bytes(k) + after_key);
        lemma_value_round_trip(k, after_key, budget, symbols);
        let b1 = (budget - value_cost(k)) as nat;
        lemma_value_round_trip(v, after_value, b1, symbols);
        lemma_next_atom_shrinks(bytes, None, budget);
        lemma_next_atom_shrinks(after_key, None, b1);
        lemma_entries_round_trip(entries, i + 1, tail, (b1 - value_cost(v)) as nat, symbols);
        assert(value_bytes(k) + value_bytes(v) + entries_bytes(entries, i + 1) =~= entries_bytes(
            entries,
            i,
        ));
    } else {
        assert(entries_bytes(entries, i) + tail =~= tail);
    }
}

} // verus!
