use vstd::prelude::*;

use crate::error::Error;
use crate::reader::{BufferedBytes, SliceReader};
use vstd::string::StringSliceAdditionalSpecFns;

verus! {

/// The version written into the header of every payload.
pub const CURRENT_VERSION: u8 = 0;

/// The type of an atom: the top three bits of its first header byte.
#[derive(Clone, Copy, Eq, PartialEq, Debug, Structural)]
pub enum Kind {
    /// A value with a special meaning; the argument selects a [`Special`].
    Special,
    /// A signed integer. Argument is the byte length, minus one.
    Int,
    /// An unsigned integer. Argument is the byte length, minus one.
    UInt,
    /// A floating point value. Argument is the byte length, minus one (1, 3 or 7).
    Float,
    /// A list of atoms. Argument is the count of atoms in the sequence.
    Sequence,
    /// A list of key-value pairs. Argument is the count of entries.
    Mapping,
    /// A symbol: a new one (low bit 0, length in the other bits) or a
    /// reference to an earlier one (low bit 1, id in the other bits).
    Symbol,
    /// A series of bytes. The argument is the length.
    Bytes,
}

impl Kind {
    /// The three-bit code of this kind.
    pub open spec fn spec_code(self) -> u8 {
        match self {
            Kind::Special => 0,
            Kind::Int => 1,
            Kind::UInt => 2,
            Kind::Float => 3,
            Kind::Sequence => 4,
            Kind::Mapping => 5,
            Kind::Symbol => 6,
            Kind::Bytes => 7,
        }
    }

    /// The kind whose code is `code`, for `code < 8`.
    pub open spec fn spec_from_code(code: u8) -> Kind {
        if code == 0 {
            Kind::Special
        } else if code == 1 {
            Kind::Int
        } else if code == 2 {
            Kind::UInt
        } else if code == 3 {
            Kind::Float
        } else if code == 4 {
            Kind::Sequence
        } else if code == 5 {
            Kind::Mapping
        } else if code == 6 {
            Kind::Symbol
        } else {
            Kind::Bytes
        }
    }

    /// Returns the three-bit code of this kind.
    pub fn code(&self) -> (r: u8)
        ensures
            r == self.spec_code(),
            r < 8,
    {
        match self {
            Kind::Special => 0,
            Kind::Int => 1,
            Kind::UInt => 2,
            Kind::Float => 3,
            Kind::Sequence => 4,
            Kind::Mapping => 5,
            Kind::Symbol => 6,
            Kind::Bytes => 7,
        }
    }

    /// Converts from a u8. Returns an error if `kind` is an invalid value.
    pub fn from_u8(kind: u8) -> (r: Result<Kind, Error>)
        ensures
            kind < 8 ==> r == Ok::<Kind, Error>(Kind::spec_from_code(kind)),
            kind >= 8 ==> r == Err::<Kind, Error>(Error::InvalidKind(kind)),
            r matches Ok(k) ==> k.spec_code() == kind,
    {
        match kind {
            0 => Ok(Kind::Special),
            1 => Ok(Kind::Int),
            2 => Ok(Kind::UInt),
            3 => Ok(Kind::Float),
            4 => Ok(Kind::Sequence),
            5 => Ok(Kind::Mapping),
            6 => Ok(Kind::Symbol),
            7 => Ok(Kind::Bytes),
            other => Err(Error::InvalidKind(other)),
        }
    }
}

/// The continuation bytes that carry `rest`, when at most `slots` bytes may
/// follow. Each byte but the last holds seven bits and a continuation flag;
/// the last available slot holds what is left without a flag.
pub open spec fn continuation_bytes(rest: nat, slots: nat) -> Seq<u8>
    decreases slots,
{
    if slots <= 1 || rest < 128 {
        seq![rest as u8]
    } else {
        seq![(rest % 128 + 128) as u8] + continuation_bytes(rest / 128, (slots - 1) as nat)
    }
}

/// The header bytes of an atom of `kind` with argument `arg`.
pub open spec fn atom_header_bytes(kind: Kind, arg: u64) -> Seq<u8> {
    if arg < 16 {
        seq![(kind.spec_code() * 32 + arg) as u8]
    } else {
        seq![(kind.spec_code() * 32 + 16 + arg % 16) as u8] + continuation_bytes(
            (arg / 16) as nat,
            9,
        )
    }
}

/// The largest value, plus one, that `slots` continuation bytes can carry.
pub open spec fn continuation_limit(slots: nat) -> nat
    decreases slots,
{
    if slots <= 1 {
        16
    } else {
        128 * continuation_limit((slots - 1) as nat)
    }
}

/// Parses continuation bytes from the front of `bytes`: the value carried and
/// the number of bytes used. The last slot may only hold four bits.
pub open spec fn parse_continuation(bytes: Seq<u8>, slots: nat) -> Result<(nat, nat), Error>
    decreases slots,
{
    if bytes.len() == 0 {
        Err(Error::Eof)
    } else if slots <= 1 {
        if bytes[0] < 16 {
            Ok((bytes[0] as nat, 1))
        } else {
            Err(Error::InvalidAtomHeader)
        }
    } else if bytes[0] < 128 {
        Ok((bytes[0] as nat, 1))
    } else {
        match parse_continuation(bytes.drop_first(), (slots - 1) as nat) {
            Ok((v, n)) => Ok((((bytes[0] - 128) + 128 * v) as nat, n + 1)),
            Err(e) => Err(e),
        }
    }
}

/// Parses an atom header from the front of `bytes`: its kind, its argument
/// and the number of bytes it takes.
pub open spec fn parse_atom_header(bytes: Seq<u8>) -> Result<(Kind, u64, nat), Error> {
    if bytes.len() == 0 {
        Err(Error::Eof)
    } else {
        let first = bytes[0];
        let kind = Kind::spec_from_code(first / 32);
        if (first / 16) % 2 == 0 {
            Ok((kind, (first % 16) as u64, 1))
        } else {
            match parse_continuation(bytes.drop_first(), 9) {
                Ok((v, n)) => Ok((kind, (first % 16 + 16 * v) as u64, n + 1)),
                Err(e) => Err(e),
            }
        }
    }
}

proof fn lemma_continuation_limit_nine()
    ensures
        continuation_limit(9) == 0x1000_0000_0000_0000,
{
    reveal_with_fuel(continuation_limit, 10);
}

proof fn lemma_continuation_limit_positive(slots: nat)
    ensures
        continuation_limit(slots) >= 16,
    decreases slots,
{
    if slots > 1 {
        lemma_continuation_limit_positive((slots - 1) as nat);
    }
}

/// What parsing continuation bytes yields stays below their limit and uses
/// between one and `slots` bytes.
proof fn lemma_parse_continuation_bound(bytes: Seq<u8>, slots: nat)
    requires
        slots >= 1,
    ensures
        parse_continuation(bytes, slots) matches Ok((v, n)) ==> v < continuation_limit(slots) && 1
            <= n <= slots && n <= bytes.len(),
    decreases slots,
{
    lemma_continuation_limit_positive(slots);
    if bytes.len() > 0 && slots > 1 && bytes[0] >= 128 {
        lemma_parse_continuation_bound(bytes.drop_first(), (slots - 1) as nat);
        lemma_continuation_limit_positive((slots - 1) as nat);
    }
}

/// Continuation bytes written for a value below their limit parse back to it.
proof fn lemma_continuation_round_trip(rest: nat, slots: nat, tail: Seq<u8>)
    requires
        slots >= 1,
        rest < continuation_limit(slots),
    ensures
        parse_continuation(continuation_bytes(rest, slots) + tail, slots) == Ok::<(nat, nat), Error>(
            (rest, continuation_bytes(rest, slots).len()),
        ),
        1 <= continuation_bytes(rest, slots).len() <= slots,
    decreases slots,
{
    let bytes = continuation_bytes(rest, slots) + tail;
    if slots <= 1 || rest < 128 {
        assert(bytes[0] == rest as u8);
    } else {
        let inner = continuation_bytes(rest / 128, (slots - 1) as nat);
        assert(rest / 128 < continuation_limit((slots - 1) as nat)) by (nonlinear_arith)
            requires
                rest < 128 * continuation_limit((slots - 1) as nat),
        ;
        lemma_continuation_round_trip(rest / 128, (slots - 1) as nat, tail);
        assert(bytes.drop_first() =~= inner + tail);
        assert(bytes[0] == (rest % 128 + 128) as u8);
        assert(rest == rest % 128 + 128 * (rest / 128)) by (nonlinear_arith);
    }
}

/// An atom header parses back to the kind and argument it was written for,
/// whatever follows it, and takes one to ten bytes.
pub proof fn lemma_atom_header_round_trip(kind: Kind, arg: u64, tail: Seq<u8>)
    ensures
        parse_atom_header(atom_header_bytes(kind, arg) + tail) == Ok::<(Kind, u64, nat), Error>(
            (kind, arg, atom_header_bytes(kind, arg).len()),
        ),
        1 <= atom_header_bytes(kind, arg).len() <= 10,
{
    let bytes = atom_header_bytes(kind, arg) + tail;
    let code = kind.spec_code();
    assert(Kind::spec_from_code(code) == kind);
    if arg < 16 {
        assert(bytes[0] == (code * 32 + arg) as u8);
        assert((code * 32 + arg) / 32 == code);
        assert(((code * 32 + arg) / 16) % 2 == 0);
        assert((code * 32 + arg) % 16 == arg);
    } else {
        let first = (code * 32 + 16 + arg % 16) as u8;
        assert(bytes[0] == first);
        assert(first / 32 == code);
        assert((first / 16) % 2 == 1);
        assert(first % 16 == arg % 16);
        lemma_continuation_limit_nine();
        assert(arg / 16 < 0x1000_0000_0000_0000);
        lemma_continuation_round_trip((arg / 16) as nat, 9, tail);
        assert(bytes.drop_first() =~= continuation_bytes((arg / 16) as nat, 9) + tail);
    }
}

/// A parsed header takes at least one byte and no more than there are.
proof fn lemma_parse_atom_header_bound(bytes: Seq<u8>)
    ensures
        parse_atom_header(bytes) matches Ok((k, a, n)) ==> 1 <= n <= bytes.len(),
{
    if bytes.len() > 0 {
        lemma_parse_continuation_bound(bytes.drop_first(), 9);
    }
}

/// A parsed atom takes at least one byte and no more than there are.
pub proof fn lemma_parse_atom_bound(bytes: Seq<u8>, budget: nat)
    ensures
        parse_atom(bytes, budget) matches Ok((a, n, b)) ==> 1 <= n <= bytes.len() && b <= budget,
{
    lemma_parse_atom_header_bound(bytes);
}

fn write_continuation(output: &mut Vec<u8>, rest: u64, slots: u64)
    requires
        1 <= slots <= 9,
        rest < continuation_limit(slots as nat),
    ensures
        final(output)@ == old(output)@ + continuation_bytes(rest as nat, slots as nat),
    decreases slots,
{
    if slots <= 1 || rest < 128 {
        output.push(rest as u8);
        proof {
            assert(final(output)@ =~= old(output)@ + continuation_bytes(rest as nat, slots as nat));
        }
    } else {
        output.push((rest % 128 + 128) as u8);
        proof {
            assert(rest / 128 < continuation_limit((slots - 1) as nat)) by (nonlinear_arith)
                requires
                    rest < 128 * continuation_limit((slots - 1) as nat),
            ;
        }
        write_continuation(output, rest / 128, slots - 1);
        proof {
            assert(final(output)@ =~= old(output)@ + continuation_bytes(rest as nat, slots as nat));
        }
    }
}

/// Writes an atom header into `output` and returns its length.
pub fn write_atom_header(output: &mut Vec<u8>, kind: Kind, arg: u64) -> (n: usize)
    ensures
        final(output)@ == old(output)@ + atom_header_bytes(kind, arg),
        n == atom_header_bytes(kind, arg).len(),
        1 <= n <= 10,
{
    proof {
        lemma_atom_header_round_trip(kind, arg, Seq::empty());
    }
    let code = kind.code();
    let start_len = output.len();
    if arg < 16 {
        output.push(code * 32 + arg as u8);
        proof {
            assert(final(output)@ =~= old(output)@ + atom_header_bytes(kind, arg));
        }
        1
    } else {
        output.push(code * 32 + 16 + (arg % 16) as u8);
        proof {
            lemma_continuation_limit_nine();
        }
        write_continuation(output, arg / 16, 9);
        proof {
            assert(final(output)@ =~= old(output)@ + atom_header_bytes(kind, arg));
        }
        output.len() - start_len
    }
}

fn read_continuation(reader: &mut SliceReader, slots: u64) -> (r: Result<u64, Error>)
    requires
        1 <= slots <= 9,
    ensures
        parse_continuation(old(reader)@, slots as nat) matches Ok((v, n)) ==> r == Ok::<u64, Error>(
            v as u64,
        ) && final(reader)@ == old(reader)@.skip(n as int),
        parse_continuation(old(reader)@, slots as nat) matches Err(e) ==> r == Err::<u64, Error>(e),
    decreases slots,
{
    let ghost start = reader@;
    proof {
        lemma_parse_continuation_bound(start, slots as nat);
    }
    let byte = match reader.read_u8() {
        Ok(b) => b,
        Err(e) => return Err(e),
    };
    if slots <= 1 {
        if byte < 16 {
            proof {
                assert(reader@ =~= start.skip(1));
            }
            Ok(byte as u64)
        } else {
            Err(Error::InvalidAtomHeader)
        }
    } else if byte < 128 {
        proof {
            assert(reader@ =~= start.skip(1));
        }
        Ok(byte as u64)
    } else {
        let inner = read_continuation(reader, slots - 1);
        match inner {
            Ok(v) => {
                proof {
                    lemma_parse_continuation_bound(start.drop_first(), (slots - 1) as nat);
                    let (pv, pn) = parse_continuation(start.drop_first(), (slots - 1) as nat)->Ok_0;
                    assert(start.drop_first().skip(pn as int) =~= start.skip(pn + 1 as int));
                    assert(128 * v + 127 < continuation_limit(slots as nat)) by (nonlinear_arith)
                        requires
                            v < continuation_limit((slots - 1) as nat),
                            continuation_limit(slots as nat) == 128 * continuation_limit(
                                (slots - 1) as nat,
                            ),
                    ;
                    lemma_continuation_limit_nine();
                    assert(continuation_limit(slots as nat) <= continuation_limit(9)) by {
                        lemma_continuation_limit_monotone(slots as nat, 9);
                    }
                }
                Ok((byte - 128) as u64 + 128 * v)
            },
            Err(e) => Err(e),
        }
    }
}

proof fn lemma_continuation_limit_monotone(a: nat, b: nat)
    requires
        1 <= a <= b,
    ensures
        continuation_limit(a) <= continuation_limit(b),
    decreases b,
{
    if a < b {
        lemma_continuation_limit_monotone(a, (b - 1) as nat);
    }
}

/// Reads an atom header (kind and argument).
pub fn read_atom_header(reader: &mut SliceReader) -> (r: Result<(Kind, u64), Error>)
    ensures
        parse_atom_header(old(reader)@) matches Ok((k, a, n)) ==> r == Ok::<(Kind, u64), Error>(
            (k, a),
        ) && final(reader)@ == old(reader)@.skip(n as int),
        parse_atom_header(old(reader)@) matches Err(e) ==> r == Err::<(Kind, u64), Error>(e),
{
    let ghost start = reader@;
    let first = match reader.read_u8() {
        Ok(b) => b,
        Err(e) => return Err(e),
    };
    let kind = match Kind::from_u8(first / 32) {
        Ok(k) => k,
        Err(e) => return Err(e),
    };
    if (first / 16) % 2 == 0 {
        proof {
            assert(reader@ =~= start.skip(1));
        }
        Ok((kind, (first % 16) as u64))
    } else {
        match read_continuation(reader, 9) {
            Ok(v) => {
                proof {
                    lemma_parse_continuation_bound(start.drop_first(), 9);
                    lemma_continuation_limit_nine();
                    let (pv, pn) = parse_continuation(start.drop_first(), 9)->Ok_0;
                    assert(start.drop_first().skip(pn as int) =~= start.skip(pn + 1 as int));
                }
                Ok((kind, (first % 16) as u64 + 16 * v))
            },
            Err(e) => Err(e),
        }
    }
}

/// `256` to the power `n`.
pub open spec fn pow256(n: nat) -> nat
    decreases n,
{
    if n == 0 {
        1
    } else {
        256 * pow256((n - 1) as nat)
    }
}

/// The byte lengths that integer atoms may have.
pub open spec fn is_supported_width(w: nat) -> bool {
    w == 1 || w == 2 || w == 3 || w == 4 || w == 6 || w == 8 || w == 16
}

/// Whether `v` fits in `w` bytes of two's complement.
pub open spec fn fits_signed(v: int, w: nat) -> bool {
    -(pow256(w) / 2) <= v < pow256(w) / 2
}

/// The smallest supported width whose two's complement holds `v`.
pub open spec fn signed_width(v: int) -> nat {
    if fits_signed(v, 1) {
        1
    } else if fits_signed(v, 2) {
        2
    } else if fits_signed(v, 3) {
        3
    } else if fits_signed(v, 4) {
        4
    } else if fits_signed(v, 6) {
        6
    } else if fits_signed(v, 8) {
        8
    } else {
        16
    }
}

/// The smallest supported width that holds `u`.
pub open spec fn unsigned_width(u: nat) -> nat {
    if u < pow256(1) {
        1
    } else if u < pow256(2) {
        2
    } else if u < pow256(3) {
        3
    } else if u < pow256(4) {
        4
    } else if u < pow256(6) {
        6
    } else if u < pow256(8) {
        8
    } else {
        16
    }
}

/// The `w` low bytes of `u`, least significant first.
pub open spec fn le_bytes(u: nat, w: nat) -> Seq<u8>
    decreases w,
{
    if w == 0 {
        Seq::empty()
    } else {
        seq![(u % 256) as u8] + le_bytes(u / 256, (w - 1) as nat)
    }
}

/// The number that little-endian `bytes` stand for.
pub open spec fn le_value(bytes: Seq<u8>) -> nat
    decreases bytes.len(),
{
    if bytes.len() == 0 {
        0
    } else {
        bytes[0] as nat + 256 * le_value(bytes.drop_first())
    }
}

/// `v` in `w` bytes of two's complement, read as an unsigned number.
pub open spec fn twos_complement(v: int, w: nat) -> nat {
    if v < 0 {
        (v + pow256(w)) as nat
    } else {
        v as nat
    }
}

/// The signed number that `w` little-endian bytes of two's complement stand for.
pub open spec fn signed_value(bytes: Seq<u8>) -> int {
    let u = le_value(bytes);
    if u >= pow256(bytes.len()) / 2 {
        u - pow256(bytes.len())
    } else {
        u as int
    }
}

/// The atom that a signed integer is written as: an `Int` atom of the
/// narrowest supported width.
pub open spec fn signed_atom_bytes(v: int) -> Seq<u8> {
    let w = signed_width(v);
    atom_header_bytes(Kind::Int, (w - 1) as u64) + le_bytes(twos_complement(v, w), w)
}

/// The atom that an unsigned integer is written as: a `UInt` atom of the
/// narrowest supported width.
pub open spec fn unsigned_atom_bytes(u: nat) -> Seq<u8> {
    let w = unsigned_width(u);
    atom_header_bytes(Kind::UInt, (w - 1) as u64) + le_bytes(u, w)
}

/// The powers of 256 at the supported widths.
pub proof fn lemma_pow256_values()
    ensures
        pow256(0) == 1,
        pow256(1) == 0x100,
        pow256(2) == 0x1_0000,
        pow256(3) == 0x100_0000,
        pow256(4) == 0x1_0000_0000,
        pow256(5) == 0x100_0000_0000,
        pow256(6) == 0x1_0000_0000_0000,
        pow256(7) == 0x100_0000_0000_0000,
        pow256(8) == 0x1_0000_0000_0000_0000,
        pow256(15) == 0x100_0000_0000_0000_0000_0000_0000_0000,
        pow256(16) == 0x1_0000_0000_0000_0000_0000_0000_0000_0000,
{
    reveal_with_fuel(pow256, 17);
}

proof fn lemma_le_bytes_len(u: nat, w: nat)
    ensures
        le_bytes(u, w).len() == w,
    decreases w,
{
    if w > 0 {
        lemma_le_bytes_len(u / 256, (w - 1) as nat);
    }
}

proof fn lemma_pow256_positive(w: nat)
    ensures
        pow256(w) >= 1,
    decreases w,
{
    if w > 0 {
        lemma_pow256_positive((w - 1) as nat);
    }
}

/// Little-endian bytes read back as the number they were written for,
/// reduced to their width.
pub proof fn lemma_le_round_trip(u: nat, w: nat)
    ensures
        le_value(le_bytes(u, w)) == u % pow256(w),
        le_bytes(u, w).len() == w,
    decreases w,
{
    lemma_le_bytes_len(u, w);
    if w > 0 {
        let rest = le_bytes(u / 256, (w - 1) as nat);
        lemma_le_round_trip(u / 256, (w - 1) as nat);
        assert(le_bytes(u, w).drop_first() =~= rest);
        lemma_pow256_positive((w - 1) as nat);
        let p = pow256((w - 1) as nat);
        vstd::arithmetic::div_mod::lemma_mod_breakdown(u as int, 256, p as int);
    }
}

/// Little-endian bytes of length `n` stand for a number below `256^n`.
pub proof fn lemma_le_value_bound(bytes: Seq<u8>)
    ensures
        le_value(bytes) < pow256(bytes.len()),
    decreases bytes.len(),
{
    if bytes.len() > 0 {
        lemma_le_value_bound(bytes.drop_first());
        let r = le_value(bytes.drop_first());
        let p = pow256((bytes.len() - 1) as nat);
        assert(bytes[0] as nat + 256 * r < 256 * p) by (nonlinear_arith)
            requires
                r < p,
                bytes[0] < 256,
        ;
    }
}

/// A signed integer's atom is its header byte and the narrowest width that
/// holds it; reading the payload gives the integer back.
pub proof fn lemma_signed_atom(v: int)
    requires
        fits_signed(v, 16),
    ensures
        is_supported_width(signed_width(v)),
        fits_signed(v, signed_width(v)),
        signed_atom_bytes(v).len() == 1 + signed_width(v),
        signed_atom_bytes(v) == atom_header_bytes(Kind::Int, (signed_width(v) - 1) as u64)
            + le_bytes(twos_complement(v, signed_width(v)), signed_width(v)),
        atom_header_bytes(Kind::Int, (signed_width(v) - 1) as u64).len() == 1,
        signed_value(le_bytes(twos_complement(v, signed_width(v)), signed_width(v))) == v,
{
    let w = signed_width(v);
    lemma_pow256_values();
    let u = twos_complement(v, w);
    assert(0 <= u < pow256(w));
    lemma_le_round_trip(u, w);
    vstd::arithmetic::div_mod::lemma_small_mod(u, pow256(w));
}

/// An unsigned integer's atom is its header byte and the narrowest width
/// that holds it; reading the payload gives the integer back.
pub proof fn lemma_unsigned_atom(u: nat)
    requires
        u < pow256(16),
    ensures
        is_supported_width(unsigned_width(u)),
        u < pow256(unsigned_width(u)),
        unsigned_atom_bytes(u).len() == 1 + unsigned_width(u),
        atom_header_bytes(Kind::UInt, (unsigned_width(u) - 1) as u64).len() == 1,
        le_value(le_bytes(u, unsigned_width(u))) == u,
{
    let w = unsigned_width(u);
    lemma_pow256_values();
    lemma_le_round_trip(u, w);
    vstd::arithmetic::div_mod::lemma_small_mod(u, pow256(w));
}

/// A signed integer is written in one header byte and the smallest
/// supported width that holds it: no smaller supported width does.
pub proof fn lemma_signed_packed_size(v: int)
    requires
        fits_signed(v, 16),
    ensures
        signed_atom_bytes(v).len() == 1 + signed_width(v),
        is_supported_width(signed_width(v)),
        fits_signed(v, signed_width(v)),
        forall|w: nat| is_supported_width(w) && w < signed_width(v) ==> !fits_signed(v, w),
{
    lemma_signed_atom(v);
    lemma_pow256_values();
}

/// An unsigned integer is written in one header byte and the smallest
/// supported width that holds it: no smaller supported width does.
pub proof fn lemma_unsigned_packed_size(u: nat)
    requires
        u < pow256(16),
    ensures
        unsigned_atom_bytes(u).len() == 1 + unsigned_width(u),
        is_supported_width(unsigned_width(u)),
        u < pow256(unsigned_width(u)),
        forall|w: nat| is_supported_width(w) && w < unsigned_width(u) ==> u >= pow256(w),
{
    lemma_unsigned_atom(u);
    lemma_pow256_values();
}

/// Appends the `w` low bytes of `u`, least significant first.
fn write_le(output: &mut Vec<u8>, u: u128, w: usize)
    requires
        w <= 16,
    ensures
        final(output)@ == old(output)@ + le_bytes(u as nat, w as nat),
{
    let mut rest: u128 = u;
    let mut i: usize = 0;
    while i < w
        invariant
            i <= w,
            output@ + le_bytes(rest as nat, (w - i) as nat) == old(output)@ + le_bytes(
                u as nat,
                w as nat,
            ),
        decreases w - i,
    {
        let ghost before = output@;
        output.push((rest % 256) as u8);
        proof {
            assert(le_bytes(rest as nat, (w - i) as nat) =~= seq![(rest % 256) as u8] + le_bytes(
                (rest / 256) as nat,
                (w - i - 1) as nat,
            ));
            assert(output@ + le_bytes((rest / 256) as nat, (w - i - 1) as nat) =~= before
                + le_bytes(rest as nat, (w - i) as nat));
        }
        rest = rest / 256;
        i = i + 1;
    }
    proof {
        assert(output@ =~= output@ + le_bytes(rest as nat, 0));
    }
}

/// The narrowest supported width that holds `value` in two's complement.
fn signed_width_of(value: i128) -> (w: usize)
    ensures
        w == signed_width(value as int),
{
    proof {
        lemma_pow256_values();
    }
    if -0x80 <= value && value < 0x80 {
        1
    } else if -0x8000 <= value && value < 0x8000 {
        2
    } else if -0x80_0000 <= value && value < 0x80_0000 {
        3
    } else if -0x8000_0000 <= value && value < 0x8000_0000 {
        4
    } else if -0x8000_0000_0000 <= value && value < 0x8000_0000_0000 {
        6
    } else if -0x8000_0000_0000_0000 <= value && value < 0x8000_0000_0000_0000 {
        8
    } else {
        16
    }
}

/// The narrowest supported width that holds `value`.
fn unsigned_width_of(value: u128) -> (w: usize)
    ensures
        w == unsigned_width(value as nat),
{
    proof {
        lemma_pow256_values();
    }
    if value < 0x100 {
        1
    } else if value < 0x1_0000 {
        2
    } else if value < 0x100_0000 {
        3
    } else if value < 0x1_0000_0000 {
        4
    } else if value < 0x1_0000_0000_0000 {
        6
    } else if value < 0x1_0000_0000_0000_0000 {
        8
    } else {
        16
    }
}

/// `value` in `w` bytes of two's complement, as an unsigned number.
fn twos_complement_of(value: i128, w: usize) -> (u: u128)
    requires
        is_supported_width(w as nat),
        fits_signed(value as int, w as nat),
    ensures
        u == twos_complement(value as int, w as nat),
{
    proof {
        lemma_pow256_values();
    }
    if value >= 0 {
        value as u128
    } else if w == 16 {
        0xffff_ffff_ffff_ffff_ffff_ffff_ffff_ffff - ((-(value + 1)) as u128)
    } else {
        let modulus: i128 = if w == 1 {
            0x100
        } else if w == 2 {
            0x1_0000
        } else if w == 3 {
            0x100_0000
        } else if w == 4 {
            0x1_0000_0000
        } else if w == 6 {
            0x1_0000_0000_0000
        } else {
            0x1_0000_0000_0000_0000
        };
        (value + modulus) as u128
    }
}

/// Writes `value` as an `Int` atom of the narrowest supported width and
/// returns the number of bytes written.
fn write_signed(output: &mut Vec<u8>, value: i128) -> (n: usize)
    ensures
        final(output)@ == old(output)@ + signed_atom_bytes(value as int),
        n == signed_atom_bytes(value as int).len(),
        n == 1 + signed_width(value as int),
{
    proof {
        lemma_pow256_values();
        lemma_signed_atom(value as int);
    }
    let w = signed_width_of(value);
    let u = twos_complement_of(value, w);
    write_atom_header(output, Kind::Int, (w - 1) as u64);
    write_le(output, u, w);
    proof {
        assert(final(output)@ =~= old(output)@ + signed_atom_bytes(value as int));
    }
    1 + w
}

/// Writes `value` as a `UInt` atom of the narrowest supported width and
/// returns the number of bytes written.
fn write_unsigned(output: &mut Vec<u8>, value: u128) -> (n: usize)
    ensures
        final(output)@ == old(output)@ + unsigned_atom_bytes(value as nat),
        n == unsigned_atom_bytes(value as nat).len(),
        n == 1 + unsigned_width(value as nat),
{
    proof {
        lemma_pow256_values();
        lemma_unsigned_atom(value as nat);
    }
    let w = unsigned_width_of(value);
    write_atom_header(output, Kind::UInt, (w - 1) as u64);
    write_le(output, value, w);
    proof {
        assert(final(output)@ =~= old(output)@ + unsigned_atom_bytes(value as nat));
    }
    1 + w
}

/// A special value type: the argument of a [`Kind::Special`] atom.
#[derive(Debug, Clone, Copy, PartialEq, Eq, Structural)]
pub enum Special {
    /// The absence of a value.
    Nothing,
    /// A Unit value.
    Unit,
    /// The `false` boolean literal.
    False,
    /// The `true` boolean literal.
    True,
    /// A named value. A symbol followed by another value.
    Named,
    /// A sequence of key-value pairs with an unknown length.
    DynamicMap,
    /// A terminal value for a [`Self::DynamicMap`].
    DynamicEnd,
}

impl Special {
    /// The argument that stands for this special value.
    pub open spec fn spec_id(self) -> u64 {
        match self {
            Special::Nothing => 0,
            Special::Unit => 1,
            Special::False => 2,
            Special::True => 3,
            Special::Named => 4,
            Special::DynamicMap => 5,
            Special::DynamicEnd => 6,
        }
    }

    /// The special value for argument `id`, if there is one.
    pub open spec fn spec_from_id(id: u64) -> Result<Special, UnknownSpecial> {
        if id == 0 {
            Ok(Special::Nothing)
        } else if id == 1 {
            Ok(Special::Unit)
        } else if id == 2 {
            Ok(Special::False)
        } else if id == 3 {
            Ok(Special::True)
        } else if id == 4 {
            Ok(Special::Named)
        } else if id == 5 {
            Ok(Special::DynamicMap)
        } else if id == 6 {
            Ok(Special::DynamicEnd)
        } else {
            Err(UnknownSpecial(id))
        }
    }

    /// Returns the argument that stands for this special value.
    pub fn id(&self) -> (r: u64)
        ensures
            r == self.spec_id(),
    {
        match self {
            Special::Nothing => 0,
            Special::Unit => 1,
            Special::False => 2,
            Special::True => 3,
            Special::Named => 4,
            Special::DynamicMap => 5,
            Special::DynamicEnd => 6,
        }
    }
}

impl TryFrom<u64> for Special {
    type Error = UnknownSpecial;

    fn try_from(value: u64) -> (r: Result<Special, UnknownSpecial>)
        ensures
            r == Special::spec_from_id(value),
    {
        match value {
            0 => Ok(Special::Nothing),
            1 => Ok(Special::Unit),
            2 => Ok(Special::False),
            3 => Ok(Special::True),
            4 => Ok(Special::Named),
            5 => Ok(Special::DynamicMap),
            6 => Ok(Special::DynamicEnd),
            _ => Err(UnknownSpecial(value)),
        }
    }
}

impl vstd::std_specs::convert::TryFromSpecImpl<u64> for Special {
    open spec fn obeys_try_from_spec() -> bool {
        true
    }

    open spec fn try_from_spec(v: u64) -> Result<Special, UnknownSpecial> {
        Special::spec_from_id(v)
    }
}

/// An unknown [`Special`] was encountered.
#[derive(Debug, Clone, Copy, Eq, PartialEq, Structural)]
pub struct UnknownSpecial(pub u64);

/// The decimal digits of `n`.
pub open spec fn decimal_digits(n: nat) -> Seq<char>
    decreases n,
{
    if n < 10 {
        seq![(n + 48) as char]
    } else {
        decimal_digits(n / 10) + seq![((n % 10) + 48) as char]
    }
}

/// `v` written in decimal, with a leading `-` when negative.
pub open spec fn decimal(v: int) -> Seq<char> {
    if v < 0 {
        seq!['-'] + decimal_digits((-v) as nat)
    } else {
        decimal_digits(v as nat)
    }
}

/// Relies on `format!` with `Display` for `u64`: the message followed by the
/// number in decimal.
#[verifier::external_body]
fn unknown_special_message(id: u64) -> (r: String)
    ensures
        r@ == "unknown special id: "@ + decimal(id as int),
{
    format!("unknown special id: {}", id)
}

impl UnknownSpecial {
    /// Describes the error: `unknown special id: ` and the id.
    pub fn to_string(&self) -> (r: String)
        ensures
            r@ == "unknown special id: "@ + decimal(self.0 as int),
    {
        unknown_special_message(self.0)
    }
}

/// The four header bytes of a payload: `Pot` and the version.
pub open spec fn payload_header_bytes(version: u8) -> Seq<u8> {
    seq![0x50u8, 0x6Fu8, 0x74u8, version]
}

/// Writes the payload header: the bytes `Pot` and the version.
pub fn write_header(output: &mut Vec<u8>, version: u8) -> (n: usize)
    ensures
        final(output)@ == old(output)@ + payload_header_bytes(version),
        n == 4,
{
    output.push(0x50);
    output.push(0x6F);
    output.push(0x74);
    output.push(version);
    proof {
        assert(final(output)@ =~= old(output)@ + payload_header_bytes(version));
    }
    4
}

/// Reads a payload header and returns the version it names.
pub fn read_header(reader: &mut SliceReader) -> (r: Result<u8, Error>)
    ensures
        old(reader)@.len() < 4 ==> r == Err::<u8, Error>(Error::Eof),
        old(reader)@.len() >= 4 && old(reader)@.take(3) != seq![0x50u8, 0x6Fu8, 0x74u8] ==> r
            == Err::<u8, Error>(Error::NotAPot),
        old(reader)@.len() >= 4 && old(reader)@.take(3) == seq![0x50u8, 0x6Fu8, 0x74u8] ==> r
            == Ok::<u8, Error>(old(reader)@[3]) && final(reader)@ == old(reader)@.skip(4),
{
    let bytes = match reader.read_bytes(4) {
        Ok(b) => b,
        Err(e) => return Err(e),
    };
    proof {
        assert(bytes@.take(3) == old(reader)@.take(3));
    }
    if bytes[0] == 0x50 && bytes[1] == 0x6F && bytes[2] == 0x74 {
        proof {
            assert(old(reader)@.take(3) =~= seq![0x50u8, 0x6Fu8, 0x74u8]);
        }
        Ok(bytes[3])
    } else {
        proof {
            if old(reader)@.take(3) == seq![0x50u8, 0x6Fu8, 0x74u8] {
                assert(old(reader)@.take(3)[0] == 0x50u8);
                assert(old(reader)@.take(3)[1] == 0x6Fu8);
                assert(old(reader)@.take(3)[2] == 0x74u8);
            }
        }
        Err(Error::NotAPot)
    }
}

/// Writes a [`Kind::Special`] atom.
pub fn write_special(output: &mut Vec<u8>, special: Special) -> (n: usize)
    ensures
        final(output)@ == old(output)@ + atom_header_bytes(Kind::Special, special.spec_id()),
        final(output)@ == old(output)@ + seq![special.spec_id() as u8],
        n == 1,
{
    let n = write_atom_header(output, Kind::Special, special.id());
    proof {
        assert(atom_header_bytes(Kind::Special, special.spec_id()) =~= seq![
            special.spec_id() as u8,
        ]);
    }
    n
}

/// Writes a [`Kind::Special`] atom with [`Special::Nothing`].
pub fn write_none(output: &mut Vec<u8>) -> (n: usize)
    ensures
        final(output)@ == old(output)@ + seq![0u8],
        n == 1,
{
    write_special(output, Special::Nothing)
}

/// Writes a [`Kind::Special`] atom with [`Special::Unit`].
pub fn write_unit(output: &mut Vec<u8>) -> (n: usize)
    ensures
        final(output)@ == old(output)@ + seq![1u8],
        n == 1,
{
    write_special(output, Special::Unit)
}

/// Writes a [`Kind::Special`] atom with [`Special::Named`].
pub fn write_named(output: &mut Vec<u8>) -> (n: usize)
    ensures
        final(output)@ == old(output)@ + seq![4u8],
        n == 1,
{
    write_special(output, Special::Named)
}

/// Writes a [`Kind::Special`] atom with either [`Special::True`] or [`Special::False`].
pub fn write_bool(output: &mut Vec<u8>, boolean: bool) -> (n: usize)
    ensures
        final(output)@ == old(output)@ + seq![
            if boolean {
                3u8
            } else {
                2u8
            },
        ],
        n == 1,
{
    write_special(
        output,
        if boolean {
            Special::True
        } else {
            Special::False
        },
    )
}

/// Writes an [`Kind::Int`] atom holding `value` in one byte.
pub fn write_i8(output: &mut Vec<u8>, value: i8) -> (n: usize)
    ensures
        final(output)@ == old(output)@ + signed_atom_bytes(value as int),
        n == signed_atom_bytes(value as int).len(),
{
    write_signed(output, value as i128)
}

/// Writes an [`Kind::Int`] atom with the given value, in the narrowest width that holds it.
pub fn write_i16(output: &mut Vec<u8>, value: i16) -> (n: usize)
    ensures
        final(output)@ == old(output)@ + signed_atom_bytes(value as int),
        n == signed_atom_bytes(value as int).len(),
{
    write_signed(output, value as i128)
}

/// Writes an [`Kind::Int`] atom for a 24-bit value, in the narrowest width that holds it.
pub fn write_i24(output: &mut Vec<u8>, value: i32) -> (n: usize)
    requires
        -0x80_0000 <= value < 0x80_0000,
    ensures
        final(output)@ == old(output)@ + signed_atom_bytes(value as int),
        n == signed_atom_bytes(value as int).len(),
{
    write_signed(output, value as i128)
}

/// Writes an [`Kind::Int`] atom with the given value, in the narrowest width that holds it.
pub fn write_i32(output: &mut Vec<u8>, value: i32) -> (n: usize)
    ensures
        final(output)@ == old(output)@ + signed_atom_bytes(value as int),
        n == signed_atom_bytes(value as int).len(),
{
    write_signed(output, value as i128)
}

/// Writes an [`Kind::Int`] atom for a 48-bit value, in the narrowest width that holds it.
pub fn write_i48(output: &mut Vec<u8>, value: i64) -> (n: usize)
    requires
        -0x8000_0000_0000 <= value < 0x8000_0000_0000,
    ensures
        final(output)@ == old(output)@ + signed_atom_bytes(value as int),
        n == signed_atom_bytes(value as int).len(),
{
    write_signed(output, value as i128)
}

/// Writes an [`Kind::Int`] atom with the given value, in the narrowest width that holds it.
pub fn write_i64(output: &mut Vec<u8>, value: i64) -> (n: usize)
    ensures
        final(output)@ == old(output)@ + signed_atom_bytes(value as int),
        n == signed_atom_bytes(value as int).len(),
{
    write_signed(output, value as i128)
}

/// Writes an [`Kind::Int`] atom with the given value, in the narrowest width that holds it.
pub fn write_i128(output: &mut Vec<u8>, value: i128) -> (n: usize)
    ensures
        final(output)@ == old(output)@ + signed_atom_bytes(value as int),
        n == signed_atom_bytes(value as int).len(),
{
    write_signed(output, value)
}

/// Writes a [`Kind::UInt`] atom holding `value` in one byte.
pub fn write_u8(output: &mut Vec<u8>, value: u8) -> (n: usize)
    ensures
        final(output)@ == old(output)@ + unsigned_atom_bytes(value as nat),
        n == unsigned_atom_bytes(value as nat).len(),
{
    write_unsigned(output, value as u128)
}

/// Writes a [`Kind::UInt`] atom with the given value, in the narrowest width that holds it.
pub fn write_u16(output: &mut Vec<u8>, value: u16) -> (n: usize)
    ensures
        final(output)@ == old(output)@ + unsigned_atom_bytes(value as nat),
        n == unsigned_atom_bytes(value as nat).len(),
{
    write_unsigned(output, value as u128)
}

/// Writes a [`Kind::UInt`] atom for a 24-bit value, in the narrowest width that holds it.
pub fn write_u24(output: &mut Vec<u8>, value: u32) -> (n: usize)
    requires
        value < 0x100_0000,
    ensures
        final(output)@ == old(output)@ + unsigned_atom_bytes(value as nat),
        n == unsigned_atom_bytes(value as nat).len(),
{
    write_unsigned(output, value as u128)
}

/// Writes a [`Kind::UInt`] atom with the given value, in the narrowest width that holds it.
pub fn write_u32(output: &mut Vec<u8>, value: u32) -> (n: usize)
    ensures
        final(output)@ == old(output)@ + unsigned_atom_bytes(value as nat),
        n == unsigned_atom_bytes(value as nat).len(),
{
    write_unsigned(output, value as u128)
}

/// Writes a [`Kind::UInt`] atom for a 48-bit value, in the narrowest width that holds it.
pub fn write_u48(output: &mut Vec<u8>, value: u64) -> (n: usize)
    requires
        value < 0x1_0000_0000_0000,
    ensures
        final(output)@ == old(output)@ + unsigned_atom_bytes(value as nat),
        n == unsigned_atom_bytes(value as nat).len(),
{
    write_unsigned(output, value as u128)
}

/// Writes a [`Kind::UInt`] atom with the given value, in the narrowest width that holds it.
pub fn write_u64(output: &mut Vec<u8>, value: u64) -> (n: usize)
    ensures
        final(output)@ == old(output)@ + unsigned_atom_bytes(value as nat),
        n == unsigned_atom_bytes(value as nat).len(),
{
    write_unsigned(output, value as u128)
}

/// Writes a [`Kind::UInt`] atom with the given value, in the narrowest width that holds it.
pub fn write_u128(output: &mut Vec<u8>, value: u128) -> (n: usize)
    ensures
        final(output)@ == old(output)@ + unsigned_atom_bytes(value as nat),
        n == unsigned_atom_bytes(value as nat).len(),
{
    write_unsigned(output, value)
}

/// The atom that a byte string is written as.
pub open spec fn bytes_atom_bytes(value: Seq<u8>) -> Seq<u8> {
    atom_header_bytes(Kind::Bytes, value.len() as u64) + value
}

/// Writes a [`Kind::Bytes`] atom with the given value.
pub fn write_bytes(output: &mut Vec<u8>, value: &[u8]) -> (n: usize)
    ensures
        final(output)@ == old(output)@ + bytes_atom_bytes(value@),
        n == bytes_atom_bytes(value@).len(),
{
    let start_len = output.len();
    write_atom_header(output, Kind::Bytes, value.len() as u64);
    let mut i: usize = 0;
    while i < value.len()
        invariant
            i <= value@.len(),
            output@ == old(output)@ + atom_header_bytes(Kind::Bytes, value.len() as u64)
                + value@.take(i as int),
        decreases value.len() - i,
    {
        output.push(value[i]);
        proof {
            assert(value@.take(i + 1 as int) =~= value@.take(i as int).push(value@[i as int]));
        }
        i = i + 1;
    }
    proof {
        assert(value@.take(i as int) =~= value@);
        assert(final(output)@ =~= old(output)@ + bytes_atom_bytes(value@));
    }
    output.len() - start_len
}

/// Writes a [`Kind::Bytes`] atom with the bytes of the string.
pub fn write_str(output: &mut Vec<u8>, value: &str) -> (n: usize)
    ensures
        final(output)@ == old(output)@ + bytes_atom_bytes(value.spec_bytes()),
        n == bytes_atom_bytes(value.spec_bytes()).len(),
{
    write_bytes(output, value.as_bytes())
}

/// An integer as read from or written to an atom, in the carrier that holds it.
#[derive(Clone, Copy, Debug, PartialEq, Eq, Structural)]
pub struct Integer(pub InnerInteger);

/// The carriers that an [`Integer`] may use.
#[derive(Clone, Copy, Debug, PartialEq, Eq, Structural)]
pub enum InnerInteger {
    /// An i8 value.
    I8(i8),
    /// An i16 value.
    I16(i16),
    /// An i32 value.
    I32(i32),
    /// An i64 value.
    I64(i64),
    /// An i128 value.
    I128(i128),
    /// An u8 value.
    U8(u8),
    /// An u16 value.
    U16(u16),
    /// An u32 value.
    U32(u32),
    /// An u64 value.
    U64(u64),
    /// An u128 value.
    U128(u128),
}

/// The carrier that [`Integer::from`] picks for a signed value: the first of
/// `i8`, `u8`, `i16`, `u16`, `i32`, `u32`, `i64`, `u64`, `i128` that holds it.
pub open spec fn narrowest_from_signed(v: int) -> Integer {
    if i8::MIN <= v <= i8::MAX {
        Integer(InnerInteger::I8(v as i8))
    } else if 0 <= v <= u8::MAX {
        Integer(InnerInteger::U8(v as u8))
    } else if i16::MIN <= v <= i16::MAX {
        Integer(InnerInteger::I16(v as i16))
    } else if 0 <= v <= u16::MAX {
        Integer(InnerInteger::U16(v as u16))
    } else if i32::MIN <= v <= i32::MAX {
        Integer(InnerInteger::I32(v as i32))
    } else if 0 <= v <= u32::MAX {
        Integer(InnerInteger::U32(v as u32))
    } else if i64::MIN <= v <= i64::MAX {
        Integer(InnerInteger::I64(v as i64))
    } else if 0 <= v <= u64::MAX {
        Integer(InnerInteger::U64(v as u64))
    } else {
        Integer(InnerInteger::I128(v as i128))
    }
}

/// The carrier that [`Integer::from`] picks for an unsigned value: the first
/// of `u8`, `u16`, `u32`, `u64`, `u128` that holds it.
pub open spec fn narrowest_from_unsigned(v: nat) -> Integer {
    if v <= u8::MAX {
        Integer(InnerInteger::U8(v as u8))
    } else if v <= u16::MAX {
        Integer(InnerInteger::U16(v as u16))
    } else if v <= u32::MAX {
        Integer(InnerInteger::U32(v as u32))
    } else if v <= u64::MAX {
        Integer(InnerInteger::U64(v as u64))
    } else {
        Integer(InnerInteger::U128(v as u128))
    }
}

/// The carrier that an integer atom of `kind` and byte length `w` is read
/// into: the narrowest in-memory type of its signedness that holds `w` bytes.
pub open spec fn read_carrier(kind: Kind, w: nat, v: int) -> Integer {
    if kind == Kind::Int {
        if w == 1 {
            Integer(InnerInteger::I8(v as i8))
        } else if w == 2 {
            Integer(InnerInteger::I16(v as i16))
        } else if w <= 4 {
            Integer(InnerInteger::I32(v as i32))
        } else if w <= 8 {
            Integer(InnerInteger::I64(v as i64))
        } else {
            Integer(InnerInteger::I128(v as i128))
        }
    } else {
        if w == 1 {
            Integer(InnerInteger::U8(v as u8))
        } else if w == 2 {
            Integer(InnerInteger::U16(v as u16))
        } else if w <= 4 {
            Integer(InnerInteger::U32(v as u32))
        } else if w <= 8 {
            Integer(InnerInteger::U64(v as u64))
        } else {
            Integer(InnerInteger::U128(v as u128))
        }
    }
}

/// Reads an integer payload of `w` bytes for an atom of `kind` from the front
/// of `bytes`.
pub open spec fn parse_integer(kind: Kind, w: nat, bytes: Seq<u8>) -> Result<Integer, Error> {
    if kind != Kind::Int && kind != Kind::UInt {
        Err(Error::UnexpectedKind(kind, Kind::Int))
    } else if !is_supported_width(w) {
        Err(Error::UnsupportedByteCount(kind, w as usize))
    } else if bytes.len() < w {
        Err(Error::Eof)
    } else if kind == Kind::Int {
        Ok(read_carrier(kind, w, signed_value(bytes.take(w as int))))
    } else {
        Ok(read_carrier(kind, w, le_value(bytes.take(w as int)) as int))
    }
}

impl Integer {
    /// The number this integer stands for.
    pub open spec fn value(self) -> int {
        match self.0 {
            InnerInteger::I8(v) => v as int,
            InnerInteger::I16(v) => v as int,
            InnerInteger::I32(v) => v as int,
            InnerInteger::I64(v) => v as int,
            InnerInteger::I128(v) => v as int,
            InnerInteger::U8(v) => v as int,
            InnerInteger::U16(v) => v as int,
            InnerInteger::U32(v) => v as int,
            InnerInteger::U64(v) => v as int,
            InnerInteger::U128(v) => v as int,
        }
    }

    /// Whether the carrier is a signed type.
    pub open spec fn is_signed(self) -> bool {
        match self.0 {
            InnerInteger::I8(_) | InnerInteger::I16(_) | InnerInteger::I32(_) | InnerInteger::I64(
                _,
            ) | InnerInteger::I128(_) => true,
            _ => false,
        }
    }

    /// The result of converting to a type whose range is `min..=max`.
    pub open spec fn cast_result(self, min: int, max: int) -> Result<int, Error> {
        if min <= self.value() <= max {
            Ok(self.value())
        } else {
            Err(Error::ImpreciseCastWouldLoseData)
        }
    }

    /// Returns true if the value contained is zero.
    pub fn is_zero(&self) -> (r: bool)
        ensures
            r == (self.value() == 0),
    {
        match self.0 {
            InnerInteger::I8(v) => v == 0,
            InnerInteger::I16(v) => v == 0,
            InnerInteger::I32(v) => v == 0,
            InnerInteger::I64(v) => v == 0,
            InnerInteger::I128(v) => v == 0,
            InnerInteger::U8(v) => v == 0,
            InnerInteger::U16(v) => v == 0,
            InnerInteger::U32(v) => v == 0,
            InnerInteger::U64(v) => v == 0,
            InnerInteger::U128(v) => v == 0,
        }
    }

    /// The value as an `i128`, when it fits.
    fn as_wide_signed(&self) -> (r: Option<i128>)
        ensures
            self.value() <= i128::MAX ==> r == Some(self.value() as i128),
            self.value() > i128::MAX ==> r is None,
    {
        match self.0 {
            InnerInteger::I8(v) => Some(v as i128),
            InnerInteger::I16(v) => Some(v as i128),
            InnerInteger::I32(v) => Some(v as i128),
            InnerInteger::I64(v) => Some(v as i128),
            InnerInteger::I128(v) => Some(v),
            InnerInteger::U8(v) => Some(v as i128),
            InnerInteger::U16(v) => Some(v as i128),
            InnerInteger::U32(v) => Some(v as i128),
            InnerInteger::U64(v) => Some(v as i128),
            InnerInteger::U128(v) => if v <= i128::MAX as u128 {
                Some(v as i128)
            } else {
                None
            },
        }
    }

    /// The value as a `u128`, when it is not negative.
    fn as_wide_unsigned(&self) -> (r: Option<u128>)
        ensures
            self.value() >= 0 ==> r == Some(self.value() as u128),
            self.value() < 0 ==> r is None,
    {
        match self.0 {
            InnerInteger::I8(v) => if v >= 0 {
                Some(v as u128)
            } else {
                None
            },
            InnerInteger::I16(v) => if v >= 0 {
                Some(v as u128)
            } else {
                None
            },
            InnerInteger::I32(v) => if v >= 0 {
                Some(v as u128)
            } else {
                None
            },
            InnerInteger::I64(v) => if v >= 0 {
                Some(v as u128)
            } else {
                None
            },
            InnerInteger::I128(v) => if v >= 0 {
                Some(v as u128)
            } else {
                None
            },
            InnerInteger::U8(v) => Some(v as u128),
            InnerInteger::U16(v) => Some(v as u128),
            InnerInteger::U32(v) => Some(v as u128),
            InnerInteger::U64(v) => Some(v as u128),
            InnerInteger::U128(v) => Some(v),
        }
    }

    /// Returns the contained value as an i8, or an error if the value is unable to fit.
    pub fn as_i8(&self) -> (r: Result<i8, Error>)
        ensures
            r matches Ok(v) ==> self.cast_result(i8::MIN as int, i8::MAX as int) == Ok::<int, Error>(v as int),
            r is Err ==> r == Err::<i8, Error>(Error::ImpreciseCastWouldLoseData) && self.cast_result(i8::MIN as int, i8::MAX as int) is Err,
    {
        match self.as_wide_signed() {
            Some(v) => if -0x80 <= v && v < 0x80 {
                Ok(v as i8)
            } else {
                Err(Error::ImpreciseCastWouldLoseData)
            },
            None => Err(Error::ImpreciseCastWouldLoseData),
        }
    }

    /// Returns the contained value as an i16, or an error if the value is unable to fit.
    pub fn as_i16(&self) -> (r: Result<i16, Error>)
        ensures
            r matches Ok(v) ==> self.cast_result(i16::MIN as int, i16::MAX as int) == Ok::<int, Error>(v as int),
            r is Err ==> r == Err::<i16, Error>(Error::ImpreciseCastWouldLoseData) && self.cast_result(i16::MIN as int, i16::MAX as int) is Err,
    {
        match self.as_wide_signed() {
            Some(v) => if -0x8000 <= v && v < 0x8000 {
                Ok(v as i16)
            } else {
                Err(Error::ImpreciseCastWouldLoseData)
            },
            None => Err(Error::ImpreciseCastWouldLoseData),
        }
    }

    /// Returns the contained value as an i32, or an error if the value is unable to fit.
    pub fn as_i32(&self) -> (r: Result<i32, Error>)
        ensures
            r matches Ok(v) ==> self.cast_result(i32::MIN as int, i32::MAX as int) == Ok::<int, Error>(v as int),
            r is Err ==> r == Err::<i32, Error>(Error::ImpreciseCastWouldLoseData) && self.cast_result(i32::MIN as int, i32::MAX as int) is Err,
    {
        match self.as_wide_signed() {
            Some(v) => if -0x8000_0000 <= v && v < 0x8000_0000 {
                Ok(v as i32)
            } else {
                Err(Error::ImpreciseCastWouldLoseData)
            },
            None => Err(Error::ImpreciseCastWouldLoseData),
        }
    }

    /// Returns the contained value as an i64, or an error if the value is unable to fit.
    pub fn as_i64(&self) -> (r: Result<i64, Error>)
        ensures
            r matches Ok(v) ==> self.cast_result(i64::MIN as int, i64::MAX as int) == Ok::<int, Error>(v as int),
            r is Err ==> r == Err::<i64, Error>(Error::ImpreciseCastWouldLoseData) && self.cast_result(i64::MIN as int, i64::MAX as int) is Err,
    {
        match self.as_wide_signed() {
            Some(v) => if -0x8000_0000_0000_0000 <= v && v < 0x8000_0000_0000_0000 {
                Ok(v as i64)
            } else {
                Err(Error::ImpreciseCastWouldLoseData)
            },
            None => Err(Error::ImpreciseCastWouldLoseData),
        }
    }

    /// Returns the contained value as an i128, or an error if the value is unable to fit.
    pub fn as_i128(&self) -> (r: Result<i128, Error>)
        ensures
            r matches Ok(v) ==> self.cast_result(i128::MIN as int, i128::MAX as int) == Ok::<int, Error>(v as int),
            r is Err ==> r == Err::<i128, Error>(Error::ImpreciseCastWouldLoseData) && self.cast_result(i128::MIN as int, i128::MAX as int) is Err,
    {
        match self.as_wide_signed() {
            Some(v) => Ok(v),
            None => Err(Error::ImpreciseCastWouldLoseData),
        }
    }

    /// Returns the contained value as an u8, or an error if the value is unable to fit.
    pub fn as_u8(&self) -> (r: Result<u8, Error>)
        ensures
            r matches Ok(v) ==> self.cast_result(0, u8::MAX as int) == Ok::<int, Error>(v as int),
            r is Err ==> r == Err::<u8, Error>(Error::ImpreciseCastWouldLoseData) && self.cast_result(0, u8::MAX as int) is Err,
    {
        match self.as_wide_unsigned() {
            Some(v) => if v < 0x100 {
                Ok(v as u8)
            } else {
                Err(Error::ImpreciseCastWouldLoseData)
            },
            None => Err(Error::ImpreciseCastWouldLoseData),
        }
    }

    /// Returns the contained value as an u16, or an error if the value is unable to fit.
    pub fn as_u16(&self) -> (r: Result<u16, Error>)
        ensures
            r matches Ok(v) ==> self.cast_result(0, u16::MAX as int) == Ok::<int, Error>(v as int),
            r is Err ==> r == Err::<u16, Error>(Error::ImpreciseCastWouldLoseData) && self.cast_result(0, u16::MAX as int) is Err,
    {
        match self.as_wide_unsigned() {
            Some(v) => if v < 0x1_0000 {
                Ok(v as u16)
            } else {
                Err(Error::ImpreciseCastWouldLoseData)
            },
            None => Err(Error::ImpreciseCastWouldLoseData),
        }
    }

    /// Returns the contained value as an u32, or an error if the value is unable to fit.
    pub fn as_u32(&self) -> (r: Result<u32, Error>)
        ensures
            r matches Ok(v) ==> self.cast_result(0, u32::MAX as int) == Ok::<int, Error>(v as int),
            r is Err ==> r == Err::<u32, Error>(Error::ImpreciseCastWouldLoseData) && self.cast_result(0, u32::MAX as int) is Err,
    {
        match self.as_wide_unsigned() {
            Some(v) => if v < 0x1_0000_0000 {
                Ok(v as u32)
            } else {
                Err(Error::ImpreciseCastWouldLoseData)
            },
            None => Err(Error::ImpreciseCastWouldLoseData),
        }
    }

    /// Returns the contained value as an u64, or an error if the value is unable to fit.
    pub fn as_u64(&self) -> (r: Result<u64, Error>)
        ensures
            r matches Ok(v) ==> self.cast_result(0, u64::MAX as int) == Ok::<int, Error>(v as int),
            r is Err ==> r == Err::<u64, Error>(Error::ImpreciseCastWouldLoseData) && self.cast_result(0, u64::MAX as int) is Err,
    {
        match self.as_wide_unsigned() {
            Some(v) => if v < 0x1_0000_0000_0000_0000 {
                Ok(v as u64)
            } else {
                Err(Error::ImpreciseCastWouldLoseData)
            },
            None => Err(Error::ImpreciseCastWouldLoseData),
        }
    }

    /// Returns the contained value as an u128, or an error if the value is unable to fit.
    pub fn as_u128(&self) -> (r: Result<u128, Error>)
        ensures
            r matches Ok(v) ==> self.cast_result(0, u128::MAX as int) == Ok::<int, Error>(v as int),
            r is Err ==> r == Err::<u128, Error>(Error::ImpreciseCastWouldLoseData) && self.cast_result(0, u128::MAX as int) is Err,
    {
        match self.as_wide_unsigned() {
            Some(v) => Ok(v),
            None => Err(Error::ImpreciseCastWouldLoseData),
        }
    }
}

fn narrowest_signed(v: i128) -> (r: Integer)
    ensures
        r == narrowest_from_signed(v as int),
{
    if -0x80 <= v && v < 0x80 {
        Integer(InnerInteger::I8(v as i8))
    } else if 0 <= v && v < 0x100 {
        Integer(InnerInteger::U8(v as u8))
    } else if -0x8000 <= v && v < 0x8000 {
        Integer(InnerInteger::I16(v as i16))
    } else if 0 <= v && v < 0x1_0000 {
        Integer(InnerInteger::U16(v as u16))
    } else if -0x8000_0000 <= v && v < 0x8000_0000 {
        Integer(InnerInteger::I32(v as i32))
    } else if 0 <= v && v < 0x1_0000_0000 {
        Integer(InnerInteger::U32(v as u32))
    } else if -0x8000_0000_0000_0000 <= v && v < 0x8000_0000_0000_0000 {
        Integer(InnerInteger::I64(v as i64))
    } else if 0 <= v && v < 0x1_0000_0000_0000_0000 {
        Integer(InnerInteger::U64(v as u64))
    } else {
        Integer(InnerInteger::I128(v))
    }
}

fn narrowest_unsigned(v: u128) -> (r: Integer)
    ensures
        r == narrowest_from_unsigned(v as nat),
{
    if v < 0x100 {
        Integer(InnerInteger::U8(v as u8))
    } else if v < 0x1_0000 {
        Integer(InnerInteger::U16(v as u16))
    } else if v < 0x1_0000_0000 {
        Integer(InnerInteger::U32(v as u32))
    } else if v < 0x1_0000_0000_0000_0000 {
        Integer(InnerInteger::U64(v as u64))
    } else {
        Integer(InnerInteger::U128(v))
    }
}

impl From<i8> for Integer {
    fn from(value: i8) -> (r: Integer)
        ensures
            r == narrowest_from_signed(value as int),
    {
        narrowest_signed(value as i128)
    }
}

impl vstd::std_specs::convert::FromSpecImpl<i8> for Integer {
    open spec fn obeys_from_spec() -> bool {
        true
    }

    open spec fn from_spec(v: i8) -> Integer {
        narrowest_from_signed(v as int)
    }
}

impl From<i16> for Integer {
    fn from(value: i16) -> (r: Integer)
        ensures
            r == narrowest_from_signed(value as int),
    {
        narrowest_signed(value as i128)
    }
}

impl vstd::std_specs::convert::FromSpecImpl<i16> for Integer {
    open spec fn obeys_from_spec() -> bool {
        true
    }

    open spec fn from_spec(v: i16) -> Integer {
        narrowest_from_signed(v as int)
    }
}

impl From<i32> for Integer {
    fn from(value: i32) -> (r: Integer)
        ensures
            r == narrowest_from_signed(value as int),
    {
        narrowest_signed(value as i128)
    }
}

impl vstd::std_specs::convert::FromSpecImpl<i32> for Integer {
    open spec fn obeys_from_spec() -> bool {
        true
    }

    open spec fn from_spec(v: i32) -> Integer {
        narrowest_from_signed(v as int)
    }
}

impl From<i64> for Integer {
    fn from(value: i64) -> (r: Integer)
        ensures
            r == narrowest_from_signed(value as int),
    {
        narrowest_signed(value as i128)
    }
}

impl vstd::std_specs::convert::FromSpecImpl<i64> for Integer {
    open spec fn obeys_from_spec() -> bool {
        true
    }

    open spec fn from_spec(v: i64) -> Integer {
        narrowest_from_signed(v as int)
    }
}

impl From<i128> for Integer {
    fn from(value: i128) -> (r: Integer)
        ensures
            r == narrowest_from_signed(value as int),
    {
        narrowest_signed(value as i128)
    }
}

impl vstd::std_specs::convert::FromSpecImpl<i128> for Integer {
    open spec fn obeys_from_spec() -> bool {
        true
    }

    open spec fn from_spec(v: i128) -> Integer {
        narrowest_from_signed(v as int)
    }
}

impl From<u8> for Integer {
    fn from(value: u8) -> (r: Integer)
        ensures
            r == narrowest_from_unsigned(value as nat),
    {
        narrowest_unsigned(value as u128)
    }
}

impl vstd::std_specs::convert::FromSpecImpl<u8> for Integer {
    open spec fn obeys_from_spec() -> bool {
        true
    }

    open spec fn from_spec(v: u8) -> Integer {
        narrowest_from_unsigned(v as nat)
    }
}

impl From<u16> for Integer {
    fn from(value: u16) -> (r: Integer)
        ensures
            r == narrowest_from_unsigned(value as nat),
    {
        narrowest_unsigned(value as u128)
    }
}

impl vstd::std_specs::convert::FromSpecImpl<u16> for Integer {
    open spec fn obeys_from_spec() -> bool {
        true
    }

    open spec fn from_spec(v: u16) -> Integer {
        narrowest_from_unsigned(v as nat)
    }
}

impl From<u32> for Integer {
    fn from(value: u32) -> (r: Integer)
        ensures
            r == narrowest_from_unsigned(value as nat),
    {
        narrowest_unsigned(value as u128)
    }
}

impl vstd::std_specs::convert::FromSpecImpl<u32> for Integer {
    open spec fn obeys_from_spec() -> bool {
        true
    }

    open spec fn from_spec(v: u32) -> Integer {
        narrowest_from_unsigned(v as nat)
    }
}

impl From<u64> for Integer {
    fn from(value: u64) -> (r: Integer)
        ensures
            r == narrowest_from_unsigned(value as nat),
    {
        narrowest_unsigned(value as u128)
    }
}

impl vstd::std_specs::convert::FromSpecImpl<u64> for Integer {
    open spec fn obeys_from_spec() -> bool {
        true
    }

    open spec fn from_spec(v: u64) -> Integer {
        narrowest_from_unsigned(v as nat)
    }
}

impl From<u128> for Integer {
    fn from(value: u128) -> (r: Integer)
        ensures
            r == narrowest_from_unsigned(value as nat),
    {
        narrowest_unsigned(value as u128)
    }
}

impl vstd::std_specs::convert::FromSpecImpl<u128> for Integer {
    open spec fn obeys_from_spec() -> bool {
        true
    }

    open spec fn from_spec(v: u128) -> Integer {
        narrowest_from_unsigned(v as nat)
    }
}

/// Relies on `i128::to_string` (its `Display`): the number in decimal.
#[verifier::external_body]
fn i128_to_decimal(v: i128) -> (r: String)
    ensures
        r@ == decimal(v as int),
{
    v.to_string()
}

/// Relies on `u128::to_string` (its `Display`): the number in decimal.
#[verifier::external_body]
fn u128_to_decimal(v: u128) -> (r: String)
    ensures
        r@ == decimal(v as int),
{
    v.to_string()
}

/// The number that `n` bytes of little-endian `bytes` stand for.
fn le_value_of(bytes: &[u8]) -> (u: u128)
    requires
        bytes@.len() <= 16,
    ensures
        u == le_value(bytes@),
{
    let mut acc: u128 = 0;
    let mut i: usize = bytes.len();
    proof {
        assert(bytes@.skip(i as int) =~= Seq::<u8>::empty());
    }
    while i > 0
        invariant
            i <= bytes@.len() <= 16,
            acc == le_value(bytes@.skip(i as int)),
        decreases i,
    {
        i = i - 1;
        proof {
            assert(bytes@.skip(i as int).drop_first() =~= bytes@.skip(i + 1 as int));
            lemma_le_value_bound(bytes@.skip(i + 1 as int));
            lemma_pow256_values();
            lemma_pow256_monotone((bytes@.len() - i - 1) as nat, 15);
            assert(acc * 256 + bytes[i as int] < pow256(16)) by (nonlinear_arith)
                requires
                    acc < pow256(15),
                    bytes[i as int] < 256,
                    pow256(16) == 256 * pow256(15),
            ;
        }
        acc = acc * 256 + bytes[i] as u128;
    }
    proof {
        assert(bytes@.skip(0) =~= bytes@);
    }
    acc
}

proof fn lemma_pow256_monotone(a: nat, b: nat)
    requires
        a <= b,
    ensures
        pow256(a) <= pow256(b),
    decreases b,
{
    if a < b {
        lemma_pow256_monotone(a, (b - 1) as nat);
    }
}

/// Half of `256^w`, for a supported width.
fn half_modulus(w: usize) -> (h: u128)
    requires
        is_supported_width(w as nat),
    ensures
        h == pow256(w as nat) / 2,
{
    proof {
        lemma_pow256_values();
    }
    if w == 1 {
        0x80
    } else if w == 2 {
        0x8000
    } else if w == 3 {
        0x80_0000
    } else if w == 4 {
        0x8000_0000
    } else if w == 6 {
        0x8000_0000_0000
    } else if w == 8 {
        0x8000_0000_0000_0000
    } else {
        0x8000_0000_0000_0000_0000_0000_0000_0000
    }
}

impl Integer {
    /// Writes this value using the smallest form possible and returns the
    /// number of bytes written.
    pub fn write_to(&self, output: &mut Vec<u8>) -> (n: usize)
        ensures
            self.is_signed() ==> final(output)@ == old(output)@ + signed_atom_bytes(self.value()),
            !self.is_signed() ==> final(output)@ == old(output)@ + unsigned_atom_bytes(
                self.value() as nat,
            ),
            n == final(output)@.len() - old(output)@.len(),
    {
        match self.0 {
            InnerInteger::I8(v) => write_i8(output, v),
            InnerInteger::I16(v) => write_i16(output, v),
            InnerInteger::I32(v) => write_i32(output, v),
            InnerInteger::I64(v) => write_i64(output, v),
            InnerInteger::I128(v) => write_i128(output, v),
            InnerInteger::U8(v) => write_u8(output, v),
            InnerInteger::U16(v) => write_u16(output, v),
            InnerInteger::U32(v) => write_u32(output, v),
            InnerInteger::U64(v) => write_u64(output, v),
            InnerInteger::U128(v) => write_u128(output, v),
        }
    }

    /// Reads an integer payload of `byte_len` bytes for an atom of `kind`.
    pub fn read_from(kind: Kind, byte_len: usize, reader: &mut SliceReader) -> (r: Result<
        Integer,
        Error,
    >)
        ensures
            r == parse_integer(kind, byte_len as nat, old(reader)@),
            r is Ok ==> final(reader)@ == old(reader)@.skip(byte_len as int),
            (kind != Kind::Int && kind != Kind::UInt) || !is_supported_width(byte_len as nat)
                ==> final(reader)@ == old(reader)@,
    {
        if kind != Kind::Int && kind != Kind::UInt {
            return Err(Error::UnexpectedKind(kind, Kind::Int));
        }
        if !(byte_len == 1 || byte_len == 2 || byte_len == 3 || byte_len == 4 || byte_len == 6
            || byte_len == 8 || byte_len == 16) {
            return Err(Error::UnsupportedByteCount(kind, byte_len));
        }
        let bytes = match reader.read_bytes(byte_len) {
            Ok(b) => b,
            Err(e) => return Err(e),
        };
        let u = le_value_of(bytes);
        proof {
            lemma_le_value_bound(bytes@);
            lemma_pow256_values();
        }
        if kind == Kind::Int {
            let half = half_modulus(byte_len);
            let v: i128 = if u >= half {
                let d = (u - half) as i128;
                d - (half - 1) as i128 - 1
            } else {
                u as i128
            };
            if byte_len == 1 {
                Ok(Integer(InnerInteger::I8(v as i8)))
            } else if byte_len == 2 {
                Ok(Integer(InnerInteger::I16(v as i16)))
            } else if byte_len <= 4 {
                Ok(Integer(InnerInteger::I32(v as i32)))
            } else if byte_len <= 8 {
                Ok(Integer(InnerInteger::I64(v as i64)))
            } else {
                Ok(Integer(InnerInteger::I128(v)))
            }
        } else {
            if byte_len == 1 {
                Ok(Integer(InnerInteger::U8(u as u8)))
            } else if byte_len == 2 {
                Ok(Integer(InnerInteger::U16(u as u16)))
            } else if byte_len <= 4 {
                Ok(Integer(InnerInteger::U32(u as u32)))
            } else if byte_len <= 8 {
                Ok(Integer(InnerInteger::U64(u as u64)))
            } else {
                Ok(Integer(InnerInteger::U128(u)))
            }
        }
    }

    /// Returns the value in decimal, with a leading `-` when negative.
    pub fn to_string(&self) -> (r: String)
        ensures
            r@ == decimal(self.value()),
    {
        match self.as_wide_signed() {
            Some(v) => i128_to_decimal(v),
            None => match self.as_wide_unsigned() {
                Some(v) => u128_to_decimal(v),
                None => i128_to_decimal(0),
            },
        }
    }

    /// Returns the value as an `i32` when an `f32` holds it exactly: when it
    /// lies in `-2^24..2^24`.
    pub fn as_f32_exact(&self) -> (r: Result<i32, Error>)
        ensures
            r matches Ok(v) ==> self.cast_result(-0x100_0000, 0xff_ffff) == Ok::<int, Error>(v as int),
            r is Err ==> r == Err::<i32, Error>(Error::ImpreciseCastWouldLoseData) && self.cast_result(-0x100_0000, 0xff_ffff) is Err,
    {
        match self.as_i32() {
            Ok(v) => if -0x100_0000 <= v && v < 0x100_0000 {
                Ok(v)
            } else {
                Err(Error::ImpreciseCastWouldLoseData)
            },
            Err(e) => Err(e),
        }
    }

    /// Returns the value as an `i64` when an `f64` holds it exactly: when it
    /// lies in `-2^53..2^53`.
    pub fn as_f64_exact(&self) -> (r: Result<i64, Error>)
        ensures
            r matches Ok(v) ==> self.cast_result(-0x20_0000_0000_0000, 0x1f_ffff_ffff_ffff) == Ok::<int, Error>(v as int),
            r is Err ==> r == Err::<i64, Error>(Error::ImpreciseCastWouldLoseData) && self.cast_result(-0x20_0000_0000_0000, 0x1f_ffff_ffff_ffff) is Err,
    {
        match self.as_i64() {
            Ok(v) => if -0x20_0000_0000_0000 <= v && v < 0x20_0000_0000_0000 {
                Ok(v)
            } else {
                Err(Error::ImpreciseCastWouldLoseData)
            },
            Err(e) => Err(e),
        }
    }
}

/// A floating point number as its IEEE-754 bits, in the width it was read
/// or is to be written in.
#[derive(Clone, Copy, Debug, PartialEq, Eq, Structural)]
pub struct Float(pub InnerFloat);

/// The widths a [`Float`] may have.
#[derive(Clone, Copy, Debug, PartialEq, Eq, Structural)]
pub enum InnerFloat {
    /// The bits of a half-precision value.
    F16(u16),
    /// The bits of a single-precision value.
    F32(u32),
    /// The bits of a double-precision value.
    F64(u64),
}

impl Float {
    /// The byte length of this float on the wire.
    pub open spec fn width(self) -> nat {
        match self.0 {
            InnerFloat::F16(_) => 2,
            InnerFloat::F32(_) => 4,
            InnerFloat::F64(_) => 8,
        }
    }

    /// The bits of this float, as an unsigned number.
    pub open spec fn bits(self) -> nat {
        match self.0 {
            InnerFloat::F16(b) => b as nat,
            InnerFloat::F32(b) => b as nat,
            InnerFloat::F64(b) => b as nat,
        }
    }

    /// The float of byte length `w` whose bits are `u`.
    pub open spec fn spec_from_bits(w: nat, u: nat) -> Float {
        if w == 2 {
            Float(InnerFloat::F16(u as u16))
        } else if w == 4 {
            Float(InnerFloat::F32(u as u32))
        } else {
            Float(InnerFloat::F64(u as u64))
        }
    }

    /// Returns true for positive and negative zero.
    pub fn is_zero(&self) -> (r: bool)
        ensures
            r == match self.0 {
                InnerFloat::F16(b) => b % 0x8000 == 0,
                InnerFloat::F32(b) => b % 0x8000_0000 == 0,
                InnerFloat::F64(b) => b % 0x8000_0000_0000_0000 == 0,
            },
    {
        match self.0 {
            InnerFloat::F16(b) => b % 0x8000 == 0,
            InnerFloat::F32(b) => b % 0x8000_0000 == 0,
            InnerFloat::F64(b) => b % 0x8000_0000_0000_0000 == 0,
        }
    }

    /// The narrowest of the forms given for one value: half precision if
    /// given, else single precision if given, else double precision. The
    /// caller gives a narrower form only when it holds the value bit-exactly.
    pub fn narrowest(double: u64, single: Option<u32>, half: Option<u16>) -> (r: Float)
        ensures
            half matches Some(h) ==> r == Float(InnerFloat::F16(h)),
            half is None && single is Some ==> r == Float(InnerFloat::F32(single->Some_0)),
            half is None && single is None ==> r == Float(InnerFloat::F64(double)),
    {
        match half {
            Some(h) => Float(InnerFloat::F16(h)),
            None => match single {
                Some(s) => Float(InnerFloat::F32(s)),
                None => Float(InnerFloat::F64(double)),
            },
        }
    }

    /// Writes this value in its own width and returns the number of bytes written.
    pub fn write_to(&self, output: &mut Vec<u8>) -> (n: usize)
        ensures
            final(output)@ == old(output)@ + float_atom_bytes(*self),
            n == 1 + self.width(),
    {
        let (w, bits): (usize, u128) = match self.0 {
            InnerFloat::F16(b) => (2, b as u128),
            InnerFloat::F32(b) => (4, b as u128),
            InnerFloat::F64(b) => (8, b as u128),
        };
        write_atom_header(output, Kind::Float, (w - 1) as u64);
        write_le(output, bits, w);
        proof {
            assert(final(output)@ =~= old(output)@ + float_atom_bytes(*self));
        }
        1 + w
    }

    /// Reads a float payload of `byte_len` bytes for an atom of `kind`.
    pub fn read_from(kind: Kind, byte_len: usize, reader: &mut SliceReader) -> (r: Result<
        Float,
        Error,
    >)
        ensures
            r == parse_float(kind, byte_len as nat, old(reader)@),
            r is Ok ==> final(reader)@ == old(reader)@.skip(byte_len as int),
            kind != Kind::Float || !(byte_len == 2 || byte_len == 4 || byte_len == 8)
                ==> final(reader)@ == old(reader)@,
    {
        if kind != Kind::Float {
            return Err(Error::UnexpectedKind(kind, Kind::Float));
        }
        if !(byte_len == 2 || byte_len == 4 || byte_len == 8) {
            return Err(Error::UnsupportedByteCount(Kind::Float, byte_len));
        }
        let bytes = match reader.read_bytes(byte_len) {
            Ok(b) => b,
            Err(e) => return Err(e),
        };
        let u = le_value_of(bytes);
        proof {
            lemma_le_value_bound(bytes@);
            lemma_pow256_values();
        }
        if byte_len == 2 {
            Ok(Float(InnerFloat::F16(u as u16)))
        } else if byte_len == 4 {
            Ok(Float(InnerFloat::F32(u as u32)))
        } else {
            Ok(Float(InnerFloat::F64(u as u64)))
        }
    }
}

/// The atom a float is written as: its own width, no narrowing.
pub open spec fn float_atom_bytes(f: Float) -> Seq<u8> {
    atom_header_bytes(Kind::Float, (f.width() - 1) as u64) + le_bytes(f.bits(), f.width())
}

/// Reads a float payload of `w` bytes for an atom of `kind` from the front of `bytes`.
pub open spec fn parse_float(kind: Kind, w: nat, bytes: Seq<u8>) -> Result<Float, Error> {
    if kind != Kind::Float {
        Err(Error::UnexpectedKind(kind, Kind::Float))
    } else if !(w == 2 || w == 4 || w == 8) {
        Err(Error::UnsupportedByteCount(Kind::Float, w as usize))
    } else if bytes.len() < w {
        Err(Error::Eof)
    } else {
        Ok(Float::spec_from_bits(w, le_value(bytes.take(w as int))))
    }
}

/// A value contained within an [`Atom`].
#[derive(Debug)]
pub enum Nucleus<'de> {
    /// A boolean value.
    Boolean(bool),
    /// An integer value.
    Integer(Integer),
    /// A floating point value.
    Float(Float),
    /// A buffer of bytes.
    Bytes(BufferedBytes<'de>),
    /// A unit.
    Unit,
    /// A named value.
    Named,
    /// A marker denoting a map with unknown length is next in the input.
    DynamicMap,
    /// A marker denoting the end of a map with unknown length.
    DynamicEnd,
}

/// What a [`Nucleus`] holds, with its bytes as a sequence.
pub enum NucleusModel {
    /// A boolean value.
    Boolean(bool),
    /// An integer value.
    Integer(Integer),
    /// A floating point value.
    Float(Float),
    /// A run of bytes.
    Bytes(Seq<u8>),
    /// A unit.
    Unit,
    /// A named value.
    Named,
    /// The start of a map with unknown length.
    DynamicMap,
    /// The end of a map with unknown length.
    DynamicEnd,
}

impl<'de> Nucleus<'de> {
    /// What this nucleus holds; borrowed bytes are read from the source and
    /// others from `scratch`.
    pub open spec fn model(self, scratch: Seq<u8>) -> NucleusModel {
        match self {
            Nucleus::Boolean(b) => NucleusModel::Boolean(b),
            Nucleus::Integer(i) => NucleusModel::Integer(i),
            Nucleus::Float(f) => NucleusModel::Float(f),
            Nucleus::Bytes(b) => NucleusModel::Bytes(b.resolve(scratch)),
            Nucleus::Unit => NucleusModel::Unit,
            Nucleus::Named => NucleusModel::Named,
            Nucleus::DynamicMap => NucleusModel::DynamicMap,
            Nucleus::DynamicEnd => NucleusModel::DynamicEnd,
        }
    }
}

/// An encoded [`Kind`], argument, and optional contained value.
#[derive(Debug)]
pub struct Atom<'de> {
    /// The type of atom.
    pub kind: Kind,
    /// The argument contained in the atom header.
    pub arg: u64,
    /// The contained value, if any.
    pub nucleus: Option<Nucleus<'de>>,
}

/// What an [`Atom`] holds.
pub struct AtomModel {
    /// The type of atom.
    pub kind: Kind,
    /// The argument contained in the atom header.
    pub arg: u64,
    /// The contained value, if any.
    pub nucleus: Option<NucleusModel>,
}

impl<'de> Atom<'de> {
    /// What this atom holds, given the scratch buffer it was read with.
    pub open spec fn model(self, scratch: Seq<u8>) -> AtomModel {
        AtomModel {
            kind: self.kind,
            arg: self.arg,
            nucleus: match self.nucleus {
                Some(n) => Some(n.model(scratch)),
                None => None,
            },
        }
    }
}

/// The nucleus of a special atom.
pub open spec fn special_nucleus(special: Special) -> Option<NucleusModel> {
    match special {
        Special::Nothing => None,
        Special::Unit => Some(NucleusModel::Unit),
        Special::False => Some(NucleusModel::Boolean(false)),
        Special::True => Some(NucleusModel::Boolean(true)),
        Special::Named => Some(NucleusModel::Named),
        Special::DynamicMap => Some(NucleusModel::DynamicMap),
        Special::DynamicEnd => Some(NucleusModel::DynamicEnd),
    }
}

/// The in-memory size of an integer or float read from `encoded_length` bytes.
pub open spec fn spec_in_memory_int_size(encoded_length: nat) -> nat {
    if encoded_length == 3 {
        4
    } else if encoded_length == 6 {
        8
    } else {
        encoded_length
    }
}

/// The in-memory size of an integer or float read from `encoded_length`
/// bytes: the 3 and 6 byte forms widen to 4 and 8.
pub fn in_memory_int_size(encoded_length: usize) -> (r: usize)
    ensures
        r == spec_in_memory_int_size(encoded_length as nat),
{
    if encoded_length == 3 {
        4
    } else if encoded_length == 6 {
        8
    } else {
        encoded_length
    }
}

/// Takes `read_amount` from `budget`, or fails with `TooManyBytesRead` when
/// the budget holds less, leaving it unchanged.
pub fn update_budget(budget: &mut usize, read_amount: usize) -> (r: Result<(), Error>)
    ensures
        read_amount <= *old(budget) ==> r is Ok && *final(budget) == *old(budget) - read_amount,
        read_amount > *old(budget) ==> r == Err::<(), Error>(Error::TooManyBytesRead)
            && *final(budget) == *old(budget),
{
    if read_amount <= *budget {
        *budget = *budget - read_amount;
        Ok(())
    } else {
        Err(Error::TooManyBytesRead)
    }
}

/// Reads one atom from the front of `bytes` with `budget` bytes left to
/// allocate: the atom, the number of bytes it takes, and the budget left.
pub open spec fn parse_atom(bytes: Seq<u8>, budget: nat) -> Result<(AtomModel, nat, nat), Error> {
    match parse_atom_header(bytes) {
        Err(e) => Err(e),
        Ok((kind, arg, h)) => {
            let rest = bytes.skip(h as int);
            match kind {
                Kind::Special => match Special::spec_from_id(arg) {
                    Ok(special) => Ok(
                        (AtomModel { kind, arg, nucleus: special_nucleus(special) }, h, budget),
                    ),
                    Err(_) => Err(Error::UnknownSpecial(arg)),
                },
                Kind::Int | Kind::UInt => {
                    let w = arg + 1;
                    let need = spec_in_memory_int_size(w as nat);
                    if need > budget {
                        Err(Error::TooManyBytesRead)
                    } else {
                        match parse_integer(kind, w as nat, rest) {
                            Ok(i) => Ok(
                                (
                                    AtomModel {
                                        kind,
                                        arg,
                                        nucleus: Some(NucleusModel::Integer(i)),
                                    },
                                    (h + w) as nat,
                                    (budget - need) as nat,
                                ),
                            ),
                            Err(e) => Err(e),
                        }
                    }
                },
                Kind::Float => {
                    let w = arg + 1;
                    let need = spec_in_memory_int_size(w as nat);
                    if need > budget {
                        Err(Error::TooManyBytesRead)
                    } else {
                        match parse_float(kind, w as nat, rest) {
                            Ok(f) => Ok(
                                (
                                    AtomModel { kind, arg, nucleus: Some(NucleusModel::Float(f)) },
                                    (h + w) as nat,
                                    (budget - need) as nat,
                                ),
                            ),
                            Err(e) => Err(e),
                        }
                    }
                },
                Kind::Bytes => {
                    if arg > budget {
                        Err(Error::TooManyBytesRead)
                    } else if rest.len() < arg {
                        Err(Error::Eof)
                    } else {
                        Ok(
                            (
                                AtomModel {
                                    kind,
                                    arg,
                                    nucleus: Some(NucleusModel::Bytes(rest.take(arg as int))),
                                },
                                (h + arg) as nat,
                                (budget - arg) as nat,
                            ),
                        )
                    }
                },
                _ => Ok((AtomModel { kind, arg, nucleus: None }, h, budget)),
            }
        },
    }
}

/// Reads an atom, taking what it allocates from `remaining_budget`.
pub fn read_atom<'de>(
    reader: &mut SliceReader<'de>,
    remaining_budget: &mut usize,
    scratch: &mut Vec<u8>,
) -> (r: Result<Atom<'de>, Error>)
    ensures
        parse_atom(old(reader)@, *old(remaining_budget) as nat) matches Ok((m, n, b)) ==> r is Ok
            && r->Ok_0.model(final(scratch)@) == m && final(reader)@ == old(reader)@.skip(n as int)
            && *final(remaining_budget) == b,
        final(scratch)@ == old(scratch)@,
        parse_atom(old(reader)@, *old(remaining_budget) as nat) == Err::<(AtomModel, nat, nat), Error>(
            Error::TooManyBytesRead,
        ) ==> *final(remaining_budget) == *old(remaining_budget),
        parse_atom(old(reader)@, *old(remaining_budget) as nat) matches Err(e) ==> r == Err::<
            Atom<'de>,
            Error,
        >(e),
{
    let ghost start = reader@;
    let (kind, arg) = match read_atom_header(reader) {
        Ok(h) => h,
        Err(e) => return Err(e),
    };
    let ghost h = parse_atom_header(start)->Ok_0.2;
    proof {
        lemma_pow256_values();
        lemma_parse_atom_header_bound(start);
        assert(reader@ == start.skip(h as int));
    }
    match kind {
        Kind::Special => {
            let special = match Special::try_from(arg) {
                Ok(s) => s,
                Err(_) => return Err(Error::UnknownSpecial(arg)),
            };
            let nucleus = match special {
                Special::Nothing => None,
                Special::Unit => Some(Nucleus::Unit),
                Special::False => Some(Nucleus::Boolean(false)),
                Special::True => Some(Nucleus::Boolean(true)),
                Special::Named => Some(Nucleus::Named),
                Special::DynamicMap => Some(Nucleus::DynamicMap),
                Special::DynamicEnd => Some(Nucleus::DynamicEnd),
            };
            Ok(Atom { kind, arg, nucleus })
        },
        Kind::Int | Kind::UInt => {
            if arg >= *remaining_budget as u64 {
                return Err(Error::TooManyBytesRead);
            }
            let w = arg as usize + 1;
            let need = in_memory_int_size(w);
            match update_budget(remaining_budget, need) {
                Ok(()) => {},
                Err(e) => return Err(e),
            }
            let ghost mid = reader@;
            match Integer::read_from(kind, w, reader) {
                Ok(i) => {
                    proof {
                        assert(mid.skip(w as int) =~= start.skip(h + w as int));
                    }
                    Ok(Atom { kind, arg, nucleus: Some(Nucleus::Integer(i)) })
                },
                Err(e) => Err(e),
            }
        },
        Kind::Float => {
            if arg >= *remaining_budget as u64 {
                return Err(Error::TooManyBytesRead);
            }
            let w = arg as usize + 1;
            let need = in_memory_int_size(w);
            match update_budget(remaining_budget, need) {
                Ok(()) => {},
                Err(e) => return Err(e),
            }
            let ghost mid = reader@;
            match Float::read_from(kind, w, reader) {
                Ok(f) => {
                    proof {
                        assert(mid.skip(w as int) =~= start.skip(h + w as int));
                    }
                    Ok(Atom { kind, arg, nucleus: Some(Nucleus::Float(f)) })
                },
                Err(e) => Err(e),
            }
        },
        Kind::Bytes => {
            if arg > *remaining_budget as u64 {
                return Err(Error::TooManyBytesRead);
            }
            let len = arg as usize;
            match update_budget(remaining_budget, len) {
                Ok(()) => {},
                Err(e) => return Err(e),
            }
            let ghost mid = reader@;
            match reader.read_bytes(len) {
                Ok(bytes) => {
                    proof {
                        assert(mid.skip(len as int) =~= start.skip(h + len as int));
                    }
                    Ok(Atom { kind, arg, nucleus: Some(Nucleus::Bytes(BufferedBytes::Data(bytes))) })
                },
                Err(e) => Err(e),
            }
        },
        _ => Ok(Atom { kind, arg, nucleus: None }),
    }
}

} // verus!
