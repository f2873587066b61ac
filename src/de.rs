use vstd::prelude::*;

use crate::error::Error;
use crate::format::{
    atom_header_bytes, bytes_atom_bytes, float_atom_bytes, fits_signed, lemma_atom_header_round_trip,
    lemma_le_round_trip, lemma_pow256_values, lemma_signed_atom, lemma_unsigned_atom, le_bytes, pow256,
    read_carrier, signed_atom_bytes, spec_in_memory_int_size, signed_width, twos_complement, unsigned_atom_bytes, unsigned_width,
    parse_atom, read_atom, read_header, Atom, AtomModel, Float, Integer, Kind, Nucleus,
    NucleusModel, CURRENT_VERSION,
};
use crate::reader::{BufferedBytes, SliceReader};
use vstd::string::StringSliceAdditionalSpecFns;
use vstd::utf8::{encode_utf8, valid_utf8};

verus! {

/// Relies on `std::str::from_utf8`: it lends `bytes` as a string exactly
/// when they are valid UTF-8.
#[verifier::external_body]
pub(crate) fn utf8_str(bytes: &[u8]) -> (r: Option<&str>)
    ensures
        r is Some <==> valid_utf8(bytes@),
        r matches Some(s) ==> s.spec_bytes() == bytes@,
{
    std::str::from_utf8(bytes).ok()
}

/// A symbol as a decoder stored it: lent from the input, or owned.
#[derive(Debug)]
pub enum SymbolListEntry<'de> {
    /// A symbol borrowed from the data being decoded.
    Borrowed(&'de str),
    /// A symbol copied into the list.
    Owned(String),
}

impl<'de> SymbolListEntry<'de> {
    /// The UTF-8 bytes of the symbol.
    pub open spec fn bytes(self) -> Seq<u8> {
        match self {
            SymbolListEntry::Borrowed(s) => s.spec_bytes(),
            SymbolListEntry::Owned(s) => encode_utf8(s@),
        }
    }
}

/// A symbol stored in a [`SymbolList`].
pub enum SymbolStr<'de, 'ephemeral> {
    /// A symbol that has been borrowed from the data being deserialized.
    Data(&'de str),
    /// A symbol that is stored inside of the [`SymbolList`].
    InList(&'ephemeral str),
}

impl<'de, 'ephemeral> SymbolStr<'de, 'ephemeral> {
    /// The UTF-8 bytes of the symbol.
    pub open spec fn bytes(self) -> Seq<u8> {
        match self {
            SymbolStr::Data(s) => s.spec_bytes(),
            SymbolStr::InList(s) => s.spec_bytes(),
        }
    }

    /// Returns the symbol as a string slice.
    pub fn as_str(&self) -> (r: &str)
        ensures
            r.spec_bytes() == self.bytes(),
    {
        match self {
            SymbolStr::Data(s) => s,
            SymbolStr::InList(s) => s,
        }
    }
}

/// A collection of symbols accumulated during deserialization, in id order.
#[derive(Debug)]
pub struct SymbolList<'de> {
    entries: Vec<SymbolListEntry<'de>>,
}

/// A [`SymbolList`] that owns its symbols. It persists the symbols of a
/// sequence of payloads written with a persistent [`crate::ser::SymbolMap`].
pub type SymbolMap = SymbolList<'static>;

impl<'de> Default for SymbolList<'de> {
    fn default() -> (r: SymbolList<'de>)
        ensures
            r@ == Seq::<Seq<u8>>::empty(),
    {
        SymbolList::new()
    }
}

impl<'de> View for SymbolList<'de> {
    type V = Seq<Seq<u8>>;

    closed spec fn view(&self) -> Seq<Seq<u8>> {
        self.entries@.map_values(|e: SymbolListEntry<'de>| e.bytes())
    }
}

impl<'de> SymbolList<'de> {
    /// Returns a new, empty symbol list.
    pub fn new() -> (r: SymbolList<'de>)
        ensures
            r@ == Seq::<Seq<u8>>::empty(),
    {
        let r = SymbolList { entries: Vec::new() };
        proof {
            assert(r@ =~= Seq::<Seq<u8>>::empty());
        }
        r
    }

    /// Push a symbol that has been borrowed from the deserialization source.
    pub fn push_borrowed(&mut self, borrowed: &'de str)
        ensures
            final(self)@ == old(self)@.push(borrowed.spec_bytes()),
    {
        self.entries.push(SymbolListEntry::Borrowed(borrowed));
        proof {
            assert(final(self)@ =~= old(self)@.push(borrowed.spec_bytes()));
        }
    }

    /// Push a symbol that cannot be borrowed from the deserialization source.
    pub fn push(&mut self, ephemeral: &str)
        ensures
            final(self)@ == old(self)@.push(ephemeral.spec_bytes()),
    {
        self.entries.push(SymbolListEntry::Owned(ephemeral.to_owned()));
        proof {
            assert(final(self)@ =~= old(self)@.push(ephemeral.spec_bytes()));
        }
    }

    fn resolve_entry<'a>(entry: &'a SymbolListEntry<'de>) -> (r: SymbolStr<'de, 'a>)
        ensures
            r.bytes() == entry.bytes(),
    {
        match entry {
            SymbolListEntry::Borrowed(s) => SymbolStr::Data(s),
            SymbolListEntry::Owned(s) => SymbolStr::InList(s.as_str()),
        }
    }

    /// Return the symbol stored at `index`, or `None` if `index` is out of
    /// bounds.
    pub fn get<'a>(&'a self, index: usize) -> (r: Option<SymbolStr<'de, 'a>>)
        ensures
            index < self@.len() ==> r is Some && r->Some_0.bytes() == self@[index as int],
            index >= self@.len() ==> r is None,
    {
        if index < self.entries.len() {
            Some(SymbolList::resolve_entry(&self.entries[index]))
        } else {
            None
        }
    }

    /// Returns the number of entries in the symbol list.
    pub fn len(&self) -> (r: usize)
        ensures
            r == self@.len(),
    {
        self.entries.len()
    }

    /// Returns true if there are no symbols in this list.
    pub fn is_empty(&self) -> (r: bool)
        ensures
            r == (self@.len() == 0),
    {
        self.entries.len() == 0
    }

    /// Writes the symbols in id order, as a sequence of strings: the same
    /// bytes as an encoder's map that holds the same symbols.
    pub fn serialize_into(&self, serializer: &mut crate::ser::Serializer)
        requires
            old(serializer).well_formed(),
        ensures
            final(serializer).well_formed(),
            final(serializer).symbols() == old(serializer).symbols(),
            final(serializer).mode() == old(serializer).mode(),
            final(serializer).written() == old(serializer).written()
                + crate::ser::symbol_list_bytes(self@),
    {
        serializer.serialize_tuple(self.entries.len());
        let ghost start = serializer.written();
        let mut i: usize = 0;
        while i < self.entries.len()
            invariant
                i <= self@.len(),
                self@.len() == self.entries@.len(),
                serializer.well_formed(),
                serializer.symbols() == old(serializer).symbols(),
                serializer.mode() == old(serializer).mode(),
                serializer.written() + crate::ser::symbol_entries_bytes(self@, i as nat) == start
                    + crate::ser::symbol_entries_bytes(self@, 0),
            decreases self.entries.len() - i,
        {
            let ghost before = serializer.written();
            let text: &str = match &self.entries[i] {
                SymbolListEntry::Borrowed(s) => s,
                SymbolListEntry::Owned(s) => s.as_str(),
            };
            serializer.serialize_str(text);
            proof {
                assert(before + crate::ser::symbol_entries_bytes(self@, i as nat) =~= serializer.written()
                    + crate::ser::symbol_entries_bytes(self@, (i + 1) as nat));
            }
            i = i + 1;
        }
        proof {
            assert(serializer.written() =~= serializer.written() + crate::ser::symbol_entries_bytes(
                self@,
                i as nat,
            ));
            assert(serializer.written() =~= old(serializer).written()
                + crate::ser::symbol_list_bytes(self@));
        }
    }

    /// Reads a list of symbols written as a sequence of strings, keeping
    /// their order as their ids.
    pub fn deserialize_from(deserializer: &mut Deserializer<'de>) -> (r: Result<SymbolMap, Error>)
        ensures
            old(deserializer).next() matches Err(e) ==> r matches Err(f) && f == e,
            old(deserializer).next() matches Ok((a, rest, b)) ==> (seq_read(a) matches Err(e)
                ==> r matches Err(f) && f == e),
            old(deserializer).next() matches Ok((a, rest, b)) ==> (r matches Ok(list) ==> seq_read(a)
                matches Ok(n) && strings_read(rest, b, old(deserializer).symbols(), n as nat, Seq::empty())
                matches Ok((names, rest2, b2, symbols2)) && list@ == names && final(deserializer).remaining()
                == rest2 && final(deserializer).symbols() == symbols2),
            old(deserializer).next() matches Ok((a, rest, b)) ==> (seq_read(a) matches Ok(n) ==> (
            r matches Err(e) ==> strings_read(rest, b, old(deserializer).symbols(), n as nat, Seq::empty())
                == Err::<(Seq<Seq<u8>>, Seq<u8>, nat, Seq<Seq<u8>>), Error>(e))),
    {
        let count = match deserializer.deserialize_seq() {
            Ok(n) => n,
            Err(e) => return Err(e),
        };
        let ghost rest0 = deserializer.remaining();
        let ghost b0 = deserializer.budget();
        let ghost syms0 = deserializer.symbols();
        let mut list: SymbolList<'static> = SymbolList::new();
        let mut i: u64 = 0;
        while i < count
            invariant
                i <= count,
                old(deserializer).next() is Ok,
                seq_read(old(deserializer).next()->Ok_0.0) == Ok::<u64, Error>(count),
                rest0 == old(deserializer).next()->Ok_0.1,
                b0 == old(deserializer).next()->Ok_0.2,
                syms0 == old(deserializer).symbols(),
                deserializer.peeked() is None,
                strings_read(deserializer.remaining(), deserializer.budget(), deserializer.symbols(), (count - i) as nat, list@)
                    == strings_read(rest0, b0, syms0, count as nat, Seq::empty()),
            decreases count - i,
        {
            let ghost before = list@;
            let ghost rem = deserializer.remaining();
            let ghost bud = deserializer.budget();
            let ghost syms = deserializer.symbols();
            let name = match deserializer.deserialize_str() {
                Ok(s) => s,
                Err(e) => {
                    proof {
                        assert(strings_read(rem, bud, syms, (count - i) as nat, before) == Err::<
                            (Seq<Seq<u8>>, Seq<u8>, nat, Seq<Seq<u8>>),
                            Error,
                        >(e));
                    }
                    return Err(e);
                },
            };
            list.push(name.as_str());
            proof {
                let (a, k, b) = parse_atom(rem, bud)->Ok_0;
                assert(strings_read(rem, bud, syms, (count - i) as nat, before) == strings_read(
                    deserializer.remaining(),
                    deserializer.budget(),
                    deserializer.symbols(),
                    (count - i - 1) as nat,
                    list@,
                ));
            }
            i = i + 1;
        }
        Ok(list)
    }

    /// Copies every borrowed symbol, so the list no longer borrows the input.
    pub fn into_owned(self) -> (r: SymbolMap)
        ensures
            r@ == self@,
    {
        let mut entries: Vec<SymbolListEntry<'static>> = Vec::new();
        let mut i: usize = 0;
        while i < self.entries.len()
            invariant
                i <= self.entries@.len(),
                entries@.len() == i,
                forall|j: int| 0 <= j < i ==> #[trigger] entries@[j].bytes() == self.entries@[j].bytes(),
            decreases self.entries.len() - i,
        {
            let text: &str = match &self.entries[i] {
                SymbolListEntry::Borrowed(s) => s,
                SymbolListEntry::Owned(s) => s.as_str(),
            };
            entries.push(SymbolListEntry::Owned(text.to_owned()));
            i = i + 1;
        }
        let r = SymbolList { entries };
        proof {
            assert(r@ =~= self@);
        }
        r
    }
}

/// The symbols a decoder uses for one payload: a temporary list that may
/// borrow from the input, or a persistent list that owns every symbol and is
/// handed back when the payload has been read.
pub struct SymbolMapRef<'de> {
    list: SymbolList<'de>,
    persistent: bool,
}

impl<'de> View for SymbolMapRef<'de> {
    type V = Seq<Seq<u8>>;

    closed spec fn view(&self) -> Seq<Seq<u8>> {
        self.list@
    }
}

impl<'de> SymbolMapRef<'de> {
    /// Whether symbols are kept across payloads.
    pub closed spec fn is_persistent(&self) -> bool {
        self.persistent
    }

    /// A temporary, empty symbol list.
    pub fn temporary() -> (r: SymbolMapRef<'de>)
        ensures
            r@ == Seq::<Seq<u8>>::empty(),
            !r.is_persistent(),
    {
        SymbolMapRef { list: SymbolList::new(), persistent: false }
    }

    /// A persistent list that continues `list`.
    pub fn persistent(list: SymbolMap) -> (r: SymbolMapRef<'de>)
        ensures
            r@ == list@,
            r.is_persistent(),
    {
        let mut entries: Vec<SymbolListEntry<'de>> = Vec::new();
        let mut i: usize = 0;
        while i < list.entries.len()
            invariant
                i <= list.entries@.len(),
                entries@.len() == i,
                forall|j: int| 0 <= j < i ==> #[trigger] entries@[j].bytes() == list.entries@[j].bytes(),
            decreases list.entries.len() - i,
        {
            let text: &str = match &list.entries[i] {
                SymbolListEntry::Borrowed(s) => s,
                SymbolListEntry::Owned(s) => s.as_str(),
            };
            entries.push(SymbolListEntry::Owned(text.to_owned()));
            i = i + 1;
        }
        let r = SymbolMapRef { list: SymbolList { entries }, persistent: true };
        proof {
            assert(r@ =~= list@);
        }
        r
    }

    /// Appends a symbol copied from `symbol`.
    pub fn push(&mut self, symbol: &str)
        ensures
            final(self)@ == old(self)@.push(symbol.spec_bytes()),
            final(self).is_persistent() == old(self).is_persistent(),
    {
        self.list.push(symbol);
    }

    /// Appends a symbol lent by the input; a persistent list copies it.
    pub fn push_borrowed(&mut self, symbol: &'de str)
        ensures
            final(self)@ == old(self)@.push(symbol.spec_bytes()),
            final(self).is_persistent() == old(self).is_persistent(),
    {
        if self.persistent {
            self.list.push(symbol);
        } else {
            self.list.push_borrowed(symbol);
        }
    }

    /// Returns the symbol with id `id`, if there is one.
    pub fn get<'a>(&'a self, id: usize) -> (r: Option<SymbolStr<'de, 'a>>)
        ensures
            id < self@.len() ==> r is Some && r->Some_0.bytes() == self@[id as int],
            id >= self@.len() ==> r is None,
    {
        self.list.get(id)
    }

    /// Returns the number of symbols.
    pub fn len(&self) -> (r: usize)
        ensures
            r == self@.len(),
    {
        self.list.len()
    }

    /// Returns the symbols, all owned.
    pub fn into_list(self) -> (r: SymbolMap)
        ensures
            r@ == self@,
    {
        self.list.into_owned()
    }
}

/// The atom that comes next: the one looked at already, or the one parsed
/// from `remaining`; with the input and the budget left after it.
pub open spec fn next_atom(remaining: Seq<u8>, peeked: Option<AtomModel>, budget: nat) -> Result<
    (AtomModel, Seq<u8>, nat),
    Error,
> {
    match peeked {
        Some(a) => Ok((a, remaining, budget)),
        None => match parse_atom(remaining, budget) {
            Ok((a, n, b)) => Ok((a, remaining.skip(n as int), b)),
            Err(e) => Err(e),
        },
    }
}

/// Whether `a` is a unit or the absence of a value.
pub open spec fn is_unit_or_none(a: AtomModel) -> bool {
    a.kind == Kind::Special && (a.nucleus is None || a.nucleus == Some(NucleusModel::Unit))
}

/// An integer requested in the range `min..=max`, read from `a`. Units and
/// absent values read as zero.
pub open spec fn integer_read(a: AtomModel, min: int, max: int) -> Result<int, Error> {
    if (a.kind == Kind::Int || a.kind == Kind::UInt) && a.nucleus is Some && a.nucleus->Some_0 is Integer {
        a.nucleus->Some_0->Integer_0.cast_result(min, max)
    } else if is_unit_or_none(a) {
        Ok(0)
    } else {
        Err(Error::UnexpectedKind(a.kind, Kind::Int))
    }
}

/// A boolean read from `a`: integers are true when not zero; units and
/// absent values read as false.
pub open spec fn bool_read(a: AtomModel) -> Result<bool, Error> {
    if a.kind == Kind::Special || a.kind == Kind::Int || a.kind == Kind::UInt {
        match a.nucleus {
            Some(NucleusModel::Integer(i)) => Ok(i.value() != 0),
            Some(NucleusModel::Boolean(b)) => Ok(b),
            Some(NucleusModel::Unit) => Ok(false),
            None => Ok(false),
            _ => Err(Error::UnexpectedKind(a.kind, Kind::Special)),
        }
    } else {
        Err(Error::UnexpectedKind(a.kind, Kind::Special))
    }
}

/// A number read from `a`: an integer or a float; units and absent values
/// read as the integer zero.
pub open spec fn number_read(a: AtomModel) -> Result<Number, Error> {
    match a.nucleus {
        Some(NucleusModel::Integer(i)) => Ok(Number::Integer(i)),
        Some(NucleusModel::Float(f)) => Ok(Number::Float(f)),
        _ => if is_unit_or_none(a) {
            Ok(Number::Integer(Integer(crate::format::InnerInteger::U8(0))))
        } else {
            Err(Error::UnexpectedKind(a.kind, Kind::Float))
        },
    }
}

/// The element count of a sequence read from `a`; units and absent values
/// read as empty.
pub open spec fn seq_read(a: AtomModel) -> Result<u64, Error> {
    if a.kind == Kind::Sequence {
        Ok(a.arg)
    } else if is_unit_or_none(a) {
        Ok(0)
    } else {
        Err(Error::UnexpectedKind(a.kind, Kind::Sequence))
    }
}

/// The entry count of a map read from `a`, `None` for a map that ends with
/// a marker; units and absent values read as empty.
pub open spec fn map_read(a: AtomModel) -> Result<Option<u64>, Error> {
    if a.kind == Kind::Mapping {
        Ok(Some(a.arg))
    } else if a.kind == Kind::Special && a.nucleus == Some(NucleusModel::DynamicMap) {
        Ok(None)
    } else if is_unit_or_none(a) {
        Ok(Some(0))
    } else {
        Err(Error::UnexpectedKind(a.kind, Kind::Mapping))
    }
}

/// A unit read from `a`.
pub open spec fn unit_read(a: AtomModel) -> Result<(), Error> {
    if a.kind == Kind::Special && a.nucleus == Some(NucleusModel::Unit) {
        Ok(())
    } else {
        Err(Error::UnexpectedKind(a.kind, Kind::Special))
    }
}

/// Resolves a symbol atom's argument against `symbols`, with `rest` the
/// input after the atom: the symbol's bytes, the input after them and the
/// symbols after them.
pub open spec fn symbol_read(arg: u64, rest: Seq<u8>, symbols: Seq<Seq<u8>>) -> (
    Result<Seq<u8>, Error>,
    Seq<u8>,
    Seq<Seq<u8>>,
) {
    let x = arg / 2;
    if arg % 2 == 1 {
        if x < symbols.len() {
            (Ok(symbols[x as int]), rest, symbols)
        } else {
            (Err(Error::UnknownSymbol(x)), rest, symbols)
        }
    } else if rest.len() < x {
        (Err(Error::Eof), rest, symbols)
    } else if !valid_utf8(rest.take(x as int)) {
        (Err(Error::InvalidUtf8), rest, symbols)
    } else {
        (Ok(rest.take(x as int)), rest.skip(x as int), symbols.push(rest.take(x as int)))
    }
}

/// The UTF-8 bytes of a string read from `a` (with `rest` and `symbols` as
/// in [`symbol_read`]): a symbol, or a byte atom holding UTF-8; units and
/// absent values read as empty.
pub open spec fn str_read(a: AtomModel, rest: Seq<u8>, symbols: Seq<Seq<u8>>) -> (
    Result<Seq<u8>, Error>,
    Seq<u8>,
    Seq<Seq<u8>>,
) {
    if a.kind == Kind::Symbol {
        symbol_read(a.arg, rest, symbols)
    } else if a.kind == Kind::Bytes && a.nucleus is Some && a.nucleus->Some_0 is Bytes {
        let b = a.nucleus->Some_0->Bytes_0;
        if valid_utf8(b) {
            (Ok(b), rest, symbols)
        } else {
            (Err(Error::InvalidUtf8), rest, symbols)
        }
    } else if is_unit_or_none(a) {
        (Ok(Seq::empty()), rest, symbols)
    } else {
        (Err(Error::UnexpectedKind(a.kind, Kind::Bytes)), rest, symbols)
    }
}

/// The name read where an identifier is expected: a symbol, or a byte atom
/// holding UTF-8.
pub open spec fn identifier_read(a: AtomModel, rest: Seq<u8>, symbols: Seq<Seq<u8>>) -> (
    Result<Seq<u8>, Error>,
    Seq<u8>,
    Seq<Seq<u8>>,
) {
    if a.kind == Kind::Symbol || (a.kind == Kind::Bytes && a.nucleus is Some) {
        str_read(a, rest, symbols)
    } else {
        (Err(Error::UnexpectedKind(a.kind, Kind::Symbol)), rest, symbols)
    }
}

/// Reads `n` byte-sized integer atoms from the front of `remaining`,
/// appending them to `acc`: the bytes, the input after them and the budget left.
pub open spec fn byte_elements(remaining: Seq<u8>, budget: nat, n: nat, acc: Seq<u8>) -> Result<
    (Seq<u8>, Seq<u8>, nat),
    Error,
>
    decreases n,
{
    if n == 0 {
        Ok((acc, remaining, budget))
    } else {
        match parse_atom(remaining, budget) {
            Err(e) => Err(e),
            Ok((a, k, b)) => match a.nucleus {
                Some(NucleusModel::Integer(i)) => match i.cast_result(0, 255) {
                    Ok(v) => byte_elements(remaining.skip(k as int), b, (n - 1) as nat, acc.push(v as u8)),
                    Err(e) => Err(e),
                },
                _ => Err(Error::UnexpectedKind(a.kind, Kind::UInt)),
            },
        }
    }
}

/// A byte string read from `a`, with `rest` and `budget` what is left after
/// it: a byte atom, or a sequence of integers that fit a byte; a unit or an
/// absent value reads as empty. Gives the bytes, the input and the budget left.
pub open spec fn bytes_read(a: AtomModel, rest: Seq<u8>, budget: nat) -> Result<
    (Seq<u8>, Seq<u8>, nat),
    Error,
> {
    if a.kind == Kind::Bytes && a.nucleus is Some && a.nucleus->Some_0 is Bytes {
        Ok((a.nucleus->Some_0->Bytes_0, rest, budget))
    } else if a.kind == Kind::Sequence {
        byte_elements(rest, budget, a.arg as nat, Seq::empty())
    } else if is_unit_or_none(a) {
        Ok((Seq::empty(), rest, budget))
    } else {
        Err(Error::UnexpectedKind(a.kind, Kind::Bytes))
    }
}

/// What a self-describing read of an atom finds.
pub enum VisitModel {
    /// The absence of a value.
    Nothing,
    /// A unit.
    Unit,
    /// A boolean.
    Bool(bool),
    /// An integer.
    Integer(Integer),
    /// A float.
    Float(Float),
    /// A string, as its UTF-8 bytes.
    Str(Seq<u8>),
    /// Bytes that are not UTF-8.
    Bytes(Seq<u8>),
    /// A sequence of this many elements.
    Sequence(u64),
    /// A map of this many entries, or one that ends with a marker.
    Mapping(Option<u64>),
    /// A named value: a map of one entry, a name and its value.
    Named,
}

/// A self-describing read of atom `a` (with `rest` and `symbols` as in
/// [`symbol_read`]): picks the obvious model type for it.
pub open spec fn any_read(a: AtomModel, rest: Seq<u8>, symbols: Seq<Seq<u8>>) -> (
    Result<VisitModel, Error>,
    Seq<u8>,
    Seq<Seq<u8>>,
) {
    match a.kind {
        Kind::Special => match a.nucleus {
            None => (Ok(VisitModel::Nothing), rest, symbols),
            Some(NucleusModel::Unit) => (Ok(VisitModel::Unit), rest, symbols),
            Some(NucleusModel::Boolean(b)) => (Ok(VisitModel::Bool(b)), rest, symbols),
            Some(NucleusModel::Named) => (Ok(VisitModel::Named), rest, symbols),
            Some(NucleusModel::DynamicMap) => (Ok(VisitModel::Mapping(None)), rest, symbols),
            _ => (Err(Error::UnexpectedKind(Kind::Special, Kind::Special)), rest, symbols),
        },
        Kind::Int | Kind::UInt => match a.nucleus {
            Some(NucleusModel::Integer(i)) => (Ok(VisitModel::Integer(i)), rest, symbols),
            _ => (Err(Error::UnexpectedKind(a.kind, Kind::Int)), rest, symbols),
        },
        Kind::Float => match a.nucleus {
            Some(NucleusModel::Float(f)) => (Ok(VisitModel::Float(f)), rest, symbols),
            _ => (Err(Error::UnexpectedKind(a.kind, Kind::Float)), rest, symbols),
        },
        Kind::Sequence => (Ok(VisitModel::Sequence(a.arg)), rest, symbols),
        Kind::Mapping => (Ok(VisitModel::Mapping(Some(a.arg))), rest, symbols),
        Kind::Symbol => match symbol_read(a.arg, rest, symbols) {
            (Ok(s), r, t) => (Ok(VisitModel::Str(s)), r, t),
            (Err(e), r, t) => (Err(e), r, t),
        },
        Kind::Bytes => match a.nucleus {
            Some(NucleusModel::Bytes(b)) => if valid_utf8(b) {
                (Ok(VisitModel::Str(b)), rest, symbols)
            } else {
                (Ok(VisitModel::Bytes(b)), rest, symbols)
            },
            _ => (Err(Error::UnexpectedKind(a.kind, Kind::Bytes)), rest, symbols),
        },
    }
}

/// What a self-describing read found, to be handed to a visitor.
#[derive(Debug)]
pub enum Visit<'de> {
    /// The absence of a value.
    Nothing,
    /// A unit.
    Unit,
    /// A boolean.
    Bool(bool),
    /// An integer.
    Integer(Integer),
    /// A float.
    Float(Float),
    /// A string.
    Str(DecodedStr<'de>),
    /// Bytes that are not UTF-8.
    Bytes(DecodedBytes<'de>),
    /// A sequence of this many elements.
    Sequence(u64),
    /// A map of this many entries, or one that ends with a marker.
    Mapping(Option<u64>),
    /// A named value: a map of one entry, a name and its value.
    Named,
}

impl<'de> Visit<'de> {
    /// What this visit holds.
    pub open spec fn model(self) -> VisitModel {
        match self {
            Visit::Nothing => VisitModel::Nothing,
            Visit::Unit => VisitModel::Unit,
            Visit::Bool(b) => VisitModel::Bool(b),
            Visit::Integer(i) => VisitModel::Integer(i),
            Visit::Float(f) => VisitModel::Float(f),
            Visit::Str(s) => VisitModel::Str(s.bytes()),
            Visit::Bytes(b) => VisitModel::Bytes(b.bytes()),
            Visit::Sequence(n) => VisitModel::Sequence(n),
            Visit::Mapping(n) => VisitModel::Mapping(n),
            Visit::Named => VisitModel::Named,
        }
    }
}

/// Bytes that were read: lent from the input or collected.
#[derive(Debug)]
pub enum DecodedBytes<'de> {
    /// Bytes lent from the input.
    Borrowed(&'de [u8]),
    /// Bytes collected from a sequence of integers.
    Owned(Vec<u8>),
}

impl<'de> DecodedBytes<'de> {
    /// The bytes held.
    pub open spec fn bytes(self) -> Seq<u8> {
        match self {
            DecodedBytes::Borrowed(b) => b@,
            DecodedBytes::Owned(v) => v@,
        }
    }

    /// Returns the bytes as a slice.
    pub fn as_slice(&self) -> (r: &[u8])
        ensures
            r@ == self.bytes(),
    {
        match self {
            DecodedBytes::Borrowed(b) => b,
            DecodedBytes::Owned(v) => v.as_slice(),
        }
    }
}

/// Reads `n` strings from the front of `remaining`, appending them to
/// `acc`: the strings, the input after them, the budget and the symbols left.
pub open spec fn strings_read(
    remaining: Seq<u8>,
    budget: nat,
    symbols: Seq<Seq<u8>>,
    n: nat,
    acc: Seq<Seq<u8>>,
) -> Result<(Seq<Seq<u8>>, Seq<u8>, nat, Seq<Seq<u8>>), Error>
    decreases n,
{
    if n == 0 {
        Ok((acc, remaining, budget, symbols))
    } else {
        match parse_atom(remaining, budget) {
            Err(e) => Err(e),
            Ok((a, k, b)) => match str_read(a, remaining.skip(k as int), symbols) {
                (Ok(s), rest, syms) => strings_read(rest, b, syms, (n - 1) as nat, acc.push(s)),
                (Err(e), _, _) => Err(e),
            },
        }
    }
}

/// A number as read from an atom.
#[derive(Debug, Clone, Copy, PartialEq, Eq, Structural)]
pub enum Number {
    /// An integer.
    Integer(Integer),
    /// A float, as its bits.
    Float(Float),
}

/// A string that was read: lent from the input or copied.
#[derive(Debug)]
pub enum DecodedStr<'de> {
    /// A string lent from the input.
    Borrowed(&'de str),
    /// A string copied out of a symbol list.
    Owned(String),
}

impl<'de> DecodedStr<'de> {
    /// The UTF-8 bytes of the string.
    pub open spec fn bytes(self) -> Seq<u8> {
        match self {
            DecodedStr::Borrowed(s) => s.spec_bytes(),
            DecodedStr::Owned(s) => encode_utf8(s@),
        }
    }

    /// Returns the string as a slice.
    pub fn as_str(&self) -> (r: &str)
        ensures
            r.spec_bytes() == self.bytes(),
    {
        match self {
            DecodedStr::Borrowed(s) => s,
            DecodedStr::Owned(s) => s.as_str(),
        }
    }
}

/// Deserializer for the Pot format: reads atoms from a slice and answers
/// typed requests, adapting units to the zero or empty value requested.
pub struct Deserializer<'de> {
    input: SliceReader<'de>,
    symbols: SymbolMapRef<'de>,
    peeked_atom: Option<Atom<'de>>,
    remaining_budget: usize,
    scratch: Vec<u8>,
}

impl<'de> Deserializer<'de> {
    /// The input not read yet.
    pub closed spec fn remaining(&self) -> Seq<u8> {
        self.input@
    }

    /// The atom looked at but not consumed, if any.
    pub closed spec fn peeked(&self) -> Option<AtomModel> {
        match self.peeked_atom {
            Some(a) => Some(a.model(self.scratch@)),
            None => None,
        }
    }

    /// The scratch buffer that bytes not lent by the input are read into.
    pub closed spec fn scratch_bytes(&self) -> Seq<u8> {
        self.scratch@
    }

    /// The allocation budget left.
    pub closed spec fn budget(&self) -> nat {
        self.remaining_budget as nat
    }

    /// The symbols known, in id order.
    pub closed spec fn symbols(&self) -> Seq<Seq<u8>> {
        self.symbols@
    }

    /// Whether the symbols are kept for later payloads.
    pub closed spec fn is_persistent(&self) -> bool {
        self.symbols.is_persistent()
    }

    /// The next atom, with the input and budget after it.
    pub open spec fn next(&self) -> Result<(AtomModel, Seq<u8>, nat), Error> {
        next_atom(self.remaining(), self.peeked(), self.budget())
    }

    /// `self` is `old` after its next atom `a` was consumed, and `rest` and
    /// `symbols` are what is left of the input and the symbols known.
    pub open spec fn consumed(&self, old: &Self, rest: Seq<u8>, symbols: Seq<Seq<u8>>) -> bool {
        &&& old.next() is Ok
        &&& self.remaining() == rest
        &&& self.budget() == old.next()->Ok_0.2
        &&& self.peeked() is None
        &&& self.symbols() == symbols
        &&& self.is_persistent() == old.is_persistent()
    }

    /// Returns a deserializer for `input`, which starts with the payload
    /// header, with a temporary symbol list.
    pub fn from_slice(input: &'de [u8], maximum_bytes_allocatable: usize) -> (r: Result<
        Deserializer<'de>,
        Error,
    >)
        ensures
            payload_start(input@) matches Ok(n) ==> r is Ok && r->Ok_0.remaining() == input@.skip(
                n as int,
            ) && r->Ok_0.peeked() is None && r->Ok_0.budget() == maximum_bytes_allocatable
                && r->Ok_0.symbols() == Seq::<Seq<u8>>::empty() && !r->Ok_0.is_persistent(),
            payload_start(input@) matches Err(e) ==> r matches Err(f) && f == e,
    {
        Deserializer::from_slice_with_symbols(input, SymbolMapRef::temporary(), maximum_bytes_allocatable)
    }

    /// Returns a deserializer for `input`, which starts with the payload
    /// header, using `symbols`.
    pub fn from_slice_with_symbols(
        input: &'de [u8],
        symbols: SymbolMapRef<'de>,
        maximum_bytes_allocatable: usize,
    ) -> (r: Result<Deserializer<'de>, Error>)
        ensures
            payload_start(input@) matches Ok(n) ==> r is Ok && r->Ok_0.remaining() == input@.skip(
                n as int,
            ) && r->Ok_0.peeked() is None && r->Ok_0.budget() == maximum_bytes_allocatable
                && r->Ok_0.symbols() == symbols@ && r->Ok_0.is_persistent() == symbols.is_persistent(),
            payload_start(input@) matches Err(e) ==> r matches Err(f) && f == e,
    {
        let mut reader = SliceReader::new(input);
        match read_header(&mut reader) {
            Ok(version) => {
                if version > CURRENT_VERSION {
                    return Err(Error::IncompatibleVersion);
                }
            },
            Err(e) => return Err(e),
        }
        Ok(
            Deserializer {
                input: reader,
                symbols,
                peeked_atom: None,
                remaining_budget: maximum_bytes_allocatable,
                scratch: Vec::new(),
            },
        )
    }

    /// Returns `true` if the input has been consumed completely.
    pub fn end_of_input(&self) -> (r: bool)
        ensures
            r == (self.remaining().len() == 0 && self.peeked() is None),
    {
        self.input.is_empty() && self.peeked_atom.is_none()
    }

    /// Ends decoding and returns the symbols known, all owned.
    pub fn into_symbols(self) -> (r: SymbolMap)
        ensures
            r@ == self.symbols(),
    {
        self.symbols.into_list()
    }

    /// Reads the next atom.
    pub fn read_atom(&mut self) -> (r: Result<Atom<'de>, Error>)
        ensures
            old(self).next() matches Ok((a, rest, b)) ==> r is Ok && r->Ok_0.model(
                final(self).scratch_bytes(),
            ) == a && final(self).consumed(old(self), rest, old(self).symbols()),
            old(self).next() matches Err(e) ==> r matches Err(f) && f == e,
    {
        match self.peeked_atom.take() {
            Some(atom) => Ok(atom),
            None => read_atom(&mut self.input, &mut self.remaining_budget, &mut self.scratch),
        }
    }


    /// Reads an `i8`: any integer atom whose value fits, or zero for a unit
    /// or an absent value.
    pub fn deserialize_i8(&mut self) -> (r: Result<i8, Error>)
        ensures
            old(self).next() matches Err(e) ==> r matches Err(f) && f == e,
            old(self).next() matches Ok((a, rest, b)) ==> final(self).consumed(
                old(self),
                rest,
                old(self).symbols(),
            ) && (r matches Ok(v) ==> integer_read(a, i8::MIN as int, i8::MAX as int) == Ok::<int, Error>(v as int))
                && (r matches Err(e) ==> integer_read(a, i8::MIN as int, i8::MAX as int) == Err::<int, Error>(e)),
    {
        let atom = match self.read_atom() {
            Ok(a) => a,
            Err(e) => return Err(e),
        };
        match atom_integer(&atom) {
            Some(i) => i.as_i8(),
            None => if atom_is_unit_or_none(&atom) {
                Ok(0)
            } else {
                Err(Error::UnexpectedKind(atom.kind, Kind::Int))
            },
        }
    }

    /// Reads an `i16`: any integer atom whose value fits, or zero for a unit
    /// or an absent value.
    pub fn deserialize_i16(&mut self) -> (r: Result<i16, Error>)
        ensures
            old(self).next() matches Err(e) ==> r matches Err(f) && f == e,
            old(self).next() matches Ok((a, rest, b)) ==> final(self).consumed(
                old(self),
                rest,
                old(self).symbols(),
            ) && (r matches Ok(v) ==> integer_read(a, i16::MIN as int, i16::MAX as int) == Ok::<int, Error>(v as int))
                && (r matches Err(e) ==> integer_read(a, i16::MIN as int, i16::MAX as int) == Err::<int, Error>(e)),
    {
        let atom = match self.read_atom() {
            Ok(a) => a,
            Err(e) => return Err(e),
        };
        match atom_integer(&atom) {
            Some(i) => i.as_i16(),
            None => if atom_is_unit_or_none(&atom) {
                Ok(0)
            } else {
                Err(Error::UnexpectedKind(atom.kind, Kind::Int))
            },
        }
    }

    /// Reads an `i32`: any integer atom whose value fits, or zero for a unit
    /// or an absent value.
    pub fn deserialize_i32(&mut self) -> (r: Result<i32, Error>)
        ensures
            old(self).next() matches Err(e) ==> r matches Err(f) && f == e,
            old(self).next() matches Ok((a, rest, b)) ==> final(self).consumed(
                old(self),
                rest,
                old(self).symbols(),
            ) && (r matches Ok(v) ==> integer_read(a, i32::MIN as int, i32::MAX as int) == Ok::<int, Error>(v as int))
                && (r matches Err(e) ==> integer_read(a, i32::MIN as int, i32::MAX as int) == Err::<int, Error>(e)),
    {
        let atom = match self.read_atom() {
            Ok(a) => a,
            Err(e) => return Err(e),
        };
        match atom_integer(&atom) {
            Some(i) => i.as_i32(),
            None => if atom_is_unit_or_none(&atom) {
                Ok(0)
            } else {
                Err(Error::UnexpectedKind(atom.kind, Kind::Int))
            },
        }
    }

    /// Reads an `i64`: any integer atom whose value fits, or zero for a unit
    /// or an absent value.
    pub fn deserialize_i64(&mut self) -> (r: Result<i64, Error>)
        ensures
            old(self).next() matches Err(e) ==> r matches Err(f) && f == e,
            old(self).next() matches Ok((a, rest, b)) ==> final(self).consumed(
                old(self),
                rest,
                old(self).symbols(),
            ) && (r matches Ok(v) ==> integer_read(a, i64::MIN as int, i64::MAX as int) == Ok::<int, Error>(v as int))
                && (r matches Err(e) ==> integer_read(a, i64::MIN as int, i64::MAX as int) == Err::<int, Error>(e)),
    {
        let atom = match self.read_atom() {
            Ok(a) => a,
            Err(e) => return Err(e),
        };
        match atom_integer(&atom) {
            Some(i) => i.as_i64(),
            None => if atom_is_unit_or_none(&atom) {
                Ok(0)
            } else {
                Err(Error::UnexpectedKind(atom.kind, Kind::Int))
            },
        }
    }

    /// Reads an `i128`: any integer atom whose value fits, or zero for a unit
    /// or an absent value.
    pub fn deserialize_i128(&mut self) -> (r: Result<i128, Error>)
        ensures
            old(self).next() matches Err(e) ==> r matches Err(f) && f == e,
            old(self).next() matches Ok((a, rest, b)) ==> final(self).consumed(
                old(self),
                rest,
                old(self).symbols(),
            ) && (r matches Ok(v) ==> integer_read(a, i128::MIN as int, i128::MAX as int) == Ok::<int, Error>(v as int))
                && (r matches Err(e) ==> integer_read(a, i128::MIN as int, i128::MAX as int) == Err::<int, Error>(e)),
    {
        let atom = match self.read_atom() {
            Ok(a) => a,
            Err(e) => return Err(e),
        };
        match atom_integer(&atom) {
            Some(i) => i.as_i128(),
            None => if atom_is_unit_or_none(&atom) {
                Ok(0)
            } else {
                Err(Error::UnexpectedKind(atom.kind, Kind::Int))
            },
        }
    }

    /// Reads an `u8`: any integer atom whose value fits, or zero for a unit
    /// or an absent value.
    pub fn deserialize_u8(&mut self) -> (r: Result<u8, Error>)
        ensures
            old(self).next() matches Err(e) ==> r matches Err(f) && f == e,
            old(self).next() matches Ok((a, rest, b)) ==> final(self).consumed(
                old(self),
                rest,
                old(self).symbols(),
            ) && (r matches Ok(v) ==> integer_read(a, 0, u8::MAX as int) == Ok::<int, Error>(v as int))
                && (r matches Err(e) ==> integer_read(a, 0, u8::MAX as int) == Err::<int, Error>(e)),
    {
        let atom = match self.read_atom() {
            Ok(a) => a,
            Err(e) => return Err(e),
        };
        match atom_integer(&atom) {
            Some(i) => i.as_u8(),
            None => if atom_is_unit_or_none(&atom) {
                Ok(0)
            } else {
                Err(Error::UnexpectedKind(atom.kind, Kind::Int))
            },
        }
    }

    /// Reads an `u16`: any integer atom whose value fits, or zero for a unit
    /// or an absent value.
    pub fn deserialize_u16(&mut self) -> (r: Result<u16, Error>)
        ensures
            old(self).next() matches Err(e) ==> r matches Err(f) && f == e,
            old(self).next() matches Ok((a, rest, b)) ==> final(self).consumed(
                old(self),
                rest,
                old(self).symbols(),
            ) && (r matches Ok(v) ==> integer_read(a, 0, u16::MAX as int) == Ok::<int, Error>(v as int))
                && (r matches Err(e) ==> integer_read(a, 0, u16::MAX as int) == Err::<int, Error>(e)),
    {
        let atom = match self.read_atom() {
            Ok(a) => a,
            Err(e) => return Err(e),
        };
        match atom_integer(&atom) {
            Some(i) => i.as_u16(),
            None => if atom_is_unit_or_none(&atom) {
                Ok(0)
            } else {
                Err(Error::UnexpectedKind(atom.kind, Kind::Int))
            },
        }
    }

    /// Reads an `u32`: any integer atom whose value fits, or zero for a unit
    /// or an absent value.
    pub fn deserialize_u32(&mut self) -> (r: Result<u32, Error>)
        ensures
            old(self).next() matches Err(e) ==> r matches Err(f) && f == e,
            old(self).next() matches Ok((a, rest, b)) ==> final(self).consumed(
                old(self),
                rest,
                old(self).symbols(),
            ) && (r matches Ok(v) ==> integer_read(a, 0, u32::MAX as int) == Ok::<int, Error>(v as int))
                && (r matches Err(e) ==> integer_read(a, 0, u32::MAX as int) == Err::<int, Error>(e)),
    {
        let atom = match self.read_atom() {
            Ok(a) => a,
            Err(e) => return Err(e),
        };
        match atom_integer(&atom) {
            Some(i) => i.as_u32(),
            None => if atom_is_unit_or_none(&atom) {
                Ok(0)
            } else {
                Err(Error::UnexpectedKind(atom.kind, Kind::Int))
            },
        }
    }

    /// Reads an `u64`: any integer atom whose value fits, or zero for a unit
    /// or an absent value.
    pub fn deserialize_u64(&mut self) -> (r: Result<u64, Error>)
        ensures
            old(self).next() matches Err(e) ==> r matches Err(f) && f == e,
            old(self).next() matches Ok((a, rest, b)) ==> final(self).consumed(
                old(self),
                rest,
                old(self).symbols(),
            ) && (r matches Ok(v) ==> integer_read(a, 0, u64::MAX as int) == Ok::<int, Error>(v as int))
                && (r matches Err(e) ==> integer_read(a, 0, u64::MAX as int) == Err::<int, Error>(e)),
    {
        let atom = match self.read_atom() {
            Ok(a) => a,
            Err(e) => return Err(e),
        };
        match atom_integer(&atom) {
            Some(i) => i.as_u64(),
            None => if atom_is_unit_or_none(&atom) {
                Ok(0)
            } else {
                Err(Error::UnexpectedKind(atom.kind, Kind::Int))
            },
        }
    }

    /// Reads an `u128`: any integer atom whose value fits, or zero for a unit
    /// or an absent value.
    pub fn deserialize_u128(&mut self) -> (r: Result<u128, Error>)
        ensures
            old(self).next() matches Err(e) ==> r matches Err(f) && f == e,
            old(self).next() matches Ok((a, rest, b)) ==> final(self).consumed(
                old(self),
                rest,
                old(self).symbols(),
            ) && (r matches Ok(v) ==> integer_read(a, 0, u128::MAX as int) == Ok::<int, Error>(v as int))
                && (r matches Err(e) ==> integer_read(a, 0, u128::MAX as int) == Err::<int, Error>(e)),
    {
        let atom = match self.read_atom() {
            Ok(a) => a,
            Err(e) => return Err(e),
        };
        match atom_integer(&atom) {
            Some(i) => i.as_u128(),
            None => if atom_is_unit_or_none(&atom) {
                Ok(0)
            } else {
                Err(Error::UnexpectedKind(atom.kind, Kind::Int))
            },
        }
    }

    /// Reads a boolean: a boolean atom, an integer (true when not zero), or
    /// false for a unit or an absent value.
    pub fn deserialize_bool(&mut self) -> (r: Result<bool, Error>)
        ensures
            old(self).next() matches Err(e) ==> r matches Err(f) && f == e,
            old(self).next() matches Ok((a, rest, b)) ==> final(self).consumed(
                old(self),
                rest,
                old(self).symbols(),
            ) && (r matches Ok(v) ==> bool_read(a) == Ok::<bool, Error>(v)) && (r matches Err(e)
                ==> bool_read(a) == Err::<bool, Error>(e)),
    {
        let atom = match self.read_atom() {
            Ok(a) => a,
            Err(e) => return Err(e),
        };
        let kind = atom.kind;
        if kind == Kind::Special || kind == Kind::Int || kind == Kind::UInt {
            match atom.nucleus {
                Some(Nucleus::Integer(i)) => Ok(!i.is_zero()),
                Some(Nucleus::Boolean(v)) => Ok(v),
                Some(Nucleus::Unit) => Ok(false),
                None => Ok(false),
                _ => Err(Error::UnexpectedKind(kind, Kind::Special)),
            }
        } else {
            Err(Error::UnexpectedKind(kind, Kind::Special))
        }
    }

    /// Reads a number for a float request: an integer or a float atom, or
    /// the integer zero for a unit or an absent value.
    pub fn deserialize_number(&mut self) -> (r: Result<Number, Error>)
        ensures
            old(self).next() matches Err(e) ==> r matches Err(f) && f == e,
            old(self).next() matches Ok((a, rest, b)) ==> final(self).consumed(
                old(self),
                rest,
                old(self).symbols(),
            ) && (r matches Ok(v) ==> number_read(a) == Ok::<Number, Error>(v)) && (r matches Err(
                e,
            ) ==> number_read(a) == Err::<Number, Error>(e)),
    {
        let atom = match self.read_atom() {
            Ok(a) => a,
            Err(e) => return Err(e),
        };
        let unit = atom_is_unit_or_none(&atom);
        match atom.nucleus {
            Some(Nucleus::Integer(i)) => Ok(Number::Integer(i)),
            Some(Nucleus::Float(f)) => Ok(Number::Float(f)),
            _ => if unit {
                Ok(Number::Integer(Integer(crate::format::InnerInteger::U8(0))))
            } else {
                Err(Error::UnexpectedKind(atom.kind, Kind::Float))
            },
        }
    }

    /// Reads a character: an integer that is a Unicode scalar value, or
    /// `'\0'` for a unit or an absent value.
    pub fn deserialize_char(&mut self) -> (r: Result<char, Error>)
        ensures
            old(self).next() matches Err(e) ==> r matches Err(f) && f == e,
            old(self).next() matches Ok((a, rest, b)) ==> final(self).consumed(
                old(self),
                rest,
                old(self).symbols(),
            ) && (r matches Ok(c) ==> integer_read(a, 0, u32::MAX as int) == Ok::<int, Error>(
                c as int,
            )) && (r matches Err(e) ==> (integer_read(a, 0, u32::MAX as int) == Err::<int, Error>(e)
                || (e == Error::InvalidUtf8 && integer_read(a, 0, u32::MAX as int) is Ok
                && !is_scalar_value(integer_read(a, 0, u32::MAX as int)->Ok_0)))),
    {
        let v = match self.deserialize_u32() {
            Ok(v) => v,
            Err(e) => return Err(e),
        };
        match char_from_u32(v) {
            Some(c) => Ok(c),
            None => Err(Error::InvalidUtf8),
        }
    }

    /// Reads a unit.
    pub fn deserialize_unit(&mut self) -> (r: Result<(), Error>)
        ensures
            old(self).next() matches Err(e) ==> r matches Err(f) && f == e,
            old(self).next() matches Ok((a, rest, b)) ==> final(self).consumed(
                old(self),
                rest,
                old(self).symbols(),
            ) && r == unit_read(a),
    {
        let atom = match self.read_atom() {
            Ok(a) => a,
            Err(e) => return Err(e),
        };
        if atom.kind == Kind::Special && matches!(atom.nucleus, Some(Nucleus::Unit)) {
            Ok(())
        } else {
            Err(Error::UnexpectedKind(atom.kind, Kind::Special))
        }
    }

    /// Starts a sequence and returns its element count; a unit or an absent
    /// value reads as an empty sequence.
    pub fn deserialize_seq(&mut self) -> (r: Result<u64, Error>)
        ensures
            old(self).next() matches Err(e) ==> r matches Err(f) && f == e,
            old(self).next() matches Ok((a, rest, b)) ==> final(self).consumed(
                old(self),
                rest,
                old(self).symbols(),
            ) && r == seq_read(a),
    {
        let atom = match self.read_atom() {
            Ok(a) => a,
            Err(e) => return Err(e),
        };
        if atom.kind == Kind::Sequence {
            Ok(atom.arg)
        } else if atom_is_unit_or_none(&atom) {
            Ok(0)
        } else {
            Err(Error::UnexpectedKind(atom.kind, Kind::Sequence))
        }
    }

    /// Starts a map and returns its entry count, or `None` when it ends with
    /// a marker (see [`Self::next_is_dynamic_end`]); a unit or an absent value
    /// reads as an empty map.
    pub fn deserialize_map(&mut self) -> (r: Result<Option<u64>, Error>)
        ensures
            old(self).next() matches Err(e) ==> r matches Err(f) && f == e,
            old(self).next() matches Ok((a, rest, b)) ==> final(self).consumed(
                old(self),
                rest,
                old(self).symbols(),
            ) && r == map_read(a),
    {
        let atom = match self.read_atom() {
            Ok(a) => a,
            Err(e) => return Err(e),
        };
        if atom.kind == Kind::Mapping {
            Ok(Some(atom.arg))
        } else if atom.kind == Kind::Special && matches!(atom.nucleus, Some(Nucleus::DynamicMap)) {
            Ok(None)
        } else if atom_is_unit_or_none(&atom) {
            Ok(Some(0))
        } else {
            Err(Error::UnexpectedKind(atom.kind, Kind::Mapping))
        }
    }

    /// Reads an option's tag: an absent value is consumed and gives `false`;
    /// anything else is left for the value and gives `true`.
    pub fn deserialize_option(&mut self) -> (r: Result<bool, Error>)
        ensures
            old(self).next() matches Err(e) ==> r matches Err(f) && f == e,
            old(self).next() matches Ok((a, rest, b)) ==> {
                if a.kind == Kind::Special && a.nucleus is None {
                    r == Ok::<bool, Error>(false) && final(self).consumed(
                        old(self),
                        rest,
                        old(self).symbols(),
                    )
                } else {
                    r == Ok::<bool, Error>(true) && final(self).next() == old(self).next()
                        && final(self).symbols() == old(self).symbols()
                        && final(self).is_persistent() == old(self).is_persistent()
                }
            },
    {
        match self.peek() {
            Ok(()) => {},
            Err(e) => return Err(e),
        }
        let absent = match &self.peeked_atom {
            Some(atom) => atom.kind == Kind::Special && atom.nucleus.is_none(),
            None => false,
        };
        if absent {
            self.peeked_atom = None;
            Ok(false)
        } else {
            Ok(true)
        }
    }

    /// Within a map that ends with a marker: consumes the marker and returns
    /// `true` when it comes next, otherwise returns `false`.
    pub fn next_is_dynamic_end(&mut self) -> (r: Result<bool, Error>)
        ensures
            old(self).next() matches Err(e) ==> r matches Err(f) && f == e,
            old(self).next() matches Ok((a, rest, b)) ==> {
                if a.kind == Kind::Special && a.nucleus == Some(NucleusModel::DynamicEnd) {
                    r == Ok::<bool, Error>(true) && final(self).consumed(
                        old(self),
                        rest,
                        old(self).symbols(),
                    )
                } else {
                    r == Ok::<bool, Error>(false) && final(self).next() == old(self).next()
                        && final(self).peeked() == Some(a) && final(self).remaining() == rest
                        && final(self).budget() == b
                        && final(self).symbols() == old(self).symbols()
                        && final(self).is_persistent() == old(self).is_persistent()
                }
            },
    {
        match self.peek() {
            Ok(()) => {},
            Err(e) => return Err(e),
        }
        let end = match &self.peeked_atom {
            Some(atom) => atom.kind == Kind::Special && matches!(atom.nucleus, Some(Nucleus::DynamicEnd)),
            None => false,
        };
        if end {
            self.peeked_atom = None;
            Ok(true)
        } else {
            Ok(false)
        }
    }

    /// Resolves a symbol atom's argument: a reference to a known symbol, or a
    /// new symbol read from the input and appended to the symbols.
    fn read_symbol(&mut self, arg: u64) -> (r: Result<DecodedStr<'de>, Error>)
        ensures
            r matches Ok(v) ==> symbol_read(arg, old(self).remaining(), old(self).symbols()).0
                == Ok::<Seq<u8>, Error>(v.bytes()) && final(self).remaining() == symbol_read(
                arg,
                old(self).remaining(),
                old(self).symbols(),
            ).1 && final(self).symbols() == symbol_read(
                arg,
                old(self).remaining(),
                old(self).symbols(),
            ).2,
            r matches Err(e) ==> symbol_read(arg, old(self).remaining(), old(self).symbols()).0
                == Err::<Seq<u8>, Error>(e),
            final(self).budget() == old(self).budget(),
            final(self).peeked() == old(self).peeked(),
            final(self).is_persistent() == old(self).is_persistent(),
    {
        let x = arg / 2;
        if arg % 2 == 1 {
            if x >= self.symbols.len() as u64 {
                return Err(Error::UnknownSymbol(x));
            }
            match self.symbols.get(x as usize) {
                Some(SymbolStr::Data(s)) => Ok(DecodedStr::Borrowed(s)),
                Some(SymbolStr::InList(s)) => Ok(DecodedStr::Owned(s.to_owned())),
                None => Err(Error::UnknownSymbol(x)),
            }
        } else {
            if x > self.input.len() as u64 {
                return Err(Error::Eof);
            }
            let bytes = match self.input.read_bytes(x as usize) {
                Ok(b) => b,
                Err(e) => return Err(e),
            };
            match utf8_str(bytes) {
                Some(name) => {
                    self.symbols.push_borrowed(name);
                    Ok(DecodedStr::Borrowed(name))
                },
                None => Err(Error::InvalidUtf8),
            }
        }
    }

    /// Reads a string: a symbol, or a byte atom holding UTF-8; a unit or an
    /// absent value reads as the empty string.
    pub fn deserialize_str(&mut self) -> (r: Result<DecodedStr<'de>, Error>)
        ensures
            old(self).next() matches Err(e) ==> r matches Err(f) && f == e,
            old(self).next() matches Ok((a, rest, b)) ==> (r matches Ok(v) ==> str_read(
                a,
                rest,
                old(self).symbols(),
            ).0 == Ok::<Seq<u8>, Error>(v.bytes()) && final(self).consumed(
                old(self),
                str_read(a, rest, old(self).symbols()).1,
                str_read(a, rest, old(self).symbols()).2,
            )) && (r matches Err(e) ==> str_read(a, rest, old(self).symbols()).0 == Err::<
                Seq<u8>,
                Error,
            >(e)),
    {
        let atom = match self.read_atom() {
            Ok(a) => a,
            Err(e) => return Err(e),
        };
        let unit = atom_is_unit_or_none(&atom);
        if atom.kind == Kind::Symbol {
            self.read_symbol(atom.arg)
        } else if atom.kind == Kind::Bytes {
            match atom.nucleus {
                Some(Nucleus::Bytes(BufferedBytes::Data(bytes))) => match utf8_str(bytes) {
                    Some(text) => Ok(DecodedStr::Borrowed(text)),
                    None => Err(Error::InvalidUtf8),
                },
                Some(Nucleus::Bytes(BufferedBytes::Scratch)) => match utf8_str(
                    self.scratch.as_slice(),
                ) {
                    Some(text) => Ok(DecodedStr::Owned(text.to_owned())),
                    None => Err(Error::InvalidUtf8),
                },
                _ => Err(Error::UnexpectedKind(Kind::Bytes, Kind::Bytes)),
            }
        } else if unit {
            Ok(DecodedStr::Owned(String::new()))
        } else {
            Err(Error::UnexpectedKind(atom.kind, Kind::Bytes))
        }
    }

    /// Reads an identifier, such as a field or variant name: a symbol, or a
    /// byte atom holding UTF-8.
    pub fn deserialize_identifier(&mut self) -> (r: Result<DecodedStr<'de>, Error>)
        ensures
            old(self).next() matches Err(e) ==> r matches Err(f) && f == e,
            old(self).next() matches Ok((a, rest, b)) ==> (r matches Ok(v) ==> identifier_read(
                a,
                rest,
                old(self).symbols(),
            ).0 == Ok::<Seq<u8>, Error>(v.bytes()) && final(self).consumed(
                old(self),
                identifier_read(a, rest, old(self).symbols()).1,
                identifier_read(a, rest, old(self).symbols()).2,
            )) && (r matches Err(e) ==> identifier_read(a, rest, old(self).symbols()).0 == Err::<
                Seq<u8>,
                Error,
            >(e)),
    {
        match self.peek() {
            Ok(()) => {},
            Err(e) => return Err(e),
        }
        let accepted = match &self.peeked_atom {
            Some(atom) => atom.kind == Kind::Symbol || (atom.kind == Kind::Bytes
                && atom.nucleus.is_some()),
            None => false,
        };
        if accepted {
            self.deserialize_str()
        } else {
            match self.read_atom() {
                Ok(atom) => Err(Error::UnexpectedKind(atom.kind, Kind::Symbol)),
                Err(e) => Err(e),
            }
        }
    }

    /// Starts an enum: consumes a named marker if one comes next. The
    /// variant's name must follow, as a symbol.
    pub fn variant_start(&mut self) -> (r: Result<(), Error>)
        ensures
            old(self).next() matches Err(e) ==> r matches Err(f) && f == e,
            old(self).next() matches Ok((a, rest, b)) ==> {
                if a.kind == Kind::Special && a.nucleus == Some(NucleusModel::Named) {
                    r is Ok && final(self).consumed(old(self), rest, old(self).symbols())
                } else if a.kind == Kind::Symbol {
                    r is Ok && final(self).next() == old(self).next() && final(self).symbols()
                        == old(self).symbols() && final(self).is_persistent()
                        == old(self).is_persistent()
                } else {
                    r == Err::<(), Error>(Error::UnexpectedKind(a.kind, Kind::Symbol))
                }
            },
    {
        match self.peek() {
            Ok(()) => {},
            Err(e) => return Err(e),
        }
        let (named, symbol, kind) = match &self.peeked_atom {
            Some(atom) => (
                atom.kind == Kind::Special && matches!(atom.nucleus, Some(Nucleus::Named)),
                atom.kind == Kind::Symbol,
                atom.kind,
            ),
            None => (false, false, Kind::Special),
        };
        if named {
            self.peeked_atom = None;
            Ok(())
        } else if symbol {
            Ok(())
        } else {
            Err(Error::UnexpectedKind(kind, Kind::Symbol))
        }
    }

    /// Ends a unit variant: consumes the unit that follows its name when
    /// written with [`crate::Compatibility::V4`]; accepts the name alone, also
    /// at the end of the input.
    pub fn unit_variant(&mut self) -> (r: Result<(), Error>)
        ensures
            old(self).peeked() is None && old(self).remaining().len() == 0 ==> r is Ok
                && final(self).next() == old(self).next() && final(self).peeked() is None
                && final(self).remaining() == old(self).remaining() && final(self).budget()
                == old(self).budget() && final(self).symbols() == old(self).symbols()
                && final(self).is_persistent() == old(self).is_persistent(),
            !(old(self).peeked() is None && old(self).remaining().len() == 0) ==> {
                &&& old(self).next() matches Err(e) ==> r matches Err(f) && f == e
                &&& old(self).next() matches Ok((a, rest, b)) ==> {
                    if a.kind == Kind::Special && a.nucleus == Some(NucleusModel::Unit) {
                        r is Ok && final(self).consumed(old(self), rest, old(self).symbols())
                    } else {
                        r is Ok && final(self).next() == old(self).next() && final(self).symbols()
                            == old(self).symbols() && final(self).is_persistent()
                            == old(self).is_persistent()
                    }
                }
            },
    {
        if self.peeked_atom.is_none() && self.input.is_empty() {
            return Ok(());
        }
        match self.peek() {
            Ok(()) => {},
            Err(e) => return Err(e),
        }
        let unit = match &self.peeked_atom {
            Some(atom) => atom.kind == Kind::Special && matches!(atom.nucleus, Some(Nucleus::Unit)),
            None => false,
        };
        if unit {
            self.peeked_atom = None;
        }
        Ok(())
    }

    /// A copy of the scratch buffer.
    fn scratch_copy(&self) -> (r: Vec<u8>)
        ensures
            r@ == self.scratch_bytes(),
    {
        let mut copy: Vec<u8> = Vec::new();
        let mut i: usize = 0;
        while i < self.scratch.len()
            invariant
                i <= self.scratch@.len(),
                copy@ == self.scratch@.take(i as int),
            decreases self.scratch.len() - i,
        {
            copy.push(self.scratch[i]);
            proof {
                assert(self.scratch@.take(i + 1 as int) =~= self.scratch@.take(i as int).push(
                    self.scratch@[i as int],
                ));
            }
            i = i + 1;
        }
        proof {
            assert(self.scratch@.take(i as int) =~= self.scratch@);
        }
        copy
    }

    /// Reads `n` integer atoms that each fit a byte.
    fn read_byte_elements(&mut self, n: u64) -> (r: Result<Vec<u8>, Error>)
        requires
            old(self).peeked() is None,
        ensures
            r matches Ok(v) ==> byte_elements(old(self).remaining(), old(self).budget(), n as nat, Seq::empty())
                matches Ok((bytes, rest2, b2)) && v@ == bytes && final(self).remaining()
                == rest2 && final(self).budget() == b2 && final(self).peeked() is None
                && final(self).symbols() == old(self).symbols() && final(self).is_persistent()
                == old(self).is_persistent(),
            r matches Err(e) ==> byte_elements(old(self).remaining(), old(self).budget(), n as nat, Seq::empty())
                == Err::<(Seq<u8>, Seq<u8>, nat), Error>(e),
    {
        let ghost rest0 = self.remaining();
        let ghost b0 = self.budget();
        let mut buffer: Vec<u8> = Vec::new();
        let mut i: u64 = 0;
        while i < n
            invariant
                i <= n,
                rest0 == old(self).remaining(),
                b0 == old(self).budget(),
                self.peeked() is None,
                self.symbols() == old(self).symbols(),
                self.is_persistent() == old(self).is_persistent(),
                byte_elements(self.remaining(), self.budget(), (n - i) as nat, buffer@)
                    == byte_elements(rest0, b0, n as nat, Seq::empty()),
            decreases n - i,
        {
            let ghost before = buffer@;
            let ghost rem = self.remaining();
            let ghost bud = self.budget();
            let element = match self.read_atom() {
                Ok(a) => a,
                Err(e) => {
                    proof {
                        assert(byte_elements(rem, bud, (n - i) as nat, before) == Err::<
                            (Seq<u8>, Seq<u8>, nat),
                            Error,
                        >(e));
                    }
                    return Err(e);
                },
            };
            match element.nucleus {
                Some(Nucleus::Integer(integer)) => match integer.as_u8() {
                    Ok(v) => {
                        buffer.push(v);
                        proof {
                            let (a, k, b) = parse_atom(rem, bud)->Ok_0;
                            assert(byte_elements(rem, bud, (n - i) as nat, before) == byte_elements(
                                rem.skip(k as int),
                                b,
                                (n - i - 1) as nat,
                                before.push(v),
                            ));
                        }
                    },
                    Err(e) => {
                        proof {
                            assert(byte_elements(rem, bud, (n - i) as nat, before) == Err::<
                                (Seq<u8>, Seq<u8>, nat),
                                Error,
                            >(e));
                        }
                        return Err(e);
                    },
                },
                _ => {
                    proof {
                        assert(byte_elements(rem, bud, (n - i) as nat, before) == Err::<
                            (Seq<u8>, Seq<u8>, nat),
                            Error,
                        >(Error::UnexpectedKind(element.kind, Kind::UInt)));
                    }
                    return Err(Error::UnexpectedKind(element.kind, Kind::UInt));
                },
            }
            i = i + 1;
        }
        Ok(buffer)
    }

    /// Reads a byte string: a byte atom, or a sequence of integers that fit a
    /// byte; a unit or an absent value reads as empty.
    pub fn deserialize_bytes(&mut self) -> (r: Result<DecodedBytes<'de>, Error>)
        ensures
            old(self).next() matches Err(e) ==> r matches Err(f) && f == e,
            old(self).next() matches Ok((a, rest, b)) ==> (r matches Ok(v) ==> bytes_read(a, rest, b)
                matches Ok((bytes, rest2, b2)) && v.bytes() == bytes && final(self).remaining()
                == rest2 && final(self).budget() == b2 && final(self).peeked() is None
                && final(self).symbols() == old(self).symbols() && final(self).is_persistent()
                == old(self).is_persistent()) && (r matches Err(e) ==> bytes_read(a, rest, b)
                == Err::<(Seq<u8>, Seq<u8>, nat), Error>(e)),
    {
        let atom = match self.read_atom() {
            Ok(a) => a,
            Err(e) => return Err(e),
        };
        let unit = atom_is_unit_or_none(&atom);
        if atom.kind == Kind::Bytes {
            match atom.nucleus {
                Some(Nucleus::Bytes(BufferedBytes::Data(bytes))) => Ok(DecodedBytes::Borrowed(bytes)),
                Some(Nucleus::Bytes(BufferedBytes::Scratch)) => Ok(DecodedBytes::Owned(self.scratch_copy())),
                _ => Err(Error::UnexpectedKind(Kind::Bytes, Kind::Bytes)),
            }
        } else if atom.kind == Kind::Sequence {
            match self.read_byte_elements(atom.arg) {
                Ok(buffer) => Ok(DecodedBytes::Owned(buffer)),
                Err(e) => Err(e),
            }
        } else if unit {
            Ok(DecodedBytes::Owned(Vec::new()))
        } else {
            Err(Error::UnexpectedKind(atom.kind, Kind::Bytes))
        }
    }

    /// Reads the next value without a type request and says what it is, so
    /// that a visitor can be picked for it.
    pub fn deserialize_any(&mut self) -> (r: Result<Visit<'de>, Error>)
        ensures
            old(self).next() matches Err(e) ==> r matches Err(f) && f == e,
            old(self).next() matches Ok((a, rest, b)) ==> (r matches Ok(v) ==> any_read(
                a,
                rest,
                old(self).symbols(),
            ).0 == Ok::<VisitModel, Error>(v.model()) && final(self).consumed(
                old(self),
                any_read(a, rest, old(self).symbols()).1,
                any_read(a, rest, old(self).symbols()).2,
            )) && (r matches Err(e) ==> any_read(a, rest, old(self).symbols()).0 == Err::<
                VisitModel,
                Error,
            >(e)),
    {
        let atom = match self.read_atom() {
            Ok(a) => a,
            Err(e) => return Err(e),
        };
        match atom.kind {
            Kind::Special => match atom.nucleus {
                None => Ok(Visit::Nothing),
                Some(Nucleus::Unit) => Ok(Visit::Unit),
                Some(Nucleus::Boolean(b)) => Ok(Visit::Bool(b)),
                Some(Nucleus::Named) => Ok(Visit::Named),
                Some(Nucleus::DynamicMap) => Ok(Visit::Mapping(None)),
                _ => Err(Error::UnexpectedKind(Kind::Special, Kind::Special)),
            },
            Kind::Int | Kind::UInt => match atom.nucleus {
                Some(Nucleus::Integer(i)) => Ok(Visit::Integer(i)),
                _ => Err(Error::UnexpectedKind(atom.kind, Kind::Int)),
            },
            Kind::Float => match atom.nucleus {
                Some(Nucleus::Float(f)) => Ok(Visit::Float(f)),
                _ => Err(Error::UnexpectedKind(atom.kind, Kind::Float)),
            },
            Kind::Sequence => Ok(Visit::Sequence(atom.arg)),
            Kind::Mapping => Ok(Visit::Mapping(Some(atom.arg))),
            Kind::Symbol => match self.read_symbol(atom.arg) {
                Ok(s) => Ok(Visit::Str(s)),
                Err(e) => Err(e),
            },
            Kind::Bytes => match atom.nucleus {
                Some(Nucleus::Bytes(BufferedBytes::Data(bytes))) => match utf8_str(bytes) {
                    Some(text) => Ok(Visit::Str(DecodedStr::Borrowed(text))),
                    None => Ok(Visit::Bytes(DecodedBytes::Borrowed(bytes))),
                },
                Some(Nucleus::Bytes(BufferedBytes::Scratch)) => {
                    let copy = self.scratch_copy();
                    match utf8_str(copy.as_slice()) {
                        Some(text) => Ok(Visit::Str(DecodedStr::Owned(text.to_owned()))),
                        None => Ok(Visit::Bytes(DecodedBytes::Owned(copy))),
                    }
                },
                _ => Err(Error::UnexpectedKind(atom.kind, Kind::Bytes)),
            },
        }
    }

    /// Makes sure the next atom has been looked at, without consuming it.
    fn peek(&mut self) -> (r: Result<(), Error>)
        ensures
            old(self).next() matches Ok((a, rest, b)) ==> r is Ok && final(self).peeked() == Some(a)
                && final(self).remaining() == rest && final(self).budget() == b
                && final(self).symbols() == old(self).symbols()
                && final(self).is_persistent() == old(self).is_persistent(),
            old(self).next() matches Err(e) ==> r matches Err(f) && f == e,
    {
        if self.peeked_atom.is_some() {
            return Ok(());
        }
        match read_atom(&mut self.input, &mut self.remaining_budget, &mut self.scratch) {
            Ok(atom) => {
                self.peeked_atom = Some(atom);
                Ok(())
            },
            Err(e) => Err(e),
        }
    }
}

/// Whether `v` is a Unicode scalar value: a code point that is not a surrogate.
pub open spec fn is_scalar_value(v: int) -> bool {
    (0 <= v < 0xD800) || (0xE000 <= v <= 0x10FFFF)
}

/// Relies on `char::from_u32`: the character with code point `v`, when `v`
/// is a Unicode scalar value.
#[verifier::external_body]
fn char_from_u32(v: u32) -> (r: Option<char>)
    ensures
        r is Some <==> is_scalar_value(v as int),
        r matches Some(c) ==> c as int == v as int,
{
    char::from_u32(v)
}

/// The integer an atom holds, when it is an integer atom.
fn atom_integer(atom: &Atom) -> (r: Option<Integer>)
    ensures
        ((atom.kind == Kind::Int || atom.kind == Kind::UInt) && atom.nucleus matches Some(
            Nucleus::Integer(i),
        )) ==> r == Some(atom.nucleus->Some_0->Integer_0),
        !((atom.kind == Kind::Int || atom.kind == Kind::UInt) && atom.nucleus matches Some(
            Nucleus::Integer(i),
        )) ==> r is None,
{
    if atom.kind == Kind::Int || atom.kind == Kind::UInt {
        match &atom.nucleus {
            Some(Nucleus::Integer(i)) => Some(*i),
            _ => None,
        }
    } else {
        None
    }
}

/// Whether an atom is a unit or the absence of a value.
fn atom_is_unit_or_none(atom: &Atom) -> (r: bool)
    ensures
        r == (atom.kind == Kind::Special && (atom.nucleus is None || atom.nucleus matches Some(
            Nucleus::Unit,
        ))),
{
    atom.kind == Kind::Special && match &atom.nucleus {
        None => true,
        Some(Nucleus::Unit) => true,
        _ => false,
    }
}

/// Where the atoms of a payload start, after its header; or why the
/// header is refused.
pub open spec fn payload_start(bytes: Seq<u8>) -> Result<nat, Error> {
    if bytes.len() < 4 {
        Err(Error::Eof)
    } else if bytes.take(3) != seq![0x50u8, 0x6Fu8, 0x74u8] {
        Err(Error::NotAPot)
    } else if bytes[3] > CURRENT_VERSION {
        Err(Error::IncompatibleVersion)
    } else {
        Ok(4)
    }
}

/// The carrier an integer atom is read into holds the value it was written
/// with.
proof fn lemma_read_carrier_value(kind: Kind, w: nat, v: int)
    requires
        kind == Kind::Int ==> fits_signed(v, w),
        kind == Kind::UInt ==> 0 <= v < pow256(w),
        kind == Kind::Int || kind == Kind::UInt,
        w == 1 || w == 2 || w == 3 || w == 4 || w == 6 || w == 8 || w == 16,
    ensures
        read_carrier(kind, w, v).value() == v,
{
    lemma_pow256_values();
}

/// A signed integer written by the encoder reads back, from whatever
/// follows it, as the same number when the requested range `min..=max`
/// holds it, signed or unsigned, and as a lossy-cast error when it does not.
pub proof fn lemma_signed_round_trip(v: int, tail: Seq<u8>, budget: nat, min: int, max: int)
    requires
        fits_signed(v, 16),
        budget >= spec_in_memory_int_size(signed_width(v)),
    ensures
        parse_atom(signed_atom_bytes(v) + tail, budget) is Ok,
        parse_atom(signed_atom_bytes(v) + tail, budget)->Ok_0.1 == signed_atom_bytes(v).len(),
        parse_atom(signed_atom_bytes(v) + tail, budget)->Ok_0.0 == (AtomModel {
            kind: Kind::Int,
            arg: (signed_width(v) - 1) as u64,
            nucleus: Some(NucleusModel::Integer(read_carrier(Kind::Int, signed_width(v), v))),
        }),
        parse_atom(signed_atom_bytes(v) + tail, budget)->Ok_0.2 == budget - spec_in_memory_int_size(
            signed_width(v),
        ),
        read_carrier(Kind::Int, signed_width(v), v).value() == v,
        read_carrier(Kind::Int, signed_width(v), v).is_signed(),
        min <= v <= max ==> integer_read(
            parse_atom(signed_atom_bytes(v) + tail, budget)->Ok_0.0,
            min,
            max,
        ) == Ok::<int, Error>(v),
        !(min <= v <= max) ==> integer_read(
            parse_atom(signed_atom_bytes(v) + tail, budget)->Ok_0.0,
            min,
            max,
        ) == Err::<int, Error>(Error::ImpreciseCastWouldLoseData),
{
    let w = signed_width(v);
    lemma_signed_atom(v);
    lemma_pow256_values();
    let payload = le_bytes(twos_complement(v, w), w);
    lemma_le_round_trip(twos_complement(v, w), w);
    let header = atom_header_bytes(Kind::Int, (w - 1) as u64);
    lemma_atom_header_round_trip(Kind::Int, (w - 1) as u64, payload + tail);
    assert(signed_atom_bytes(v) + tail =~= header + (payload + tail));
    assert((signed_atom_bytes(v) + tail).skip(1) =~= payload + tail);
    assert((payload + tail).take(w as int) =~= payload);
    lemma_read_carrier_value(Kind::Int, w, v);
}

/// An unsigned integer written by the encoder reads back, from whatever
/// follows it, as the same number when the requested range `min..=max`
/// holds it, signed or unsigned, and as a lossy-cast error when it does not.
pub proof fn lemma_unsigned_round_trip(u: nat, tail: Seq<u8>, budget: nat, min: int, max: int)
    requires
        u < pow256(16),
        budget >= spec_in_memory_int_size(unsigned_width(u)),
    ensures
        parse_atom(unsigned_atom_bytes(u) + tail, budget) is Ok,
        parse_atom(unsigned_atom_bytes(u) + tail, budget)->Ok_0.1 == unsigned_atom_bytes(u).len(),
        parse_atom(unsigned_atom_bytes(u) + tail, budget)->Ok_0.0 == (AtomModel {
            kind: Kind::UInt,
            arg: (unsigned_width(u) - 1) as u64,
            nucleus: Some(NucleusModel::Integer(read_carrier(Kind::UInt, unsigned_width(u), u as int))),
        }),
        parse_atom(unsigned_atom_bytes(u) + tail, budget)->Ok_0.2 == budget - spec_in_memory_int_size(
            unsigned_width(u),
        ),
        read_carrier(Kind::UInt, unsigned_width(u), u as int).value() == u,
        !read_carrier(Kind::UInt, unsigned_width(u), u as int).is_signed(),
        min <= u <= max ==> integer_read(
            parse_atom(unsigned_atom_bytes(u) + tail, budget)->Ok_0.0,
            min,
            max,
        ) == Ok::<int, Error>(u as int),
        !(min <= u <= max) ==> integer_read(
            parse_atom(unsigned_atom_bytes(u) + tail, budget)->Ok_0.0,
            min,
            max,
        ) == Err::<int, Error>(Error::ImpreciseCastWouldLoseData),
{
    let w = unsigned_width(u);
    lemma_unsigned_atom(u);
    lemma_pow256_values();
    let payload = le_bytes(u, w);
    lemma_le_round_trip(u, w);
    let header = atom_header_bytes(Kind::UInt, (w - 1) as u64);
    lemma_atom_header_round_trip(Kind::UInt, (w - 1) as u64, payload + tail);
    assert(unsigned_atom_bytes(u) + tail =~= header + (payload + tail));
    assert((unsigned_atom_bytes(u) + tail).skip(1) =~= payload + tail);
    assert((payload + tail).take(w as int) =~= payload);
    lemma_read_carrier_value(Kind::UInt, w, u as int);
}

/// A float written by the encoder reads back with the same bits and width.
pub proof fn lemma_float_round_trip(f: Float, tail: Seq<u8>, budget: nat)
    requires
        budget >= f.width(),
    ensures
        parse_atom(float_atom_bytes(f) + tail, budget) is Ok,
        parse_atom(float_atom_bytes(f) + tail, budget)->Ok_0.1 == float_atom_bytes(f).len(),
        number_read(parse_atom(float_atom_bytes(f) + tail, budget)->Ok_0.0) == Ok::<Number, Error>(
            Number::Float(f),
        ),
        parse_atom(float_atom_bytes(f) + tail, budget)->Ok_0.0 == (AtomModel {
            kind: Kind::Float,
            arg: (f.width() - 1) as u64,
            nucleus: Some(NucleusModel::Float(f)),
        }),
        parse_atom(float_atom_bytes(f) + tail, budget)->Ok_0.2 == budget - f.width(),
{
    lemma_pow256_values();
    let w = f.width();
    let payload = le_bytes(f.bits(), w);
    lemma_le_round_trip(f.bits(), w);
    vstd::arithmetic::div_mod::lemma_small_mod(f.bits(), pow256(w));
    let header = atom_header_bytes(Kind::Float, (w - 1) as u64);
    lemma_atom_header_round_trip(Kind::Float, (w - 1) as u64, payload + tail);
    assert(header.len() == 1);
    assert(float_atom_bytes(f) + tail =~= header + (payload + tail));
    assert((float_atom_bytes(f) + tail).skip(1) =~= payload + tail);
    assert((payload + tail).take(w as int) =~= payload);
    assert(Float::spec_from_bits(w, f.bits()) == f);
}

/// A boolean written by the encoder reads back as the same boolean.
pub proof fn lemma_bool_round_trip(v: bool, tail: Seq<u8>, budget: nat)
    ensures
        parse_atom(
            seq![
                if v {
                    3u8
                } else {
                    2u8
                },
            ] + tail,
            budget,
        ) matches Ok((a, n, b)) && n == 1 && b == budget && bool_read(a) == Ok::<bool, Error>(v),
{
    let byte: u8 = if v {
        3u8
    } else {
        2u8
    };
    lemma_atom_header_round_trip(Kind::Special, byte as u64, tail);
    assert(atom_header_bytes(Kind::Special, byte as u64) =~= seq![byte]);
}

/// A byte string written by the encoder reads back as the same bytes, and
/// as a string when it is UTF-8.
pub proof fn lemma_bytes_round_trip(v: Seq<u8>, tail: Seq<u8>, budget: nat, symbols: Seq<Seq<u8>>)
    requires
        v.len() <= budget,
        v.len() <= u64::MAX,
    ensures
        parse_atom(bytes_atom_bytes(v) + tail, budget) matches Ok((a, n, b)) && n
            == bytes_atom_bytes(v).len() && bytes_read(a, tail, b) == Ok::<
            (Seq<u8>, Seq<u8>, nat),
            Error,
        >((v, tail, b)) && (valid_utf8(v) ==> str_read(a, tail, symbols).0 == Ok::<
            Seq<u8>,
            Error,
        >(v)) && a == (AtomModel {
            kind: Kind::Bytes,
            arg: v.len() as u64,
            nucleus: Some(NucleusModel::Bytes(v)),
        }) && b == budget - v.len(),
{
    let header = atom_header_bytes(Kind::Bytes, v.len() as u64);
    lemma_atom_header_round_trip(Kind::Bytes, v.len() as u64, v + tail);
    assert(bytes_atom_bytes(v) + tail =~= header + (v + tail));
    assert((bytes_atom_bytes(v) + tail).skip(header.len() as int) =~= v + tail);
    assert((v + tail).take(v.len() as int) =~= v);
}

/// A unit or an absent value reads, for any primitive request, as that
/// primitive's zero or empty value.
pub proof fn lemma_unit_adaptation(
    special: u8,
    tail: Seq<u8>,
    budget: nat,
    symbols: Seq<Seq<u8>>,
    min: int,
    max: int,
)
    requires
        special == 0 || special == 1,
        min <= 0 <= max,
    ensures
        parse_atom(seq![special] + tail, budget) matches Ok((a, n, b)) && n == 1 && b == budget
            && integer_read(a, min, max) == Ok::<int, Error>(0) && bool_read(a) == Ok::<
            bool,
            Error,
        >(false) && seq_read(a) == Ok::<u64, Error>(0) && map_read(a) == Ok::<
            Option<u64>,
            Error,
        >(Some(0)) && str_read(a, tail, symbols).0 == Ok::<Seq<u8>, Error>(Seq::empty())
            && bytes_read(a, tail, b) == Ok::<(Seq<u8>, Seq<u8>, nat), Error>(
            (Seq::empty(), tail, b),
        ) && number_read(a) is Ok && number_read(a)->Ok_0 is Integer
            && number_read(a)->Ok_0->Integer_0.value() == 0,
{
    lemma_atom_header_round_trip(Kind::Special, special as u64, tail);
    assert(atom_header_bytes(Kind::Special, special as u64) =~= seq![special]);
}

} // verus!
