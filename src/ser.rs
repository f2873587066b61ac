use vstd::prelude::*;

use crate::error::Error;
use crate::format::{
    lemma_atom_header_round_trip,
    atom_header_bytes, bytes_atom_bytes, float_atom_bytes, payload_header_bytes,
    signed_atom_bytes, unsigned_atom_bytes, write_atom_header, write_bool, write_bytes,
    write_header, write_i128, write_i16, write_i32, write_i64, write_i8, write_named, write_none,
    write_special, write_u128, write_u16, write_u32, write_u64, write_u8, write_unit, Float, Kind,
    Special, CURRENT_VERSION,
};
use crate::de::{seq_read, strings_read, Deserializer, SymbolList};
use crate::Compatibility;
use vstd::string::StringSliceAdditionalSpecFns;
use vstd::utf8::encode_utf8;

verus! {

/// Whether two byte slices hold the same bytes.
pub fn bytes_equal(a: &[u8], b: &[u8]) -> (r: bool)
    ensures
        r == (a@ == b@),
{
    if a.len() != b.len() {
        return false;
    }
    let mut i: usize = 0;
    while i < a.len()
        invariant
            a@.len() == b@.len(),
            i <= a@.len(),
            a@.take(i as int) == b@.take(i as int),
        decreases a.len() - i,
    {
        if a[i] != b[i] {
            return false;
        }
        proof {
            assert(a@.take(i + 1 as int) =~= a@.take(i as int).push(a@[i as int]));
            assert(b@.take(i + 1 as int) =~= b@.take(i as int).push(b@[i as int]));
        }
        i = i + 1;
    }
    proof {
        assert(a@.take(i as int) =~= a@);
        assert(b@.take(i as int) =~= b@);
    }
    true
}

/// The id a symbol has in `table`, or where it would be appended.
pub open spec fn symbol_index(table: Seq<Seq<u8>>, symbol: Seq<u8>) -> int {
    if exists|i: int| 0 <= i < table.len() && table[i] == symbol {
        choose|i: int| 0 <= i < table.len() && table[i] == symbol
    } else {
        table.len() as int
    }
}

/// The table after `symbol` has been used: unchanged if it holds the
/// symbol, otherwise with the symbol appended.
pub open spec fn registered(table: Seq<Seq<u8>>, symbol: Seq<u8>) -> Seq<Seq<u8>> {
    if table.contains(symbol) {
        table
    } else {
        table.push(symbol)
    }
}

/// Whether no symbol appears twice in `table`.
pub open spec fn distinct_symbols(table: Seq<Seq<u8>>) -> bool {
    forall|i: int, j: int| 0 <= i < j < table.len() ==> table[i] != table[j]
}

/// The atom that refers to the symbol with id `id`.
pub open spec fn symbol_reference_bytes(id: int) -> Seq<u8> {
    atom_header_bytes(Kind::Symbol, (2 * id + 1) as u64)
}

/// The atom that introduces a new symbol: its length, then its bytes.
pub open spec fn new_symbol_bytes(symbol: Seq<u8>) -> Seq<u8> {
    atom_header_bytes(Kind::Symbol, (2 * symbol.len()) as u64) + symbol
}

/// The atom that writes `symbol` against `table`: a reference when the table
/// holds it, otherwise the symbol itself.
pub open spec fn symbol_atom_bytes(table: Seq<Seq<u8>>, symbol: Seq<u8>) -> Seq<u8> {
    if table.contains(symbol) {
        symbol_reference_bytes(symbol_index(table, symbol))
    } else {
        new_symbol_bytes(symbol)
    }
}

/// A symbol's id, and whether it was added by the call that returned it.
#[derive(Clone, Copy, Debug, PartialEq, Eq, Structural)]
pub struct RegisteredSymbol {
    /// The id of the symbol.
    pub id: u32,
    /// True when the symbol was not registered before.
    pub new: bool,
}

/// A value handed to [`SymbolMap::insert`] by a walker failed to produce
/// its symbols; holds the walker's message.
#[derive(Debug, Clone, PartialEq, Eq)]
pub struct SymbolMapPopulationError(pub String);

/// A list of symbols that an encoder has written, in id order. Used for one
/// payload, or kept across payloads to share symbols with a decoder that
/// keeps its own list.
pub struct SymbolMap {
    entries: Vec<String>,
}

impl View for SymbolMap {
    type V = Seq<Seq<u8>>;

    closed spec fn view(&self) -> Seq<Seq<u8>> {
        self.entries@.map_values(|s: String| encode_utf8(s@))
    }
}

impl Default for SymbolMap {
    fn default() -> (r: SymbolMap)
        ensures
            r@ == Seq::<Seq<u8>>::empty(),
            r.well_formed(),
    {
        SymbolMap::new()
    }
}

impl SymbolMap {
    /// The map holds each symbol once, and its ids fit the header argument.
    pub closed spec fn well_formed(&self) -> bool {
        distinct_symbols(self@) && self@.len() <= u32::MAX
    }

    /// Returns a new, empty symbol map.
    pub fn new() -> (r: SymbolMap)
        ensures
            r@ == Seq::<Seq<u8>>::empty(),
            r.well_formed(),
    {
        let r = SymbolMap { entries: Vec::new() };
        proof {
            assert(r@ =~= Seq::<Seq<u8>>::empty());
        }
        r
    }

    /// Returns the number of entries in this map.
    pub fn len(&self) -> (r: usize)
        ensures
            r == self@.len(),
    {
        self.entries.len()
    }

    /// Returns true if the map has no entries.
    pub fn is_empty(&self) -> (r: bool)
        ensures
            r == (self@.len() == 0),
    {
        self.entries.len() == 0
    }

    /// Returns the symbol with id `id`, if there is one.
    pub fn get(&self, id: usize) -> (r: Option<&str>)
        ensures
            id < self@.len() ==> r is Some && r->Some_0.spec_bytes() == self@[id as int],
            id >= self@.len() ==> r is None,
    {
        if id < self.entries.len() {
            Some(self.entries[id].as_str())
        } else {
            None
        }
    }

    /// Writes the symbols in id order, as a sequence of strings.
    pub fn serialize_into(&self, serializer: &mut Serializer)
        requires
            old(serializer).well_formed(),
        ensures
            final(serializer).well_formed(),
            final(serializer).symbols() == old(serializer).symbols(),
            final(serializer).mode() == old(serializer).mode(),
            final(serializer).written() == old(serializer).written() + symbol_list_bytes(self@),
    {
        serializer.serialize_tuple(self.entries.len());
        let ghost start = serializer.written();
        let mut i: usize = 0;
        while i < self.entries.len()
            invariant
                i <= self@.len(),
                self@.len() == self.entries@.len(),
                serializer.well_formed(),
                serializer.symbols() == old(serializer).symbols(),
                serializer.mode() == old(serializer).mode(),
                serializer.written() + symbol_entries_bytes(self@, i as nat) == start
                    + symbol_entries_bytes(self@, 0),
            decreases self.entries.len() - i,
        {
            let ghost before = serializer.written();
            serializer.serialize_str(self.entries[i].as_str());
            proof {
                assert(before + symbol_entries_bytes(self@, i as nat) =~= serializer.written()
                    + symbol_entries_bytes(self@, (i + 1) as nat));
            }
            i = i + 1;
        }
        proof {
            assert(serializer.written() =~= serializer.written() + symbol_entries_bytes(
                self@,
                i as nat,
            ));
            assert(serializer.written() =~= old(serializer).written() + symbol_list_bytes(self@));
        }
    }

    /// Reads symbols written as a sequence of strings, registering them in
    /// order: names that are all different keep their position as their id.
    pub fn deserialize_from<'de>(deserializer: &mut Deserializer<'de>) -> (r: Result<SymbolMap, Error>)
        ensures
            old(deserializer).next() matches Err(e) ==> r matches Err(f) && f == e,
            old(deserializer).next() matches Ok((a, rest, b)) ==> (seq_read(a) matches Err(e)
                ==> r matches Err(f) && f == e),
            old(deserializer).next() matches Ok((a, rest, b)) ==> (seq_read(a) matches Ok(n) ==> (
            r matches Err(e) ==> strings_read(rest, b, old(deserializer).symbols(), n as nat, Seq::empty())
                == Err::<(Seq<Seq<u8>>, Seq<u8>, nat, Seq<Seq<u8>>), Error>(e) || (strings_read(
                rest,
                b,
                old(deserializer).symbols(),
                n as nat,
                Seq::empty(),
            ) is Ok && e == Error::ImpreciseCastWouldLoseData && strings_read(
                rest,
                b,
                old(deserializer).symbols(),
                n as nat,
                Seq::empty(),
            )->Ok_0.0.len() >= u32::MAX))),
            old(deserializer).next() matches Ok((a, rest, b)) ==> (r matches Ok(map) ==> seq_read(a)
                matches Ok(n) && (strings_read(rest, b, old(deserializer).symbols(), n as nat, Seq::empty())
                matches Ok((names, rest2, b2, symbols2)) && (names.len() < u32::MAX && map@
                == registered_all(names) && map.well_formed() && final(deserializer).remaining()
                == rest2 && final(deserializer).symbols() == symbols2))),
    {
        let list = match SymbolList::deserialize_from(deserializer) {
            Ok(l) => l,
            Err(e) => return Err(e),
        };
        if list.len() >= 0xffff_ffff {
            return Err(Error::ImpreciseCastWouldLoseData);
        }
        let mut map = SymbolMap::new();
        let mut i: usize = 0;
        proof {
            assert(list@.take(0) =~= Seq::<Seq<u8>>::empty());
        }
        while i < list.len()
            invariant
                i <= list@.len() < u32::MAX,
                map.well_formed(),
                map@ == registered_all(list@.take(i as int)),
                map@.len() <= i,
            decreases list@.len() - i,
        {
            let name = match list.get(i) {
                Some(s) => s,
                None => return Err(Error::UnknownSymbol(i as u64)),
            };
            map.find_or_add(name.as_str());
            proof {
                assert(list@.take(i + 1 as int).drop_last() =~= list@.take(i as int));
                assert(list@.take(i + 1 as int).last() == list@[i as int]);
            }
            i = i + 1;
        }
        proof {
            assert(list@.take(i as int) =~= list@);
        }
        Ok(map)
    }

    /// Finds `symbol` by its contents.
    fn find(&self, symbol: &str) -> (r: Option<usize>)
        ensures
            r matches Some(i) ==> i < self@.len() && self@[i as int] == symbol.spec_bytes(),
            r is None ==> !self@.contains(symbol.spec_bytes()),
    {
        let wanted = symbol.as_bytes();
        let mut i: usize = 0;
        while i < self.entries.len()
            invariant
                i <= self@.len(),
                self@.len() == self.entries@.len(),
                wanted@ == symbol.spec_bytes(),
                forall|j: int| 0 <= j < i ==> self@[j] != wanted@,
            decreases self.entries.len() - i,
        {
            let entry = self.entries[i].as_str().as_bytes();
            if bytes_equal(entry, wanted) {
                return Some(i);
            }
            i = i + 1;
        }
        None
    }

    /// Registers `symbol` if it is new. Returns its id and whether it was new.
    pub fn find_or_add(&mut self, symbol: &str) -> (r: RegisteredSymbol)
        requires
            old(self).well_formed(),
            old(self)@.len() < u32::MAX,
        ensures
            final(self).well_formed(),
            final(self)@ == registered(old(self)@, symbol.spec_bytes()),
            r.new == !old(self)@.contains(symbol.spec_bytes()),
            r.id == symbol_index(old(self)@, symbol.spec_bytes()),
            final(self)@[r.id as int] == symbol.spec_bytes(),
    {
        let ghost s = symbol.spec_bytes();
        match self.find(symbol) {
            Some(i) => {
                proof {
                    assert(old(self)@.contains(s));
                    let c = choose|k: int| 0 <= k < old(self)@.len() && old(self)@[k] == s;
                    assert(c == i as int);
                }
                RegisteredSymbol { id: i as u32, new: false }
            },
            None => {
                let id = self.entries.len();
                self.entries.push(symbol.to_owned());
                proof {
                    assert(self@ =~= old(self)@.push(s));
                    assert(!(exists|k: int| 0 <= k < old(self)@.len() && old(self)@[k] == s)) by {
                        if exists|k: int| 0 <= k < old(self)@.len() && old(self)@[k] == s {
                            let k = choose|k: int| 0 <= k < old(self)@.len() && old(self)@[k] == s;
                            assert(old(self)@.contains(s));
                        }
                    }
                }
                RegisteredSymbol { id: id as u32, new: true }
            },
        }
    }

    /// Inserts `symbol` into this map.
    ///
    /// Returns true if this symbol had not previously been registered. Returns
    /// false if the symbol was already included in the map.
    pub fn insert(&mut self, symbol: &str) -> (r: bool)
        requires
            old(self).well_formed(),
            old(self)@.len() < u32::MAX,
        ensures
            final(self).well_formed(),
            final(self)@ == registered(old(self)@, symbol.spec_bytes()),
            r == !old(self)@.contains(symbol.spec_bytes()),
    {
        self.find_or_add(symbol).new
    }
}

/// The bytes a list of symbols is written as: a sequence of their length,
/// then each symbol as a byte atom, in id order.
pub open spec fn symbol_list_bytes(symbols: Seq<Seq<u8>>) -> Seq<u8> {
    atom_header_bytes(Kind::Sequence, symbols.len() as u64) + symbol_entries_bytes(symbols, 0)
}

/// The byte atoms of the symbols from index `i` on.
pub open spec fn symbol_entries_bytes(symbols: Seq<Seq<u8>>, i: nat) -> Seq<u8>
    decreases symbols.len() - i,
{
    if i >= symbols.len() {
        Seq::empty()
    } else {
        bytes_atom_bytes(symbols[i as int]) + symbol_entries_bytes(symbols, i + 1)
    }
}

/// The table after each of `names` has been used, in order.
pub open spec fn registered_all(names: Seq<Seq<u8>>) -> Seq<Seq<u8>>
    decreases names.len(),
{
    if names.len() == 0 {
        Seq::empty()
    } else {
        registered(registered_all(names.drop_last()), names.last())
    }
}

/// Names that are all different are registered as they come: each id is
/// the name's position.
pub proof fn lemma_registered_all_distinct(names: Seq<Seq<u8>>)
    requires
        distinct_symbols(names),
    ensures
        registered_all(names) == names,
    decreases names.len(),
{
    if names.len() > 0 {
        let front = names.drop_last();
        assert(distinct_symbols(front)) by {
            assert forall|i: int, j: int| 0 <= i < j < front.len() implies front[i] != front[j] by {
                assert(front[i] == names[i] && front[j] == names[j]);
            }
        }
        lemma_registered_all_distinct(front);
        if front.contains(names.last()) {
            let k = choose|k: int| 0 <= k < front.len() && front[k] == names.last();
            assert(names[k] == names[names.len() - 1]);
        }
        assert(front.push(names.last()) =~= names);
    }
}

/// The bytes that name an enum variant: a named marker, then the symbol.
pub open spec fn variant_prefix_bytes(table: Seq<Seq<u8>>, variant: Seq<u8>) -> Seq<u8> {
    seq![4u8] + symbol_atom_bytes(table, variant)
}

/// An encoder that writes atoms into a buffer that starts with the payload
/// header, registering symbols in its [`SymbolMap`].
pub struct Serializer {
    output: Vec<u8>,
    symbols: SymbolMap,
    compatibility: Compatibility,
}

impl Serializer {
    /// The bytes written so far.
    pub closed spec fn written(&self) -> Seq<u8> {
        self.output@
    }

    /// The symbols registered so far, in id order.
    pub closed spec fn symbols(&self) -> Seq<Seq<u8>> {
        self.symbols@
    }

    /// How unit variants are written.
    pub closed spec fn mode(&self) -> Compatibility {
        self.compatibility
    }

    /// The symbol map is well formed.
    pub closed spec fn well_formed(&self) -> bool {
        self.symbols.well_formed()
    }

    /// Returns a serializer with a fresh symbol map, having written the payload header.
    pub fn new(compatibility: Compatibility) -> (r: Serializer)
        ensures
            r.well_formed(),
            r.written() == payload_header_bytes(CURRENT_VERSION),
            r.symbols() == Seq::<Seq<u8>>::empty(),
            r.mode() == compatibility,
    {
        Serializer::new_with_symbol_map(SymbolMap::new(), compatibility)
    }

    /// Returns a serializer that registers symbols in `symbols`, having
    /// written the payload header. Symbols the map holds are written as
    /// references.
    pub fn new_with_symbol_map(symbols: SymbolMap, compatibility: Compatibility) -> (r: Serializer)
        requires
            symbols.well_formed(),
        ensures
            r.well_formed(),
            r.written() == payload_header_bytes(CURRENT_VERSION),
            r.symbols() == symbols@,
            r.mode() == compatibility,
    {
        let mut output: Vec<u8> = Vec::new();
        write_header(&mut output, CURRENT_VERSION);
        proof {
            assert(output@ =~= payload_header_bytes(CURRENT_VERSION));
        }
        Serializer { output, symbols, compatibility }
    }

    /// Returns the number of symbols registered so far.
    pub fn symbol_count(&self) -> (r: usize)
        ensures
            r == self.symbols().len(),
    {
        self.symbols.len()
    }

    /// Returns the bytes written so far.
    pub fn output(&self) -> (r: &[u8])
        ensures
            r@ == self.written(),
    {
        self.output.as_slice()
    }

    /// Ends the payload: returns the bytes written and the symbol map.
    pub fn into_parts(self) -> (r: (Vec<u8>, SymbolMap))
        requires
            self.well_formed(),
        ensures
            r.0@ == self.written(),
            r.1@ == self.symbols(),
            r.1.well_formed(),
    {
        (self.output, self.symbols)
    }

    /// Writes `symbol`: in full the first time, as a reference to its id after that.
    pub fn write_symbol(&mut self, symbol: &str)
        requires
            old(self).well_formed(),
            old(self).symbols().len() < u32::MAX,
            symbol.spec_bytes().len() < 0x8000_0000_0000_0000,
        ensures
            final(self).well_formed(),
            final(self).symbols() == registered(old(self).symbols(), symbol.spec_bytes()),
            final(self).mode() == old(self).mode(),
            final(self).written() == old(self).written() + symbol_atom_bytes(
                old(self).symbols(),
                symbol.spec_bytes(),
            ),
    {
        let registered_symbol = self.symbols.find_or_add(symbol);
        let bytes = symbol.as_bytes();
        if registered_symbol.new {
            write_atom_header(&mut self.output, Kind::Symbol, (bytes.len() as u64) * 2);
            let ghost mid = self.output@;
            let mut i: usize = 0;
            while i < bytes.len()
                invariant
                    i <= bytes@.len(),
                    bytes@ == symbol.spec_bytes(),
                    self.output@ == mid + bytes@.take(i as int),
                    self.well_formed(),
                    self.symbols() == registered(old(self).symbols(), symbol.spec_bytes()),
                    self.mode() == old(self).mode(),
                decreases bytes.len() - i,
            {
                self.output.push(bytes[i]);
                proof {
                    assert(bytes@.take(i + 1 as int) =~= bytes@.take(i as int).push(bytes@[i as int]));
                }
                i = i + 1;
            }
            proof {
                assert(bytes@.take(i as int) =~= bytes@);
                assert(self.output@ =~= old(self).written() + symbol_atom_bytes(
                    old(self).symbols(),
                    symbol.spec_bytes(),
                ));
            }
        } else {
            write_atom_header(&mut self.output, Kind::Symbol, (registered_symbol.id as u64) * 2 + 1);
        }
    }

    /// Writes an `i8` as an `Int` atom of the narrowest width that holds it.
    pub fn serialize_i8(&mut self, v: i8)
        requires
            old(self).well_formed(),
        ensures
            final(self).well_formed(),
            final(self).symbols() == old(self).symbols(),
            final(self).mode() == old(self).mode(),
            final(self).written() == old(self).written() + signed_atom_bytes(v as int),
    {
        write_i8(&mut self.output, v);
    }

    /// Writes an `i16` as an `Int` atom of the narrowest width that holds it.
    pub fn serialize_i16(&mut self, v: i16)
        requires
            old(self).well_formed(),
        ensures
            final(self).well_formed(),
            final(self).symbols() == old(self).symbols(),
            final(self).mode() == old(self).mode(),
            final(self).written() == old(self).written() + signed_atom_bytes(v as int),
    {
        write_i16(&mut self.output, v);
    }

    /// Writes an `i32` as an `Int` atom of the narrowest width that holds it.
    pub fn serialize_i32(&mut self, v: i32)
        requires
            old(self).well_formed(),
        ensures
            final(self).well_formed(),
            final(self).symbols() == old(self).symbols(),
            final(self).mode() == old(self).mode(),
            final(self).written() == old(self).written() + signed_atom_bytes(v as int),
    {
        write_i32(&mut self.output, v);
    }

    /// Writes an `i64` as an `Int` atom of the narrowest width that holds it.
    pub fn serialize_i64(&mut self, v: i64)
        requires
            old(self).well_formed(),
        ensures
            final(self).well_formed(),
            final(self).symbols() == old(self).symbols(),
            final(self).mode() == old(self).mode(),
            final(self).written() == old(self).written() + signed_atom_bytes(v as int),
    {
        write_i64(&mut self.output, v);
    }

    /// Writes an `i128` as an `Int` atom of the narrowest width that holds it.
    pub fn serialize_i128(&mut self, v: i128)
        requires
            old(self).well_formed(),
        ensures
            final(self).well_formed(),
            final(self).symbols() == old(self).symbols(),
            final(self).mode() == old(self).mode(),
            final(self).written() == old(self).written() + signed_atom_bytes(v as int),
    {
        write_i128(&mut self.output, v);
    }

    /// Writes a `u8` as a `UInt` atom of the narrowest width that holds it.
    pub fn serialize_u8(&mut self, v: u8)
        requires
            old(self).well_formed(),
        ensures
            final(self).well_formed(),
            final(self).symbols() == old(self).symbols(),
            final(self).mode() == old(self).mode(),
            final(self).written() == old(self).written() + unsigned_atom_bytes(v as nat),
    {
        write_u8(&mut self.output, v);
    }

    /// Writes a `u16` as a `UInt` atom of the narrowest width that holds it.
    pub fn serialize_u16(&mut self, v: u16)
        requires
            old(self).well_formed(),
        ensures
            final(self).well_formed(),
            final(self).symbols() == old(self).symbols(),
            final(self).mode() == old(self).mode(),
            final(self).written() == old(self).written() + unsigned_atom_bytes(v as nat),
    {
        write_u16(&mut self.output, v);
    }

    /// Writes a `u32` as a `UInt` atom of the narrowest width that holds it.
    pub fn serialize_u32(&mut self, v: u32)
        requires
            old(self).well_formed(),
        ensures
            final(self).well_formed(),
            final(self).symbols() == old(self).symbols(),
            final(self).mode() == old(self).mode(),
            final(self).written() == old(self).written() + unsigned_atom_bytes(v as nat),
    {
        write_u32(&mut self.output, v);
    }

    /// Writes a `u64` as a `UInt` atom of the narrowest width that holds it.
    pub fn serialize_u64(&mut self, v: u64)
        requires
            old(self).well_formed(),
        ensures
            final(self).well_formed(),
            final(self).symbols() == old(self).symbols(),
            final(self).mode() == old(self).mode(),
            final(self).written() == old(self).written() + unsigned_atom_bytes(v as nat),
    {
        write_u64(&mut self.output, v);
    }

    /// Writes a `u128` as a `UInt` atom of the narrowest width that holds it.
    pub fn serialize_u128(&mut self, v: u128)
        requires
            old(self).well_formed(),
        ensures
            final(self).well_formed(),
            final(self).symbols() == old(self).symbols(),
            final(self).mode() == old(self).mode(),
            final(self).written() == old(self).written() + unsigned_atom_bytes(v as nat),
    {
        write_u128(&mut self.output, v);
    }

    /// Writes a boolean as a special atom.
    pub fn serialize_bool(&mut self, v: bool)
        requires
            old(self).well_formed(),
        ensures
            final(self).well_formed(),
            final(self).symbols() == old(self).symbols(),
            final(self).mode() == old(self).mode(),
            final(self).written() == old(self).written() + seq![if v { 3u8 } else { 2u8 }],
    {
        write_bool(&mut self.output, v);
    }

    /// Writes a float in the width it holds.
    pub fn serialize_float(&mut self, v: Float)
        requires
            old(self).well_formed(),
        ensures
            final(self).well_formed(),
            final(self).symbols() == old(self).symbols(),
            final(self).mode() == old(self).mode(),
            final(self).written() == old(self).written() + float_atom_bytes(v),
    {
        v.write_to(&mut self.output);
    }

    /// Writes a character as its code point, an unsigned 32-bit integer.
    pub fn serialize_char(&mut self, v: char)
        requires
            old(self).well_formed(),
        ensures
            final(self).well_formed(),
            final(self).symbols() == old(self).symbols(),
            final(self).mode() == old(self).mode(),
            final(self).written() == old(self).written() + unsigned_atom_bytes(v as nat),
    {
        write_u32(&mut self.output, v as u32);
    }

    /// Writes a string as a `Bytes` atom of its UTF-8 bytes.
    pub fn serialize_str(&mut self, v: &str)
        requires
            old(self).well_formed(),
        ensures
            final(self).well_formed(),
            final(self).symbols() == old(self).symbols(),
            final(self).mode() == old(self).mode(),
            final(self).written() == old(self).written() + bytes_atom_bytes(v.spec_bytes()),
    {
        write_bytes(&mut self.output, v.as_bytes());
    }

    /// Writes a byte string as a `Bytes` atom.
    pub fn serialize_bytes(&mut self, v: &[u8])
        requires
            old(self).well_formed(),
        ensures
            final(self).well_formed(),
            final(self).symbols() == old(self).symbols(),
            final(self).mode() == old(self).mode(),
            final(self).written() == old(self).written() + bytes_atom_bytes(v@),
    {
        write_bytes(&mut self.output, v);
    }

    /// Writes the absence of a value.
    pub fn serialize_none(&mut self)
        requires
            old(self).well_formed(),
        ensures
            final(self).well_formed(),
            final(self).symbols() == old(self).symbols(),
            final(self).mode() == old(self).mode(),
            final(self).written() == old(self).written() + seq![0u8],
    {
        write_none(&mut self.output);
    }

    /// Writes a unit.
    pub fn serialize_unit(&mut self)
        requires
            old(self).well_formed(),
        ensures
            final(self).well_formed(),
            final(self).symbols() == old(self).symbols(),
            final(self).mode() == old(self).mode(),
            final(self).written() == old(self).written() + seq![1u8],
    {
        write_unit(&mut self.output);
    }

    /// Writes a unit struct, as a unit.
    pub fn serialize_unit_struct(&mut self)
        requires
            old(self).well_formed(),
        ensures
            final(self).well_formed(),
            final(self).symbols() == old(self).symbols(),
            final(self).mode() == old(self).mode(),
            final(self).written() == old(self).written() + seq![1u8],
    {
        write_unit(&mut self.output);
    }

    /// Starts a tuple of `len` elements, as a sequence.
    pub fn serialize_tuple(&mut self, len: usize)
        requires
            old(self).well_formed(),
        ensures
            final(self).well_formed(),
            final(self).symbols() == old(self).symbols(),
            final(self).mode() == old(self).mode(),
            final(self).written() == old(self).written() + atom_header_bytes(Kind::Sequence, len as u64),
    {
        write_atom_header(&mut self.output, Kind::Sequence, len as u64);
    }

    /// Starts a tuple struct of `len` fields, as a sequence.
    pub fn serialize_tuple_struct(&mut self, len: usize)
        requires
            old(self).well_formed(),
        ensures
            final(self).well_formed(),
            final(self).symbols() == old(self).symbols(),
            final(self).mode() == old(self).mode(),
            final(self).written() == old(self).written() + atom_header_bytes(Kind::Sequence, len as u64),
    {
        write_atom_header(&mut self.output, Kind::Sequence, len as u64);
    }

    /// Starts a struct of `len` fields, as a map of known length.
    pub fn serialize_struct(&mut self, len: usize)
        requires
            old(self).well_formed(),
        ensures
            final(self).well_formed(),
            final(self).symbols() == old(self).symbols(),
            final(self).mode() == old(self).mode(),
            final(self).written() == old(self).written() + atom_header_bytes(Kind::Mapping, len as u64),
    {
        write_atom_header(&mut self.output, Kind::Mapping, len as u64);
    }

    /// Writes an integer in the carrier it names: as a signed atom for a
    /// signed carrier, otherwise as an unsigned one.
    pub fn write_integer(&mut self, v: crate::format::Integer)
        requires
            old(self).well_formed(),
        ensures
            final(self).well_formed(),
            final(self).symbols() == old(self).symbols(),
            final(self).mode() == old(self).mode(),
            v.is_signed() ==> final(self).written() == old(self).written() + signed_atom_bytes(v.value()),
            !v.is_signed() ==> final(self).written() == old(self).written() + unsigned_atom_bytes(
                v.value() as nat,
            ),
    {
        v.write_to(&mut self.output);
    }

    /// Writes a unit enum variant: its name, followed by a unit under
    /// [`Compatibility::V4`].
    pub fn serialize_unit_variant(&mut self, variant: &str)
        requires
            old(self).well_formed(),
            old(self).symbols().len() < u32::MAX,
            variant.spec_bytes().len() < 0x8000_0000_0000_0000,
        ensures
            final(self).well_formed(),
            final(self).symbols() == registered(old(self).symbols(), variant.spec_bytes()),
            final(self).mode() == old(self).mode(),
            old(self).mode() == Compatibility::Full ==> final(self).written() == old(self).written()
                + variant_prefix_bytes(old(self).symbols(), variant.spec_bytes()),
            old(self).mode() == Compatibility::V4 ==> final(self).written() == old(self).written()
                + variant_prefix_bytes(old(self).symbols(), variant.spec_bytes()) + seq![1u8],
    {
        self.serialize_newtype_variant(variant);
        if self.compatibility == Compatibility::V4 {
            write_unit(&mut self.output);
        }
    }

    /// Starts an enum variant that holds data: its name. The data follows.
    pub fn serialize_newtype_variant(&mut self, variant: &str)
        requires
            old(self).well_formed(),
            old(self).symbols().len() < u32::MAX,
            variant.spec_bytes().len() < 0x8000_0000_0000_0000,
        ensures
            final(self).well_formed(),
            final(self).symbols() == registered(old(self).symbols(), variant.spec_bytes()),
            final(self).mode() == old(self).mode(),
            final(self).written() == old(self).written() + variant_prefix_bytes(
                old(self).symbols(),
                variant.spec_bytes(),
            ),
    {
        write_named(&mut self.output);
        self.write_symbol(variant);
        proof {
            assert(self.written() =~= old(self).written() + variant_prefix_bytes(
                old(self).symbols(),
                variant.spec_bytes(),
            ));
        }
    }

    /// Starts a tuple variant of `len` fields: its name, then a sequence.
    pub fn serialize_tuple_variant(&mut self, variant: &str, len: usize)
        requires
            old(self).well_formed(),
            old(self).symbols().len() < u32::MAX,
            variant.spec_bytes().len() < 0x8000_0000_0000_0000,
        ensures
            final(self).well_formed(),
            final(self).symbols() == registered(old(self).symbols(), variant.spec_bytes()),
            final(self).mode() == old(self).mode(),
            final(self).written() == old(self).written() + variant_prefix_bytes(
                old(self).symbols(),
                variant.spec_bytes(),
            ) + atom_header_bytes(Kind::Sequence, len as u64),
    {
        self.serialize_newtype_variant(variant);
        write_atom_header(&mut self.output, Kind::Sequence, len as u64);
    }

    /// Starts a struct variant of `len` fields: its name, then a map of known length.
    pub fn serialize_struct_variant(&mut self, variant: &str, len: usize)
        requires
            old(self).well_formed(),
            old(self).symbols().len() < u32::MAX,
            variant.spec_bytes().len() < 0x8000_0000_0000_0000,
        ensures
            final(self).well_formed(),
            final(self).symbols() == registered(old(self).symbols(), variant.spec_bytes()),
            final(self).mode() == old(self).mode(),
            final(self).written() == old(self).written() + variant_prefix_bytes(
                old(self).symbols(),
                variant.spec_bytes(),
            ) + atom_header_bytes(Kind::Mapping, len as u64),
    {
        self.serialize_newtype_variant(variant);
        write_atom_header(&mut self.output, Kind::Mapping, len as u64);
    }

    /// Writes a struct field's name. Its value follows.
    pub fn serialize_field(&mut self, key: &str)
        requires
            old(self).well_formed(),
            old(self).symbols().len() < u32::MAX,
            key.spec_bytes().len() < 0x8000_0000_0000_0000,
        ensures
            final(self).well_formed(),
            final(self).symbols() == registered(old(self).symbols(), key.spec_bytes()),
            final(self).mode() == old(self).mode(),
            final(self).written() == old(self).written() + symbol_atom_bytes(
                old(self).symbols(),
                key.spec_bytes(),
            ),
    {
        self.write_symbol(key);
    }

    /// Starts a sequence. Its length must be known: without one nothing is
    /// written and `SequenceSizeMustBeKnown` is returned.
    pub fn serialize_seq(&mut self, len: Option<usize>) -> (r: Result<(), Error>)
        requires
            old(self).well_formed(),
        ensures
            final(self).well_formed(),
            final(self).symbols() == old(self).symbols(),
            final(self).mode() == old(self).mode(),
            len matches Some(n) ==> r is Ok && final(self).written() == old(self).written()
                + atom_header_bytes(Kind::Sequence, n as u64),
            len is None ==> r == Err::<(), Error>(Error::SequenceSizeMustBeKnown)
                && final(self).written() == old(self).written(),
    {
        match len {
            Some(n) => {
                write_atom_header(&mut self.output, Kind::Sequence, n as u64);
                Ok(())
            },
            None => Err(Error::SequenceSizeMustBeKnown),
        }
    }

    /// Starts a map: of known length when `len` is given, otherwise a
    /// dynamic map that [`Self::end_map`] closes. Returns whether the length
    /// was known.
    pub fn serialize_map(&mut self, len: Option<usize>) -> (known_length: bool)
        requires
            old(self).well_formed(),
        ensures
            final(self).well_formed(),
            final(self).symbols() == old(self).symbols(),
            final(self).mode() == old(self).mode(),
            known_length == len is Some,
            len matches Some(n) ==> final(self).written() == old(self).written() + atom_header_bytes(
                Kind::Mapping,
                n as u64,
            ),
            len is None ==> final(self).written() == old(self).written() + seq![5u8],
    {
        match len {
            Some(n) => {
                write_atom_header(&mut self.output, Kind::Mapping, n as u64);
                true
            },
            None => {
                write_special(&mut self.output, Special::DynamicMap);
                false
            },
        }
    }

    /// Ends a map: a dynamic map gets its end marker; a map of known length
    /// needs nothing.
    pub fn end_map(&mut self, known_length: bool)
        requires
            old(self).well_formed(),
        ensures
            final(self).well_formed(),
            final(self).symbols() == old(self).symbols(),
            final(self).mode() == old(self).mode(),
            known_length ==> final(self).written() == old(self).written(),
            !known_length ==> final(self).written() == old(self).written() + seq![6u8],
    {
        if !known_length {
            write_special(&mut self.output, Special::DynamicEnd);
        }
    }
}

/// The bytes written for `k` uses of `symbol`, one after the other,
/// starting with `table`.
pub open spec fn repeated_symbol_bytes(table: Seq<Seq<u8>>, symbol: Seq<u8>, k: nat) -> Seq<u8>
    decreases k,
{
    if k == 0 {
        Seq::empty()
    } else {
        symbol_atom_bytes(table, symbol) + repeated_symbol_bytes(
            registered(table, symbol),
            symbol,
            (k - 1) as nat,
        )
    }
}

/// `k` copies of `bytes`, one after the other.
pub open spec fn repeat_bytes(bytes: Seq<u8>, k: nat) -> Seq<u8>
    decreases k,
{
    if k == 0 {
        Seq::empty()
    } else {
        bytes + repeat_bytes(bytes, (k - 1) as nat)
    }
}

/// The bytes written for the symbols `uses`, in order, starting with `table`.
pub open spec fn symbols_bytes(table: Seq<Seq<u8>>, uses: Seq<Seq<u8>>) -> Seq<u8>
    decreases uses.len(),
{
    if uses.len() == 0 {
        Seq::empty()
    } else {
        symbol_atom_bytes(table, uses[0]) + symbols_bytes(
            registered(table, uses[0]),
            uses.drop_first(),
        )
    }
}

/// A symbol that the table does not hold gets the next id when registered.
proof fn lemma_registered_new(table: Seq<Seq<u8>>, symbol: Seq<u8>)
    requires
        !table.contains(symbol),
    ensures
        registered(table, symbol) == table.push(symbol),
        registered(table, symbol).contains(symbol),
        symbol_index(registered(table, symbol), symbol) == table.len(),
{
    let t = table.push(symbol);
    assert(t[table.len() as int] == symbol);
    assert(t.contains(symbol));
    let i = choose|i: int| 0 <= i < t.len() && t[i] == symbol;
    if i < table.len() {
        assert(table[i] == symbol);
        assert(table.contains(symbol));
    }
}

/// A symbol used `k` times within one session, not known before it, is
/// written once in full and then as `k - 1` references to the id it got.
pub proof fn lemma_repeated_symbol(table: Seq<Seq<u8>>, symbol: Seq<u8>, k: nat)
    requires
        !table.contains(symbol),
        k >= 1,
    ensures
        repeated_symbol_bytes(table, symbol, k) == new_symbol_bytes(symbol) + repeat_bytes(
            symbol_reference_bytes(table.len() as int),
            (k - 1) as nat,
        ),
{
    lemma_registered_new(table, symbol);
    let t = table.push(symbol);
    lemma_known_symbol_repeats(t, symbol, (k - 1) as nat);
    assert(repeated_symbol_bytes(table, symbol, k) =~= new_symbol_bytes(symbol)
        + repeated_symbol_bytes(t, symbol, (k - 1) as nat));
}

/// Uses of a symbol the table holds leave the table as it is and are all
/// references.
proof fn lemma_known_symbol_repeats(table: Seq<Seq<u8>>, symbol: Seq<u8>, k: nat)
    requires
        table.contains(symbol),
    ensures
        repeated_symbol_bytes(table, symbol, k) == repeat_bytes(
            symbol_reference_bytes(symbol_index(table, symbol)),
            k,
        ),
    decreases k,
{
    if k > 0 {
        lemma_known_symbol_repeats(table, symbol, (k - 1) as nat);
    }
}

/// Every atom takes at least one byte; a reference to one of the first
/// eight ids takes exactly one.
proof fn lemma_symbol_atom_len(table: Seq<Seq<u8>>, symbol: Seq<u8>)
    requires
        symbol.len() < 0x8000_0000_0000_0000,
        table.len() < 0x8000_0000_0000_0000,
    ensures
        symbol_atom_bytes(table, symbol).len() >= 1,
        !table.contains(symbol) ==> symbol_atom_bytes(table, symbol).len() >= 1 + symbol.len(),
        table.contains(symbol) && symbol_index(table, symbol) < 8 ==> symbol_atom_bytes(
            table,
            symbol,
        ).len() == 1,
{
    if table.contains(symbol) {
        let i = symbol_index(table, symbol);
        assert(0 <= i < table.len());
        lemma_atom_header_round_trip(Kind::Symbol, (2 * i + 1) as u64, Seq::empty());
    } else {
        lemma_atom_header_round_trip(Kind::Symbol, (2 * symbol.len()) as u64, Seq::empty());
    }
}

/// Symbols a persistent table already holds, under its first eight ids,
/// take one byte each; written against any other table, as when written
/// without a persistent table, each use takes at least that.
pub proof fn lemma_persistent_symbols_no_larger(
    persistent: Seq<Seq<u8>>,
    ephemeral: Seq<Seq<u8>>,
    uses: Seq<Seq<u8>>,
)
    requires
        persistent.len() <= 8,
        ephemeral.len() + uses.len() < 0x4000_0000_0000_0000,
        forall|i: int| 0 <= i < uses.len() ==> persistent.contains(#[trigger] uses[i]),
        forall|i: int| 0 <= i < uses.len() ==> (#[trigger] uses[i]).len() < 0x8000_0000_0000_0000,
    ensures
        symbols_bytes(persistent, uses).len() == uses.len(),
        symbols_bytes(persistent, uses).len() <= symbols_bytes(ephemeral, uses).len(),
        uses.len() > 0 && uses[0].len() > 0 && !ephemeral.contains(uses[0]) ==> symbols_bytes(
            persistent,
            uses,
        ).len() < symbols_bytes(ephemeral, uses).len(),
    decreases uses.len(),
{
    if uses.len() > 0 {
        let u = uses[0];
        let rest = uses.drop_first();
        assert forall|i: int| 0 <= i < rest.len() implies persistent.contains(#[trigger] rest[i])
            && rest[i].len() < 0x8000_0000_0000_0000 by {
            assert(rest[i] == uses[i + 1]);
        }
        lemma_symbol_atom_len(persistent, u);
        lemma_symbol_atom_len(ephemeral, u);
        assert(0 <= symbol_index(persistent, u) < persistent.len());
        assert(registered(persistent, u) == persistent);
        lemma_persistent_symbols_no_larger(persistent, registered(ephemeral, u), rest);
    }
}

} // verus!
