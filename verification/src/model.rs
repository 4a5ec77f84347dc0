//! What a profile under construction holds, and what each step of the
//! construction makes of it.

use vstd::prelude::*;
use crate::profiler::BlockView;
use crate::proto::Function;
use crate::proto::Label;
use crate::proto::Line;
use crate::proto::LocationView;
use crate::proto::ProfileView;
use crate::proto::SampleView;
use crate::proto::ValueType;
use crate::symbol::SymbolView;
use crate::text::block_label;

verus! {

/// The table and the index that interning `s` into `table` gives: a string
/// that the table holds keeps its index, a new one goes to the end.
pub open spec fn intern(table: Seq<Seq<char>>, s: Seq<char>) -> (Seq<Seq<char>>, int) {
    if table.contains(s) {
        (table, table.index_of(s))
    } else {
        (table.push(s), table.len() as int)
    }
}

/// A string table is in order when it starts with the empty string and holds
/// no string twice.
pub open spec fn strings_in_order(table: Seq<Seq<char>>) -> bool {
    &&& table.len() > 0
    &&& table[0] == Seq::<char>::empty()
    &&& table.no_duplicates()
}

/// Interning keeps a string table in order, keeps every index that was
/// handed out, and hands out the index at which the string then stands; the
/// empty string stands at index 0.
pub proof fn lemma_intern(table: Seq<Seq<char>>, s: Seq<char>)
    requires
        strings_in_order(table),
    ensures
        strings_in_order(intern(table, s).0),
        0 <= intern(table, s).1 < intern(table, s).0.len(),
        intern(table, s).0[intern(table, s).1] == s,
        table.len() <= intern(table, s).0.len() <= table.len() + 1,
        forall|i: int| 0 <= i < table.len() ==> intern(table, s).0[i] == table[i],
        s.len() == 0 ==> intern(table, s).1 == 0,
{
    if s.len() == 0 {
        assert(table[0] =~= s);
        assert(table.contains(s));
        assert(table[table.index_of(s)] == table[0]);
    }
}

/// A string that was interned keeps its index, whatever is interned after
/// it: every later insert of the same string gives the same index.
pub proof fn lemma_intern_is_stable(table: Seq<Seq<char>>, s: Seq<char>, other: Seq<char>)
    requires
        strings_in_order(table),
    ensures
        intern(intern(table, s).0, s) == intern(table, s),
        intern(intern(intern(table, s).0, other).0, s).1 == intern(table, s).1,
{
    let (first, index) = intern(table, s);
    lemma_intern(table, s);
    assert(first.contains(s));
    assert(first[first.index_of(s)] == first[index]);
    let (second, _) = intern(first, other);
    lemma_intern(first, other);
    assert(second[index] == s);
    assert(second.contains(s));
    assert(second[second.index_of(s)] == second[index]);
}

/// The function record that a symbol gets under `id`, with its two names at
/// the given indices of the string table.
pub open spec fn function_record(
    id: u64,
    system_name: int,
    filename: int,
    symbol: SymbolView,
) -> Function {
    Function {
        id,
        name: 0,
        system_name: system_name as i64,
        filename: filename as i64,
        start_line: symbol.line_no as i64,
    }
}

/// The location record of the function `id` of `symbol`.
pub open spec fn location_record(id: u64, symbol: SymbolView) -> LocationView {
    LocationView {
        id,
        address: symbol.address as u64,
        line: seq![Line { function_id: id, line: symbol.line_no as i64 }],
    }
}

/// The sample of one live block: the functions of its call stack, its size as
/// its one value, and one label, whose key and value stand at the given
/// indices of the string table.
pub open spec fn block_sample(locations: Seq<u64>, size: usize, key: int, text: int) -> SampleView {
    SampleView {
        location_id: locations,
        value: seq![size as i64],
        label: seq![Label { key: key as i64, str: text as i64 }],
    }
}

/// The tables of a profile under construction.
pub ghost struct ReportView {
    pub strings: Seq<Seq<char>>,
    pub functions: Seq<Function>,
    pub locations: Seq<LocationView>,
    pub samples: Seq<SampleView>,
}

impl ReportView {
    /// The tables before anything was reported.
    pub open spec fn empty() -> ReportView {
        ReportView {
            strings: seq![Seq::<char>::empty()],
            functions: Seq::empty(),
            locations: Seq::empty(),
            samples: Seq::empty(),
        }
    }

    /// Whether a function stands in the tables for `address`.
    pub open spec fn known(self, address: usize) -> bool {
        exists|i: int|
            0 <= i < self.locations.len() && (#[trigger] self.locations[i]).address == address
    }

    /// The id of the function that stands in the tables for `address`.
    pub open spec fn function_at(self, address: usize) -> Option<u64> {
        if self.known(address) {
            let i = choose|i: int|
                0 <= i < self.locations.len() && (#[trigger] self.locations[i]).address == address;
            Some(self.locations[i].id)
        } else {
            None
        }
    }

    /// Whether the tables still take `symbols` more functions and the strings
    /// that come with them and with one sample.
    pub open spec fn has_room(self, symbols: nat) -> bool {
        &&& self.strings.len() + 2 * symbols + 2 <= i64::MAX
        &&& self.functions.len() + symbols < usize::MAX
    }

    /// Whether the sample refers to functions and strings of these tables
    /// only, and holds one value and one label.
    pub open spec fn holds_sample(self, sample: SampleView) -> bool {
        &&& sample.value.len() == 1
        &&& sample.label.len() == 1
        &&& 0 <= sample.label[0].key < self.strings.len()
        &&& 0 <= sample.label[0].str < self.strings.len()
        &&& forall|j: int|
            0 <= j < sample.location_id.len() ==> 1 <= #[trigger] sample.location_id[j]
                <= self.functions.len()
    }

    /// The tables are consistent: the string table is in order, the function at
    /// position `i` has the id `i + 1` and so has the location at position `i`,
    /// which is the location of that function; no two locations share an
    /// address; and every reference to a string or a function is in range.
    pub open spec fn valid(self) -> bool {
        &&& strings_in_order(self.strings)
        &&& self.strings.len() <= i64::MAX
        &&& self.functions.len() == self.locations.len()
        &&& self.functions.len() <= usize::MAX
        &&& forall|i: int|
            0 <= i < self.functions.len() ==> {
                &&& (#[trigger] self.functions[i]).id == i + 1
                &&& self.functions[i].name == 0
                &&& 0 <= self.functions[i].system_name < self.strings.len()
                &&& 0 <= self.functions[i].filename < self.strings.len()
            }
        &&& forall|i: int|
            0 <= i < self.locations.len() ==> {
                &&& (#[trigger] self.locations[i]).id == i + 1
                &&& self.locations[i].address <= usize::MAX
                &&& self.locations[i].line == seq![
                    Line { function_id: (i + 1) as u64, line: self.functions[i].start_line },
                ]
            }
        &&& forall|i: int, j: int|
            0 <= i < j < self.locations.len() ==> (#[trigger] self.locations[i]).address != (
            #[trigger] self.locations[j]).address
        &&& forall|k: int|
            0 <= k < self.samples.len() ==> self.holds_sample(#[trigger] self.samples[k])
    }

    /// The tables after the function of `symbol` was looked up, and added if
    /// its address was not known, together with the id of that function.
    pub open spec fn add_symbol(self, symbol: SymbolView) -> (ReportView, u64) {
        match self.function_at(symbol.address) {
            Some(id) => (self, id),
            None => {
                let id = (self.functions.len() + 1) as u64;
                let (with_name, system_name) = intern(self.strings, symbol.name);
                let (with_file, filename) = intern(with_name, symbol.file_name);
                (
                    ReportView {
                        strings: with_file,
                        functions: self.functions.push(
                            function_record(id, system_name, filename, symbol),
                        ),
                        locations: self.locations.push(location_record(id, symbol)),
                        samples: self.samples,
                    },
                    id,
                )
            },
        }
    }

    /// The tables after the functions of `symbols` were added in order,
    /// together with their ids in the same order.
    pub open spec fn add_symbols(self, symbols: Seq<SymbolView>) -> (ReportView, Seq<u64>)
        decreases symbols.len(),
    {
        if symbols.len() == 0 {
            (self, Seq::empty())
        } else {
            let (before, ids) = self.add_symbols(symbols.drop_last());
            let (after, id) = before.add_symbol(symbols.last());
            (after, ids.push(id))
        }
    }

    /// The tables after the live block at `block`, of `size` bytes, was
    /// reported with the symbols of its call stack.
    pub open spec fn add_block(
        self,
        block: usize,
        size: usize,
        symbols: Seq<SymbolView>,
    ) -> ReportView {
        let (tables, ids) = self.add_symbols(symbols);
        let (with_key, key) = intern(tables.strings, "block"@);
        let (with_text, text) = intern(with_key, block_label(block as nat));
        ReportView {
            strings: with_text,
            functions: tables.functions,
            locations: tables.locations,
            samples: tables.samples.push(block_sample(ids, size, key, text)),
        }
    }

    /// The profile that the tables make: its samples count bytes of space.
    pub open spec fn finish(self) -> ProfileView {
        let (with_type, type_) = intern(self.strings, "space"@);
        let (with_unit, unit) = intern(with_type, "bytes"@);
        ProfileView {
            sample_type: seq![ValueType { type_: type_ as i64, unit: unit as i64 }],
            sample: self.samples,
            location: self.locations,
            function: self.functions,
            string_table: with_unit,
        }
    }

    /// Whether these tables hold all that `earlier` holds, at the same places.
    pub open spec fn extends(self, earlier: ReportView) -> bool {
        &&& earlier.strings.len() <= self.strings.len()
        &&& earlier.functions.len() <= self.functions.len()
        &&& earlier.locations.len() <= self.locations.len()
        &&& earlier.samples.len() <= self.samples.len()
        &&& forall|i: int| 0 <= i < earlier.strings.len() ==> self.strings[i] == earlier.strings[i]
        &&& forall|i: int|
            0 <= i < earlier.functions.len() ==> self.functions[i] == earlier.functions[i]
        &&& forall|i: int|
            0 <= i < earlier.locations.len() ==> self.locations[i] == earlier.locations[i]
        &&& forall|i: int| 0 <= i < earlier.samples.len() ==> self.samples[i] == earlier.samples[i]
    }
}

/// In consistent tables the function of the address at position `i` of the
/// locations has the id `i + 1`.
pub proof fn lemma_function_at(tables: ReportView, i: int)
    requires
        tables.valid(),
        0 <= i < tables.locations.len(),
    ensures
        tables.function_at(tables.locations[i].address as usize) == Some((i + 1) as u64),
{
    let address = tables.locations[i].address as usize;
    assert(tables.locations[i].address == address);
    assert(tables.known(address));
    let c = choose|c: int|
        0 <= c < tables.locations.len() && (#[trigger] tables.locations[c]).address == address;
    assert(c == i);
}

/// Tables that extend consistent tables, and are consistent themselves, know
/// every function that the earlier tables know, under the same id.
pub proof fn lemma_extends_keeps_functions(earlier: ReportView, later: ReportView, address: usize)
    requires
        earlier.valid(),
        later.valid(),
        later.extends(earlier),
        earlier.known(address),
    ensures
        later.function_at(address) == earlier.function_at(address),
{
    let i = choose|i: int|
        0 <= i < earlier.locations.len() && (#[trigger] earlier.locations[i]).address == address;
    lemma_function_at(earlier, i);
    assert(later.locations[i] == earlier.locations[i]);
    lemma_function_at(later, i);
}

/// Looking a symbol up, and adding its function where the address is new,
/// keeps the tables consistent and all that they held; the id that it gives
/// is from then on the id of the function at that address.
pub proof fn lemma_add_symbol(tables: ReportView, symbol: SymbolView)
    requires
        tables.valid(),
        tables.has_room(1),
    ensures
        tables.add_symbol(symbol).0.valid(),
        tables.add_symbol(symbol).0.extends(tables),
        tables.add_symbol(symbol).0.function_at(symbol.address) == Some(
            tables.add_symbol(symbol).1,
        ),
        1 <= tables.add_symbol(symbol).1 <= tables.add_symbol(symbol).0.functions.len(),
        tables.add_symbol(symbol).0.strings.len() <= tables.strings.len() + 2,
        tables.add_symbol(symbol).0.functions.len() <= tables.functions.len() + 1,
        tables.add_symbol(symbol).0.samples == tables.samples,
{
    let (after, id) = tables.add_symbol(symbol);
    if tables.known(symbol.address) {
        let i = choose|i: int|
            0 <= i < tables.locations.len() && (#[trigger] tables.locations[i]).address
                == symbol.address;
        lemma_function_at(tables, i);
    } else {
        let n = tables.functions.len() as int;
        let (with_name, system_name) = intern(tables.strings, symbol.name);
        let (with_file, filename) = intern(with_name, symbol.file_name);
        lemma_intern(tables.strings, symbol.name);
        lemma_intern(with_name, symbol.file_name);
        assert(id == n + 1);
        assert(after.locations[n] == location_record(id, symbol));
        assert(after.functions[n] == function_record(id, system_name, filename, symbol));
        assert forall|i: int| 0 <= i < after.locations.len() implies {
            &&& (#[trigger] after.locations[i]).id == i + 1
            &&& after.locations[i].address <= usize::MAX
            &&& after.locations[i].line == seq![
                Line { function_id: (i + 1) as u64, line: after.functions[i].start_line },
            ]
        } by {
            if i < n {
                assert(after.locations[i] == tables.locations[i]);
                assert(after.functions[i] == tables.functions[i]);
            }
        }
        assert forall|i: int| 0 <= i < after.functions.len() implies {
            &&& (#[trigger] after.functions[i]).id == i + 1
            &&& after.functions[i].name == 0
            &&& 0 <= after.functions[i].system_name < after.strings.len()
            &&& 0 <= after.functions[i].filename < after.strings.len()
        } by {
            if i < n {
                assert(after.functions[i] == tables.functions[i]);
            }
        }
        assert forall|i: int, j: int| 0 <= i < j < after.locations.len() implies (
        #[trigger] after.locations[i]).address != (#[trigger] after.locations[j]).address by {
            assert(after.locations[i] == tables.locations[i]);
            if j < n {
                assert(after.locations[j] == tables.locations[j]);
            } else {
                assert(tables.locations[i].address != symbol.address);
            }
        }
        assert forall|k: int| 0 <= k < after.samples.len() implies after.holds_sample(
            #[trigger] after.samples[k],
        ) by {
            assert(tables.holds_sample(tables.samples[k]));
        }
        assert(after.valid());
        lemma_function_at(after, n);
    }
}

/// Adding the functions of a run of symbols keeps the tables consistent and
/// all that they held, and gives one id for each symbol: the id of the
/// function at its address.
pub proof fn lemma_add_symbols(tables: ReportView, symbols: Seq<SymbolView>)
    requires
        tables.valid(),
        tables.has_room(symbols.len()),
    ensures
        tables.add_symbols(symbols).0.valid(),
        tables.add_symbols(symbols).0.extends(tables),
        tables.add_symbols(symbols).0.samples == tables.samples,
        tables.add_symbols(symbols).1.len() == symbols.len(),
        tables.add_symbols(symbols).0.strings.len() <= tables.strings.len() + 2 * symbols.len(),
        tables.add_symbols(symbols).0.functions.len() <= tables.functions.len() + symbols.len(),
        forall|k: int|
            0 <= k < symbols.len() ==> tables.add_symbols(symbols).0.function_at(
                (#[trigger] symbols[k]).address,
            ) == Some(tables.add_symbols(symbols).1[k]),
    decreases symbols.len(),
{
    if symbols.len() > 0 {
        let (before, ids) = tables.add_symbols(symbols.drop_last());
        let (after, id) = before.add_symbol(symbols.last());
        lemma_add_symbols(tables, symbols.drop_last());
        lemma_add_symbol(before, symbols.last());
        assert forall|k: int| 0 <= k < symbols.len() implies after.function_at(
            (#[trigger] symbols[k]).address,
        ) == Some(ids.push(id)[k]) by {
            if k < symbols.len() - 1 {
                assert(symbols.drop_last()[k] == symbols[k]);
                assert(before.function_at(symbols[k].address) == Some(ids[k]));
                lemma_extends_keeps_functions(before, after, symbols[k].address);
            }
        }
    }
}

/// Within one call stack, two symbols with the same address get the same
/// function id.
pub proof fn lemma_same_address_same_function(
    tables: ReportView,
    symbols: Seq<SymbolView>,
    i: int,
    j: int,
)
    requires
        tables.valid(),
        tables.has_room(symbols.len()),
        0 <= i < symbols.len(),
        0 <= j < symbols.len(),
        symbols[i].address == symbols[j].address,
    ensures
        tables.add_symbols(symbols).1[i] == tables.add_symbols(symbols).1[j],
{
    lemma_add_symbols(tables, symbols);
}

/// Every id that adding a run of symbols gives is the id of a function of
/// the tables.
pub proof fn lemma_function_ids_in_range(tables: ReportView, symbols: Seq<SymbolView>, k: int)
    requires
        tables.valid(),
        tables.has_room(symbols.len()),
        0 <= k < symbols.len(),
    ensures
        1 <= tables.add_symbols(symbols).1[k] <= tables.add_symbols(symbols).0.functions.len(),
{
    lemma_add_symbols(tables, symbols);
    let after = tables.add_symbols(symbols).0;
    let address = symbols[k].address;
    assert(after.function_at(address) is Some);
    let i = choose|i: int|
        0 <= i < after.locations.len() && (#[trigger] after.locations[i]).address == address;
    assert(after.locations[i].id == i + 1);
}

/// The profile that consistent tables make is well formed, and its sample
/// type is bytes of space.
pub proof fn lemma_finish(tables: ReportView)
    requires
        tables.valid(),
        tables.has_room(0),
    ensures
        tables.finish().well_formed(),
        tables.finish().string_table[tables.finish().sample_type[0].type_ as int] == "space"@,
        tables.finish().string_table[tables.finish().sample_type[0].unit as int] == "bytes"@,
        tables.finish().sample == tables.samples,
        tables.finish().function == tables.functions,
        tables.finish().location == tables.locations,
        forall|i: int|
            0 <= i < tables.strings.len() ==> tables.finish().string_table[i] == tables.strings[i],
{
    let profile = tables.finish();
    let (with_type, type_) = intern(tables.strings, "space"@);
    let (with_unit, unit) = intern(with_type, "bytes"@);
    lemma_intern(tables.strings, "space"@);
    lemma_intern(with_type, "bytes"@);
    assert forall|k: int| 0 <= k < profile.sample.len() implies profile.holds_sample(
        #[trigger] profile.sample[k],
    ) by {
        assert(tables.holds_sample(tables.samples[k]));
    }
    assert forall|i: int| 0 <= i < profile.location.len() implies {
        &&& (#[trigger] profile.location[i]).id == i + 1
        &&& profile.location[i].line.len() == 1
        &&& profile.location[i].line[0].function_id == i + 1
    } by {
        assert(tables.locations[i].id == i + 1);
    }
}

/// Reporting a block keeps the tables consistent and all that they held, and
/// adds one sample: its one value is the size of the block, its label is
/// `block` with the address of the block as its text, and its locations are
/// the functions at the addresses of the symbols, in their order.
pub proof fn lemma_add_block(
    tables: ReportView,
    block: usize,
    size: usize,
    symbols: Seq<SymbolView>,
)
    requires
        tables.valid(),
        tables.has_room(symbols.len()),
        size <= i64::MAX,
    ensures
        tables.add_block(block, size, symbols).valid(),
        tables.add_block(block, size, symbols).extends(tables),
        tables.add_block(block, size, symbols).samples.len() == tables.samples.len() + 1,
        tables.add_block(block, size, symbols).strings.len() <= tables.strings.len() + 2
            * symbols.len() + 2,
        tables.add_block(block, size, symbols).functions.len() <= tables.functions.len()
            + symbols.len(),
        ({
            let after = tables.add_block(block, size, symbols);
            let sample = after.samples.last();
            &&& sample.value == seq![size as i64]
            &&& sample.value[0] == size
            &&& sample.label.len() == 1
            &&& after.strings[sample.label[0].key as int] == "block"@
            &&& after.strings[sample.label[0].str as int] == block_label(block as nat)
            &&& sample.location_id.len() == symbols.len()
            &&& forall|k: int|
                0 <= k < symbols.len() ==> after.function_at((#[trigger] symbols[k]).address)
                    == Some(sample.location_id[k])
        }),
{
    let after = tables.add_block(block, size, symbols);
    let (with_symbols, ids) = tables.add_symbols(symbols);
    let (with_key, key) = intern(with_symbols.strings, "block"@);
    let (with_text, text) = intern(with_key, block_label(block as nat));
    lemma_add_symbols(tables, symbols);
    lemma_intern(with_symbols.strings, "block"@);
    lemma_intern(with_key, block_label(block as nat));
    let sample = block_sample(ids, size, key, text);
    assert(after.samples.last() == sample);
    assert forall|k: int| 0 <= k < after.samples.len() implies after.holds_sample(
        #[trigger] after.samples[k],
    ) by {
        if k < with_symbols.samples.len() {
            assert(with_symbols.holds_sample(with_symbols.samples[k]));
        } else {
            assert forall|j: int| 0 <= j < ids.len() implies 1 <= #[trigger] ids[j]
                <= after.functions.len() by {
                lemma_function_ids_in_range(tables, symbols, j);
            }
        }
    }
    assert forall|i: int| 0 <= i < after.functions.len() implies {
        &&& (#[trigger] after.functions[i]).id == i + 1
        &&& after.functions[i].name == 0
        &&& 0 <= after.functions[i].system_name < after.strings.len()
        &&& 0 <= after.functions[i].filename < after.strings.len()
    } by {
        assert(with_symbols.functions[i].id == i + 1);
    }
    assert(after.valid());
    assert forall|k: int| 0 <= k < symbols.len() implies after.function_at(
        (#[trigger] symbols[k]).address,
    ) == Some(sample.location_id[k]) by {
        assert(after.locations == with_symbols.locations);
        assert(after.function_at(symbols[k].address) == with_symbols.function_at(
            symbols[k].address,
        ));
    }
}

/// One live block as it is reported: its address, its size and the symbols
/// of its call stack.
pub ghost struct ReportedBlock {
    pub block: usize,
    pub size: usize,
    pub symbols: Seq<SymbolView>,
}

impl ReportView {
    /// The tables after `blocks` were reported in order.
    pub open spec fn add_blocks(self, blocks: Seq<ReportedBlock>) -> ReportView
        decreases blocks.len(),
    {
        if blocks.len() == 0 {
            self
        } else {
            let last = blocks.last();
            self.add_blocks(blocks.drop_last()).add_block(last.block, last.size, last.symbols)
        }
    }
}

/// The profile of a snapshot in which `blocks` are reported in order.
pub open spec fn profile_of(blocks: Seq<ReportedBlock>) -> ProfileView {
    ReportView::empty().add_blocks(blocks).finish()
}

/// The bytes that a run of samples counts: the sum of the first value of
/// each.
pub open spec fn sample_bytes(samples: Seq<SampleView>) -> int
    decreases samples.len(),
{
    if samples.len() == 0 {
        0
    } else {
        sample_bytes(samples.drop_last()) + samples.last().value[0]
    }
}

/// The sum of the sizes of a run of reported blocks.
pub open spec fn reported_bytes(blocks: Seq<ReportedBlock>) -> int
    decreases blocks.len(),
{
    if blocks.len() == 0 {
        0
    } else {
        reported_bytes(blocks.drop_last()) + blocks.last().size
    }
}

/// The number of symbols in a run of reported blocks.
pub open spec fn reported_symbols(blocks: Seq<ReportedBlock>) -> nat
    decreases blocks.len(),
{
    if blocks.len() == 0 {
        0
    } else {
        reported_symbols(blocks.drop_last()) + blocks.last().symbols.len()
    }
}

/// Whether the tables take `blocks` one after the other.
pub open spec fn room_for(tables: ReportView, blocks: Seq<ReportedBlock>) -> bool {
    &&& tables.strings.len() + 2 * reported_symbols(blocks) + 2 * blocks.len() + 2 <= i64::MAX
    &&& tables.functions.len() + reported_symbols(blocks) < usize::MAX
    &&& forall|i: int| 0 <= i < blocks.len() ==> (#[trigger] blocks[i]).size <= i64::MAX
}

/// Reporting a run of blocks keeps the tables consistent and all that they
/// held, and adds one sample for each block, in their order, whose one value
/// is the size of the block; so the samples count the bytes of the blocks.
pub proof fn lemma_add_blocks(tables: ReportView, blocks: Seq<ReportedBlock>)
    requires
        tables.valid(),
        room_for(tables, blocks),
    ensures
        tables.add_blocks(blocks).valid(),
        tables.add_blocks(blocks).extends(tables),
        tables.add_blocks(blocks).has_room(0),
        tables.add_blocks(blocks).strings.len() <= tables.strings.len() + 2 * reported_symbols(
            blocks,
        ) + 2 * blocks.len(),
        tables.add_blocks(blocks).functions.len() <= tables.functions.len() + reported_symbols(
            blocks,
        ),
        tables.add_blocks(blocks).samples.len() == tables.samples.len() + blocks.len(),
        forall|i: int|
            0 <= i < blocks.len() ==> {
                let sample = #[trigger] tables.add_blocks(blocks).samples[tables.samples.len() + i];
                &&& sample.value == seq![blocks[i].size as i64]
                &&& sample.value[0] == blocks[i].size
                &&& sample.location_id.len() == blocks[i].symbols.len()
                &&& tables.add_blocks(blocks).strings[sample.label[0].key as int] == "block"@
                &&& tables.add_blocks(blocks).strings[sample.label[0].str as int] == block_label(
                    blocks[i].block as nat,
                )
                &&& forall|k: int|
                    0 <= k < blocks[i].symbols.len() ==> tables.add_blocks(blocks).function_at(
                        (#[trigger] blocks[i].symbols[k]).address,
                    ) == Some(sample.location_id[k])
            },
        sample_bytes(tables.add_blocks(blocks).samples) == sample_bytes(tables.samples)
            + reported_bytes(blocks),
    decreases blocks.len(),
{
    if blocks.len() > 0 {
        let last = blocks.last();
        let before = tables.add_blocks(blocks.drop_last());
        let after = tables.add_blocks(blocks);
        assert(room_for(tables, blocks.drop_last())) by {
            assert forall|i: int| 0 <= i < blocks.drop_last().len() implies (
            #[trigger] blocks.drop_last()[i]).size <= i64::MAX by {
                assert(blocks.drop_last()[i] == blocks[i]);
            }
        }
        lemma_add_blocks(tables, blocks.drop_last());
        assert(last == blocks[blocks.len() - 1]);
        lemma_add_block(before, last.block, last.size, last.symbols);
        assert(after.samples.drop_last() =~= before.samples);
        assert forall|i: int| 0 <= i < blocks.len() implies {
            let sample = #[trigger] after.samples[tables.samples.len() + i];
            &&& sample.value == seq![blocks[i].size as i64]
            &&& sample.value[0] == blocks[i].size
            &&& sample.location_id.len() == blocks[i].symbols.len()
            &&& after.strings[sample.label[0].key as int] == "block"@
            &&& after.strings[sample.label[0].str as int] == block_label(blocks[i].block as nat)
            &&& forall|k: int|
                0 <= k < blocks[i].symbols.len() ==> after.function_at(
                    (#[trigger] blocks[i].symbols[k]).address,
                ) == Some(sample.location_id[k])
        } by {
            if i < blocks.len() - 1 {
                assert(blocks.drop_last()[i] == blocks[i]);
                let sample = before.samples[tables.samples.len() + i];
                assert(after.samples[tables.samples.len() + i] == sample);
                assert(before.holds_sample(sample));
                assert forall|k: int| 0 <= k < blocks[i].symbols.len() implies after.function_at(
                    (#[trigger] blocks[i].symbols[k]).address,
                ) == Some(sample.location_id[k]) by {
                    let address = blocks[i].symbols[k].address;
                    assert(before.function_at(address) == Some(sample.location_id[k]));
                    lemma_extends_keeps_functions(before, after, address);
                }
            }
        }
    }
}

/// The sum of the numbers that a map holds.
pub open spec fn map_total(weights: Map<usize, nat>) -> nat
    decreases weights.dom().len(),
    when weights.dom().finite()
    via map_total_decreases
{
    if weights.dom().len() == 0 {
        0
    } else {
        let key = weights.dom().choose();
        weights[key] + map_total(weights.remove(key))
    }
}

#[via_fn]
proof fn map_total_decreases(weights: Map<usize, nat>) {
    if weights.dom().len() != 0 {
        let key = weights.dom().choose();
        vstd::set_lib::axiom_is_empty_len0(weights.dom());
        assert(weights.dom().contains(key));
        assert(weights.remove(key).dom() =~= weights.dom().remove(key));
    }
}

/// The sum of the numbers that a map holds under `keys`, one after the
/// other.
pub open spec fn listed_total(weights: Map<usize, nat>, keys: Seq<usize>) -> nat
    decreases keys.len(),
{
    if keys.len() == 0 {
        0
    } else {
        listed_total(weights, keys.drop_last()) + weights[keys.last()]
    }
}

/// Whether `keys` lists the keys of a map, each once.
pub open spec fn lists_keys(weights: Map<usize, nat>, keys: Seq<usize>) -> bool {
    &&& keys.no_duplicates()
    &&& forall|key: usize| #[trigger] weights.contains_key(key) <==> keys.contains(key)
}

/// Taking one key out of a list takes its number out of the sum.
proof fn lemma_listed_total_remove(weights: Map<usize, nat>, keys: Seq<usize>, i: int)
    requires
        0 <= i < keys.len(),
    ensures
        listed_total(weights, keys) == listed_total(weights, keys.remove(i)) + weights[keys[i]],
    decreases keys.len(),
{
    if i == keys.len() - 1 {
        assert(keys.remove(i) =~= keys.drop_last());
    } else {
        lemma_listed_total_remove(weights, keys.drop_last(), i);
        assert(keys.remove(i).drop_last() =~= keys.drop_last().remove(i));
        assert(keys.remove(i).last() == keys.last());
    }
}

/// A sum does not depend on the map outside the keys that are listed.
proof fn lemma_listed_total_of_other_map(
    weights: Map<usize, nat>,
    others: Map<usize, nat>,
    keys: Seq<usize>,
)
    requires
        forall|i: int| 0 <= i < keys.len() ==> weights[#[trigger] keys[i]] == others[keys[i]],
    ensures
        listed_total(weights, keys) == listed_total(others, keys),
    decreases keys.len(),
{
    if keys.len() > 0 {
        assert forall|i: int| 0 <= i < keys.drop_last().len() implies weights[
            #[trigger] keys.drop_last()[i]
        ] == others[keys.drop_last()[i]] by {
            assert(keys.drop_last()[i] == keys[i]);
        }
        lemma_listed_total_of_other_map(weights, others, keys.drop_last());
        assert(keys.last() == keys[keys.len() - 1]);
    }
}

/// A list of the keys of a map has as many entries as the map has keys, and
/// the numbers under them sum to the sum of the map, in whatever order it
/// lists them.
pub proof fn lemma_listed_total(weights: Map<usize, nat>, keys: Seq<usize>)
    requires
        weights.dom().finite(),
        lists_keys(weights, keys),
    ensures
        keys.len() == weights.dom().len(),
        listed_total(weights, keys) == map_total(weights),
    decreases keys.len(),
{
    vstd::set_lib::axiom_is_empty_len0(weights.dom());
    if weights.dom().len() == 0 {
        if keys.len() > 0 {
            assert(keys.contains(keys[0]));
            assert(weights.contains_key(keys[0]));
        }
    } else {
        let key = weights.dom().choose();
        assert(weights.contains_key(key));
        assert(keys.contains(key));
        let i = choose|i: int| 0 <= i < keys.len() && keys[i] == key;
        let rest = keys.remove(i);
        let others = weights.remove(key);
        assert(others.dom() =~= weights.dom().remove(key));
        assert(lists_keys(others, rest)) by {
            assert forall|k: int, l: int| 0 <= k < rest.len() && 0 <= l < rest.len() && k
                != l implies rest[k] != rest[l] by {
                let k0 = if k < i { k } else { k + 1 };
                let l0 = if l < i { l } else { l + 1 };
                assert(rest[k] == keys[k0]);
                assert(rest[l] == keys[l0]);
            }
            assert forall|other: usize| #[trigger] others.contains_key(other) <==> rest.contains(
                other,
            ) by {
                if others.contains_key(other) {
                    assert(weights.contains_key(other));
                    assert(keys.contains(other));
                    let k0 = choose|k: int| 0 <= k < keys.len() && keys[k] == other;
                    let k = if k0 < i { k0 } else { k0 - 1 };
                    assert(rest[k] == keys[k0]);
                }
                if rest.contains(other) {
                    let k = choose|k: int| 0 <= k < rest.len() && rest[k] == other;
                    let k0 = if k < i { k } else { k + 1 };
                    assert(rest[k] == keys[k0]);
                    assert(keys.contains(other));
                }
            }
        }
        lemma_listed_total(others, rest);
        lemma_listed_total_remove(weights, keys, i);
        assert forall|k: int| 0 <= k < rest.len() implies weights[#[trigger] rest[k]]
            == others[rest[k]] by {
            let k0 = if k < i { k } else { k + 1 };
            assert(rest[k] == keys[k0]);
        }
        lemma_listed_total_of_other_map(weights, others, rest);
    }
}

/// The numbers under the first keys of a list sum to no more than those
/// under all of them.
pub proof fn lemma_listed_total_prefix(weights: Map<usize, nat>, keys: Seq<usize>, i: int)
    requires
        0 <= i <= keys.len(),
    ensures
        listed_total(weights, keys.take(i)) <= listed_total(weights, keys),
    decreases keys.len() - i,
{
    if i < keys.len() {
        lemma_listed_total_prefix(weights, keys, i + 1);
        assert(keys.take(i + 1).drop_last() =~= keys.take(i));
    } else {
        assert(keys.take(i) =~= keys);
    }
}

/// A map whose numbers are at most `most` sums to at most `most` times the
/// number of its keys.
pub proof fn lemma_map_total_bound(weights: Map<usize, nat>, most: nat)
    requires
        weights.dom().finite(),
        forall|key: usize| #[trigger] weights.contains_key(key) ==> weights[key] <= most,
    ensures
        map_total(weights) <= most * weights.dom().len(),
    decreases weights.dom().len(),
{
    vstd::set_lib::axiom_is_empty_len0(weights.dom());
    if weights.dom().len() == 0 {
        assert(most * weights.dom().len() == 0) by (nonlinear_arith)
            requires
                weights.dom().len() == 0,
        ;
    } else {
        let key = weights.dom().choose();
        let others = weights.remove(key);
        assert(weights.contains_key(key));
        assert(others.dom() =~= weights.dom().remove(key));
        assert forall|other: usize| #[trigger] others.contains_key(other) implies others[other]
            <= most by {
            assert(weights.contains_key(other));
        }
        lemma_map_total_bound(others, most);
        assert(most * weights.dom().len() == most * others.dom().len() + most) by (nonlinear_arith)
            requires
                weights.dom().len() == others.dom().len() + 1,
        ;
    }
}

/// The size of each live block.
pub open spec fn sizes(registry: Map<usize, BlockView>) -> Map<usize, nat> {
    registry.map_values(|block: BlockView| block.size as nat)
}

/// The number of frames that each live block holds.
pub open spec fn depths(registry: Map<usize, BlockView>) -> Map<usize, nat> {
    registry.map_values(|block: BlockView| block.frames.len())
}

/// The bytes that live blocks hold: the sum of their sizes.
pub open spec fn live_bytes(registry: Map<usize, BlockView>) -> int {
    map_total(sizes(registry)) as int
}

/// The frames that live blocks hold: the sum of the lengths of their call
/// stacks.
pub open spec fn held_frames(registry: Map<usize, BlockView>) -> nat {
    map_total(depths(registry))
}

/// The addresses of a run of reported blocks.
pub open spec fn block_keys(blocks: Seq<ReportedBlock>) -> Seq<usize> {
    Seq::new(blocks.len(), |i: int| blocks[i].block)
}

/// Whether `blocks` lists the live blocks of `registry`: each of them once,
/// with its size, and no other.
pub open spec fn lists(registry: Map<usize, BlockView>, blocks: Seq<ReportedBlock>) -> bool {
    &&& forall|i: int|
        0 <= i < blocks.len() ==> registry.contains_key((#[trigger] blocks[i]).block)
            && blocks[i].size == registry[blocks[i].block].size
    &&& forall|i: int, j: int|
        0 <= i < j < blocks.len() ==> (#[trigger] blocks[i]).block != (#[trigger] blocks[j]).block
    &&& forall|block: usize| #[trigger]
        registry.contains_key(block) ==> exists|i: int|
            0 <= i < blocks.len() && (#[trigger] blocks[i]).block == block
}

/// A list of the live blocks lists their addresses, each once.
pub proof fn lemma_lists_keys(registry: Map<usize, BlockView>, blocks: Seq<ReportedBlock>)
    requires
        lists(registry, blocks),
    ensures
        lists_keys(sizes(registry), block_keys(blocks)),
        lists_keys(depths(registry), block_keys(blocks)),
{
    let keys = block_keys(blocks);
    assert forall|i: int, j: int| 0 <= i < keys.len() && 0 <= j < keys.len() && i
        != j implies keys[i] != keys[j] by {
        if i < j {
            assert(blocks[i].block != blocks[j].block);
        } else {
            assert(blocks[j].block != blocks[i].block);
        }
    }
    assert forall|key: usize| #[trigger] registry.contains_key(key) <==> keys.contains(key) by {
        if registry.contains_key(key) {
            let i = choose|i: int| 0 <= i < blocks.len() && (#[trigger] blocks[i]).block == key;
            assert(keys[i] == key);
        }
        if keys.contains(key) {
            let i = choose|i: int| 0 <= i < keys.len() && keys[i] == key;
            assert(registry.contains_key(blocks[i].block));
        }
    }
    assert(sizes(registry).dom() =~= registry.dom());
    assert(depths(registry).dom() =~= registry.dom());
}

/// The sizes of a run of reported blocks that are live sum to what the
/// registry holds under their addresses.
proof fn lemma_reported_bytes_listed(registry: Map<usize, BlockView>, blocks: Seq<ReportedBlock>)
    requires
        forall|i: int|
            0 <= i < blocks.len() ==> registry.contains_key((#[trigger] blocks[i]).block)
                && blocks[i].size == registry[blocks[i].block].size,
    ensures
        reported_bytes(blocks) == listed_total(sizes(registry), block_keys(blocks)),
    decreases blocks.len(),
{
    if blocks.len() > 0 {
        assert forall|i: int| 0 <= i < blocks.drop_last().len() implies registry.contains_key(
            (#[trigger] blocks.drop_last()[i]).block,
        ) && blocks.drop_last()[i].size == registry[blocks.drop_last()[i].block].size by {
            assert(blocks.drop_last()[i] == blocks[i]);
        }
        lemma_reported_bytes_listed(registry, blocks.drop_last());
        assert(block_keys(blocks).drop_last() =~= block_keys(blocks.drop_last()));
        assert(blocks.last() == blocks[blocks.len() - 1]);
        assert(block_keys(blocks).last() == blocks.last().block);
    }
}

/// A run of reported blocks that are live, each with no more symbols than
/// its call stack has frames, has no more symbols than the registry holds
/// frames under their addresses.
pub proof fn lemma_reported_symbols_listed(
    registry: Map<usize, BlockView>,
    blocks: Seq<ReportedBlock>,
)
    requires
        forall|i: int|
            0 <= i < blocks.len() ==> registry.contains_key((#[trigger] blocks[i]).block)
                && blocks[i].symbols.len() <= registry[blocks[i].block].frames.len(),
    ensures
        reported_symbols(blocks) <= listed_total(depths(registry), block_keys(blocks)),
    decreases blocks.len(),
{
    if blocks.len() > 0 {
        assert forall|i: int| 0 <= i < blocks.drop_last().len() implies registry.contains_key(
            (#[trigger] blocks.drop_last()[i]).block,
        ) && blocks.drop_last()[i].symbols.len() <= registry[blocks.drop_last()[i].block].frames.len() by {
            assert(blocks.drop_last()[i] == blocks[i]);
        }
        lemma_reported_symbols_listed(registry, blocks.drop_last());
        assert(block_keys(blocks).drop_last() =~= block_keys(blocks.drop_last()));
        assert(blocks.last() == blocks[blocks.len() - 1]);
        assert(block_keys(blocks).last() == blocks.last().block);
    }
}

/// A list of the live blocks has as many entries as there are live blocks,
/// and their sizes sum to the live bytes, in whatever order it lists them.
pub proof fn lemma_lists(registry: Map<usize, BlockView>, blocks: Seq<ReportedBlock>)
    requires
        registry.dom().finite(),
        lists(registry, blocks),
    ensures
        blocks.len() == registry.dom().len(),
        reported_bytes(blocks) == live_bytes(registry),
        listed_total(depths(registry), block_keys(blocks)) == held_frames(registry),
{
    lemma_lists_keys(registry, blocks);
    lemma_reported_bytes_listed(registry, blocks);
    assert(sizes(registry).dom() =~= registry.dom());
    assert(depths(registry).dom() =~= registry.dom());
    lemma_listed_total(sizes(registry), block_keys(blocks));
    lemma_listed_total(depths(registry), block_keys(blocks));
}

/// The samples of a snapshot are as many as the blocks that it reports, and
/// they count the bytes of those blocks.
pub proof fn lemma_add_blocks_counts(blocks: Seq<ReportedBlock>)
    requires
        room_for(ReportView::empty(), blocks),
    ensures
        profile_of(blocks).sample.len() == blocks.len(),
        sample_bytes(profile_of(blocks).sample) == reported_bytes(blocks),
{
    lemma_add_blocks(ReportView::empty(), blocks);
    lemma_finish(ReportView::empty().add_blocks(blocks));
    assert(sample_bytes(ReportView::empty().samples) == 0);
}

/// In the profile of a snapshot the sample at position `i` is that of the
/// block reported at position `i`: its one value is the size of the block,
/// its one label has the key `block` and the address of the block as its
/// text, and its locations are the functions of the symbols of the block.
pub proof fn lemma_sample_of_block(blocks: Seq<ReportedBlock>, i: int)
    requires
        room_for(ReportView::empty(), blocks),
        0 <= i < blocks.len(),
    ensures
        profile_of(blocks).well_formed(),
        profile_of(blocks).sample.len() == blocks.len(),
        ({
            let profile = profile_of(blocks);
            let sample = profile.sample[i];
            &&& sample.value.len() == 1
            &&& sample.value[0] == blocks[i].size
            &&& sample.label.len() == 1
            &&& profile.string_table[sample.label[0].key as int] == "block"@
            &&& profile.string_table[sample.label[0].str as int] == block_label(
                blocks[i].block as nat,
            )
            &&& sample.location_id.len() == blocks[i].symbols.len()
            &&& forall|k: int|
                0 <= k < blocks[i].symbols.len() ==> 1 <= #[trigger] sample.location_id[k]
                    <= profile.function.len() && profile.location[sample.location_id[k] - 1].address
                    == blocks[i].symbols[k].address
        }),
{
    let tables = ReportView::empty().add_blocks(blocks);
    let profile = profile_of(blocks);
    lemma_add_blocks(ReportView::empty(), blocks);
    lemma_finish(tables);
    let sample = tables.samples[ReportView::empty().samples.len() + i];
    assert(profile.sample[i] == sample);
    assert(tables.holds_sample(sample));
    assert forall|k: int| 0 <= k < blocks[i].symbols.len() implies 1
        <= #[trigger] sample.location_id[k] <= profile.function.len()
        && profile.location[sample.location_id[k] - 1].address
        == blocks[i].symbols[k].address by {
        let address = blocks[i].symbols[k].address;
        assert(tables.function_at(address) == Some(sample.location_id[k]));
        let at = choose|at: int|
            0 <= at < tables.locations.len() && (#[trigger] tables.locations[at]).address
                == address;
        assert(tables.locations[at].id == at + 1);
    }
}

/// In the profile of a snapshot two symbols with the same address have the
/// same function id, in whichever samples they stand.
pub proof fn lemma_same_address_same_id(blocks: Seq<ReportedBlock>, i: int, k: int, j: int, l: int)
    requires
        room_for(ReportView::empty(), blocks),
        0 <= i < blocks.len(),
        0 <= k < blocks[i].symbols.len(),
        0 <= j < blocks.len(),
        0 <= l < blocks[j].symbols.len(),
        blocks[i].symbols[k].address == blocks[j].symbols[l].address,
    ensures
        profile_of(blocks).sample[i].location_id[k] == profile_of(blocks).sample[j].location_id[l],
{
    let tables = ReportView::empty().add_blocks(blocks);
    lemma_add_blocks(ReportView::empty(), blocks);
    lemma_finish(tables);
    let first = tables.samples[ReportView::empty().samples.len() + i];
    let second = tables.samples[ReportView::empty().samples.len() + j];
    assert(tables.function_at(blocks[i].symbols[k].address) == Some(first.location_id[k]));
    assert(tables.function_at(blocks[j].symbols[l].address) == Some(second.location_id[l]));
}

/// A block that is not live when a snapshot is taken is absent from its
/// profile: no sample carries the label of its address.
pub proof fn lemma_freed_block_is_absent(
    registry: Map<usize, BlockView>,
    blocks: Seq<ReportedBlock>,
    ptr: usize,
    i: int,
)
    requires
        lists(registry, blocks),
        room_for(ReportView::empty(), blocks),
        !registry.contains_key(ptr),
        0 <= i < blocks.len(),
    ensures
        blocks[i].block != ptr,
        profile_of(blocks).string_table[profile_of(blocks).sample[i].label[0].str as int]
            != block_label(ptr as nat),
{
    lemma_sample_of_block(blocks, i);
    assert(registry.contains_key(blocks[i].block));
    crate::text::lemma_block_label_injective(blocks[i].block as nat, ptr as nat);
}

/// A snapshot of blocks whose call stacks gave no symbols has samples with
/// empty location lists, and neither functions nor locations.
pub proof fn lemma_no_symbols_no_locations(blocks: Seq<ReportedBlock>)
    requires
        room_for(ReportView::empty(), blocks),
        forall|i: int| 0 <= i < blocks.len() ==> (#[trigger] blocks[i]).symbols.len() == 0,
    ensures
        forall|i: int|
            0 <= i < blocks.len() ==> (#[trigger] profile_of(blocks).sample[i]).location_id.len()
                == 0,
        profile_of(blocks).function.len() == 0,
        profile_of(blocks).location.len() == 0,
{
    let tables = ReportView::empty().add_blocks(blocks);
    lemma_add_blocks(ReportView::empty(), blocks);
    lemma_finish(tables);
    lemma_no_symbols(blocks);
    assert forall|i: int| 0 <= i < blocks.len() implies (#[trigger] profile_of(
        blocks,
    ).sample[i]).location_id.len() == 0 by {
        lemma_sample_of_block(blocks, i);
    }
}

/// Blocks without symbols have no symbols in all.
proof fn lemma_no_symbols(blocks: Seq<ReportedBlock>)
    requires
        forall|i: int| 0 <= i < blocks.len() ==> (#[trigger] blocks[i]).symbols.len() == 0,
    ensures
        reported_symbols(blocks) == 0,
    decreases blocks.len(),
{
    if blocks.len() > 0 {
        assert forall|i: int| 0 <= i < blocks.drop_last().len() implies (
        #[trigger] blocks.drop_last()[i]).symbols.len() == 0 by {
            assert(blocks.drop_last()[i] == blocks[i]);
        }
        lemma_no_symbols(blocks.drop_last());
        assert(blocks.last() == blocks[blocks.len() - 1]);
    }
}

/// In consistent tables two addresses with the same function are the same
/// address: functions at different addresses have different ids.
pub proof fn lemma_function_ids_differ(tables: ReportView, first: usize, second: usize)
    requires
        tables.valid(),
        tables.function_at(first) is Some,
        tables.function_at(first) == tables.function_at(second),
    ensures
        first == second,
{
    let i = choose|i: int|
        0 <= i < tables.locations.len() && (#[trigger] tables.locations[i]).address == first;
    let j = choose|j: int|
        0 <= j < tables.locations.len() && (#[trigger] tables.locations[j]).address == second;
    assert(tables.known(second));
    assert(tables.locations[i].id == i + 1);
    assert(tables.locations[j].id == j + 1);
}

/// In the profile of a snapshot two symbols with different addresses have
/// different function ids, in whichever samples they stand.
pub proof fn lemma_different_address_different_id(
    blocks: Seq<ReportedBlock>,
    i: int,
    k: int,
    j: int,
    l: int,
)
    requires
        room_for(ReportView::empty(), blocks),
        0 <= i < blocks.len(),
        0 <= k < blocks[i].symbols.len(),
        0 <= j < blocks.len(),
        0 <= l < blocks[j].symbols.len(),
        blocks[i].symbols[k].address != blocks[j].symbols[l].address,
    ensures
        profile_of(blocks).sample[i].location_id[k] != profile_of(blocks).sample[j].location_id[l],
{
    let tables = ReportView::empty().add_blocks(blocks);
    lemma_add_blocks(ReportView::empty(), blocks);
    lemma_finish(tables);
    let first = tables.samples[ReportView::empty().samples.len() + i];
    let second = tables.samples[ReportView::empty().samples.len() + j];
    assert(tables.function_at(blocks[i].symbols[k].address) == Some(first.location_id[k]));
    assert(tables.function_at(blocks[j].symbols[l].address) == Some(second.location_id[l]));
    if first.location_id[k] == second.location_id[l] {
        lemma_function_ids_differ(
            tables,
            blocks[i].symbols[k].address,
            blocks[j].symbols[l].address,
        );
    }
}

} // verus!
