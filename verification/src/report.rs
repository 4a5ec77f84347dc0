//! The tables of a profile under construction and the profile built from them.

use vstd::prelude::*;
use vstd::hash_map::StringHashMap;
use std::collections::HashMap;
use crate::model::function_record;
use crate::model::intern;
use crate::model::lemma_add_block;
use crate::model::lemma_add_symbol;
use crate::model::lemma_add_symbols;
use crate::model::lemma_extends_keeps_functions;
use crate::model::lemma_finish;
use crate::model::lemma_function_ids_in_range;
use crate::model::lemma_intern;
use crate::model::profile_of;
use crate::model::strings_in_order;
use crate::model::ReportView;
use crate::model::ReportedBlock;
use crate::profiler::GLobalHeapProfiler;
use crate::profiler::FAILED;
use crate::profiler::READY;
use crate::proto::Function;
use crate::proto::Label;
use crate::proto::Line;
use crate::proto::Location;
use crate::proto::Profile;
use crate::proto::Sample;
use crate::proto::ValueType;
use crate::symbol::symbol_views;
use crate::symbol::Symbol;
use crate::text::block_label;
use crate::text::format_block;
use crate::text::is_timestamp;
use crate::text::snapshot_file_name;
use crate::text::snapshot_name;
use crate::wire::profile_fits;
use crate::wire::wire_profile;

verus! {

/// The strings of a profile, each held once, with the index of each.
pub struct StringTable {
    index: StringHashMap<usize>,
    table: Vec<String>,
}

impl View for StringTable {
    type V = Seq<Seq<char>>;

    closed spec fn view(&self) -> Seq<Seq<char>> {
        Seq::new(self.table@.len(), |i: int| self.table@[i]@)
    }
}

impl StringTable {
    /// The index agrees with the table, and the table is in order.
    pub closed spec fn wf(&self) -> bool {
        &&& strings_in_order(self@)
        &&& forall|s: Seq<char>| #[trigger] self.index@.contains_key(s) <==> self@.contains(s)
        &&& forall|s: Seq<char>| #[trigger]
            self.index@.contains_key(s) ==> 0 <= self.index@[s] < self@.len()
                && self@[self.index@[s] as int] == s
    }

    /// A well-formed table is in order.
    pub proof fn lemma_in_order(&self)
        requires
            self.wf(),
        ensures
            strings_in_order(self@),
    {
    }

    /// A table that holds the empty string alone, at index 0.
    pub fn new() -> (table: Self)
        ensures
            table.wf(),
            table@ == seq![Seq::<char>::empty()],
    {
        let mut index: StringHashMap<usize> = StringHashMap::new();
        let mut table: Vec<String> = Vec::new();
        table.push(String::new());
        index.insert(String::new(), 0);
        let result = StringTable { index, table };
        proof {
            assert(result@ =~= seq![Seq::<char>::empty()]);
            assert forall|s: Seq<char>| #[trigger]
                result.index@.contains_key(s) <==> result@.contains(s) by {
                if result@.contains(s) {
                    let i = choose|i: int| 0 <= i < result@.len() && result@[i] == s;
                    assert(s == Seq::<char>::empty());
                }
                if s == Seq::<char>::empty() {
                    assert(result@[0] == s);
                }
            }
        }
        result
    }

    /// The number of strings in the table.
    pub fn len(&self) -> (count: usize)
        ensures
            count == self@.len(),
    {
        self.table.len()
    }

    /// Interns `value` and returns its index.
    pub fn insert(&mut self, value: &str) -> (offset: i64)
        requires
            old(self).wf(),
            old(self)@.len() < i64::MAX,
        ensures
            final(self).wf(),
            final(self)@ == intern(old(self)@, value@).0,
            offset == intern(old(self)@, value@).1,
    {
        let found: Option<usize> = match self.index.get(value) {
            Some(offset) => Some(*offset),
            None => None,
        };
        match found {
            Some(offset) => {
                proof {
                    assert(self@.contains(value@));
                    assert(self@[offset as int] == value@);
                }
                offset as i64
            },
            None => {
                let offset: usize = self.table.len();
                self.table.push(value.to_owned());
                self.index.insert(value.to_owned(), offset);
                proof {
                    let before = old(self)@;
                    let after = self@;
                    assert(after =~= before.push(value@));
                    assert(!before.contains(value@));
                    assert forall|s: Seq<char>| #[trigger]
                        self.index@.contains_key(s) <==> after.contains(s) by {
                        if after.contains(s) {
                            let i = choose|i: int| 0 <= i < after.len() && after[i] == s;
                            if i < before.len() {
                                assert(before[i] == s);
                                assert(before.contains(s));
                            }
                        }
                        if before.contains(s) {
                            let i = choose|i: int| 0 <= i < before.len() && before[i] == s;
                            assert(after[i] == s);
                        }
                        if s == value@ {
                            assert(after[offset as int] == s);
                        }
                    }
                    assert forall|s: Seq<char>| #[trigger]
                        self.index@.contains_key(s) implies 0 <= self.index@[s] < after.len()
                        && after[self.index@[s] as int] == s by {
                        if s != value@ {
                            assert(old(self).index@.contains_key(s));
                        }
                    }
                }
                offset as i64
            },
        }
    }
}

/// The functions of a profile, with the id of the function at each address.
pub struct FnTable {
    index: HashMap<usize, u64>,
    funcs: Vec<Function>,
}

impl FnTable {
    /// The function records, in the order in which they were pushed.
    pub closed spec fn functions(&self) -> Seq<Function> {
        self.funcs@
    }

    /// The id of the function at each address that was pushed.
    pub closed spec fn ids(&self) -> Map<usize, u64> {
        self.index@
    }

    /// A table without functions.
    pub fn new() -> (table: Self)
        ensures
            table.functions() == Seq::<Function>::empty(),
            table.ids() == Map::<usize, u64>::empty(),
    {
        FnTable { index: HashMap::new(), funcs: Vec::new() }
    }

    /// The number of functions in the table.
    pub fn len(&self) -> (count: usize)
        ensures
            count == self.functions().len(),
    {
        self.funcs.len()
    }

    /// The id of the function at the address of `symbol`, if that address was
    /// pushed.
    pub fn get(&self, symbol: &Symbol) -> (id: Option<u64>)
        ensures
            id == if self.ids().contains_key(symbol.address) {
                Some(self.ids()[symbol.address])
            } else {
                None
            },
    {
        broadcast use vstd::std_specs::hash::group_hash_axioms;

        match self.index.get(&symbol.address) {
            Some(id) => Some(*id),
            None => None,
        }
    }

    /// Adds the function of `symbol` under the next id, interning its name and
    /// its file name, and returns the id.
    pub fn push(&mut self, string_table: &mut StringTable, symbol: &Symbol) -> (id: u64)
        requires
            old(string_table).wf(),
            old(string_table)@.len() + 2 <= i64::MAX,
            old(self).functions().len() < usize::MAX,
            !old(self).ids().contains_key(symbol.address),
        ensures
            final(string_table).wf(),
            id == old(self).functions().len() + 1,
            final(string_table)@ == intern(
                intern(old(string_table)@, symbol.name@).0,
                symbol.file_name@,
            ).0,
            final(self).functions() == old(self).functions().push(
                function_record(
                    id,
                    intern(old(string_table)@, symbol.name@).1,
                    intern(intern(old(string_table)@, symbol.name@).0, symbol.file_name@).1,
                    symbol@,
                ),
            ),
            final(self).ids() == old(self).ids().insert(symbol.address, id),
    {
        broadcast use vstd::std_specs::hash::group_hash_axioms;

        let func_id: u64 = (self.funcs.len() + 1) as u64;
        proof {
            old(string_table).lemma_in_order();
            lemma_intern(old(string_table)@, symbol.name@);
        }
        let system_name: i64 = string_table.insert(symbol.name.as_str());
        let filename: i64 = string_table.insert(symbol.file_name.as_str());
        let func = Function {
            id: func_id,
            name: 0,
            system_name,
            filename,
            start_line: symbol.line_no as i64,
        };
        self.funcs.push(func);
        self.index.insert(symbol.address, func_id);
        func_id
    }
}

/// A profile under construction: live blocks are reported one by one, then
/// the profile is built.
pub struct GperfHeapProfilerReport {
    string_table: StringTable,
    func_table: FnTable,
    loc_table: Vec<Location>,
    samples: Vec<Sample>,
}

impl View for GperfHeapProfilerReport {
    type V = ReportView;

    closed spec fn view(&self) -> ReportView {
        ReportView {
            strings: self.string_table@,
            functions: self.func_table.functions(),
            locations: Seq::new(self.loc_table@.len(), |i: int| self.loc_table@[i]@),
            samples: Seq::new(self.samples@.len(), |i: int| self.samples@[i]@),
        }
    }
}

impl GperfHeapProfilerReport {
    /// The id under which the function table finds `address`.
    spec fn lookup(&self, address: usize) -> Option<u64> {
        if self.func_table.ids().contains_key(address) {
            Some(self.func_table.ids()[address])
        } else {
            None
        }
    }

    /// The tables are consistent, and the two indexes agree with them.
    pub closed spec fn wf(&self) -> bool {
        &&& self.string_table.wf()
        &&& self@.valid()
        &&& forall|address: usize| #[trigger] self.lookup(address) == self@.function_at(address)
    }

    /// The tables of a well-formed report are consistent.
    pub proof fn lemma_valid(&self)
        requires
            self.wf(),
        ensures
            self@.valid(),
    {
    }

    /// A report without blocks.
    pub fn new() -> (report: Self)
        ensures
            report.wf(),
            report@ == ReportView::empty(),
    {
        let report = GperfHeapProfilerReport {
            string_table: StringTable::new(),
            func_table: FnTable::new(),
            loc_table: Vec::new(),
            samples: Vec::new(),
        };
        proof {
            assert(report@.locations =~= Seq::empty());
            assert(report@.samples =~= Seq::empty());
            assert(report@ == ReportView::empty());
            assert forall|address: usize| #[trigger]
                report.lookup(address) == report@.function_at(address) by {
                assert(!report@.known(address));
            }
        }
        report
    }

    /// Looks up the function of `symbol`, adds it to the tables if its address
    /// is new, and returns its id.
    fn locate(&mut self, symbol: &Symbol) -> (id: u64)
        requires
            old(self).wf(),
            old(self)@.has_room(1),
        ensures
            final(self).wf(),
            final(self)@ == old(self)@.add_symbol(symbol@).0,
            id == old(self)@.add_symbol(symbol@).1,
    {
        proof {
            lemma_add_symbol(self@, symbol@);
        }
        match self.func_table.get(symbol) {
            Some(id) => {
                assert(self.lookup(symbol.address) == Some(id));
                id
            },
            None => {
                assert(self.lookup(symbol.address) == None::<u64>);
                let id = self.func_table.push(&mut self.string_table, symbol);
                let line = Line { function_id: id, line: symbol.line_no as i64 };
                let loc = Location { id, address: symbol.address as u64, line: vec![line] };
                self.loc_table.push(loc);
                proof {
                    let before = old(self)@;
                    let after = before.add_symbol(symbol@).0;
                    assert(loc@.line =~= seq![line]);
                    assert(self@.locations =~= after.locations);
                    assert(self@.samples =~= after.samples);
                    assert(self@ == after);
                    assert forall|address: usize| #[trigger]
                        self.lookup(address) == self@.function_at(address) by {
                        if address != symbol.address {
                            assert(self.lookup(address) == old(self).lookup(address));
                            if before.known(address) {
                                lemma_extends_keeps_functions(before, after, address);
                            } else if after.known(address) {
                                let i = choose|i: int|
                                    0 <= i < after.locations.len() && (
                                    #[trigger] after.locations[i]).address == address;
                                if i < before.locations.len() {
                                    assert(before.locations[i].address == address);
                                }
                            }
                        }
                    }
                }
                id
            },
        }
    }

    /// Whether the tables still take `symbols` more functions and the strings
    /// that come with them and with one sample, so that a block with that many
    /// symbols can be reported.
    pub fn has_room(&self, symbols: usize) -> (room: bool)
        requires
            self.wf(),
        ensures
            room == self@.has_room(symbols as nat),
    {
        let strings: u128 = self.string_table.len() as u128;
        let functions: u128 = self.func_table.len() as u128;
        let more: u128 = symbols as u128;
        strings + 2 * more + 2 <= i64::MAX as u128 && functions + more < usize::MAX as u128
    }

    /// Builds the profile from what was reported, and leaves the report
    /// empty.
    pub fn build(&mut self) -> (profile: Profile)
        requires
            old(self).wf(),
            old(self)@.has_room(0),
        ensures
            profile@ == old(self)@.finish(),
            profile@.well_formed(),
            profile@.string_table.len() >= 1,
            profile@.string_table[0] == Seq::<char>::empty(),
            final(self).wf(),
            final(self)@ == ReportView::empty(),
    {
        proof {
            self.string_table.lemma_in_order();
            lemma_intern(self.string_table@, "space"@);
            lemma_finish(self@);
        }
        let type_ = self.string_table.insert("space");
        let unit = self.string_table.insert("bytes");
        let samples_value = ValueType { type_, unit };
        let mut taken = GperfHeapProfilerReport::new();
        core::mem::swap(self, &mut taken);
        let profile = Profile {
            sample_type: vec![samples_value],
            sample: taken.samples,
            location: taken.loc_table,
            function: taken.func_table.funcs,
            string_table: taken.string_table.table,
        };
        proof {
            let expected = old(self)@.finish();
            assert(profile@.sample_type =~= expected.sample_type);
            assert(profile@.sample =~= expected.sample);
            assert(profile@.location =~= expected.location);
            assert(profile@.function =~= expected.function);
            assert(profile@.string_table =~= expected.string_table);
        }
        profile
    }

    /// Reports the live block at `block`, of `block_size` bytes, with the
    /// symbols of its call stack, innermost first: the functions that are new
    /// go into the tables, and one sample is added for the block.
    pub fn report_block_info(
        &mut self,
        block: usize,
        block_size: usize,
        frames: &[Symbol],
    ) -> (done: bool)
        requires
            old(self).wf(),
            old(self)@.has_room(frames@.len()),
            block_size <= i64::MAX,
        ensures
            done,
            final(self).wf(),
            final(self)@ == old(self)@.add_block(block, block_size, symbol_views(frames@)),
            final(self)@.valid(),
            final(self)@.extends(old(self)@),
            final(self)@.samples.len() == old(self)@.samples.len() + 1,
            final(self)@.samples.last().value == seq![block_size as i64],
            final(self)@.samples.last().location_id.len() == frames@.len(),
            forall|j: int|
                0 <= j < frames@.len() ==> final(self)@.function_at((#[trigger] frames@[j]).address)
                    == Some(final(self)@.samples.last().location_id[j]),
    {
        proof {
            old(self).lemma_valid();
            lemma_add_block(old(self)@, block, block_size, symbol_views(frames@));
            assert forall|j: int| 0 <= j < frames@.len() implies (#[trigger] frames@[j]).address
                == symbol_views(frames@)[j].address by {}
        }
        let ghost start = self@;
        let ghost symbols = symbol_views(frames@);
        let mut locs: Vec<u64> = Vec::new();
        let mut i: usize = 0;
        while i < frames.len()
            invariant
                i <= frames.len(),
                symbols == symbol_views(frames@),
                self.wf(),
                start.valid(),
                start.has_room(frames@.len()),
                (self@, locs@) == start.add_symbols(symbols.take(i as int)),
                self@.strings.len() <= start.strings.len() + 2 * i,
                self@.functions.len() <= start.functions.len() + i,
            decreases frames.len() - i,
        {
            let ghost before = self@;
            let id = self.locate(&frames[i]);
            locs.push(id);
            proof {
                let done = symbols.take(i as int + 1);
                assert(done.drop_last() =~= symbols.take(i as int));
                assert(done.last() == frames@[i as int]@);
                lemma_add_symbol(before, frames@[i as int]@);
            }
            i = i + 1;
        }
        proof {
            assert(symbols.take(i as int) =~= symbols);
            self.string_table.lemma_in_order();
            lemma_intern(self.string_table@, "block"@);
        }
        let ghost tables = self@;
        let ghost found = self.func_table.ids();
        assert forall|address: usize|
            tables.function_at(address) == (if found.contains_key(address) {
                Some(found[address])
            } else {
                None
            }) by {
            assert(self.lookup(address) == tables.function_at(address));
        }
        let key = self.string_table.insert("block");
        let text = format_block(block);
        let str = self.string_table.insert(text.as_str());
        let heap_name = Label { key, str };
        let sample = Sample {
            location_id: locs,
            label: vec![heap_name],
            value: vec![block_size as i64],
        };
        self.samples.push(sample);
        proof {
            let after = start.add_block(block, block_size, symbols);
            let with_key = intern(tables.strings, "block"@).0;
            lemma_intern(with_key, block_label(block as nat));
            assert(sample@.label =~= seq![heap_name]);
            assert(sample@.value =~= seq![block_size as i64]);
            assert(self@.locations =~= after.locations);
            assert(self@.samples =~= after.samples);
            assert(self@ == after);
            assert forall|k: int| 0 <= k < self@.samples.len() implies self@.holds_sample(
                #[trigger] self@.samples[k],
            ) by {
                if k < tables.samples.len() {
                    assert(tables.holds_sample(tables.samples[k]));
                } else {
                    assert forall|j: int| 0 <= j < sample@.location_id.len() implies 1
                        <= #[trigger] sample@.location_id[j] <= self@.functions.len() by {
                        lemma_add_symbols(start, symbols);
                        lemma_function_ids_in_range(start, symbols, j);
                    }
                }
            }
            assert forall|address: usize| #[trigger]
                self.lookup(address) == self@.function_at(address) by {
                assert(self.func_table.ids() == found);
                assert(self@.locations == tables.locations);
                assert(self@.function_at(address) == tables.function_at(address));
            }
        }
        true
    }
}

/// The depth of the call stacks of a registry that a snapshot is the first to
/// ask for.
pub const SNAPSHOT_MAX_FRAMES: usize = 20;

/// A snapshot of the live blocks as it goes to a file.
pub struct Snapshot {
    /// The name of the file, in the working directory.
    pub file_name: String,
    /// The profile in the protobuf wire format.
    pub contents: Vec<u8>,
}

/// Takes a snapshot of the live blocks, in which `resolve` gives the symbol
/// at each address of a call stack: the name of its file, which holds the
/// time of the call, and the profile as the bytes of that file. A registry
/// that was not asked for before is made, with `SNAPSHOT_MAX_FRAMES` as its
/// depth; the live blocks stay as they are. There is no snapshot if the
/// registry could not be made, if the tables of a profile do not take the
/// live blocks, or if a part of the profile is too long to be written.
pub fn snapshot<F: Fn(usize) -> Option<Symbol>>(
    global: &mut GLobalHeapProfiler,
    resolve: &F,
) -> (taken: Option<Snapshot>)
    requires
        old(global).wf(),
        forall|address: usize| call_requires(*resolve, (address,)),
    ensures
        final(global).wf(),
        final(global).live() == old(global).live(),
        old(global).state() == FAILED ==> taken is None && *final(global) == *old(global),
        old(global).state() != FAILED ==> {
            &&& final(global).state() == READY
            &&& final(global).profiler() is Some
            &&& final(global).depth() == (if old(global).state() == READY {
                old(global).depth()
            } else {
                SNAPSHOT_MAX_FRAMES
            })
            &&& !final(global).profiler()->0.fits() ==> taken is None
            &&& final(global).profiler()->0.fits() ==> exists|blocks: Seq<ReportedBlock>|
                final(global).profiler()->0.snapshot(*resolve, blocks) && (taken is Some
                    <==> profile_fits(#[trigger] profile_of(blocks))) && (taken matches Some(file)
                    ==> file.contents@ == wire_profile(profile_of(blocks)))
        },
        taken matches Some(file) ==> exists|timestamp: Seq<char>|
            is_timestamp(timestamp) && file.file_name@ == #[trigger] snapshot_name(timestamp),
{
    let profiler = match global.get(SNAPSHOT_MAX_FRAMES) {
        Some(profiler) => profiler,
        None => {
            return None;
        },
    };
    if !profiler.can_report() {
        return None;
    }
    let profile = profiler.report(resolve);
    match profile.write_to_bytes() {
        Some(contents) => Some(Snapshot { file_name: snapshot_file_name(), contents }),
        None => None,
    }
}

} // verus!
