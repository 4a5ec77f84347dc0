//! The registry of live blocks, the one registry of a process, and what
//! the profiling allocator does with them.

use vstd::prelude::*;
use vstd::std_specs::iter::IteratorSpec;
use std::collections::HashMap;
use crate::capture::get_backtrace;
use crate::helper::Reentrancy;
use crate::model::depths;
use crate::model::held_frames;
use crate::model::lemma_add_block;
use crate::model::lemma_add_blocks_counts;
use crate::model::lemma_finish;
use crate::model::lemma_freed_block_is_absent;
use crate::model::lemma_listed_total;
use crate::model::lemma_listed_total_prefix;
use crate::model::lemma_lists;
use crate::model::lemma_map_total_bound;
use crate::model::lemma_no_symbols_no_locations;
use crate::model::lemma_reported_symbols_listed;
use crate::model::lemma_sample_of_block;
use crate::model::listed_total;
use crate::model::lists;
use crate::model::lists_keys;
use crate::model::live_bytes;
use crate::model::profile_of;
use crate::model::reported_bytes;
use crate::model::reported_symbols;
use crate::model::room_for;
use crate::model::sample_bytes;
use crate::model::ReportView;
use crate::model::ReportedBlock;
use crate::proto::Profile;
use crate::report::GperfHeapProfilerReport;
use crate::symbol::frames_to_symbols;
use crate::symbol::lemma_present_len;
use crate::symbol::present;
use crate::symbol::resolved_by;
use crate::symbol::resolves;
use crate::symbol::symbol_views;
use crate::symbol::Symbol;
use crate::text::block_label;

verus! {

/// One live allocation: its size in bytes and the call stack that made it,
/// innermost frame first.
#[derive(Clone, Debug, PartialEq, Eq)]
pub struct Block {
    pub size: usize,
    pub frames: Vec<usize>,
}

/// What a `Block` holds.
pub ghost struct BlockView {
    pub size: usize,
    pub frames: Seq<usize>,
}

impl View for Block {
    type V = BlockView;

    open spec fn view(&self) -> BlockView {
        BlockView { size: self.size, frames: self.frames@ }
    }
}

/// What a registry that keeps `max_frames` frames keeps of a call stack: its
/// first `max_frames` frames, or all of it where it has no more.
pub open spec fn kept(frames: Seq<usize>, max_frames: usize) -> Seq<usize> {
    if frames.len() <= max_frames {
        frames
    } else {
        frames.subrange(0, max_frames as int)
    }
}

/// The addresses of what a walk over the registry finds.
spec fn item_keys(items: Seq<(&usize, &Block)>) -> Seq<usize> {
    Seq::new(items.len(), |i: int| *items[i].0)
}

/// The registry of live blocks: for the address of each of them, its size
/// and the call stack that made it.
pub struct HeapProfiler {
    max_frames: usize,
    blocks: HashMap<usize, Block>,
}

impl View for HeapProfiler {
    type V = Map<usize, BlockView>;

    closed spec fn view(&self) -> Map<usize, BlockView> {
        self.blocks@.map_values(|block: Block| block@)
    }
}

impl HeapProfiler {
    /// The number of frames that are kept of a call stack at most.
    pub closed spec fn spec_max_frames(&self) -> usize {
        self.max_frames
    }

    /// The number of frames that are kept of a call stack at most.
    #[verifier::when_used_as_spec(spec_max_frames)]
    pub fn max_frames(&self) -> (depth: usize)
        ensures
            depth == self.max_frames(),
    {
        self.max_frames
    }

    /// There are finitely many live blocks; no call stack is longer than
    /// `max_frames`, and every size fits a sample value.
    pub open spec fn wf(&self) -> bool {
        &&& self@.dom().finite()
        &&& forall|block: usize| #[trigger]
            self@.contains_key(block) ==> self@[block].frames.len() <= self.max_frames()
                && self@[block].size <= i64::MAX
    }

    /// Whether the tables of a profile take all live blocks with their call
    /// stacks: a function and two strings for each frame that is held, two
    /// strings for each block and three more.
    pub open spec fn fits(&self) -> bool {
        &&& 3 + 2 * held_frames(self@) + 2 * self@.dom().len() <= i64::MAX
        &&& held_frames(self@) < usize::MAX
    }

    /// The frames that a registry holds are at most its depth for each live
    /// block; so a registry fits where its depth and the number of its blocks
    /// are not both huge, and a registry without blocks always fits.
    pub proof fn lemma_fits(&self)
        requires
            self.wf(),
        ensures
            held_frames(self@) <= self.max_frames() * self@.dom().len(),
            3 + (2 * self.max_frames() + 2) * self@.dom().len() <= i64::MAX && self.max_frames()
                * self@.dom().len() < usize::MAX ==> self.fits(),
            self@.dom().len() == 0 ==> self.fits(),
    {
        let weights = depths(self@);
        assert(weights.dom() =~= self@.dom());
        assert forall|key: usize| #[trigger] weights.contains_key(key) implies weights[key]
            <= self.max_frames() by {
            assert(self@.contains_key(key));
        }
        lemma_map_total_bound(weights, self.max_frames() as nat);
        let count = self@.dom().len();
        assert((2 * self.max_frames() + 2) * count == 2 * (self.max_frames() * count) + 2 * count)
            by (nonlinear_arith);
        assert(count == 0 ==> self.max_frames() * count == 0) by (nonlinear_arith);
    }

    /// What the walk over the registry finds lists the live blocks, each
    /// once, so that the frames that it finds sum to the frames that are
    /// held.
    proof fn lemma_items(&self, items: Seq<(&usize, &Block)>)
        requires
            self.blocks@.dom().finite(),
            items.no_duplicates(),
            forall|i: int|
                0 <= i < items.len() ==> self.blocks@.contains_key(*(#[trigger] items[i]).0)
                    && self.blocks@[*items[i].0] == *items[i].1,
            forall|block: usize| #[trigger]
                self.blocks@.contains_key(block) ==> items.contains((&block, &self.blocks@[block])),
        ensures
            lists_keys(depths(self@), item_keys(items)),
            item_keys(items).len() == self@.dom().len(),
            listed_total(depths(self@), item_keys(items)) == held_frames(self@),
            forall|i: int|
                0 <= i < items.len() ==> depths(self@)[#[trigger] item_keys(items)[i]]
                    == items[i].1.frames@.len(),
    {
        let keys = item_keys(items);
        let weights = depths(self@);
        assert(self@.dom() =~= self.blocks@.dom());
        assert(weights.dom() =~= self@.dom());
        assert forall|i: int, j: int| 0 <= i < keys.len() && 0 <= j < keys.len() && i
            != j implies keys[i] != keys[j] by {
            if keys[i] == keys[j] {
                assert(*items[i].0 == *items[j].0);
                assert(*items[i].1 == *items[j].1);
                assert(items[i] == items[j]);
            }
        }
        assert forall|key: usize| #[trigger] weights.contains_key(key) <==> keys.contains(key) by {
            if weights.contains_key(key) {
                assert(self.blocks@.contains_key(key));
                let item = (&key, &self.blocks@[key]);
                assert(items.contains(item));
                let i = choose|i: int| 0 <= i < items.len() && items[i] == item;
                assert(keys[i] == key);
            }
            if keys.contains(key) {
                let i = choose|i: int| 0 <= i < keys.len() && keys[i] == key;
                assert(self.blocks@.contains_key(*items[i].0));
            }
        }
        lemma_listed_total(weights, keys);
        assert forall|i: int| 0 <= i < items.len() implies weights[#[trigger] keys[i]]
            == items[i].1.frames@.len() by {
            assert(self.blocks@.contains_key(*items[i].0));
        }
    }

    /// A registry without live blocks.
    pub fn new(max_frames: usize) -> (profiler: Option<Self>)
        ensures
            profiler is Some,
            profiler->0.wf(),
            profiler->0.max_frames() == max_frames,
            profiler->0@ == Map::<usize, BlockView>::empty(),
    {
        let profiler = HeapProfiler { max_frames, blocks: HashMap::new() };
        assert(profiler@ =~= Map::<usize, BlockView>::empty());
        Some(profiler)
    }

    /// The number of live blocks.
    pub fn len(&self) -> (count: usize)
        ensures
            count == self@.dom().len(),
    {
        broadcast use vstd::std_specs::hash::group_hash_axioms;

        assert(self@.dom() =~= self.blocks@.dom());
        self.blocks.len()
    }

    /// The live block at `ptr`, if there is one.
    pub fn get(&self, ptr: usize) -> (block: Option<&Block>)
        ensures
            block is Some <==> self@.contains_key(ptr),
            block matches Some(found) ==> found@ == self@[ptr],
    {
        broadcast use vstd::std_specs::hash::group_hash_axioms;

        self.blocks.get(&ptr)
    }

    /// Whether the tables of a profile take all live blocks with their call
    /// stacks, so that `report` can be called.
    pub fn can_report(&self) -> (fits: bool)
        ensures
            fits == self.fits(),
    {
        broadcast use vstd::std_specs::hash::group_hash_axioms;

        let ghost items = vstd::std_specs::hash::spec_hash_map_iter(&self.blocks).remaining();
        let ghost keys = item_keys(items);
        let ghost weights = depths(self@);
        let mut frames: u128 = 0;
        for item in it: self.blocks.iter()
            invariant
                it.seq() == items,
                keys == item_keys(items),
                weights == depths(self@),
                self.blocks@.dom().finite(),
                items.no_duplicates(),
                forall|i: int|
                    0 <= i < items.len() ==> self.blocks@.contains_key(*(#[trigger] items[i]).0)
                        && self.blocks@[*items[i].0] == *items[i].1,
                forall|block: usize| #[trigger]
                    self.blocks@.contains_key(block) ==> items.contains(
                        (&block, &self.blocks@[block]),
                    ),
                frames == listed_total(weights, keys.take(it.index())),
                frames <= i64::MAX,
        {
            let (_, block) = item;
            let ghost done = it.index();
            proof {
                self.lemma_items(items);
                lemma_listed_total_prefix(weights, keys, done + 1);
                assert(keys.take(done + 1).drop_last() =~= keys.take(done));
                assert(keys.take(done + 1).last() == keys[done]);
            }
            frames = frames + block.frames.len() as u128;
            if frames > i64::MAX as u128 {
                return false;
            }
        }
        proof {
            self.lemma_items(items);
            assert(keys.take(keys.len() as int) =~= keys);
        }
        let count: u128 = self.len() as u128;
        3 + 2 * frames + 2 * count <= i64::MAX as u128 && frames < usize::MAX as u128
    }

    /// Enters the block at `ptr`, of `size` bytes, that was allocated under
    /// the call stack `frames`, innermost frame first, of which the registry
    /// keeps the first `max_frames`. A block that was entered at `ptr` before
    /// is replaced.
    pub fn record(&mut self, ptr: usize, size: usize, frames: Vec<usize>)
        requires
            old(self).wf(),
            size <= i64::MAX,
        ensures
            final(self).wf(),
            final(self).max_frames() == old(self).max_frames(),
            final(self)@ == old(self)@.insert(
                ptr,
                BlockView { size, frames: kept(frames@, old(self).max_frames()) },
            ),
    {
        broadcast use vstd::std_specs::hash::group_hash_axioms;

        let mut stack = frames;
        stack.truncate(self.max_frames);
        assert(stack@ =~= kept(frames@, self.max_frames));
        let block = Block { size, frames: stack };
        self.blocks.insert(ptr, block);
        assert(self@ =~= old(self)@.insert(ptr, block@));
    }

    /// Enters the block at `ptr`, of `size` bytes, with the call stack of the
    /// calling thread.
    pub fn register(&mut self, ptr: usize, size: usize)
        requires
            old(self).wf(),
            size <= i64::MAX,
        ensures
            final(self).wf(),
            final(self).max_frames() == old(self).max_frames(),
            final(self)@.contains_key(ptr),
            final(self)@[ptr].size == size,
            final(self)@[ptr].frames.len() <= final(self).max_frames(),
            final(self)@ == old(self)@.insert(ptr, final(self)@[ptr]),
    {
        let frames = get_backtrace(self.max_frames);
        self.record(ptr, size, frames);
    }

    /// Whether `blocks` may be what a snapshot reports of this registry when
    /// it resolves call stacks with `resolve`: the live blocks, each once and
    /// with its size, each with the symbols that `resolve` gives for its call
    /// stack.
    pub open spec fn snapshot<F: Fn(usize) -> Option<Symbol>>(
        &self,
        resolve: F,
        blocks: Seq<ReportedBlock>,
    ) -> bool {
        &&& lists(self@, blocks)
        &&& forall|i: int|
            0 <= i < blocks.len() ==> resolved_by(
                resolve,
                self@[(#[trigger] blocks[i]).block].frames,
                blocks[i].symbols,
            )
    }

    /// What a snapshot of a registry reports fits the tables of a profile
    /// where the registry `fits`; it lists as many blocks as are live, and
    /// their sizes sum to the live bytes.
    pub proof fn lemma_snapshot<F: Fn(usize) -> Option<Symbol>>(
        &self,
        resolve: F,
        blocks: Seq<ReportedBlock>,
    )
        requires
            self.wf(),
            self.fits(),
            self.snapshot(resolve, blocks),
        ensures
            room_for(ReportView::empty(), blocks),
            blocks.len() == self@.dom().len(),
            reported_bytes(blocks) == live_bytes(self@),
            forall|i: int|
                0 <= i < blocks.len() ==> (#[trigger] blocks[i]).symbols.len()
                    <= self@[blocks[i].block].frames.len(),
    {
        lemma_lists(self@, blocks);
        assert forall|i: int| 0 <= i < blocks.len() implies (#[trigger] blocks[i]).symbols.len()
            <= self@[blocks[i].block].frames.len() by {
            let frames = self@[blocks[i].block].frames;
            assert(resolved_by(resolve, frames, blocks[i].symbols));
            let found = choose|found: Seq<Option<Symbol>>|
                resolves(resolve, frames, found) && blocks[i].symbols == symbol_views(
                    #[trigger] present(found),
                );
            lemma_present_len(found);
        }
        assert forall|i: int| 0 <= i < blocks.len() implies self@.contains_key(
            (#[trigger] blocks[i]).block,
        ) && blocks[i].symbols.len() <= self@[blocks[i].block].frames.len() by {}
        lemma_reported_symbols_listed(self@, blocks);
        assert forall|i: int| 0 <= i < blocks.len() implies (#[trigger] blocks[i]).size
            <= i64::MAX by {
            assert(self@.contains_key(blocks[i].block));
        }
    }

    /// Every sample of a snapshot holds one value, the size of its live
    /// block, and is labelled with the address of that block.
    pub proof fn lemma_samples_hold_sizes<F: Fn(usize) -> Option<Symbol>>(
        &self,
        resolve: F,
        blocks: Seq<ReportedBlock>,
        i: int,
    )
        requires
            self.wf(),
            self.fits(),
            self.snapshot(resolve, blocks),
            0 <= i < blocks.len(),
        ensures
            self@.contains_key(blocks[i].block),
            profile_of(blocks).sample[i].value.len() == 1,
            profile_of(blocks).sample[i].value[0] == self@[blocks[i].block].size,
            profile_of(blocks).string_table[profile_of(blocks).sample[i].label[0].str as int]
                == block_label(blocks[i].block as nat),
    {
        self.lemma_snapshot(resolve, blocks);
        lemma_sample_of_block(blocks, i);
    }

    /// A block that is not in the registry is absent from a snapshot: no
    /// sample carries the label of its address.
    pub proof fn lemma_absent_block_is_not_reported<F: Fn(usize) -> Option<Symbol>>(
        &self,
        resolve: F,
        blocks: Seq<ReportedBlock>,
        ptr: usize,
        i: int,
    )
        requires
            self.wf(),
            self.fits(),
            self.snapshot(resolve, blocks),
            !self@.contains_key(ptr),
            0 <= i < blocks.len(),
        ensures
            blocks[i].block != ptr,
            profile_of(blocks).string_table[profile_of(blocks).sample[i].label[0].str as int]
                != block_label(ptr as nat),
    {
        self.lemma_snapshot(resolve, blocks);
        lemma_freed_block_is_absent(self@, blocks, ptr, i);
    }

    /// A registry that keeps no frames gives samples with empty location
    /// lists.
    pub proof fn lemma_no_frames_no_locations<F: Fn(usize) -> Option<Symbol>>(
        &self,
        resolve: F,
        blocks: Seq<ReportedBlock>,
    )
        requires
            self.wf(),
            self.fits(),
            self.max_frames() == 0,
            self.snapshot(resolve, blocks),
        ensures
            forall|i: int|
                0 <= i < blocks.len() ==> (#[trigger] profile_of(blocks).sample[i]).location_id.len()
                    == 0,
    {
        self.lemma_snapshot(resolve, blocks);
        assert forall|i: int| 0 <= i < blocks.len() implies (#[trigger] blocks[i]).symbols.len()
            == 0 by {
            assert(self@.contains_key(blocks[i].block));
        }
        lemma_no_symbols_no_locations(blocks);
    }

    /// The profile of the live blocks, in which `resolve` gives the symbol at
    /// each address of a call stack: one sample for each live block, in an
    /// order that is not fixed, so that the samples count the live bytes.
    pub fn report<F: Fn(usize) -> Option<Symbol>>(&self, resolve: &F) -> (profile: Profile)
        requires
            self.wf(),
            self.fits(),
            forall|address: usize| call_requires(*resolve, (address,)),
        ensures
            exists|blocks: Seq<ReportedBlock>|
                self.snapshot(*resolve, blocks) && profile@ == #[trigger] profile_of(blocks),
            profile@.well_formed(),
            profile@.sample.len() == self@.dom().len(),
            sample_bytes(profile@.sample) == live_bytes(self@),
    {
        broadcast use vstd::std_specs::hash::group_hash_axioms;

        let mut reporter = GperfHeapProfilerReport::new();
        let ghost mut blocks: Seq<ReportedBlock> = Seq::empty();
        let ghost count = self@.dom().len();
        let ghost held = held_frames(self@);
        let ghost weights = depths(self@);
        let ghost items = vstd::std_specs::hash::spec_hash_map_iter(&self.blocks).remaining();
        let ghost keys = item_keys(items);
        for item in it: self.blocks.iter()
            invariant
                it.seq() == items,
                keys == item_keys(items),
                weights == depths(self@),
                held == held_frames(self@),
                self.wf(),
                self.blocks@.dom().finite(),
                3 + 2 * held + 2 * count <= i64::MAX,
                held < usize::MAX,
                count == self@.dom().len(),
                forall|address: usize| call_requires(*resolve, (address,)),
                items.no_duplicates(),
                forall|i: int|
                    0 <= i < items.len() ==> self.blocks@.contains_key(*(#[trigger] items[i]).0)
                        && self.blocks@[*items[i].0] == *items[i].1,
                forall|block: usize| #[trigger]
                    self.blocks@.contains_key(block) ==> items.contains(
                        (&block, &self.blocks@[block]),
                    ),
                reporter.wf(),
                reporter@ == ReportView::empty().add_blocks(blocks),
                reporter@.strings.len() <= 1 + 2 * listed_total(weights, keys.take(it.index())) + 2
                    * it.index(),
                reporter@.functions.len() <= listed_total(weights, keys.take(it.index())),
                reported_symbols(blocks) <= listed_total(weights, keys.take(it.index())),
                blocks.len() == it.index(),
                forall|i: int|
                    0 <= i < blocks.len() ==> (#[trigger] blocks[i]).block == keys[i]
                        && blocks[i].size == self@[blocks[i].block].size && resolved_by(
                        *resolve,
                        self@[blocks[i].block].frames,
                        blocks[i].symbols,
                    ),
        {
            let (ptr, block) = item;
            let ghost done = it.index();
            proof {
                self.lemma_items(items);
                assert(self.blocks@.contains_key(*items[done].0));
                assert(keys[done] == *ptr);
                assert(self@.contains_key(*ptr));
                assert(self@[*ptr] == block@);
                reporter.lemma_valid();
                lemma_listed_total_prefix(weights, keys, done + 1);
                assert(keys.take(done + 1).drop_last() =~= keys.take(done));
                assert(keys.take(done + 1).last() == keys[done]);
            }
            let symbols = frames_to_symbols(block.frames.as_slice(), resolve);
            let ghost before = reporter@;
            reporter.report_block_info(*ptr, block.size, symbols.as_slice());
            proof {
                let entry = ReportedBlock {
                    block: *ptr,
                    size: block.size,
                    symbols: symbol_views(symbols@),
                };
                lemma_add_block(before, *ptr, block.size, symbol_views(symbols@));
                assert(blocks.push(entry).drop_last() =~= blocks);
                blocks = blocks.push(entry);
            }
        }
        proof {
            self.lemma_items(items);
            assert(keys.take(keys.len() as int) =~= keys);
            reporter.lemma_valid();
            lemma_finish(reporter@);
            assert(lists(self@, blocks)) by {
                assert forall|i: int, j: int| 0 <= i < j < blocks.len() implies (
                #[trigger] blocks[i]).block != (#[trigger] blocks[j]).block by {
                    assert(keys[i] != keys[j]);
                }
                assert forall|block: usize| #[trigger] self@.contains_key(block) implies exists|
                    i: int,
                | 0 <= i < blocks.len() && (#[trigger] blocks[i]).block == block by {
                    assert(weights.contains_key(block));
                    assert(keys.contains(block));
                    let i = choose|i: int| 0 <= i < keys.len() && keys[i] == block;
                    assert(blocks[i].block == block);
                }
            }
            lemma_lists(self@, blocks);
            assert(room_for(ReportView::empty(), blocks));
            lemma_add_blocks_counts(blocks);
        }
        let profile = reporter.build();
        assert(profile@ == profile_of(blocks));
        profile
    }

    /// Takes the block at `ptr` out, if there is one.
    pub fn unregister(&mut self, ptr: usize)
        requires
            old(self).wf(),
        ensures
            final(self).wf(),
            final(self).max_frames() == old(self).max_frames(),
            final(self)@ == old(self)@.remove(ptr),
    {
        broadcast use vstd::std_specs::hash::group_hash_axioms;

        self.blocks.remove(&ptr);
        assert(self@ =~= old(self)@.remove(ptr));
    }
}

/// The state of a registry that was not asked for yet.
pub const UNINITIALIZED: usize = 0;

/// The state of a registry that is being made.
pub const CONSTRUCTING: usize = 1;

/// The state of a registry that is there.
pub const READY: usize = 2;

/// The state of a registry that could not be made, and never will be.
pub const FAILED: usize = 3;

/// The one registry of a process, made when it is first asked for.
pub struct GLobalHeapProfiler {
    initialized: usize,
    profiler: Option<HeapProfiler>,
}

impl GLobalHeapProfiler {
    /// The state: `UNINITIALIZED`, `READY` or `FAILED` between two calls.
    pub closed spec fn spec_state(&self) -> usize {
        self.initialized
    }

    /// The state: `UNINITIALIZED`, `READY` or `FAILED` between two calls.
    #[verifier::when_used_as_spec(spec_state)]
    pub fn state(&self) -> (state: usize)
        ensures
            state == self.state(),
    {
        self.initialized
    }

    /// The registry, once it is there.
    pub closed spec fn profiler(&self) -> Option<HeapProfiler> {
        self.profiler
    }

    /// The depth of the call stacks of the registry, once it is there.
    pub open spec fn depth(&self) -> usize {
        match self.profiler() {
            Some(profiler) => profiler.max_frames(),
            None => 0,
        }
    }

    /// The live blocks: those of the registry, none while it is not there.
    pub open spec fn live(&self) -> Map<usize, BlockView> {
        match self.profiler() {
            Some(profiler) => profiler@,
            None => Map::empty(),
        }
    }

    /// The registry is there if and only if the state is `READY`, and no
    /// making of it is under way.
    pub open spec fn wf(&self) -> bool {
        &&& self.state() == UNINITIALIZED || self.state() == READY || self.state() == FAILED
        &&& self.state() == READY <==> self.profiler() is Some
        &&& self.profiler() matches Some(profiler) ==> profiler.wf()
    }

    /// The registry that was not asked for yet.
    pub fn new() -> (global: Self)
        ensures
            global.wf(),
            global.state() == UNINITIALIZED,
            global.profiler() is None,
    {
        GLobalHeapProfiler { initialized: UNINITIALIZED, profiler: None }
    }

    /// The registry, which is made on the first call, with `max_frames` as
    /// the depth of its call stacks; none if it could not be made.
    pub fn get(&mut self, max_frames: usize) -> (profiler: Option<&mut HeapProfiler>)
        requires
            old(self).wf(),
        ensures
            old(self).state() == FAILED ==> profiler is None && *final(self) == *old(self),
            old(self).state() != FAILED ==> profiler is Some,
            old(self).state() == READY ==> *profiler->0 == old(self).profiler()->0,
            old(self).state() == UNINITIALIZED ==> profiler->0.wf() && profiler->0.max_frames()
                == max_frames && profiler->0@ == Map::<usize, BlockView>::empty(),
            profiler matches Some(found) ==> final(self).state() == READY && final(self).profiler()
                == Some(*final(found)),
    {
        if self.initialized == UNINITIALIZED {
            self.initialized = CONSTRUCTING;
            match HeapProfiler::new(max_frames) {
                Some(profiler) => {
                    self.profiler = Some(profiler);
                    self.initialized = READY;
                },
                None => {
                    self.initialized = FAILED;
                    return None;
                },
            }
        }
        if self.initialized == READY {
            self.profiler.as_mut()
        } else {
            None
        }
    }
}

/// The profiling allocator: the number that it holds is the depth of the
/// call stacks that it captures.
pub struct PprofAlloc(pub usize);

impl PprofAlloc {
    /// Whether an entry with `guard` registers a block that was allocated at
    /// `ptr`: the outermost entry of a thread does, unless `ptr` is null or
    /// the registry could not be made.
    pub open spec fn registers(
        guard: &Reentrancy,
        global: &GLobalHeapProfiler,
        ptr: usize,
    ) -> bool {
        guard.is_outermost() && ptr != 0 && global.state() != FAILED
    }

    /// What the profiler does when the block at `ptr`, of `size` bytes, was
    /// allocated under the call stack `frames`: the outermost entry of a
    /// thread registers the block unless `ptr` is null; any other entry
    /// leaves the registry as it is. The first block makes the registry, with
    /// the depth of this allocator.
    pub fn on_alloc(
        &self,
        guard: &Reentrancy,
        global: &mut GLobalHeapProfiler,
        ptr: usize,
        size: usize,
        frames: Vec<usize>,
    )
        requires
            old(global).wf(),
            size <= i64::MAX,
        ensures
            final(global).wf(),
            Self::registers(guard, old(global), ptr) ==> {
                &&& final(global).state() == READY
                &&& final(global).depth() == (if old(global).state() == READY {
                    old(global).depth()
                } else {
                    self.0
                })
                &&& final(global).live() == old(global).live().insert(
                    ptr,
                    BlockView { size, frames: kept(frames@, final(global).depth()) },
                )
            },
            !Self::registers(guard, old(global), ptr) ==> *final(global) == *old(global),
    {
        if !guard.is_ok() || ptr == 0 {
            return ;
        }
        if let Some(profiler) = global.get(self.0) {
            profiler.record(ptr, size, frames);
        }
    }

    /// What the profiler does when the block at `ptr` is freed: the outermost
    /// entry of a thread takes the block out of the registry; any other entry
    /// leaves the registry as it is.
    pub fn on_dealloc(&self, guard: &Reentrancy, global: &mut GLobalHeapProfiler, ptr: usize)
        requires
            old(global).wf(),
        ensures
            final(global).wf(),
            guard.is_outermost() && old(global).state() != FAILED ==> {
                &&& final(global).state() == READY
                &&& final(global).depth() == (if old(global).state() == READY {
                    old(global).depth()
                } else {
                    self.0
                })
                &&& final(global).live() == old(global).live().remove(ptr)
                &&& !final(global).live().contains_key(ptr)
            },
            !(guard.is_outermost() && old(global).state() != FAILED) ==> *final(global) == *old(
                global,
            ),
    {
        if guard.is_ok() {
            if let Some(profiler) = global.get(self.0) {
                profiler.unregister(ptr);
            }
        }
    }
}

} // verus!
