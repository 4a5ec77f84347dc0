use hala_pprof_memory::frames_to_symbols;
use hala_pprof_memory::get_backtrace;
use hala_pprof_memory::symbol::keep_first;
use hala_pprof_memory::symbol::symbol_from_parts;
use hala_pprof_memory::capture::SKIPPED_FRAMES;
use hala_pprof_memory::proto::Profile;
use hala_pprof_memory::report::snapshot;
use hala_pprof_memory::GLobalHeapProfiler;
use hala_pprof_memory::HeapProfiler;
use hala_pprof_memory::PprofAlloc;
use hala_pprof_memory::Reentrancy;
use hala_pprof_memory::StackWalk;
use hala_pprof_memory::Symbol;

fn named(address: usize) -> Option<Symbol> {
    Some(Symbol {
        name: format!("fn_{:x}", address),
        address,
        file_name: "src/app.rs".to_string(),
        line_no: (address % 1000) as u32,
        col_no: 0,
    })
}

fn unknown(_address: usize) -> Option<Symbol> {
    None
}

fn text(profile: &Profile, index: i64) -> &str {
    profile.string_table[index as usize].as_str()
}

fn total(profile: &Profile) -> i64 {
    profile.sample.iter().map(|sample| sample.value[0]).sum()
}

fn walk(max_frames: usize, stack: &[usize]) -> Vec<usize> {
    let mut walk = StackWalk::new(max_frames);
    for address in stack {
        if !walk.visit(*address) {
            break;
        }
    }
    walk.into_frames()
}

#[test]
fn a_walk_leaves_out_the_innermost_frames_and_keeps_the_next() {
    assert_eq!(SKIPPED_FRAMES, 4);
    let stack: Vec<usize> = (1..=20).collect();
    assert_eq!(walk(3, &stack), vec![5, 6, 7]);
    assert_eq!(walk(16, &stack), (5..=20).collect::<Vec<usize>>());
    assert_eq!(walk(100, &stack), (5..=20).collect::<Vec<usize>>());
    assert_eq!(walk(1, &stack), vec![5]);
    assert_eq!(walk(5, &[1, 2, 3, 4]), Vec::<usize>::new());
    assert_eq!(walk(5, &[1, 2, 3]), Vec::<usize>::new());
    assert_eq!(walk(5, &[]), Vec::<usize>::new());
    assert_eq!(walk(5, &[1, 2, 3, 4, 5]), vec![5]);
}

#[test]
fn a_walk_says_when_it_is_done() {
    let mut walk = StackWalk::new(2);
    assert!(walk.visit(10));
    assert!(walk.visit(11));
    assert!(walk.visit(12));
    assert!(walk.visit(13));
    assert!(walk.visit(14));
    assert!(!walk.visit(15));
    assert!(!walk.visit(16));
    assert_eq!(walk.into_frames(), vec![14, 15]);
}

#[test]
fn a_walk_without_room_keeps_nothing() {
    let stack: Vec<usize> = (1..=20).collect();
    assert_eq!(walk(0, &stack), Vec::<usize>::new());
    let mut walk = StackWalk::new(0);
    for address in 0..4 {
        assert!(walk.visit(address));
    }
    assert!(!walk.visit(4));
    assert!(walk.into_frames().is_empty());
}

fn capture_below(depth: usize, max_frames: usize) -> Vec<usize> {
    if depth == 0 {
        get_backtrace(max_frames)
    } else {
        let frames = capture_below(depth - 1, max_frames);
        std::hint::black_box(frames)
    }
}

#[test]
fn a_backtrace_has_at_most_max_frames_entries() {
    assert!(get_backtrace(0).is_empty());
    assert!(get_backtrace(1).len() <= 1);
    assert!(get_backtrace(3).len() <= 3);
    let frames = get_backtrace(1000);
    assert!(frames.len() <= 1000);
    assert!(!frames.is_empty());
}

#[test]
fn a_deep_call_stack_is_cut_to_max_frames() {
    assert_eq!(capture_below(64, 10).len(), 10);
    assert_eq!(capture_below(64, 1).len(), 1);
    assert_eq!(capture_below(64, 0).len(), 0);
    assert_eq!(capture_below(64, 30).len(), 30);
    // The innermost frames come first: a deeper stack has the same outer end.
    let shallow = capture_below(8, 1000);
    let deep = capture_below(40, 1000);
    assert_eq!(deep.len(), shallow.len() + 32);
    assert_eq!(deep[deep.len() - 3..], shallow[shallow.len() - 3..]);
}

#[test]
fn missing_parts_of_a_symbol_become_empty() {
    let bare = symbol_from_parts(None, None, None, None, None);
    assert_eq!(bare.name, "");
    assert_eq!(bare.address, 0);
    assert_eq!(bare.file_name, "");
    assert_eq!(bare.line_no, 0);
    assert_eq!(bare.col_no, 0);
    let full = symbol_from_parts(
        Some("main".to_string()),
        Some(0x1234),
        Some("src/main.rs".to_string()),
        Some(12),
        Some(5),
    );
    assert_eq!(full.name, "main");
    assert_eq!(full.address, 0x1234);
    assert_eq!(full.file_name, "src/main.rs");
    assert_eq!(full.line_no, 12);
    assert_eq!(full.col_no, 5);
}

#[test]
fn the_first_symbol_of_an_address_stands() {
    let mut slot = None;
    keep_first(&mut slot, named(1).unwrap());
    keep_first(&mut slot, named(2).unwrap());
    keep_first(&mut slot, named(3).unwrap());
    assert_eq!(slot, named(1));
}

#[test]
fn frames_without_a_symbol_are_left_out() {
    let odd = |address: usize| if address % 2 == 1 { named(address) } else { None };
    let symbols = frames_to_symbols(&[1, 2, 3, 4, 5, 5], &odd);
    let addresses: Vec<usize> = symbols.iter().map(|symbol| symbol.address).collect();
    assert_eq!(addresses, vec![1, 3, 5, 5]);
    assert_eq!(symbols[0], named(1).unwrap());
    assert!(frames_to_symbols(&[1, 2, 3], &unknown).is_empty());
    assert!(frames_to_symbols(&[], &named).is_empty());
}

#[test]
fn the_registry_holds_what_is_live() {
    let mut profiler = HeapProfiler::new(10).unwrap();
    assert_eq!(profiler.len(), 0);
    assert!(profiler.get(0x10).is_none());
    profiler.record(0x10, 64, vec![1, 2, 3]);
    profiler.record(0x20, 128, vec![]);
    assert_eq!(profiler.len(), 2);
    assert_eq!(profiler.get(0x10).unwrap().size, 64);
    assert_eq!(profiler.get(0x10).unwrap().frames, vec![1, 2, 3]);
    assert_eq!(profiler.get(0x20).unwrap().size, 128);
    profiler.unregister(0x10);
    assert!(profiler.get(0x10).is_none());
    assert_eq!(profiler.len(), 1);
    // Taking out what is not there changes nothing.
    profiler.unregister(0x10);
    profiler.unregister(0x999);
    assert_eq!(profiler.len(), 1);
    // A block that is entered again replaces the one before.
    profiler.record(0x20, 256, vec![7]);
    assert_eq!(profiler.len(), 1);
    // Of a call stack that is too long the innermost frames are kept.
    profiler.record(0x30, 1, (0..25).collect());
    assert_eq!(profiler.get(0x30).unwrap().frames, (0..10).collect::<Vec<usize>>());
    profiler.unregister(0x30);
    assert_eq!(profiler.get(0x20).unwrap().size, 256);
    assert_eq!(profiler.get(0x20).unwrap().frames, vec![7]);
}

#[test]
fn register_captures_the_call_stack() {
    let mut profiler = HeapProfiler::new(5).unwrap();
    profiler.register(0x1000, 48);
    let block = profiler.get(0x1000).unwrap();
    assert_eq!(block.size, 48);
    assert!(block.frames.len() <= 5);
    assert!(!block.frames.is_empty());

    let mut flat = HeapProfiler::new(0).unwrap();
    flat.register(0x1000, 48);
    assert!(flat.get(0x1000).unwrap().frames.is_empty());
    let profile = flat.report(&named);
    assert_eq!(profile.sample.len(), 1);
    assert!(profile.sample[0].location_id.is_empty());
    assert!(profile.function.is_empty());
}

#[test]
fn a_block_of_size_zero_is_recorded() {
    let mut profiler = HeapProfiler::new(4).unwrap();
    profiler.register(0x3000, 0);
    assert_eq!(profiler.get(0x3000).unwrap().size, 0);
    let profile = profiler.report(&named);
    assert_eq!(profile.sample.len(), 1);
    assert_eq!(profile.sample[0].value, vec![0]);
}

#[test]
fn free_before_snapshot() {
    let mut profiler = HeapProfiler::new(10).unwrap();
    profiler.register(0x5000, 128);
    profiler.unregister(0x5000);
    assert!(profiler.can_report());
    let profile = profiler.report(&named);
    assert!(profile.sample.is_empty());
    assert!(!profile.string_table.iter().any(|s| s == "0x5000"));

    profiler.register(0x6000, 16);
    profiler.register(0x5000, 128);
    profiler.unregister(0x5000);
    let profile = profiler.report(&named);
    assert_eq!(profile.sample.len(), 1);
    assert_eq!(text(&profile, profile.sample[0].label[0].str), "0x6000");
    assert!(!profile.string_table.iter().any(|s| s == "0x5000"));
}

#[test]
fn a_report_has_one_sample_for_each_live_block() {
    let mut profiler = HeapProfiler::new(10).unwrap();
    // One thread of the program holds a hundred blocks of 1 KiB, another a
    // hundred of 2 KiB.
    for i in 0..100usize {
        profiler.record(0x10_0000 + i * 1024, 1024, vec![0xa1, 0xa2, 0xa0 + i]);
    }
    for i in 0..100usize {
        profiler.record(0x80_0000 + i * 2048, 2048, vec![0xb1, 0xb2]);
    }
    assert!(profiler.can_report());
    let profile = profiler.report(&named);
    assert_eq!(profile.sample.len(), 200);
    assert_eq!(total(&profile), 307_200);
    let mut labels: Vec<&str> =
        profile.sample.iter().map(|sample| text(&profile, sample.label[0].str)).collect();
    labels.sort();
    labels.dedup();
    assert_eq!(labels.len(), 200);
    for sample in &profile.sample {
        assert_eq!(sample.value.len(), 1);
        assert_eq!(text(&profile, sample.label[0].key), "block");
        let address = usize::from_str_radix(&text(&profile, sample.label[0].str)[2..], 16).unwrap();
        let block = profiler.get(address).unwrap();
        assert_eq!(sample.value[0], block.size as i64);
        assert_eq!(sample.location_id.len(), block.frames.len());
        for (id, frame) in sample.location_id.iter().zip(block.frames.iter()) {
            assert_eq!(profile.location[*id as usize - 1].address, *frame as u64);
            assert_eq!(profile.function[*id as usize - 1].id, *id);
        }
    }
    for (i, function) in profile.function.iter().enumerate() {
        assert_eq!(function.id, i as u64 + 1);
        assert_eq!(profile.location[i].id, i as u64 + 1);
    }
    assert_eq!(profile.string_table[0], "");
}

#[test]
fn a_report_with_unresolved_frames_has_empty_location_lists() {
    let mut profiler = HeapProfiler::new(10).unwrap();
    profiler.record(0x10, 8, vec![1, 2, 3]);
    let profile = profiler.report(&unknown);
    assert_eq!(profile.sample.len(), 1);
    assert!(profile.sample[0].location_id.is_empty());
    assert!(profile.function.is_empty());
    assert!(profile.location.is_empty());
}

#[test]
fn the_guard_tells_the_outermost_entry() {
    let mut counter = 0usize;
    let outer = Reentrancy::new(&mut counter);
    assert_eq!(counter, 1);
    assert!(outer.is_ok());
    let inner = Reentrancy::new(&mut counter);
    assert_eq!(counter, 2);
    assert!(!inner.is_ok());
    let innermost = Reentrancy::new(&mut counter);
    assert_eq!(counter, 3);
    assert!(!innermost.is_ok());
    innermost.release(&mut counter);
    inner.release(&mut counter);
    assert_eq!(counter, 1);
    assert!(outer.is_ok());
    outer.release(&mut counter);
    assert_eq!(counter, 0);
    let next = Reentrancy::new(&mut counter);
    assert!(next.is_ok());
    next.release(&mut counter);
    assert_eq!(counter, 0);
}

#[test]
fn the_global_registry_is_made_once() {
    let mut global = GLobalHeapProfiler::new();
    {
        let profiler = global.get(7).unwrap();
        assert_eq!(profiler.len(), 0);
        profiler.record(0x10, 1, vec![1, 2, 3, 4, 5, 6, 7]);
    }
    // The depth of a later call does not count: the registry is there.
    let profiler = global.get(99).unwrap();
    assert_eq!(profiler.len(), 1);
    assert_eq!(profiler.get(0x10).unwrap().size, 1);
}

#[test]
fn single_allocation_through_the_hooks() {
    let allocator = PprofAlloc(10);
    let mut global = GLobalHeapProfiler::new();
    let mut counter = 0usize;

    let guard = Reentrancy::new(&mut counter);
    allocator.on_alloc(&guard, &mut global, 0x7000, 64, get_backtrace(allocator.0));
    guard.release(&mut counter);

    let profiler = global.get(10).unwrap();
    assert_eq!(profiler.len(), 1);
    let block = profiler.get(0x7000).unwrap();
    assert_eq!(block.size, 64);
    assert!(!block.frames.is_empty());
    assert!(block.frames.len() <= 10);

    let innermost = block.frames[0];
    let profile = profiler.report(&named);
    assert_eq!(profile.sample.len(), 1);
    assert_eq!(profile.sample[0].value, vec![64]);
    assert_eq!(text(&profile, profile.sample[0].label[0].key), "block");
    assert_eq!(text(&profile, profile.sample[0].label[0].str), "0x7000");
    assert!(!profile.sample[0].location_id.is_empty());
    let function = &profile.function[profile.sample[0].location_id[0] as usize - 1];
    assert_eq!(text(&profile, function.system_name), format!("fn_{:x}", innermost));
}

#[test]
fn only_the_outermost_entry_is_recorded() {
    let allocator = PprofAlloc(10);
    let mut global = GLobalHeapProfiler::new();
    let mut counter = 0usize;

    let outer = Reentrancy::new(&mut counter);
    // While the outermost entry is at work, the profiler allocates itself,
    // three levels deep.
    let first = Reentrancy::new(&mut counter);
    allocator.on_alloc(&first, &mut global, 0x100, 10, get_backtrace(allocator.0));
    let second = Reentrancy::new(&mut counter);
    allocator.on_alloc(&second, &mut global, 0x200, 20, get_backtrace(allocator.0));
    let third = Reentrancy::new(&mut counter);
    allocator.on_alloc(&third, &mut global, 0x300, 30, get_backtrace(allocator.0));
    allocator.on_dealloc(&third, &mut global, 0x300);
    third.release(&mut counter);
    second.release(&mut counter);
    first.release(&mut counter);
    allocator.on_alloc(&outer, &mut global, 0x400, 40, get_backtrace(allocator.0));
    outer.release(&mut counter);
    assert_eq!(counter, 0);

    let profiler = global.get(10).unwrap();
    assert_eq!(profiler.len(), 1);
    assert!(profiler.get(0x100).is_none());
    assert!(profiler.get(0x200).is_none());
    assert!(profiler.get(0x300).is_none());
    assert_eq!(profiler.get(0x400).unwrap().size, 40);

    // A free that an inner entry sees leaves the registry as it is.
    let outer = Reentrancy::new(&mut counter);
    let inner = Reentrancy::new(&mut counter);
    allocator.on_dealloc(&inner, &mut global, 0x400);
    inner.release(&mut counter);
    assert_eq!(global.get(10).unwrap().len(), 1);
    allocator.on_dealloc(&outer, &mut global, 0x400);
    outer.release(&mut counter);
    assert_eq!(global.get(10).unwrap().len(), 0);
}

#[test]
fn a_null_block_is_not_registered() {
    let allocator = PprofAlloc(10);
    let mut global = GLobalHeapProfiler::new();
    let mut counter = 0usize;
    let guard = Reentrancy::new(&mut counter);
    allocator.on_alloc(&guard, &mut global, 0, 0, get_backtrace(allocator.0));
    allocator.on_alloc(&guard, &mut global, 0, 512, get_backtrace(allocator.0));
    allocator.on_alloc(&guard, &mut global, 0x10, 0, get_backtrace(allocator.0));
    guard.release(&mut counter);
    let profiler = global.get(10).unwrap();
    assert_eq!(profiler.len(), 1);
    assert!(profiler.get(0).is_none());
    assert_eq!(profiler.get(0x10).unwrap().size, 0);
}

#[test]
fn alloc_string() {
    let allocator = PprofAlloc(10);
    let mut global = GLobalHeapProfiler::new();
    let mut counter = 0usize;
    let mut snapshots = Vec::new();

    for i in 0..1000 {
        let text = format!("hello world {}", "===");
        let ptr = 0x5_0000 + (i % 3) * 64;

        let guard = Reentrancy::new(&mut counter);
        allocator.on_alloc(&guard, &mut global, ptr, text.capacity(), get_backtrace(allocator.0));
        guard.release(&mut counter);

        if i == 50 {
            let guard = Reentrancy::new(&mut counter);
            snapshots.push(snapshot(&mut global, &named).unwrap());
            guard.release(&mut counter);
        }

        let guard = Reentrancy::new(&mut counter);
        allocator.on_dealloc(&guard, &mut global, ptr);
        guard.release(&mut counter);
        drop(text);
    }

    let guard = Reentrancy::new(&mut counter);
    snapshots.push(snapshot(&mut global, &named).unwrap());
    guard.release(&mut counter);

    assert_eq!(counter, 0);
    assert_eq!(global.get(10).unwrap().len(), 0);
    for taken in &snapshots {
        assert!(taken.file_name.starts_with("./memory."));
        assert!(taken.file_name.ends_with(".pprof.pb"));
        assert!(!taken.contents.is_empty());
    }
    // Halfway one string was live; at the end none was.
    assert!(snapshots[0].contents.len() > snapshots[1].contents.len());
}

#[test]
fn thousand_iteration_loop() {
    let mut profiler = HeapProfiler::new(10).unwrap();
    let mut halfway = None;
    let mut live: i64 = 0;
    for i in 0..1000usize {
        profiler.register(0x4000 + (i % 7) * 32, 11);
        live += 11;
        if i == 500 {
            let profile = profiler.report(&named);
            assert_eq!(profile.sample.len(), 1);
            assert_eq!(total(&profile), live);
            halfway = Some(profile);
        }
        profiler.unregister(0x4000 + (i % 7) * 32);
        live -= 11;
    }
    let profile = profiler.report(&named);
    assert!(halfway.is_some());
    assert!(profile.sample.is_empty());
    assert_eq!(total(&profile), live);
    assert_eq!(profile.string_table[0], "");
}

#[test]
fn allocations_of_two_threads() {
    let allocator = PprofAlloc(10);
    let mut global = GLobalHeapProfiler::new();
    // Each thread has its own counter of entries; their allocations take
    // turns at the registry.
    let mut first = 0usize;
    let mut second = 0usize;

    for i in 0..100usize {
        let guard = Reentrancy::new(&mut first);
        let frames = get_backtrace(allocator.0);
        allocator.on_alloc(&guard, &mut global, 0x1000_0000 + i * 1024, 1024, frames);

        // The other thread enters while the first is inside the profiler: it
        // is the outermost entry of its own thread.
        let other = Reentrancy::new(&mut second);
        assert!(other.is_ok());
        let frames = get_backtrace(allocator.0);
        allocator.on_alloc(&other, &mut global, 0x2000_0000 + i * 2048, 2048, frames);
        other.release(&mut second);

        guard.release(&mut first);
    }
    assert_eq!(first, 0);
    assert_eq!(second, 0);

    // A third thread takes the snapshot.
    let mut third = 0usize;
    let guard = Reentrancy::new(&mut third);
    let profiler = global.get(10).unwrap();
    assert!(profiler.can_report());
    let profile = profiler.report(&named);
    guard.release(&mut third);

    assert_eq!(profile.sample.len(), 200);
    assert_eq!(total(&profile), 307_200);
}

#[test]
fn snapshot_during_heavy_churn() {
    let allocator = PprofAlloc(6);
    let mut global = GLobalHeapProfiler::new();
    let mut counter = 0usize;
    let mut registered: i64 = 0;
    let mut unregistered: i64 = 0;
    let mut live: std::collections::VecDeque<(usize, usize)> = std::collections::VecDeque::new();

    for round in 0..400usize {
        let ptr = 0x9000 + round * 16;
        let size = 1 + (round * 37) % 251;
        let guard = Reentrancy::new(&mut counter);
        allocator.on_alloc(&guard, &mut global, ptr, size, get_backtrace(allocator.0));
        guard.release(&mut counter);
        registered += size as i64;
        live.push_back((ptr, size));

        if round % 3 != 0 {
            let (freed, size) = live.pop_front().unwrap();
            let guard = Reentrancy::new(&mut counter);
            allocator.on_dealloc(&guard, &mut global, freed);
            guard.release(&mut counter);
            unregistered += size as i64;
        }

        if round % 50 == 49 {
            let profile = global.get(6).unwrap().report(&named);
            assert_eq!(total(&profile), registered - unregistered);
            assert_eq!(profile.sample.len(), live.len());
        }
    }
}

#[test]
fn a_registry_of_any_depth_is_reported() {
    let mut global = GLobalHeapProfiler::new();
    {
        let profiler = global.get(usize::MAX).unwrap();
        assert_eq!(profiler.max_frames(), usize::MAX);
        assert!(profiler.can_report());
        profiler.record(0x10, 64, vec![1, 2, 3]);
        profiler.record(0x20, 32, vec![]);
        assert!(profiler.can_report());
        let profile = profiler.report(&named);
        assert_eq!(profile.sample.len(), 2);
        assert_eq!(total(&profile), 96);
        assert_eq!(profile.function.len(), 3);
    }
    let taken = snapshot(&mut global, &named).unwrap();
    let read = Profile::parse_from_bytes(&taken.contents).unwrap();
    assert_eq!(read.sample.len(), 2);
    assert_eq!(total(&read), 96);
}

#[test]
fn a_snapshot_makes_the_registry_and_leaves_the_blocks() {
    let mut global = GLobalHeapProfiler::new();
    assert_eq!(global.state(), hala_pprof_memory::profiler::UNINITIALIZED);
    let taken = snapshot(&mut global, &named).unwrap();
    assert_eq!(global.state(), hala_pprof_memory::profiler::READY);
    assert_eq!(global.get(7).unwrap().max_frames(), 20);
    assert_eq!(global.get(7).unwrap().len(), 0);
    // The profile of no blocks: the sample type and its three strings.
    let read = Profile::parse_from_bytes(&taken.contents).unwrap();
    assert!(read.sample.is_empty());
    assert_eq!(read.string_table, vec!["", "space", "bytes"]);
    assert_eq!(read.sample_type.len(), 1);

    global.get(7).unwrap().record(0x40, 9, vec![5, 6]);
    let taken = snapshot(&mut global, &named).unwrap();
    assert_eq!(global.state(), hala_pprof_memory::profiler::READY);
    assert_eq!(global.get(7).unwrap().max_frames(), 20);
    assert_eq!(global.get(7).unwrap().len(), 1);
    assert_eq!(global.get(7).unwrap().get(0x40).unwrap().size, 9);
    let read = Profile::parse_from_bytes(&taken.contents).unwrap();
    assert_eq!(read.sample.len(), 1);
    assert_eq!(read.sample[0].value, vec![9]);

    // An allocator of another depth finds the registry made by the snapshot.
    let allocator = PprofAlloc(3);
    let mut counter = 0usize;
    let guard = Reentrancy::new(&mut counter);
    allocator.on_dealloc(&guard, &mut global, 0x40);
    guard.release(&mut counter);
    assert_eq!(global.get(7).unwrap().max_frames(), 20);
    assert_eq!(global.get(7).unwrap().len(), 0);
}

#[test]
fn freeing_makes_the_registry_with_the_depth_of_the_allocator() {
    let allocator = PprofAlloc(3);
    let mut global = GLobalHeapProfiler::new();
    let mut counter = 0usize;
    let guard = Reentrancy::new(&mut counter);
    allocator.on_dealloc(&guard, &mut global, 0x40);
    guard.release(&mut counter);
    assert_eq!(global.state(), hala_pprof_memory::profiler::READY);
    assert_eq!(global.get(7).unwrap().max_frames(), 3);
    assert_eq!(global.get(7).unwrap().len(), 0);
}

#[test]
fn the_hook_keeps_the_innermost_frames() {
    let allocator = PprofAlloc(3);
    let mut global = GLobalHeapProfiler::new();
    let mut counter = 0usize;
    let guard = Reentrancy::new(&mut counter);
    allocator.on_alloc(&guard, &mut global, 0x10, 5, vec![1, 2, 3, 4, 5]);
    allocator.on_alloc(&guard, &mut global, 0x20, 6, vec![9]);
    allocator.on_alloc(&guard, &mut global, 0x30, 7, vec![]);
    guard.release(&mut counter);
    // Another allocator finds the registry made: its depth stays.
    let other = PprofAlloc(1);
    let guard = Reentrancy::new(&mut counter);
    other.on_alloc(&guard, &mut global, 0x40, 8, vec![1, 2, 3, 4, 5]);
    guard.release(&mut counter);

    let profiler = global.get(50).unwrap();
    assert_eq!(profiler.max_frames(), 3);
    assert_eq!(profiler.get(0x10).unwrap().frames, vec![1, 2, 3]);
    assert_eq!(profiler.get(0x10).unwrap().size, 5);
    assert_eq!(profiler.get(0x20).unwrap().frames, vec![9]);
    assert_eq!(profiler.get(0x30).unwrap().frames, Vec::<usize>::new());
    assert_eq!(profiler.get(0x40).unwrap().frames, vec![1, 2, 3]);
}

#[test]
fn the_global_registry_tells_its_state() {
    let mut global = GLobalHeapProfiler::new();
    assert_eq!(global.state(), hala_pprof_memory::profiler::UNINITIALIZED);
    assert!(global.get(3).is_some());
    assert_eq!(global.state(), hala_pprof_memory::profiler::READY);
    assert_eq!(hala_pprof_memory::profiler::UNINITIALIZED, 0);
    assert_eq!(hala_pprof_memory::profiler::CONSTRUCTING, 1);
    assert_eq!(hala_pprof_memory::profiler::READY, 2);
    assert_eq!(hala_pprof_memory::profiler::FAILED, 3);
}
