use hala_pprof_memory::proto::Profile;
use hala_pprof_memory::text::format_block;
use hala_pprof_memory::text::format_snapshot_name;
use hala_pprof_memory::text::snapshot_file_name;
use hala_pprof_memory::FnTable;
use hala_pprof_memory::GperfHeapProfilerReport;
use hala_pprof_memory::StringTable;
use hala_pprof_memory::Symbol;

fn symbol(name: &str, address: usize, file_name: &str, line_no: u32) -> Symbol {
    Symbol {
        name: name.to_string(),
        address,
        file_name: file_name.to_string(),
        line_no,
        col_no: 0,
    }
}

fn text(profile: &Profile, index: i64) -> &str {
    profile.string_table[index as usize].as_str()
}

#[test]
fn string_table_starts_with_the_empty_string() {
    let mut table = StringTable::new();
    assert_eq!(table.insert(""), 0);
    assert_eq!(table.insert(""), 0);
}

#[test]
fn string_table_hands_out_one_index_per_string() {
    let mut table = StringTable::new();
    assert_eq!(table.insert("alpha"), 1);
    assert_eq!(table.insert("beta"), 2);
    assert_eq!(table.insert("alpha"), 1);
    assert_eq!(table.insert(""), 0);
    assert_eq!(table.insert("gamma"), 3);
    assert_eq!(table.insert("beta"), 2);
}

#[test]
fn fn_table_numbers_functions_from_one() {
    let mut strings = StringTable::new();
    let mut functions = FnTable::new();
    let main = symbol("main", 0x4000, "src/main.rs", 7);
    let work = symbol("work", 0x5000, "src/main.rs", 21);
    assert_eq!(functions.get(&main), None);
    assert_eq!(functions.push(&mut strings, &main), 1);
    assert_eq!(functions.get(&main), Some(1));
    assert_eq!(functions.get(&work), None);
    assert_eq!(functions.push(&mut strings, &work), 2);
    assert_eq!(functions.get(&work), Some(2));
    assert_eq!(functions.get(&main), Some(1));
    // "main" and "src/main.rs" went in first, "work" after them.
    assert_eq!(strings.insert("main"), 1);
    assert_eq!(strings.insert("src/main.rs"), 2);
    assert_eq!(strings.insert("work"), 3);
}

#[test]
fn empty_report_builds_an_empty_profile() {
    let mut report = GperfHeapProfilerReport::new();
    let profile = report.build();
    assert!(profile.sample.is_empty());
    assert!(profile.function.is_empty());
    assert!(profile.location.is_empty());
    assert_eq!(profile.string_table, vec!["", "space", "bytes"]);
    assert_eq!(profile.sample_type.len(), 1);
    assert_eq!(profile.sample_type[0].type_, 1);
    assert_eq!(profile.sample_type[0].unit, 2);
}

#[test]
fn single_allocation_single_snapshot() {
    let mut report = GperfHeapProfilerReport::new();
    let frames = vec![
        symbol("caller_of_the_allocation", 0x1000, "src/lib.rs", 10),
        symbol("main", 0x2000, "src/main.rs", 3),
    ];
    assert!(report.report_block_info(0x7f00_1234, 64, &frames));
    let profile = report.build();

    assert_eq!(profile.sample.len(), 1);
    let sample = &profile.sample[0];
    assert_eq!(sample.value, vec![64]);
    assert_eq!(sample.label.len(), 1);
    assert_eq!(text(&profile, sample.label[0].key), "block");
    assert_eq!(text(&profile, sample.label[0].str), "0x7f001234");
    assert_eq!(sample.location_id, vec![1, 2]);

    let innermost = &profile.function[(sample.location_id[0] - 1) as usize];
    assert!(text(&profile, innermost.system_name).contains("caller_of_the_allocation"));
    assert_eq!(text(&profile, innermost.filename), "src/lib.rs");
    assert_eq!(innermost.start_line, 10);
    assert_eq!(innermost.name, 0);

    assert_eq!(profile.location.len(), 2);
    assert_eq!(profile.location[0].id, 1);
    assert_eq!(profile.location[0].address, 0x1000);
    assert_eq!(profile.location[0].line.len(), 1);
    assert_eq!(profile.location[0].line[0].function_id, 1);
    assert_eq!(profile.location[0].line[0].line, 10);
    assert_eq!(profile.location[1].id, 2);
    assert_eq!(profile.location[1].address, 0x2000);
    assert_eq!(profile.location[1].line[0].function_id, 2);
    assert_eq!(profile.location[1].line[0].line, 3);

    assert_eq!(text(&profile, profile.sample_type[0].type_), "space");
    assert_eq!(text(&profile, profile.sample_type[0].unit), "bytes");
    assert_eq!(profile.string_table[0], "");
    assert_eq!(
        profile.string_table,
        vec![
            "",
            "caller_of_the_allocation",
            "src/lib.rs",
            "main",
            "src/main.rs",
            "block",
            "0x7f001234",
            "space",
            "bytes",
        ]
    );
}

#[test]
fn symbols_with_the_same_address_share_a_function() {
    let mut report = GperfHeapProfilerReport::new();
    let first = vec![
        symbol("leaf", 0x10, "a.rs", 1),
        symbol("root", 0x20, "a.rs", 2),
        symbol("leaf", 0x10, "a.rs", 1),
    ];
    // The same address under another name: the first entry stands.
    let second = vec![symbol("renamed", 0x20, "b.rs", 9), symbol("other", 0x30, "b.rs", 4)];
    report.report_block_info(1, 8, &first);
    report.report_block_info(2, 16, &second);
    let profile = report.build();

    assert_eq!(profile.sample[0].location_id, vec![1, 2, 1]);
    assert_eq!(profile.sample[1].location_id, vec![2, 3]);
    assert_eq!(profile.function.len(), 3);
    assert_eq!(text(&profile, profile.function[1].system_name), "root");
    assert_eq!(text(&profile, profile.function[1].filename), "a.rs");
    assert_eq!(profile.function[1].start_line, 2);
    assert!(!profile.string_table.iter().any(|s| s == "renamed"));
}

#[test]
fn functions_and_locations_are_numbered_by_position() {
    let mut report = GperfHeapProfilerReport::new();
    for block in 0..5usize {
        let frames: Vec<Symbol> = (0..4usize)
            .map(|depth| symbol("f", 0x100 * (block + depth + 1), "f.rs", depth as u32))
            .collect();
        report.report_block_info(0x9000 + block, 32, &frames);
    }
    let profile = report.build();
    assert_eq!(profile.function.len(), 8);
    assert_eq!(profile.location.len(), profile.function.len());
    for (i, function) in profile.function.iter().enumerate() {
        assert_eq!(function.id, i as u64 + 1);
        assert_eq!(profile.location[i].id, i as u64 + 1);
        assert_eq!(profile.location[i].line[0].function_id, i as u64 + 1);
        assert_eq!(profile.location[i].address, 0x100 * (i as u64 + 1));
    }
}

#[test]
fn each_sample_holds_the_size_of_its_block() {
    let mut report = GperfHeapProfilerReport::new();
    let sizes = [0usize, 1, 64, 4096, 1 << 40];
    for (i, size) in sizes.iter().enumerate() {
        report.report_block_info(0x1000 + i, *size, &[symbol("f", 0x1, "f.rs", 1)]);
    }
    let profile = report.build();
    assert_eq!(profile.sample.len(), sizes.len());
    let mut total: i64 = 0;
    for (sample, size) in profile.sample.iter().zip(sizes.iter()) {
        assert_eq!(sample.value.len(), 1);
        assert_eq!(sample.value[0], *size as i64);
        total += sample.value[0];
    }
    assert_eq!(total, 1 + 64 + 4096 + (1i64 << 40));
}

#[test]
fn a_block_without_frames_gets_an_empty_location_list() {
    let mut report = GperfHeapProfilerReport::new();
    report.report_block_info(0xabc, 24, &[]);
    let profile = report.build();
    assert_eq!(profile.sample.len(), 1);
    assert!(profile.sample[0].location_id.is_empty());
    assert_eq!(profile.sample[0].value, vec![24]);
    assert_eq!(text(&profile, profile.sample[0].label[0].str), "0xabc");
}

#[test]
fn blocks_share_the_label_key_and_differ_in_its_text() {
    let mut report = GperfHeapProfilerReport::new();
    report.report_block_info(0x10, 1, &[]);
    report.report_block_info(0x20, 2, &[]);
    report.report_block_info(0x10, 3, &[]);
    let profile = report.build();
    assert_eq!(profile.sample[0].label[0].key, profile.sample[1].label[0].key);
    assert_ne!(profile.sample[0].label[0].str, profile.sample[1].label[0].str);
    assert_eq!(profile.sample[0].label[0].str, profile.sample[2].label[0].str);
}

#[test]
fn symbols_without_names_are_interned_as_the_empty_string() {
    let mut report = GperfHeapProfilerReport::new();
    report.report_block_info(0x10, 1, &[symbol("", 0x77, "", 0)]);
    let profile = report.build();
    assert_eq!(profile.function[0].system_name, 0);
    assert_eq!(profile.function[0].filename, 0);
    assert_eq!(profile.function[0].start_line, 0);
    assert_eq!(profile.string_table[0], "");
}

#[test]
fn build_leaves_the_report_empty() {
    let mut report = GperfHeapProfilerReport::new();
    report.report_block_info(0x10, 1, &[symbol("f", 0x77, "f.rs", 5)]);
    let first = report.build();
    assert_eq!(first.sample.len(), 1);
    let second = report.build();
    assert!(second.sample.is_empty());
    assert!(second.function.is_empty());
    assert_eq!(second.string_table, vec!["", "space", "bytes"]);
    report.report_block_info(0x20, 2, &[symbol("g", 0x77, "g.rs", 6)]);
    let third = report.build();
    assert_eq!(third.function.len(), 1);
    assert_eq!(text(&third, third.function[0].system_name), "g");
}

#[test]
fn block_labels_are_hexadecimal_with_two_digits_at_least() {
    assert_eq!(format_block(0), "0x00");
    assert_eq!(format_block(1), "0x01");
    assert_eq!(format_block(9), "0x09");
    assert_eq!(format_block(10), "0x0a");
    assert_eq!(format_block(15), "0x0f");
    assert_eq!(format_block(16), "0x10");
    assert_eq!(format_block(255), "0xff");
    assert_eq!(format_block(256), "0x100");
    assert_eq!(format_block(0xdead_beef), "0xdeadbeef");
    assert_eq!(format_block(0x0123_4567_89ab_cdef), "0x123456789abcdef");
    assert_eq!(format_block(usize::MAX), format!("0x{:02x}", usize::MAX));
    for address in 0..5000usize {
        assert_eq!(format_block(address), format!("0x{:02x}", address));
    }
}

#[test]
fn snapshot_names_replace_the_separators_of_the_timestamp() {
    assert_eq!(
        format_snapshot_name("2001-07-08T00:34:60.026490+09:30"),
        "./memory.2001_07_08T00_34_60.026490_09_30.pprof.pb"
    );
    assert_eq!(format_snapshot_name(""), "./memory..pprof.pb");
    assert_eq!(format_snapshot_name("a b"), "./memory.a_b.pprof.pb");
    assert_eq!(format_snapshot_name("--::  ++"), "./memory.________.pprof.pb");
    assert_eq!(format_snapshot_name("Zeit_12h"), "./memory.Zeit_12h.pprof.pb");
    assert_eq!(format_snapshot_name("é-ü"), "./memory.é_ü.pprof.pb");
}

#[test]
fn snapshot_file_name_frames_a_timestamp() {
    let name = snapshot_file_name();
    assert!(name.starts_with("./memory."));
    assert!(name.ends_with(".pprof.pb"));
    let stamp = &name["./memory.".len()..name.len() - ".pprof.pb".len()];
    // A date, `T`, a time of day and an offset: 25 characters at least, of
    // which the separators became underscores.
    assert!(stamp.chars().count() >= 25);
    assert!(stamp.chars().all(|c| c.is_ascii_digit() || c == '_' || c == 'T' || c == '.'));
    let parts: Vec<&str> = stamp.split('_').collect();
    assert!(parts.len() >= 7);
    assert!(parts[0].len() >= 4);
    assert!(parts[0].chars().all(|c| c.is_ascii_digit()));
    assert_eq!(parts[1].len(), 2);
    assert_eq!(parts[2].len(), 5);
    assert_eq!(&parts[2][2..3], "T");
    assert_eq!(parts[3].len(), 2);
    assert_eq!(parts[parts.len() - 1].len(), 2);
    assert_eq!(parts[parts.len() - 2].len(), 2);
}
