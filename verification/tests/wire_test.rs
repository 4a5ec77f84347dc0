use hala_pprof_memory::proto::Function;
use hala_pprof_memory::proto::Label;
use hala_pprof_memory::proto::Line;
use hala_pprof_memory::proto::Location;
use hala_pprof_memory::proto::Profile;
use hala_pprof_memory::proto::Sample;
use hala_pprof_memory::proto::ValueType;
use hala_pprof_memory::GperfHeapProfilerReport;
use hala_pprof_memory::HeapProfiler;
use hala_pprof_memory::Symbol;
use protobuf::CodedInputStream;

fn small_profile() -> Profile {
    Profile {
        sample_type: vec![ValueType { type_: 1, unit: 2 }],
        sample: vec![Sample {
            location_id: vec![1, 2],
            value: vec![64],
            label: vec![Label { key: 3, str: 4 }],
        }],
        location: vec![Location {
            id: 1,
            address: 0x1000,
            line: vec![Line { function_id: 1, line: 10 }],
        }],
        function: vec![Function { id: 1, name: 0, system_name: 5, filename: 6, start_line: 10 }],
        string_table: vec!["".to_string(), "space".to_string(), "é".to_string()],
    }
}

fn read_value_type(bytes: &[u8]) -> ValueType {
    let mut input = CodedInputStream::from_bytes(bytes);
    let mut value = ValueType { type_: 0, unit: 0 };
    while let Some(tag) = input.read_raw_tag_or_eof().unwrap() {
        match tag {
            8 => value.type_ = input.read_int64().unwrap(),
            16 => value.unit = input.read_int64().unwrap(),
            other => panic!("unexpected tag {}", other),
        }
    }
    value
}

fn read_label(bytes: &[u8]) -> Label {
    let mut input = CodedInputStream::from_bytes(bytes);
    let mut label = Label { key: 0, str: 0 };
    while let Some(tag) = input.read_raw_tag_or_eof().unwrap() {
        match tag {
            8 => label.key = input.read_int64().unwrap(),
            16 => label.str = input.read_int64().unwrap(),
            other => panic!("unexpected tag {}", other),
        }
    }
    label
}

fn read_line(bytes: &[u8]) -> Line {
    let mut input = CodedInputStream::from_bytes(bytes);
    let mut line = Line { function_id: 0, line: 0 };
    while let Some(tag) = input.read_raw_tag_or_eof().unwrap() {
        match tag {
            8 => line.function_id = input.read_uint64().unwrap(),
            16 => line.line = input.read_int64().unwrap(),
            other => panic!("unexpected tag {}", other),
        }
    }
    line
}

fn read_function(bytes: &[u8]) -> Function {
    let mut input = CodedInputStream::from_bytes(bytes);
    let mut function = Function { id: 0, name: 0, system_name: 0, filename: 0, start_line: 0 };
    while let Some(tag) = input.read_raw_tag_or_eof().unwrap() {
        match tag {
            8 => function.id = input.read_uint64().unwrap(),
            16 => function.name = input.read_int64().unwrap(),
            24 => function.system_name = input.read_int64().unwrap(),
            32 => function.filename = input.read_int64().unwrap(),
            40 => function.start_line = input.read_int64().unwrap(),
            other => panic!("unexpected tag {}", other),
        }
    }
    function
}

fn read_location(bytes: &[u8]) -> Location {
    let mut input = CodedInputStream::from_bytes(bytes);
    let mut location = Location { id: 0, address: 0, line: vec![] };
    while let Some(tag) = input.read_raw_tag_or_eof().unwrap() {
        match tag {
            8 => location.id = input.read_uint64().unwrap(),
            24 => location.address = input.read_uint64().unwrap(),
            34 => location.line.push(read_line(&input.read_bytes().unwrap())),
            other => panic!("unexpected tag {}", other),
        }
    }
    location
}

fn read_sample(bytes: &[u8]) -> Sample {
    let mut input = CodedInputStream::from_bytes(bytes);
    let mut sample = Sample { location_id: vec![], value: vec![], label: vec![] };
    while let Some(tag) = input.read_raw_tag_or_eof().unwrap() {
        match tag {
            10 => input.read_repeated_packed_uint64_into(&mut sample.location_id).unwrap(),
            18 => input.read_repeated_packed_int64_into(&mut sample.value).unwrap(),
            26 => sample.label.push(read_label(&input.read_bytes().unwrap())),
            other => panic!("unexpected tag {}", other),
        }
    }
    sample
}

fn read_profile(bytes: &[u8]) -> Profile {
    let mut input = CodedInputStream::from_bytes(bytes);
    let mut profile = Profile {
        sample_type: vec![],
        sample: vec![],
        location: vec![],
        function: vec![],
        string_table: vec![],
    };
    while let Some(tag) = input.read_raw_tag_or_eof().unwrap() {
        match tag {
            10 => profile.sample_type.push(read_value_type(&input.read_bytes().unwrap())),
            18 => profile.sample.push(read_sample(&input.read_bytes().unwrap())),
            34 => profile.location.push(read_location(&input.read_bytes().unwrap())),
            42 => profile.function.push(read_function(&input.read_bytes().unwrap())),
            50 => profile.string_table.push(input.read_string().unwrap()),
            other => panic!("unexpected tag {}", other),
        }
    }
    profile
}

#[test]
fn a_profile_is_written_field_by_field() {
    let bytes = small_profile().write_to_bytes().unwrap();
    let expected: Vec<u8> = vec![
        // sample_type
        0x0a, 0x04, 0x08, 0x01, 0x10, 0x02,
        // sample: two locations, one value, one label
        0x12, 0x0d, 0x0a, 0x02, 0x01, 0x02, 0x12, 0x01, 0x40, 0x1a, 0x04, 0x08, 0x03, 0x10, 0x04,
        // location: id, address 0x1000, one line
        0x22, 0x0b, 0x08, 0x01, 0x18, 0x80, 0x20, 0x22, 0x04, 0x08, 0x01, 0x10, 0x0a,
        // function: the name, which is 0, is left out
        0x2a, 0x08, 0x08, 0x01, 0x18, 0x05, 0x20, 0x06, 0x28, 0x0a,
        // string_table: the empty string is written
        0x32, 0x00,
        0x32, 0x05, b's', b'p', b'a', b'c', b'e',
        0x32, 0x02, 0xc3, 0xa9,
    ];
    assert_eq!(bytes, expected);
}

#[test]
fn an_empty_profile_has_no_bytes() {
    let profile = Profile {
        sample_type: vec![],
        sample: vec![],
        location: vec![],
        function: vec![],
        string_table: vec![],
    };
    assert_eq!(profile.write_to_bytes().unwrap(), Vec::<u8>::new());
}

#[test]
fn empty_messages_are_written_with_length_zero() {
    let profile = Profile {
        sample_type: vec![ValueType { type_: 0, unit: 0 }],
        sample: vec![Sample { location_id: vec![], value: vec![], label: vec![] }],
        location: vec![Location { id: 0, address: 0, line: vec![] }],
        function: vec![Function { id: 0, name: 0, system_name: 0, filename: 0, start_line: 0 }],
        string_table: vec![],
    };
    assert_eq!(
        profile.write_to_bytes().unwrap(),
        vec![0x0a, 0x00, 0x12, 0x00, 0x22, 0x00, 0x2a, 0x00]
    );
}

#[test]
fn numbers_are_written_as_varints() {
    let sample = |value: i64| Profile {
        sample_type: vec![],
        sample: vec![Sample { location_id: vec![], value: vec![value], label: vec![] }],
        location: vec![],
        function: vec![],
        string_table: vec![],
    };
    assert_eq!(sample(0).write_to_bytes().unwrap(), vec![0x12, 0x03, 0x12, 0x01, 0x00]);
    assert_eq!(sample(127).write_to_bytes().unwrap(), vec![0x12, 0x03, 0x12, 0x01, 0x7f]);
    assert_eq!(sample(128).write_to_bytes().unwrap(), vec![0x12, 0x04, 0x12, 0x02, 0x80, 0x01]);
    assert_eq!(sample(300).write_to_bytes().unwrap(), vec![0x12, 0x04, 0x12, 0x02, 0xac, 0x02]);
    assert_eq!(
        sample(i64::MAX).write_to_bytes().unwrap(),
        vec![0x12, 0x0b, 0x12, 0x09, 0xff, 0xff, 0xff, 0xff, 0xff, 0xff, 0xff, 0xff, 0x7f]
    );
    assert_eq!(
        sample(-1).write_to_bytes().unwrap(),
        vec![0x12, 0x0c, 0x12, 0x0a, 0xff, 0xff, 0xff, 0xff, 0xff, 0xff, 0xff, 0xff, 0xff, 0x01]
    );
    assert_eq!(
        sample(i64::MIN).write_to_bytes().unwrap(),
        vec![0x12, 0x0c, 0x12, 0x0a, 0x80, 0x80, 0x80, 0x80, 0x80, 0x80, 0x80, 0x80, 0x80, 0x01]
    );
    let function = Profile {
        sample_type: vec![],
        sample: vec![],
        location: vec![],
        function: vec![Function {
            id: u64::MAX,
            name: -2,
            system_name: 0,
            filename: 0,
            start_line: 1,
        }],
        string_table: vec![],
    };
    assert_eq!(
        function.write_to_bytes().unwrap(),
        vec![
            0x2a, 0x18, 0x08, 0xff, 0xff, 0xff, 0xff, 0xff, 0xff, 0xff, 0xff, 0xff, 0x01, 0x10,
            0xfe, 0xff, 0xff, 0xff, 0xff, 0xff, 0xff, 0xff, 0xff, 0x01, 0x28, 0x01,
        ]
    );
}

#[test]
fn a_written_profile_is_read_back_unchanged() {
    let profile = small_profile();
    assert_eq!(read_profile(&profile.write_to_bytes().unwrap()), profile);

    let mut report = GperfHeapProfilerReport::new();
    for block in 0..40usize {
        let frames: Vec<Symbol> = (0..(block % 6))
            .map(|depth| Symbol {
                name: format!("function::<{}>", (block + depth) % 9),
                address: 0x40_0000 + 0x123 * ((block + depth) % 9),
                file_name: format!("src/módulo_{}.rs", depth),
                line_no: (block * depth) as u32,
                col_no: 1,
            })
            .collect();
        report.report_block_info(0x7ffd_0000_0000 + block * 4096, block * block * 17, &frames);
    }
    let profile = report.build();
    let bytes = profile.write_to_bytes().unwrap();
    assert_eq!(read_profile(&bytes), profile);
}

#[test]
fn a_report_of_the_registry_is_read_back_unchanged() {
    let mut profiler = HeapProfiler::new(8).unwrap();
    for i in 0..25usize {
        profiler.register(0x1000 * (i + 1), 100 + i);
    }
    let resolve = |address: usize| {
        Some(Symbol {
            name: format!("at_{:x}", address),
            address,
            file_name: String::new(),
            line_no: 0,
            col_no: 0,
        })
    };
    let profile = profiler.report(&resolve);
    let bytes = profile.write_to_bytes().unwrap();
    let read = read_profile(&bytes);
    assert_eq!(read, profile);
    assert_eq!(read.sample.len(), 25);
    assert_eq!(read.sample.iter().map(|sample| sample.value[0]).sum::<i64>(), 2500 + 300);
}

#[test]
fn a_profile_is_parsed_from_its_bytes() {
    let profile = small_profile();
    let bytes = profile.write_to_bytes().unwrap();
    assert_eq!(Profile::parse_from_bytes(&bytes), Some(profile));

    let mut report = GperfHeapProfilerReport::new();
    for block in 0..30usize {
        let frames: Vec<Symbol> = (0..(block % 5))
            .map(|depth| Symbol {
                name: format!("f{}", (block * 3 + depth) % 11),
                address: 0x1000 * ((block * 3 + depth) % 11),
                file_name: "src/λ.rs".to_string(),
                line_no: depth as u32,
                col_no: 0,
            })
            .collect();
        report.report_block_info(0x10 * block, (1usize << block) - 1, &frames);
    }
    let profile = report.build();
    let bytes = profile.write_to_bytes().unwrap();
    assert_eq!(Profile::parse_from_bytes(&bytes), Some(profile));
}

#[test]
fn parsing_agrees_with_the_protobuf_reader() {
    let mut profiler = HeapProfiler::new(4).unwrap();
    for i in 0..12usize {
        profiler.record(0x100 + i, i * 1000, vec![i, i + 1, 77]);
    }
    let resolve = |address: usize| {
        if address % 3 == 0 {
            None
        } else {
            Some(Symbol {
                name: format!("name{}", address),
                address,
                file_name: format!("file{}", address % 2),
                line_no: address as u32,
                col_no: 0,
            })
        }
    };
    let bytes = profiler.report(&resolve).write_to_bytes().unwrap();
    assert_eq!(Profile::parse_from_bytes(&bytes), Some(read_profile(&bytes)));
}

#[test]
fn an_empty_input_is_an_empty_profile() {
    let profile = Profile::parse_from_bytes(&[]).unwrap();
    assert!(profile.sample_type.is_empty());
    assert!(profile.sample.is_empty());
    assert!(profile.location.is_empty());
    assert!(profile.function.is_empty());
    assert!(profile.string_table.is_empty());
}

#[test]
fn numbers_are_parsed_from_varints() {
    let value = |bytes: &[u8]| {
        let mut input = vec![0x12, (bytes.len() + 2) as u8, 0x12, bytes.len() as u8];
        input.extend_from_slice(bytes);
        Profile::parse_from_bytes(&input).map(|profile| profile.sample[0].value.clone())
    };
    assert_eq!(value(&[0x00]), Some(vec![0]));
    assert_eq!(value(&[0x7f]), Some(vec![127]));
    assert_eq!(value(&[0x80, 0x01]), Some(vec![128]));
    assert_eq!(value(&[0xac, 0x02, 0x01]), Some(vec![300, 1]));
    assert_eq!(
        value(&[0xff, 0xff, 0xff, 0xff, 0xff, 0xff, 0xff, 0xff, 0x7f]),
        Some(vec![i64::MAX])
    );
    assert_eq!(
        value(&[0xff, 0xff, 0xff, 0xff, 0xff, 0xff, 0xff, 0xff, 0xff, 0x01]),
        Some(vec![-1])
    );
    assert_eq!(
        value(&[0x80, 0x80, 0x80, 0x80, 0x80, 0x80, 0x80, 0x80, 0x80, 0x01]),
        Some(vec![i64::MIN])
    );
    // A varint that does not end, one of more than 64 bits, one of more than
    // ten bytes.
    assert_eq!(value(&[0x80]), None);
    assert_eq!(value(&[0xff, 0xff, 0xff, 0xff, 0xff, 0xff, 0xff, 0xff, 0xff, 0x02]), None);
    assert_eq!(
        value(&[0x80, 0x80, 0x80, 0x80, 0x80, 0x80, 0x80, 0x80, 0x80, 0x80, 0x00]),
        None
    );
}

#[test]
fn broken_input_is_not_a_profile() {
    // A key without a value.
    assert_eq!(Profile::parse_from_bytes(&[0x0a]), None);
    // More bytes announced than there are.
    assert_eq!(Profile::parse_from_bytes(&[0x32, 0x05, b'a', b'b']), None);
    // The field number 0.
    assert_eq!(Profile::parse_from_bytes(&[0x02, 0x00]), None);
    // A field of 64 bits and one of 32 bits.
    assert_eq!(Profile::parse_from_bytes(&[0x09, 0, 0, 0, 0, 0, 0, 0, 0]), None);
    assert_eq!(Profile::parse_from_bytes(&[0x0d, 0, 0, 0, 0]), None);
    // A string that is not UTF-8.
    assert_eq!(Profile::parse_from_bytes(&[0x32, 0x02, 0xc3, 0x28]), None);
    assert_eq!(Profile::parse_from_bytes(&[0x32, 0x01, 0xff]), None);
    // A sample with a broken label inside.
    assert_eq!(Profile::parse_from_bytes(&[0x12, 0x03, 0x1a, 0x01, 0x08]), None);
}

#[test]
fn fields_that_are_not_known_are_passed_over() {
    // Field 9 of a profile holds a number, field 3 holds bytes; field 7 of a
    // function holds a number.
    let bytes = vec![
        0x48, 0x2a, // field 9: 42
        0x1a, 0x02, 0xff, 0xff, // field 3: two bytes
        0x2a, 0x04, 0x08, 0x05, 0x38, 0x01, // function: id 5, field 7: 1
        0x32, 0x01, b'x',
    ];
    let profile = Profile::parse_from_bytes(&bytes).unwrap();
    assert_eq!(
        profile.function,
        vec![Function { id: 5, name: 0, system_name: 0, filename: 0, start_line: 0 }]
    );
    assert_eq!(profile.string_table, vec!["x"]);
    assert!(profile.sample.is_empty());
}

#[test]
fn repeated_numbers_are_read_packed_or_one_by_one() {
    // location_id: 1 and 2 packed, then 3 alone, then 4 packed; value: 9
    // alone.
    let sample = vec![0x0a, 0x02, 0x01, 0x02, 0x08, 0x03, 0x0a, 0x01, 0x04, 0x10, 0x09];
    let mut bytes = vec![0x12, sample.len() as u8];
    bytes.extend_from_slice(&sample);
    let profile = Profile::parse_from_bytes(&bytes).unwrap();
    assert_eq!(profile.sample.len(), 1);
    assert_eq!(profile.sample[0].location_id, vec![1, 2, 3, 4]);
    assert_eq!(profile.sample[0].value, vec![9]);
}

#[test]
fn a_field_that_comes_again_replaces_its_value() {
    let bytes = vec![0x2a, 0x06, 0x08, 0x01, 0x08, 0x02, 0x28, 0x03];
    let profile = Profile::parse_from_bytes(&bytes).unwrap();
    assert_eq!(profile.function[0].id, 2);
    assert_eq!(profile.function[0].start_line, 3);
}
