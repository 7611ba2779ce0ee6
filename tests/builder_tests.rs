use non_contiguously_indexed_array::{
    decimal_text, segment_data, BuildConfiguration, BuildError, NciArray, NciArrayBuilder, OutputFormat, ValueFormatting,
};

const DEFAUTLT_BUILD_CONFIGURATION: BuildConfiguration = BuildConfiguration {
    output_format: OutputFormat::RustCodegen,
    value_formatting: ValueFormatting::Display,
};

const ARRAY_1: NciArray<u32, u32> = NciArray {
    segments_idx_begin: &[0, 10, 100],
    segments_mem_idx_begin: &[0, 3, 5],
    values: &[0, 1, 2, 10, 11, 100],
};

const ARRAY_2: NciArray<u32, u32> = NciArray {
    segments_idx_begin: &[100, 200, 500],
    segments_mem_idx_begin: &[0, 2, 3],
    values: &[100, 101, 200, 500, 501, 502],
};

const ARRAY_3: NciArray<i32, i32> = NciArray {
    segments_idx_begin: &[-500, -490, -400],
    segments_mem_idx_begin: &[0, 3, 5],
    values: &[-500, -499, -498, -490, -489, -400],
};

const ARRAY_4: NciArray<i32, i32> = NciArray {
    segments_idx_begin: &[-500, -2, 499],
    segments_mem_idx_begin: &[0, 2, 7],
    values: &[-500, -499, -2, -1, 0, 1, 2, 499, 500],
};

const GENERATED_1: &str = "{\n\tsegments_idx_begin: &[\n\t\t0,\n\t\t10,\n\t\t100,\n\t],\n\tsegments_mem_idx_begin: &[\n\t\t0,\n\t\t3,\n\t\t5,\n\t],\n\tvalues: &[\n\t\t0,\n\t\t1,\n\t\t2,\n\t\t10,\n\t\t11,\n\t\t100,\n\t],\n}";

const GENERATED_2: &str = "{\n\tsegments_idx_begin: &[\n\t\t100,\n\t\t200,\n\t\t500,\n\t],\n\tsegments_mem_idx_begin: &[\n\t\t0,\n\t\t2,\n\t\t3,\n\t],\n\tvalues: &[\n\t\t100,\n\t\t101,\n\t\t200,\n\t\t500,\n\t\t501,\n\t\t502,\n\t],\n}";

const GENERATED_4: &str = "{\n\tsegments_idx_begin: &[\n\t\t-500,\n\t\t-2,\n\t\t499,\n\t],\n\tsegments_mem_idx_begin: &[\n\t\t0,\n\t\t2,\n\t\t7,\n\t],\n\tvalues: &[\n\t\t-500,\n\t\t-499,\n\t\t-2,\n\t\t-1,\n\t\t0,\n\t\t1,\n\t\t2,\n\t\t499,\n\t\t500,\n\t],\n}";

const GENERATED_3: &str = "{\n\tsegments_idx_begin: &[\n\t\t-500,\n\t\t-490,\n\t\t-400,\n\t],\n\tsegments_mem_idx_begin: &[\n\t\t0,\n\t\t3,\n\t\t5,\n\t],\n\tvalues: &[\n\t\t-500,\n\t\t-499,\n\t\t-498,\n\t\t-490,\n\t\t-489,\n\t\t-400,\n\t],\n}";

/// Builds the text for the entries of `array`, and checks that the segment data
/// computed from them is that of `array`.
fn build_from<V: Copy + std::fmt::Display + std::fmt::Debug + PartialEq>(
    array: &NciArray<i64, V>,
    entries: Vec<(i64, V)>,
    config: &BuildConfiguration,
) -> String {
    let (starts, mem) = segment_data(&entries);
    assert_eq!(starts, array.segments_idx_begin.to_vec());
    assert_eq!(mem, array.segments_mem_idx_begin.to_vec());
    let mut builder = NciArrayBuilder::new();
    for (index, value) in entries {
        builder.entry(index, value);
    }
    builder.build(config).unwrap()
}

fn widen<I: non_contiguously_indexed_array::NciIndex + Into<i64>, V: Copy>(array: &NciArray<I, V>) -> (Vec<i64>, Vec<(i64, V)>) {
    let starts = array.segments_idx_begin.iter().map(|i| (*i).into()).collect();
    let mut entries = Vec::new();
    let mut it = array.entries();
    while let Some((index, value)) = it.next() {
        entries.push((index.into(), *value));
    }
    (starts, entries)
}

fn check_array<I: Copy + Into<i64> + non_contiguously_indexed_array::NciIndex, V: Copy + std::fmt::Display + std::fmt::Debug + PartialEq>(
    array: &NciArray<I, V>,
    expected: &str,
) {
    let (starts, entries) = widen(array);
    let wide = NciArray::new(&starts, array.segments_mem_idx_begin, array.values);
    assert_eq!(build_from(&wide, entries, &DEFAUTLT_BUILD_CONFIGURATION), expected);
}

#[test]
fn array_builder_test_1() {
    check_array(&ARRAY_1, GENERATED_1);
}

#[test]
fn array_builder_test_2() {
    check_array(&ARRAY_2, GENERATED_2);
}

#[test]
fn array_builder_test_3() {
    check_array(&ARRAY_3, GENERATED_3);
}

#[test]
fn array_builder_test_4() {
    let (starts, entries) = widen(&ARRAY_4);
    let wide = NciArray::new(&starts, ARRAY_4.segments_mem_idx_begin, ARRAY_4.values);
    let text = build_from(&wide, entries, &DEFAUTLT_BUILD_CONFIGURATION);
    assert_eq!(text, GENERATED_4);
}

#[test]
fn array_builder_test_5() {
    let entries: Vec<(i8, i8)> = (i8::MIN..=i8::MAX).zip(i8::MIN..=i8::MAX).collect();
    let (starts, mem) = segment_data(&entries);
    assert_eq!(starts, vec![i8::MIN]);
    assert_eq!(mem, vec![0]);
    let values: Vec<i8> = entries.iter().map(|e| e.1).collect();
    let array = NciArray::new(&starts, &mem, &values);
    assert!(array.fulfills_invariants());
    let mut collected = Vec::new();
    let mut it = array.entries();
    while let Some((index, element)) = it.next() {
        collected.push((index, *element));
    }
    assert_eq!(collected, entries);
    for i in i8::MIN..=i8::MAX {
        assert_eq!(array.get(i), Some(&i));
    }

    let mut builder = NciArrayBuilder::new();
    for (index, value) in entries {
        builder.entry(index, value);
    }
    let text = builder.build(&DEFAUTLT_BUILD_CONFIGURATION).unwrap();
    let mut expected = String::from(
        "{\n\tsegments_idx_begin: &[\n\t\t-128,\n\t],\n\tsegments_mem_idx_begin: &[\n\t\t0,\n\t],\n\tvalues: &[\n",
    );
    for i in i8::MIN..=i8::MAX {
        expected.push_str(&format!("\t\t{},\n", i));
    }
    expected.push_str("\t],\n}");
    assert_eq!(text, expected);
}

#[test]
#[should_panic]
fn array_builder_test_panic_on_duplicate() {
    let mut builder = NciArrayBuilder::new();
    builder.entry(0, i8::MIN);
    builder.entry(0, i8::MAX);
    assert!(builder.build(&DEFAUTLT_BUILD_CONFIGURATION).unwrap().is_empty()); // Assertion fails, but should never be executed
}

#[test]
fn builder_rejects_duplicate_keys_consistently() {
    for _ in 0..2 {
        let mut builder = NciArrayBuilder::new();
        builder.entry(1, 'a');
        builder.entry(1, 'b');
        let result = builder.build(&DEFAUTLT_BUILD_CONFIGURATION);
        assert!(matches!(result, Err(BuildError::DuplicateIndex { index: 1 })));
    }
}

#[test]
fn builder_round_trip_any_insertion_order() {
    let mut builder = NciArrayBuilder::new();
    for (index, value) in [(11u32, 11u32), (0, 0), (100, 100), (2, 2), (10, 10), (1, 1)] {
        builder.entry(index, value);
    }
    assert_eq!(builder.build(&DEFAUTLT_BUILD_CONFIGURATION).unwrap(), GENERATED_1);
}

#[test]
fn builder_compact_ron() {
    let mut builder = NciArrayBuilder::new();
    for (index, value) in [(0u32, 0u32), (1, 1), (2, 2), (10, 10), (11, 11), (100, 100)] {
        builder.entry(index, value);
    }
    let config = BuildConfiguration {
        output_format: OutputFormat::RON,
        value_formatting: ValueFormatting::Display,
    };
    assert_eq!(
        builder.build(&config).unwrap(),
        "(segments_idx_begin:(0,10,100),segments_mem_idx_begin:(0,3,5),values:(0,1,2,10,11,100))"
    );
}

#[test]
fn builder_pretty_ron_with_debug_values() {
    let mut builder = NciArrayBuilder::new();
    builder.entry(5u8, "five");
    builder.entry(7u8, "seven");
    builder.entry(6u8, "six");
    let config = BuildConfiguration {
        output_format: OutputFormat::RONPretty,
        value_formatting: ValueFormatting::Debug,
    };
    assert_eq!(
        builder.build(&config).unwrap(),
        "(\n\tsegments_idx_begin: (\n\t\t5,\n\t),\n\tsegments_mem_idx_begin: (\n\t\t0,\n\t),\n\tvalues: (\n\t\t\"five\",\n\t\t\"six\",\n\t\t\"seven\",\n\t),\n)"
    );
}

#[test]
fn builder_empty() {
    let mut builder: NciArrayBuilder<u32, u32> = NciArrayBuilder::default();
    let config = BuildConfiguration {
        output_format: OutputFormat::RON,
        value_formatting: ValueFormatting::DebugAlternate,
    };
    assert_eq!(
        builder.build(&config).unwrap(),
        "(segments_idx_begin:(),segments_mem_idx_begin:(),values:())"
    );
}

#[test]
fn builder_first_entry_wins() {
    for _ in 0..2 {
        let mut builder = NciArrayBuilder::new();
        builder.entry(2u32, 'c');
        builder.entry(1u32, 'a');
        builder.entry(1u32, 'b');
        builder.entry(2u32, 'd');
        builder.entry(5u32, 'e');
        let config = BuildConfiguration {
            output_format: OutputFormat::RON,
            value_formatting: ValueFormatting::Debug,
        };
        assert_eq!(
            builder.build_first_wins(&config).unwrap(),
            "(segments_idx_begin:(1,5),segments_mem_idx_begin:(0,2),values:('a','c','e'))"
        );
    }
}

struct Unprintable;

impl std::fmt::Display for Unprintable {
    fn fmt(&self, _f: &mut std::fmt::Formatter<'_>) -> std::fmt::Result {
        Err(std::fmt::Error)
    }
}

impl std::fmt::Debug for Unprintable {
    fn fmt(&self, _f: &mut std::fmt::Formatter<'_>) -> std::fmt::Result {
        Err(std::fmt::Error)
    }
}

#[test]
fn builder_reports_formatting_failure() {
    let mut builder = NciArrayBuilder::new();
    builder.entry(3u16, Unprintable);
    let result = builder.build(&DEFAUTLT_BUILD_CONFIGURATION);
    assert!(matches!(result, Err(BuildError::Formatting)));
}

#[test]
fn decimal_text_writes_digits() {
    assert_eq!(decimal_text(0), "0");
    assert_eq!(decimal_text(7), "7");
    assert_eq!(decimal_text(305), "305");
    assert_eq!(decimal_text(usize::MAX), format!("{:?}", usize::MAX));
}

#[test]
fn builder_empty_first_wins() {
    let mut builder: NciArrayBuilder<u8, u8> = NciArrayBuilder::new();
    assert_eq!(
        builder.build_first_wins(&DEFAUTLT_BUILD_CONFIGURATION).unwrap(),
        "{\n\tsegments_idx_begin: &[\n\t],\n\tsegments_mem_idx_begin: &[\n\t],\n\tvalues: &[\n\t],\n}"
    );
}
