use bundler_passes::dependency::DependencyRange;
use bundler_passes::location::{
    DependencyLocation, DependencyLocationAdvancer, SourcePosition,
};

#[test]
fn test_same_range_cache() {
    let mut cache = DependencyLocationAdvancer::new();
    let source = "import a from './a';\nimport b from './b';";
    let range = DependencyRange::new(0, 20);

    let loc1 = cache.compute_dependency_location(source, range);
    let loc2 = cache.compute_dependency_location(source, range);

    assert_eq!(loc1, loc2);
    assert!(loc1.is_some());
}

#[test]
fn test_incremental_calculation() {
    let mut cache = DependencyLocationAdvancer::new();
    let source = "import a from './a';\nimport b from './b';\nimport c from './c';";

    // First location
    let range1 = DependencyRange::new(0, 20);
    let loc1 = cache.compute_dependency_location(source, range1).unwrap();

    // Second location (after first, should use incremental calculation)
    let range2 = DependencyRange::new(21, 41);
    let loc2 = cache.compute_dependency_location(source, range2).unwrap();

    // Verify locations are correct
    {
        let DependencyLocation::Real(real1) = &loc1;
        assert_eq!(real1.start.line, 1);
    }
    {
        let DependencyLocation::Real(real2) = &loc2;
        assert_eq!(real2.start.line, 2);
    }
}

#[test]
fn test_fallback_to_full_calculation() {
    let mut cache = DependencyLocationAdvancer::new();
    let source = "import a from './a';\nimport b from './b';\nimport c from './c';";

    // First location
    let range1 = DependencyRange::new(21, 41);
    let loc1 = cache.compute_dependency_location(source, range1);

    // Second location (before first, should fallback to full calculation)
    let range2 = DependencyRange::new(0, 20);
    let loc2 = cache.compute_dependency_location(source, range2);

    // Both should be valid
    assert!(loc1.is_some());
    assert!(loc2.is_some());

    if let Some(DependencyLocation::Real(real1)) = &loc1 {
        assert_eq!(real1.start.line, 2);
    }
    if let Some(DependencyLocation::Real(real2)) = &loc2 {
        assert_eq!(real2.start.line, 1);
    }
}

#[test]
fn test_advance_pos_same_line() {
    let source = "hello world";
    let from_pos = SourcePosition { line: 1, column: 1 };

    // Advance from position 0 to 5 ("hello")
    let result = bundler_passes::location::advance_pos(source, 0, from_pos, 5);
    assert!(result.is_some());
    let pos = result.unwrap();
    assert_eq!(pos.line, 1);
    assert_eq!(pos.column, 6); // 1 + 5 UTF-16 units
}

#[test]
fn test_advance_pos_multiline() {
    let source = "hello\nworld";
    let from_pos = SourcePosition { line: 1, column: 6 };

    // Advance from position 5 (after "hello") to 11 (end of "world")
    let result = bundler_passes::location::advance_pos(source, 5, from_pos, 11);
    assert!(result.is_some());
    let pos = result.unwrap();
    assert_eq!(pos.line, 2);
    assert_eq!(pos.column, 6); // "world" = 5 UTF-16 units, column 6 (1-based)
}

#[test]
fn test_advance_pos_utf8_multibyte() {
    let source = "你好世界";
    let from_pos = SourcePosition { line: 1, column: 1 };

    // Advance from 0 to 6 bytes (first two characters "你好")
    let result = bundler_passes::location::advance_pos(source, 0, from_pos, 6);
    assert!(result.is_some());
    let pos = result.unwrap();
    assert_eq!(pos.line, 1);
    assert_eq!(pos.column, 3); // 1 + 2 UTF-16 units
}

#[test]
fn test_advance_pos_emoji() {
    let source = "hello😀world";
    let from_pos = SourcePosition { line: 1, column: 1 };

    // Advance from 0 to 9 bytes (includes emoji)
    let result = bundler_passes::location::advance_pos(source, 0, from_pos, 9);
    assert!(result.is_some());
    let pos = result.unwrap();
    assert_eq!(pos.line, 1);
    assert_eq!(pos.column, 8); // "hello" = 5, emoji = 2 UTF-16 units, so 7 (1-based)
}

#[test]
fn test_multiple_ranges() {
    let mut cache = DependencyLocationAdvancer::new();
    let source = "import a from './a';\nimport b from './b';\nimport c from './c';";

    // Test multiple ranges to ensure cache works correctly
    let ranges = vec![
        DependencyRange::new(0, 20),
        DependencyRange::new(21, 41),
        DependencyRange::new(42, 62),
    ];

    for range in ranges {
        let result = cache.compute_dependency_location(source, range);
        assert!(
            result.is_some(),
            "Should compute location for range {range:?}",
        );

        // Verify the result has correct structure
        if let Some(DependencyLocation::Real(real_loc)) = &result {
            assert!(real_loc.start.line > 0, "Line should be 1-based");
            assert!(real_loc.start.column > 0, "Column should be 1-based");
        }
    }
}

#[test]
fn test_empty_source() {
    let mut cache = DependencyLocationAdvancer::new();
    let source = "";
    let range = DependencyRange::new(0, 0);

    let result = cache.compute_dependency_location(source, range);
    assert!(result.is_some());
}

#[test]
fn test_single_line() {
    let mut cache = DependencyLocationAdvancer::new();
    let source = "single line";
    let range = DependencyRange::new(0, 11);

    let result = cache.compute_dependency_location(source, range).unwrap();
    let DependencyLocation::Real(real) = result;
    assert_eq!(real.start.line, 1);
    assert_eq!(real.end.as_ref().map(|e| e.line), Some(1));
}

#[test]
fn test_out_of_bounds_range() {
    let mut cache = DependencyLocationAdvancer::new();
    let source = "short";
    let range = DependencyRange::new(0, 100);

    assert_eq!(cache.compute_dependency_location(source, range), None);
}

#[test]
fn test_collapsed_range_has_no_end() {
    let mut cache = DependencyLocationAdvancer::new();
    let source = "abc";
    let range = DependencyRange::new(1, 1);

    let result = cache.compute_dependency_location(source, range).unwrap();
    let DependencyLocation::Real(real) = result;
    assert_eq!(real.start, SourcePosition { line: 1, column: 2 });
    assert_eq!(real.end, None);
}

#[test]
fn test_advance_pos_backwards_is_none() {
    let source = "hello";
    let from_pos = SourcePosition { line: 1, column: 3 };
    assert_eq!(bundler_passes::location::advance_pos(source, 3, from_pos, 1), None);
}

#[test]
fn test_column_counts_utf16_after_last_newline() {
    // The column restarts after the last newline crossed; the emoji counts
    // as two UTF-16 units.
    let source = "a\nb\n😀x";
    let from_pos = SourcePosition { line: 1, column: 1 };
    let result =
        bundler_passes::location::advance_pos(source, 0, from_pos, source.len()).unwrap();
    assert_eq!(result.line, 3);
    assert_eq!(result.column, 4); // emoji (2) + 'x' (1) + 1
}
