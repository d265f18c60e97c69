use lymals::folding::structure::{FoldingRange, FoldingRangeKind};
use lymals::folding::{collect, FoldingRangesRequest};
use lymals::syntax::FileId;

fn ranges(text: &str) -> Vec<(u32, u32, FoldingRangeKind)> {
    let found = collect(FoldingRangesRequest { uri: "file:///workspace/main.luma", text, file_id: FileId(0) })
        .expect("folding ranges");
    found.into_iter().map(|r: FoldingRange| (r.start_line, r.end_line, r.kind)).collect()
}

#[test]
fn comments_blocks_and_sequences_fold_in_order() {
    let text = "# a\n# b\nroot:\n  child: 1\n  other: 2\nlist:\n  - x\n  - y\n";
    assert_eq!(
        ranges(text),
        vec![
            (0, 1, FoldingRangeKind::Comment),
            (0, 1, FoldingRangeKind::Region),
            (2, 4, FoldingRangeKind::Region),
            (5, 7, FoldingRangeKind::Region),
            (6, 7, FoldingRangeKind::Region),
        ]
    );
}

#[test]
fn lua_fences_fold_to_their_closing_line() {
    assert_eq!(ranges("script: ```lua\nprint(1)\n```\nafter: 1\n"), vec![(0, 2, FoldingRangeKind::Region)]);
}

#[test]
fn lua_braces_fold_to_the_closing_brace() {
    assert_eq!(ranges("run: lua{\n  x = 1\n}\n"), vec![(0, 2, FoldingRangeKind::Region)]);
}

#[test]
fn single_lines_do_not_fold() {
    assert_eq!(ranges("key: value\n"), Vec::new());
    assert_eq!(ranges(""), Vec::new());
}

#[test]
fn trailing_blank_lines_stay_outside_blocks() {
    assert_eq!(ranges("root:\n  a: 1\n\n\nnext: 2\n"), vec![(0, 1, FoldingRangeKind::Region)]);
}

#[test]
fn folding_ranges_come_by_start_then_longest() {
    let text = "# a\n# b\nroot:\n  child:\n    x: 1\n    y: 2\nlist:\n  - x\n  - y\n";
    let found = ranges(text);
    for pair in found.windows(2) {
        let (a, b) = (pair[0], pair[1]);
        assert!(a.0 < b.0 || (a.0 == b.0 && a.1 >= b.1));
    }
}
