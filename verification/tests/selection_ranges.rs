use lymals::position::{Position, Range};
use lymals::selection_ranges::{collect, SelectionRangesRequest};
use lymals::syntax::FileId;

fn ranges(text: &str, positions: &[Position]) -> Option<Vec<Vec<Range>>> {
    collect(SelectionRangesRequest { uri: "file:///workspace/main.luma", text, file_id: FileId(0), positions })
}

fn r(l1: u32, c1: u32, l2: u32, c2: u32) -> Range {
    Range { start: Position { line: l1, character: c1 }, end: Position { line: l2, character: c2 } }
}

#[test]
fn value_grows_to_its_pair_block_and_file() {
    let text = "root:\n  child: one\n  other: two\n";
    let all = ranges(text, &[Position { line: 1, character: 10 }]).expect("ranges");
    assert_eq!(all.len(), 1);
    let chain = &all[0];
    assert_eq!(chain[0], r(1, 9, 1, 12));
    assert!(chain.contains(&r(1, 0, 1, 12)));
    assert!(chain.contains(&r(0, 0, 2, 12)));
    assert_eq!(*chain.last().unwrap(), r(0, 0, 3, 0));
    for pair in chain.windows(2) {
        assert_ne!(pair[0], pair[1]);
    }
}

#[test]
fn comment_lines_select_the_whole_line() {
    let text = "# note\nkey: 1\n";
    let all = ranges(text, &[Position { line: 0, character: 3 }]).expect("ranges");
    assert!(all[0].contains(&r(0, 0, 0, 6)));
}

#[test]
fn positions_outside_the_text_give_nothing() {
    assert!(ranges("key: 1\n", &[Position { line: 0, character: 40 }]).is_none());
}

#[test]
fn one_chain_per_position() {
    let text = "a: 1\nb: 2\n";
    let all = ranges(text, &[Position { line: 0, character: 0 }, Position { line: 1, character: 3 }]).expect("ranges");
    assert_eq!(all.len(), 2);
    assert!(all[0].contains(&r(0, 0, 0, 1)));
    assert!(all[1].contains(&r(1, 3, 1, 4)));
}
