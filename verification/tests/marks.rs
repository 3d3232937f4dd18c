//! Overlapping marks.
use yu_editor::marks::{
    flatten, flatten_composed, Mark, StyleId, TextAttrs, TextRole, TextScript, TextStyle,
};
use yu_editor::offset::{ByteOffset, TextRange};

fn range(from: u64, to: u64) -> TextRange {
    TextRange::new(ByteOffset::new(from), ByteOffset::new(to)).expect("ordered")
}

fn mark(from: u64, to: u64, style: u32) -> Mark {
    Mark { range: range(from, to), style: StyleId { value: style }, priority: 0 }
}

fn flat(bounds: (u64, u64), marks: &[Mark]) -> Vec<(u64, u64, Option<u32>)> {
    flatten(range(bounds.0, bounds.1), marks)
        .into_iter()
        .map(|segment| {
            (
                segment.range.start().get(),
                segment.range.end().get(),
                segment.style.map(|style| style.value),
            )
        })
        .collect()
}

#[test]
fn the_output_tiles_the_whole_range() {
    assert_eq!(flat((0, 10), &[]), vec![(0, 10, None)]);
    assert_eq!(
        flat((0, 10), &[mark(3, 6, 1)]),
        vec![(0, 3, None), (3, 6, Some(1)), (6, 10, None)]
    );
}

#[test]
fn the_narrower_mark_wins_when_nested() {
    assert_eq!(
        flat((0, 10), &[mark(0, 10, 1), mark(3, 6, 2)]),
        vec![(0, 3, Some(1)), (3, 6, Some(2)), (6, 10, Some(1))]
    );
}

#[test]
fn priority_beats_width() {
    let wide = Mark { priority: 5, ..mark(0, 10, 1) };
    assert_eq!(flat((0, 10), &[wide, mark(3, 6, 2)]), vec![(0, 10, Some(1))]);
}

#[test]
fn ties_break_on_style_id_not_on_argument_order() {
    let forward = flat((0, 4), &[mark(0, 4, 7), mark(0, 4, 2)]);
    let backward = flat((0, 4), &[mark(0, 4, 2), mark(0, 4, 7)]);
    assert_eq!(forward, backward);
    assert_eq!(forward, vec![(0, 4, Some(2))]);
}

#[test]
fn touching_segments_with_the_same_style_merge() {
    assert_eq!(
        flat((0, 8), &[mark(0, 4, 1), mark(4, 8, 1)]),
        vec![(0, 8, Some(1))]
    );
}

#[test]
fn partial_overlap_splits_at_both_edges() {
    assert_eq!(
        flat((0, 12), &[mark(0, 8, 1), mark(4, 10, 2)]),
        vec![(0, 4, Some(1)), (4, 10, Some(2)), (10, 12, None)]
    );
}

#[test]
fn an_empty_range_yields_nothing() {
    assert_eq!(flat((5, 5), &[]), Vec::new());
}

#[test]
fn inherited_traits_split_a_continuous_link_at_outer_boundaries() {
    let styles = vec![
        TextAttrs::new(TextStyle::Plain).with_role(TextRole::Link),
        TextAttrs::new(TextStyle::Strong),
    ];
    let marks = [
        Mark { range: range(0, 6), style: StyleId { value: 0 }, priority: 0 },
        Mark { range: range(3, 6), style: StyleId { value: 1 }, priority: 0 },
    ];
    let mut forward = styles.clone();
    let result = flatten_composed(range(0, 6), &marks, &mut forward);
    assert_eq!(result.len(), 2);
    assert_eq!(result[0].range, range(0, 3));
    assert_eq!(result[1].range, range(3, 6));
    let attrs: Vec<_> = result
        .iter()
        .map(|segment| forward[segment.style.expect("style").value as usize])
        .collect();
    assert_eq!(attrs[0], styles[0]);
    assert_eq!(attrs[1], styles[1].with_role(TextRole::Link));
    let mut reverse = styles;
    let reversed = flatten_composed(range(0, 6), &[marks[1], marks[0]], &mut reverse);
    assert_eq!(result, reversed);
    assert_eq!(forward, reverse);
}

#[test]
fn explicit_priority_prevents_lower_priority_trait_leaks() {
    let mut styles = vec![TextAttrs::new(TextStyle::Strong), TextAttrs::new(TextStyle::Emphasis)];
    let marks = [
        Mark { range: range(0, 6), style: StyleId { value: 0 }, priority: 1 },
        Mark { range: range(2, 4), style: StyleId { value: 1 }, priority: 0 },
    ];
    let result = flatten_composed(range(0, 6), &marks, &mut styles);
    assert!(result.iter().all(|segment| {
        styles[segment.style.expect("style").value as usize].style == TextStyle::Strong
    }));
}

#[test]
fn traits_add_up_and_the_most_specific_script_wins() {
    let mut wide = TextAttrs::new(TextStyle::Emphasis);
    wide.highlighted = true;
    wide.script = TextScript::Superscript;
    wide.frame = 9;
    let mut narrow = TextAttrs::new(TextStyle::Strong);
    narrow.struck = true;
    narrow.script = TextScript::Subscript;
    let mut styles = vec![wide, narrow];
    let result = flatten_composed(range(0, 4), &[mark(0, 4, 0), mark(1, 2, 1)], &mut styles);
    assert_eq!(result.len(), 3);
    assert_eq!(result[0].style, Some(StyleId { value: 0 }));
    assert_eq!(result[1].style, Some(StyleId { value: 2 }));
    assert_eq!(result[2].style, Some(StyleId { value: 0 }));
    let made = styles[2];
    assert_eq!(made.style, TextStyle::StrongEmphasis);
    assert!(made.highlighted && made.struck && !made.underlined);
    assert_eq!(made.script, TextScript::Subscript);
    assert_eq!(made.frame, 0);
    assert_eq!(styles.len(), 3);
}

#[test]
fn a_style_outside_the_table_gives_no_style() {
    let mut styles = vec![TextAttrs::new(TextStyle::Plain)];
    let result = flatten_composed(range(0, 2), &[mark(0, 2, 4)], &mut styles);
    assert_eq!(result.len(), 1);
    assert_eq!(result[0].style, None);
    assert_eq!(styles.len(), 1);
    assert!(flatten_composed(range(3, 3), &[mark(0, 9, 0)], &mut styles).is_empty());
    assert_eq!(TextStyle::Strong.union(TextStyle::Emphasis), TextStyle::StrongEmphasis);
    assert_eq!(TextStyle::Plain.union(TextStyle::Plain), TextStyle::Plain);
}

#[test]
fn the_order_of_marks_makes_no_difference() {
    let marks = [mark(0, 8, 0), mark(2, 6, 1), mark(4, 10, 2), mark(2, 6, 0)];
    let mut turned = marks;
    turned.reverse();
    assert_eq!(flat((0, 12), &marks), flat((0, 12), &turned));
    let table = || {
        vec![
            TextAttrs::new(TextStyle::Strong),
            TextAttrs::new(TextStyle::Emphasis),
            TextAttrs::new(TextStyle::Plain),
        ]
    };
    let (mut here, mut there) = (table(), table());
    let first = flatten_composed(range(0, 12), &marks, &mut here);
    let second = flatten_composed(range(0, 12), &turned, &mut there);
    assert_eq!(first, second);
    assert_eq!(here, there);
    assert_eq!(here[..3], table()[..]);
    assert!(first.iter().all(|segment| {
        segment.style.is_none() == (segment.range.start().get() >= 10)
    }));
    for (index, entry) in here.iter().enumerate().skip(3) {
        assert!(!here[..index].contains(entry));
    }
}
