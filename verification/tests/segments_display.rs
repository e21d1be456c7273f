use difft_file_viewer::segments::{
    build_segments, expand_tabs_display, merge_segments, orig_index_to_display_col, prepare_display_line,
    remap_spans_for_tabs, Highlight, Segment, SegmentColor, Side, TextSpan, segments_buildable, expanded_len_fits,
    spans_remappable,
};
use difft_file_viewer::view::cell_displayable;

fn span(start: u32, end: u32, content: &str, highlight: Highlight, is_novel: bool) -> TextSpan {
    TextSpan { start, end, content: content.into(), highlight, is_novel }
}

#[test]
fn unchanged_string_uses_magenta() {
    let spans = vec![span(6, 18, "\"Does stuff.\"", Highlight::String, false)];
    let segments = build_segments("      \"Does stuff.\"", &spans, false, Side::Left);
    assert!(segments.iter().any(|s| s.color == SegmentColor::Magenta));
}

#[test]
fn novel_string_uses_side_color() {
    let spans = vec![span(11, 19, "\"hello!\"", Highlight::String, true)];
    let segments = build_segments("  (println \"hello!\")", &spans, true, Side::Left);
    assert!(segments.iter().any(|s| s.color == SegmentColor::Red && s.text.contains("hello")));
}

#[test]
fn expand_tabs_replaces_leading_indent() {
    assert_eq!(expand_tabs_display("\tif (x)"), "    if (x)");
    assert_eq!(expand_tabs_display("\t\treturn;"), "        return;");
}

#[test]
fn remap_spans_after_tab_expansion() {
    let line = "\tif x";
    let spans = vec![span(1, 3, "if", Highlight::Keyword, false)];
    let (display, remapped) = prepare_display_line(line, &spans);
    assert_eq!(display, "    if x");
    assert_eq!(remapped[0].start, 4);
    assert_eq!(remapped[0].end, 6);
    assert_eq!(remapped[0].content, "if");
}

#[test]
fn tabs_expand_to_next_stop() {
    assert_eq!(expand_tabs_display("ab\tc"), "ab  c");
    assert_eq!(expand_tabs_display("abcd\t"), "abcd    ");
    assert_eq!(orig_index_to_display_col("ab\tc", 3), 4);
    assert_eq!(orig_index_to_display_col("ab\tc", 99), 5);
    assert!(!expand_tabs_display("\t\tx\ty").contains('\t'));
}

#[test]
fn segments_cover_the_line_in_order() {
    let text = "let x = \"s\"; // c";
    let spans = vec![
        span(13, 17, "", Highlight::Comment, false),
        span(0, 3, "", Highlight::Keyword, false),
        span(8, 11, "", Highlight::String, false),
    ];
    let segments = build_segments(text, &spans, false, Side::Right);
    let joined: String = segments.iter().map(|s| s.text.as_str()).collect();
    assert_eq!(joined, text);
    assert_eq!(segments[0].text, "let");
    assert!(segments[0].bold);
    assert_eq!(segments[0].color, SegmentColor::White);
    assert_eq!(segments[1].text, " x = ");
    assert_eq!(segments[2].color, SegmentColor::Magenta);
    let last = segments.last().unwrap();
    assert_eq!(last.text, "// c");
    assert!(last.italic);
    assert_eq!(last.color, SegmentColor::Blue);
}

#[test]
fn novel_gaps_use_side_color_on_right() {
    let segments = build_segments("abc", &[], true, Side::Right);
    assert_eq!(segments.len(), 1);
    assert_eq!(segments[0].color, SegmentColor::Green);
    assert_eq!(segments[0].color.hex(), "#50fa7b");
    assert!(build_segments("", &[span(0, 1, "x", Highlight::Normal, true)], true, Side::Left).is_empty());
}

#[test]
fn type_and_error_colors() {
    let text = "Foo bar";
    let spans = vec![span(0, 3, "", Highlight::Type, false), span(4, 7, "", Highlight::TreeSitterError, false)];
    let segments = build_segments(text, &spans, false, Side::Left);
    assert_eq!(segments[0].color, SegmentColor::Yellow);
    assert!(segments[0].bold);
    assert_eq!(segments.last().unwrap().color, SegmentColor::Purple);
    assert_eq!(SegmentColor::Purple.hex(), "#bd93f9");
}

#[test]
fn merge_joins_equal_styles() {
    let seg = |t: &str, c: SegmentColor| Segment { text: t.into(), color: c, bold: false, italic: false };
    let merged = merge_segments(vec![
        seg("a", SegmentColor::White),
        seg("b", SegmentColor::White),
        seg("c", SegmentColor::Red),
        seg("d", SegmentColor::White),
    ]);
    assert_eq!(merged.len(), 3);
    assert_eq!(merged[0].text, "ab");
    assert_eq!(merged[1].text, "c");
    assert_eq!(merged[2].text, "d");
}

#[test]
fn remap_keeps_span_text_past_display_end() {
    let spans = vec![span(7, 9, "zz", Highlight::Normal, true)];
    let remapped = remap_spans_for_tabs("\tab", &spans);
    assert_eq!(remapped[0].start, 6);
    assert_eq!(remapped[0].content, "zz");
    assert!(remapped[0].is_novel);
}

#[test]
fn multibyte_text_is_cut_at_byte_offsets() {
    let text = "é = 1";
    let spans = vec![span(0, 2, "", Highlight::Normal, true)];
    let segments = build_segments(text, &spans, false, Side::Left);
    assert_eq!(segments[0].text, "é");
    assert_eq!(segments[0].color, SegmentColor::Red);
    assert_eq!(segments[1].text, " = 1");
}

#[test]
fn buildable_only_when_spans_cut_at_character_boundaries() {
    let ok = vec![span(0, 2, "", Highlight::Normal, false)];
    assert!(segments_buildable("éa", &ok));
    let inside = vec![span(1, 2, "", Highlight::Normal, false)];
    assert!(!segments_buildable("éa", &inside));
    assert!(segments_buildable("", &inside));
    assert!(segments_buildable("éa", &[]));
    // A span with its own text only needs the gap before it to fall on a boundary.
    let own_text = vec![span(1, 2, "x", Highlight::Normal, false)];
    assert!(!segments_buildable("éa", &own_text));
    let past_end = vec![span(9, 12, "", Highlight::Normal, false)];
    assert!(segments_buildable("abc", &past_end));
}

#[test]
fn tab_expansion_and_remapping_checks() {
    assert!(expanded_len_fits("\t\tx"));
    assert!(spans_remappable("\tif x", &[span(1, 3, "if", Highlight::Keyword, false)]));
    // Display columns are used as byte offsets: after a tab, a span ending inside `é` cannot be cut.
    assert!(!spans_remappable("\té", &[span(1, 2, "", Highlight::Normal, false)]));
    assert!(spans_remappable("\té", &[span(1, 1, "", Highlight::Normal, false)]));
}

#[test]
fn cells_and_rows_are_checked_before_display() {
    assert!(cell_displayable("\tif x", &[span(1, 3, "if", Highlight::Keyword, false)]));
    assert!(cell_displayable("plain", &[]));
    assert!(!cell_displayable("éa", &[span(1, 2, "", Highlight::Normal, false)]));
}
