use csslsrs::folding::{compute_folding_ranges, FoldingRange, FoldingRangeKind};
use csslsrs::line_index::LineIndex;
use csslsrs::service::LanguageService;
use csslsrs::store::TextDocumentItem;

fn folds(text: &str) -> Vec<FoldingRange> {
    let index = LineIndex::new(text);
    compute_folding_ranges(text, &index)
}

fn range(start_line: usize, end_line: usize, kind: Option<FoldingRangeKind>) -> FoldingRange {
    FoldingRange { start_line, end_line, kind }
}

#[test]
fn block_spanning_three_lines_folds() {
    assert_eq!(folds("body {\n  margin: 0;\n}\n"), vec![range(0, 2, None)]);
}

#[test]
fn region_folds_and_single_line_block_does_not() {
    assert_eq!(
        folds("/* #region A */\n.x {}\n/* #endregion */\n"),
        vec![range(0, 2, Some(FoldingRangeKind::Region))]
    );
}

#[test]
fn unterminated_block_folds_to_last_line() {
    assert_eq!(folds("body {\n  margin: 0;\n"), vec![range(0, 1, None)]);
}

#[test]
fn unterminated_block_without_final_line_feed() {
    assert_eq!(folds("body {\n  margin: 0;"), vec![range(0, 1, None)]);
}

#[test]
fn text_without_markers_has_no_folds() {
    assert!(folds("").is_empty());
    assert!(folds("body\n  margin 0;\n\n").is_empty());
    assert!(folds("a / b * c\n*\n/\n").is_empty());
}

#[test]
fn single_line_constructs_do_not_fold() {
    assert!(folds("a { b: c; } /* note */ d { }\n").is_empty());
    assert!(folds("x {}\n/* one */\ny { z: 1 }").is_empty());
    assert!(folds("/* #region */ a { } /* #endregion */").is_empty());
}

#[test]
fn nested_constructs_fold_once_each() {
    let text = "a {\n  /* x\n  y */\n  b {\n    c: d;\n  }\n}\n";
    assert_eq!(
        folds(text),
        vec![
            range(1, 2, Some(FoldingRangeKind::Comment)),
            range(3, 5, None),
            range(0, 6, None),
        ]
    );
}

#[test]
fn nested_regions_fold_innermost_first() {
    let text = "/* #region outer */\n/* #region inner */\na\n/* #endregion */\nb\n/* #endregion */\n";
    assert_eq!(
        folds(text),
        vec![
            range(1, 3, Some(FoldingRangeKind::Region)),
            range(0, 5, Some(FoldingRangeKind::Region)),
        ]
    );
}

#[test]
fn each_unterminated_construct_gives_one_trailing_range() {
    assert_eq!(
        folds("a {\n/* open\nb {\n"),
        vec![range(0, 2, None), range(1, 2, Some(FoldingRangeKind::Comment))]
    );
    assert_eq!(
        folds("/* #region */\na\nb"),
        vec![range(0, 2, Some(FoldingRangeKind::Region))]
    );
    assert!(folds("a\nb {").is_empty());
}

#[test]
fn region_marker_among_prose_opens_a_region() {
    let text = "/* Header styles #region for the page */\nh1 {}\n/* done: #endregion */\n";
    assert_eq!(folds(text), vec![range(0, 2, Some(FoldingRangeKind::Region))]);
}

#[test]
fn endregion_without_region_is_ignored() {
    assert_eq!(folds("/* #endregion */\na {\n}"), vec![range(1, 2, None)]);
}

#[test]
fn multi_line_comment_folds_as_comment() {
    assert_eq!(folds("/*\n a\n*/"), vec![range(0, 2, Some(FoldingRangeKind::Comment))]);
}

#[test]
fn equal_spans_are_not_merged() {
    let text = "/* #region */ a {\nb\n/* #endregion */ }\n";
    assert_eq!(
        folds(text),
        vec![range(0, 2, Some(FoldingRangeKind::Region)), range(0, 2, None)]
    );
}

#[test]
fn service_folds_the_cached_document() {
    let mut ls = LanguageService::default();
    let document = TextDocumentItem {
        uri: "file:///a.css".to_string(),
        language_id: "css".to_string(),
        version: 1,
        text: "body {\n  margin: 0;\n}\n".to_string(),
    };
    assert_eq!(ls.get_folding_ranges(document), vec![range(0, 2, None)]);
}

#[test]
fn balanced_blocks_fold_once_per_closing_brace() {
    let text = "a {\n  b {\n  }\n  c {\n    d\n  }\n}\n";
    assert_eq!(
        folds(text),
        vec![range(1, 2, None), range(3, 5, None), range(0, 6, None)]
    );
}
