use csslsrs::colors::{Color, ColorInformation};
use csslsrs::line_index::{Position, PositionEncoding, Range};
use csslsrs::presentation::PresentationColor;
use csslsrs::service::LanguageService;
use csslsrs::store::TextDocumentItem;

#[test]
fn test_hex_color() {
    let mut ls = LanguageService::default();

    assert_color_symbols(
        &mut ls,
        "body { backgroundColor: #ff9977; }",
        vec![ColorInformation {
            color: csscolorparser::parse("#ff9977")
                .map(convert_parsed_color)
                .unwrap(),
            range: Range {
                start: Position {
                    line: 0,
                    character: 24,
                },
                end: Position {
                    line: 0,
                    character: 31,
                },
            },
        }],
    );
}

#[test]
fn test_hsl_color() {
    let mut ls = LanguageService::default();

    assert_color_symbols(
        &mut ls,
        "body { backgroundColor: hsl(0, 0%, 100%); }",
        vec![ColorInformation {
            color: csscolorparser::parse("hsl(0, 0%, 100%)")
                .map(convert_parsed_color)
                .unwrap(),
            range: Range {
                start: Position {
                    line: 0,
                    character: 24,
                },
                end: Position {
                    line: 0,
                    character: 40,
                },
            },
        }],
    );
}

#[test]
fn test_rgb_and_hsl_colors() {
    let mut ls = LanguageService::default();

    assert_color_symbols(
        &mut ls,
        ".oo { color: rgb(1,40,1); borderColor: hsl(120, 75%, 85%) }",
        vec![
            ColorInformation {
                color: csscolorparser::parse("rgb(1,40,1)")
                    .map(convert_parsed_color)
                    .unwrap(),
                range: Range {
                    start: Position {
                        line: 0,
                        character: 13,
                    },
                    end: Position {
                        line: 0,
                        character: 24,
                    },
                },
            },
            ColorInformation {
                color: csscolorparser::parse("hsl(120, 75%, 85%)")
                    .map(convert_parsed_color)
                    .unwrap(),
                range: Range {
                    start: Position {
                        line: 0,
                        character: 39,
                    },
                    end: Position {
                        line: 0,
                        character: 58,
                    },
                },
            },
        ],
    );
}

#[test]
fn test_rgba_color() {
    let mut ls = LanguageService::default();

    assert_color_symbols(
        &mut ls,
        "body { backgroundColor: rgba(1, 40, 1, 0.3); }",
        vec![ColorInformation {
            color: csscolorparser::parse("rgba(1, 40, 1, 0.3)")
                .map(convert_parsed_color)
                .unwrap(),
            range: Range {
                start: Position {
                    line: 0,
                    character: 24,
                },
                end: Position {
                    line: 0,
                    character: 43,
                },
            },
        }],
    );
}

#[test]
fn test_hwb_color() {
    let mut ls = LanguageService::default();

    assert_color_symbols(
        &mut ls,
        "body { backgroundColor: hwb(194 0% 0% / .5); }",
        vec![ColorInformation {
            color: csscolorparser::parse("hwb(194 0% 0% / .5)")
                .map(convert_parsed_color)
                .unwrap(),
            range: Range {
                start: Position {
                    line: 0,
                    character: 24,
                },
                end: Position {
                    line: 0,
                    character: 43,
                },
            },
        }],
    );
}

#[test]
fn test_named_color() {
    let mut ls = LanguageService::default();

    assert_color_symbols(
        &mut ls,
        "body { backgroundColor: red; }",
        vec![ColorInformation {
            color: csscolorparser::parse("red")
                .map(convert_parsed_color)
                .unwrap(),
            range: Range {
                start: Position {
                    line: 0,
                    character: 24,
                },
                end: Position {
                    line: 0,
                    character: 27,
                },
            },
        }],
    );
}

#[test]
fn test_functions_color() {
    let mut ls = LanguageService::default();

    assert_color_symbols(
        &mut ls,
        "body { color: linear-gradient(to right, red, blue); }",
        vec![
            ColorInformation {
                color: csscolorparser::parse("red")
                    .map(convert_parsed_color)
                    .unwrap(),
                range: Range {
                    start: Position {
                        line: 0,
                        character: 40,
                    },
                    end: Position {
                        line: 0,
                        character: 43,
                    },
                },
            },
            ColorInformation {
                color: csscolorparser::parse("blue")
                    .map(convert_parsed_color)
                    .unwrap(),
                range: Range {
                    start: Position {
                        line: 0,
                        character: 45,
                    },
                    end: Position {
                        line: 0,
                        character: 49,
                    },
                },
            },
        ],
    );
}

#[test]
fn test_color_presentations() {
    let ls = LanguageService::default();

    assert_color_presentations(
        &ls,
        ColorInformation {
            color: csscolorparser::parse("rgb(255, 0, 0)")
                .map(convert_parsed_color)
                .unwrap(),
            range: Range {
                start: Position {
                    line: 0,
                    character: 0,
                },
                end: Position {
                    line: 0,
                    character: 0,
                },
            },
        },
        vec!["rgb(255 0 0)", "#ff0000", "hsl(0 100% 50%)", "hwb(0 0% 0%)"],
    );

    assert_color_presentations(
        &ls,
        ColorInformation {
            color: csscolorparser::parse("rgba(77, 33, 111, 0.5)")
                .map(convert_parsed_color)
                .unwrap(),
            range: Range {
                start: Position {
                    line: 0,
                    character: 0,
                },
                end: Position {
                    line: 0,
                    character: 0,
                },
            },
        },
        vec![
            "rgb(77 33 111 / 50%)",
            "#4d216f80",
            "hsl(274 54% 28% / 50%)",
            "hwb(274 13% 56% / 50%)",
        ],
    );
}

#[test]
fn named_color_in_a_rule_is_found_at_its_token() {
    let mut ls = LanguageService::default();

    let colors = document_colors(&mut ls, "h1 { color: red; }\n");
    assert_eq!(
        colors,
        vec![ColorInformation {
            color: convert_parsed_color(csscolorparser::Color::new(1.0, 0.0, 0.0, 1.0)),
            range: Range {
                start: Position { line: 0, character: 12 },
                end: Position { line: 0, character: 15 },
            },
        }]
    );
}

#[test]
fn colors_come_one_per_token_in_source_order() {
    let mut ls = LanguageService::default();

    let colors = document_colors(
        &mut ls,
        "a { color: red; background: #00ff00; border-color: rgb(0 0 255) }",
    );
    let spans: Vec<(usize, usize)> = colors
        .iter()
        .map(|c| (c.range.start.character, c.range.end.character))
        .collect();
    assert_eq!(spans, vec![(11, 14), (28, 35), (51, 64)]);
    assert_eq!(colors[0].color, convert_parsed_color(csscolorparser::parse("red").unwrap()));
    assert_eq!(colors[1].color, convert_parsed_color(csscolorparser::parse("#00ff00").unwrap()));
    assert_eq!(colors[2].color, convert_parsed_color(csscolorparser::parse("rgb(0 0 255)").unwrap()));
}

#[test]
fn colors_skip_unknown_names_and_malformed_values() {
    let mut ls = LanguageService::default();

    let colors = document_colors(&mut ls, "a { color: notacolor; b: #zzz; c: rgb(1 2); d: foo(1) }");
    assert!(colors.is_empty());
}

#[test]
fn color_text_with_non_ascii_characters_gives_no_color() {
    let mut ls = LanguageService::default();

    let colors = document_colors(&mut ls, "a { color: hsl(é12 50% 50%); }");
    assert!(colors.is_empty());
}

#[test]
fn named_colors_are_looked_up_by_exact_name() {
    let mut ls = LanguageService::default();

    let colors = document_colors(&mut ls, "a { color: Red; }");
    assert!(colors.is_empty());
    let mut ls = LanguageService::default();
    let colors = document_colors(&mut ls, "b { color: rebeccapurple; }");
    assert_eq!(colors.len(), 1);
    assert_eq!(
        colors[0].color,
        convert_parsed_color(csscolorparser::Color::from_rgba8(102, 51, 153, 255))
    );
}

#[test]
fn color_columns_follow_the_session_encoding() {
    let text = "a { content: \"é😀\"; color: blue; }";
    for (encoding, start, end) in [
        (PositionEncoding::Utf16, 27, 31),
        (PositionEncoding::Utf32, 26, 30),
        (PositionEncoding::Utf8, 30, 34),
    ] {
        let mut ls = LanguageService::new(encoding);
        let colors = document_colors(&mut ls, text);
        assert_eq!(colors.len(), 1);
        assert_eq!(
            colors[0].range,
            Range {
                start: Position { line: 0, character: start },
                end: Position { line: 0, character: end },
            }
        );
    }
}

#[test]
fn colors_on_later_lines_get_their_line() {
    let mut ls = LanguageService::default();

    let colors = document_colors(&mut ls, "a {\n  color: blue;\n}\n");
    assert_eq!(colors.len(), 1);
    assert_eq!(
        colors[0].range,
        Range {
            start: Position { line: 1, character: 9 },
            end: Position { line: 1, character: 13 },
        }
    );
}

#[test]
fn presentation_with_alpha_rounds_the_percent() {
    let ls = LanguageService::default();
    let range = Range {
        start: Position { line: 1, character: 2 },
        end: Position { line: 1, character: 9 },
    };
    let color = PresentationColor {
        red: 1,
        green: 2,
        blue: 3,
        alpha: 77,
        hue: 210,
        saturation: 50,
        lightness: 1,
        whiteness: 0,
        blackness: 99,
    };
    let presentations = ls.get_color_presentations(color, range);
    let texts: Vec<&str> = presentations.iter().map(|p| p.label.as_str()).collect();
    assert_eq!(
        texts,
        vec!["rgb(1 2 3 / 30%)", "#0102034d", "hsl(210 50% 1% / 30%)", "hwb(210 0% 99% / 30%)"]
    );
    for p in &presentations {
        assert_eq!(p.text_edit.range, range);
        assert_eq!(p.text_edit.new_text, p.label);
    }
}

#[test]
fn hex_presentation_reads_back_as_the_same_color() {
    let ls = LanguageService::default();
    let range = Range {
        start: Position { line: 0, character: 0 },
        end: Position { line: 0, character: 0 },
    };
    for (r, g, b, a) in [(0u8, 0u8, 0u8, 255u8), (77, 33, 111, 128), (255, 254, 1, 0), (18, 52, 86, 120)] {
        let color = csscolorparser::Color::from_rgba8(r, g, b, a);
        let presentations = ls.get_color_presentations(presentation_color(&color), range);
        let parsed = csscolorparser::parse(&presentations[1].label).unwrap();
        assert_eq!(parsed.to_rgba8(), [r, g, b, a]);
    }
}

fn document_colors(ls: &mut LanguageService, text: &str) -> Vec<ColorInformation> {
    ls.get_document_colors(TextDocumentItem {
        uri: "file:///test.css".to_string(),
        language_id: "css".to_string(),
        version: 1,
        text: text.to_string(),
    })
}

fn convert_parsed_color(color: csscolorparser::Color) -> Color {
    Color {
        red: color.r.to_bits(),
        green: color.g.to_bits(),
        blue: color.b.to_bits(),
        alpha: color.a.to_bits(),
    }
}

fn presentation_color(color: &csscolorparser::Color) -> PresentationColor {
    let rounded = csscolorparser::Color::from_rgba8(
        (color.r * 255.0).round() as u8,
        (color.g * 255.0).round() as u8,
        (color.b * 255.0).round() as u8,
        (color.a * 255.0).round() as u8,
    );
    let [red, green, blue, alpha] = rounded.to_rgba8();
    let hsl = rounded.to_hsla();
    let hwb = rounded.to_hwba();
    PresentationColor {
        red,
        green,
        blue,
        alpha,
        hue: hsl[0].round() as u32,
        saturation: (hsl[1] * 100.0).round() as u32,
        lightness: (hsl[2] * 100.0).round() as u32,
        whiteness: (hwb[1] * 100.0).round() as u32,
        blackness: (hwb[2] * 100.0).round() as u32,
    }
}

fn assert_color_presentations(
    ls: &LanguageService,
    color: ColorInformation,
    expected_presentations_texts: Vec<&str>,
) {
    let range = color.range;
    let c = color.color;
    let parsed = csscolorparser::Color::new(
        f32::from_bits(c.red),
        f32::from_bits(c.green),
        f32::from_bits(c.blue),
        f32::from_bits(c.alpha),
    );
    let presentations = ls.get_color_presentations(presentation_color(&parsed), range);

    assert_eq!(
        presentations.len(),
        expected_presentations_texts.len(),
        "Unexpected number of color presentations"
    );

    for (presentation, expected_text) in presentations
        .iter()
        .zip(expected_presentations_texts.iter())
    {
        assert_eq!(
            presentation.label, *expected_text,
            "Unexpected color presentation text"
        );
        assert_eq!(
            presentation.text_edit.new_text, *expected_text,
            "Unexpected color presentation text edit"
        );
        assert!(presentation.text_edit.range == range);
    }
}

fn assert_color_symbols(
    ls: &mut LanguageService,
    text: &str,
    expected_colors: Vec<ColorInformation>,
) {
    let colors = document_colors(ls, text);

    assert_eq!(
        colors.len(),
        expected_colors.len(),
        "Unexpected number of colors"
    );

    for (color, expected) in colors.iter().zip(expected_colors.iter()) {
        assert_eq!(color, expected, "Unexpected color information");
    }
}
