use markdown_math::math::{EventSpan, MathMarkdown, Piece};
use markdown_math::scan::{escaped, ByteRange};

fn spans(m: &MathMarkdown) -> Vec<(usize, usize, String)> {
    m.replacements
        .iter()
        .map(|r| (r.span.start, r.span.end, r.text.clone()))
        .collect()
}

#[test]
fn replaces_inline_dollar_math() {
    let m = MathMarkdown::new("Area $x^2$.", 0);
    assert_eq!(spans(&m), vec![(5, 10, "x²".to_string())]);
    assert_eq!(m.markdown, "Area $$$$$.");
    assert!(m.display_ranges.is_empty());
}

#[test]
fn replaces_inline_paren_math() {
    let m = MathMarkdown::new("\\(a^2\\)", 0);
    assert_eq!(spans(&m), vec![(0, 7, "a²".to_string())]);
    assert_eq!(m.markdown, "$$$$$$$");
}

#[test]
fn restores_unsupported_math_verbatim() {
    let m = MathMarkdown::new("Euler: $e^{i\\pi}$ done", 0);
    assert_eq!(spans(&m), vec![(7, 17, "$e^{i\\pi}$".to_string())]);
    assert_eq!(m.markdown, "Euler: $$$$$$$$$$ done");
}

#[test]
fn leaves_money_and_capitals_alone() {
    let m = MathMarkdown::new("Cost $5 and $10", 0);
    assert!(m.replacements.is_empty());
    assert_eq!(m.markdown, "Cost $5 and $10");
    let m = MathMarkdown::new("$ABC$ and $5$", 0);
    assert!(m.replacements.is_empty());
}

#[test]
fn requires_tight_dollars() {
    assert!(MathMarkdown::new("$ x$", 0).replacements.is_empty());
    assert!(MathMarkdown::new("$x $", 0).replacements.is_empty());
    assert!(MathMarkdown::new("$x$y", 0).replacements.is_empty());
    assert!(MathMarkdown::new("$(x)$", 0).replacements.is_empty());
    assert!(MathMarkdown::new("$x\ny$", 0).replacements.is_empty());
}

#[test]
fn skips_escaped_dollars() {
    let m = MathMarkdown::new("\\$x$", 0);
    assert!(m.replacements.is_empty());
    let m = MathMarkdown::new("\\\\$x$", 0);
    assert_eq!(spans(&m), vec![(2, 5, "x".to_string())]);
}

#[test]
fn skips_math_in_code_and_links() {
    let m = MathMarkdown::new("`$x$` and $y$", 0);
    assert_eq!(spans(&m), vec![(10, 13, "y".to_string())]);
    let m = MathMarkdown::new("[see $x$](http://example.com)", 0);
    assert!(m.replacements.is_empty());
    let m = MathMarkdown::new("<span title=\"$x$\">a</span>", 0);
    assert!(m.replacements.is_empty());
}

#[test]
fn skips_math_in_reference_definitions() {
    let text = "[r]: http://example.com/$a$\n\nSee [r].";
    let m = MathMarkdown::new(text, 0);
    assert!(m.replacements.is_empty());
    assert_eq!(m.markdown, text);
}

#[test]
fn records_display_equations() {
    let text = "$$\nx^2\n$$";
    let m = MathMarkdown::new(text, 0);
    assert_eq!(m.display_ranges, vec![ByteRange { start: 0, end: text.len() }]);
    assert!(m.replacements.is_empty());
    let m = MathMarkdown::new("\\[a\\] then $b$", 0);
    assert_eq!(m.display_ranges, vec![ByteRange { start: 0, end: 5 }]);
    assert_eq!(spans(&m), vec![(11, 14, "b".to_string())]);
}

#[test]
fn unfinished_display_equation_runs_to_the_end() {
    let m = MathMarkdown::new("$$ x and $y$", 0);
    assert_eq!(m.display_ranges, vec![ByteRange { start: 0, end: 12 }]);
    assert!(m.replacements.is_empty());
}

#[test]
fn unfinished_double_dollar_after_text_is_not_display() {
    let m = MathMarkdown::new("pay $$5", 0);
    assert!(m.display_ranges.is_empty());
    assert!(m.replacements.is_empty());
}

#[test]
fn text_without_math_comes_back_unchanged() {
    let m = MathMarkdown::new("plain *text* with `code`", 0);
    assert_eq!(m.markdown, "plain *text* with `code`");
    assert!(m.replacements.is_empty());
    assert!(m.display_ranges.is_empty());
}

#[test]
fn masking_keeps_offsets_of_multibyte_text() {
    let text = "é $\\alpha$ ü";
    let m = MathMarkdown::new(text, 0);
    assert_eq!(m.markdown.len(), text.len());
    assert_eq!(spans(&m), vec![(3, 11, "α".to_string())]);
    assert_eq!(m.markdown, "é $$$$$$$$ ü");
}

#[test]
fn scan_uses_the_given_protected_ranges() {
    let text = "$a$ $b$";
    let m = MathMarkdown::scan(text, &vec![ByteRange { start: 0, end: 3 }]);
    assert_eq!(spans(&m), vec![(4, 7, "b".to_string())]);
}

#[test]
fn events_put_rendered_math_into_text() {
    let m = MathMarkdown::new("Area $x^2$.", 0);
    let events = vec![
        EventSpan { is_text: false, range: ByteRange { start: 0, end: 11 } },
        EventSpan { is_text: true, range: ByteRange { start: 0, end: 11 } },
        EventSpan { is_text: false, range: ByteRange { start: 0, end: 11 } },
    ];
    assert_eq!(
        m.events(&events),
        vec![
            Piece::Event(0),
            Piece::Source(ByteRange { start: 0, end: 5 }),
            Piece::Formula(0),
            Piece::Source(ByteRange { start: 10, end: 11 }),
            Piece::Event(2),
        ]
    );
}

#[test]
fn events_without_math_pass_unchanged() {
    let m = MathMarkdown::new("Area $x^2$.", 0);
    let events = vec![
        EventSpan { is_text: true, range: ByteRange { start: 0, end: 4 } },
        EventSpan { is_text: true, range: ByteRange { start: 11, end: 11 } },
    ];
    assert_eq!(m.events(&events), vec![Piece::Event(0), Piece::Event(1)]);
}

#[test]
fn detects_escaping_backslashes() {
    assert!(escaped("a\\$", 2));
    assert!(!escaped("a\\\\$", 3));
    assert!(!escaped("$", 0));
}

#[test]
fn inline_formulas_stay_within_the_byte_budget() {
    let short = format!("${}$", "x".repeat(4095));
    let m = MathMarkdown::new(&short, 0);
    assert_eq!(spans(&m), vec![(0, 4097, short.clone())]);
    let long = format!("${}$", "x".repeat(4096));
    let m = MathMarkdown::new(&long, 0);
    assert!(m.replacements.is_empty());
    assert_eq!(m.markdown, long);
}

#[test]
fn display_closers_are_found_beyond_the_budget() {
    let text = format!("$${}$$ and $x$", "y".repeat(5000));
    let m = MathMarkdown::new(&text, 0);
    assert_eq!(m.display_ranges, vec![ByteRange { start: 0, end: 5004 }]);
    assert_eq!(spans(&m), vec![(5009, 5012, "x".to_string())]);
}

#[test]
fn non_text_events_pass_once_in_order() {
    let m = MathMarkdown::new("Area $x^2$.", 0);
    let events = vec![
        EventSpan { is_text: false, range: ByteRange { start: 0, end: 11 } },
        EventSpan { is_text: true, range: ByteRange { start: 0, end: 11 } },
        EventSpan { is_text: false, range: ByteRange { start: 5, end: 10 } },
    ];
    assert_eq!(
        m.events(&events),
        vec![
            Piece::Event(0),
            Piece::Source(ByteRange { start: 0, end: 5 }),
            Piece::Formula(0),
            Piece::Source(ByteRange { start: 10, end: 11 }),
            Piece::Event(2),
        ]
    );
}

#[test]
fn events_pass_whole_without_replacements() {
    let m = MathMarkdown::new("no math here", 0);
    let events = vec![
        EventSpan { is_text: false, range: ByteRange { start: 0, end: 12 } },
        EventSpan { is_text: true, range: ByteRange { start: 0, end: 12 } },
    ];
    assert_eq!(m.events(&events), vec![Piece::Event(0), Piece::Event(1)]);
}
