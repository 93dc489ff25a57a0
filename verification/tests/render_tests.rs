use markdown_math::render::{render, MathParser};
use markdown_math::tables::symbol;

#[test]
fn renders_greek_letters_and_scripts() {
    assert_eq!(render("\\alpha^2 + x_1").as_deref(), Some("α² + x₁"));
}

#[test]
fn renders_fractions_and_roots() {
    assert_eq!(render("\\frac{a}{b}").as_deref(), Some("((a)/(b))"));
    assert_eq!(render("\\dfrac a b").as_deref(), Some("((a)/(b))"));
    assert_eq!(render("\\sqrt{x}").as_deref(), Some("√(x)"));
}

#[test]
fn refuses_root_with_index() {
    assert_eq!(render("\\sqrt[3]{x}"), None);
}

#[test]
fn renders_blackboard_letters() {
    assert_eq!(render("\\mathbb{R}").as_deref(), Some("ℝ"));
    assert_eq!(render("\\mathbb{A}"), None);
}

#[test]
fn keeps_text_commands_verbatim() {
    assert_eq!(render("\\text{if } x").as_deref(), Some("if  x"));
    assert_eq!(render("\\operatorname{rank} A").as_deref(), Some("rank A"));
    assert_eq!(render("\\text{a$b}"), None);
    assert_eq!(render("\\text{open"), None);
}

#[test]
fn renders_groups_as_script_arguments() {
    assert_eq!(render("x^{2}").as_deref(), Some("x²"));
    assert_eq!(render("x_{ij}").as_deref(), Some("xᵢⱼ"));
}

#[test]
fn refuses_doubled_or_baseless_scripts() {
    assert_eq!(render("x^2^3"), None);
    assert_eq!(render("x_1_2"), None);
    assert_eq!(render("^2"), None);
    assert_eq!(render("x^_2"), None);
}

#[test]
fn allows_one_superscript_and_one_subscript() {
    assert_eq!(render("x_1^2").as_deref(), Some("x₁²"));
}

#[test]
fn refuses_unknown_commands_and_stray_characters() {
    assert_eq!(render("\\unknown"), None);
    assert_eq!(render("a}"), None);
    assert_eq!(render("a & b"), None);
    assert_eq!(render("x^q"), None);
}

#[test]
fn refuses_blank_formulas() {
    assert_eq!(render("   "), None);
    assert_eq!(render(""), None);
    assert_eq!(render("\\!"), None);
}

#[test]
fn renders_delimiters_and_spacing_commands() {
    assert_eq!(render("\\left( x \\right)").as_deref(), Some("( x )"));
    assert_eq!(render("\\left. x \\right|").as_deref(), Some(" x |"));
    assert_eq!(render("a\\quad b").as_deref(), Some("a  b"));
    assert_eq!(render("a\\,b").as_deref(), Some("a b"));
    assert_eq!(render("\\{a\\}").as_deref(), Some("{a}"));
    assert_eq!(render("\\|v\\|").as_deref(), Some("‖v‖"));
}

#[test]
fn renders_operator_names() {
    assert_eq!(render("\\sin x").as_deref(), Some("sin x"));
    assert_eq!(render("\\lim_n"), None);
    assert_eq!(render("\\max(a, b)").as_deref(), Some("max(a, b)"));
}

#[test]
fn limits_nesting_depth() {
    let nested = |n: usize| format!("{}x{}", "{".repeat(n), "}".repeat(n));
    assert_eq!(render(&nested(15)).as_deref(), Some("x"));
    assert_eq!(render(&nested(16)), None);
}

#[test]
fn limits_rendered_width() {
    assert_eq!(render(&"x".repeat(256)).map(|s| s.len()), Some(256));
    assert_eq!(render(&"x".repeat(257)), None);
}

#[test]
fn looks_up_symbols() {
    assert_eq!(symbol("alpha"), Some("α"));
    assert_eq!(symbol("leq"), Some("≤"));
    assert_eq!(symbol("le"), Some("≤"));
    assert_eq!(symbol("notin"), Some("∉"));
    assert_eq!(symbol("nope"), None);
}

#[test]
fn parser_reads_one_character_at_a_time() {
    let mut parser = MathParser::new("ab");
    assert_eq!(parser.take(), Some('a'));
    assert_eq!(parser.take(), Some('b'));
    assert_eq!(parser.take(), None);
}

#[test]
fn parser_steps_render_pieces() {
    let mut parser = MathParser::new("\\beta rest");
    assert_eq!(parser.atom(), Some(vec!['β']));
    assert_eq!(parser.pos, 5);
    let mut parser = MathParser::new("  {a}");
    assert_eq!(parser.argument(), Some(vec!['a']));
    let mut parser = MathParser::new("a}b");
    assert_eq!(parser.sequence(true), Some(vec!['a']));
    assert_eq!(parser.pos, 2);
    let mut parser = MathParser::new("gamma");
    assert_eq!(parser.command(), Some(vec!['γ']));
    let mut parser = MathParser::new("%");
    assert_eq!(parser.atom_inner(), None);
}

#[test]
fn refusals_leave_the_parser_where_they_stop() {
    let mut parser = MathParser::new(" ^2");
    assert_eq!(parser.argument(), None);
    assert_eq!((parser.pos, parser.depth), (1, 0));
    let mut parser = MathParser::new("_1");
    assert_eq!(parser.argument(), None);
    assert_eq!((parser.pos, parser.depth), (0, 0));
    let mut parser = MathParser { chars: vec!['x'], pos: 0, depth: 32 };
    assert_eq!(parser.atom(), None);
    assert_eq!((parser.pos, parser.depth), (0, 32));
    let mut parser = MathParser { chars: vec!['x'], pos: 0, depth: 40 };
    assert_eq!(parser.sequence(false), None);
    assert_eq!((parser.pos, parser.depth), (0, 40));
    let mut parser = MathParser::new("}");
    assert_eq!(parser.atom_inner(), None);
    assert_eq!((parser.pos, parser.depth), (1, 0));
    let mut parser = MathParser::new("a}");
    assert_eq!(parser.sequence(false), None);
    assert_eq!((parser.pos, parser.depth), (1, 1));
}

#[test]
fn command_refusals_stop_after_what_was_read() {
    let mut parser = MathParser::new("foo1");
    assert_eq!(parser.command(), None);
    assert_eq!((parser.pos, parser.depth), (3, 0));
    let mut parser = MathParser::new("sqrt[3]{x}");
    assert_eq!(parser.command(), None);
    assert_eq!(parser.pos, 4);
    let mut parser = MathParser::new("text x");
    assert_eq!(parser.command(), None);
    assert_eq!(parser.pos, 4);
    let mut parser = MathParser::new("text {a");
    assert_eq!(parser.command(), None);
    assert_eq!(parser.pos, 6);
    let mut parser = MathParser::new("text {a$}");
    assert_eq!(parser.command(), None);
    assert_eq!(parser.pos, 6);
    let mut parser = MathParser::new("left x");
    assert_eq!(parser.command(), None);
    assert_eq!(parser.pos, 6);
    let mut parser = MathParser::new("@");
    assert_eq!(parser.command(), None);
    assert_eq!(parser.pos, 1);
}
