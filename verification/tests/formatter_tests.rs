use carina::cli::Style;
use carina::formatter::diff::{show_changes, ChangeKind};
use carina::formatter::config::FormatConfig;
use carina::formatter::cst::{Cst, CstChild, CstNode, NodeKind, Span, Token, Trivia};
use carina::formatter::format::{format_cst, needs_format};
use carina::formatter::parser::parse_fmt;

#[test]
fn test_default_config() {
    let config = FormatConfig::default();
    assert_eq!(config.indent_size, 4);
    assert!(!config.use_tabs);
    assert_eq!(config.blank_lines_between_blocks, 1);
    assert!(config.align_attributes);
}

#[test]
fn test_indent_string_spaces() {
    let config = FormatConfig::default();
    assert_eq!(config.indent_string(), "    ");
}

#[test]
fn test_indent_string_tabs() {
    let config = FormatConfig {
        use_tabs: true,
        ..Default::default()
    };
    assert_eq!(config.indent_string(), "\t");
}

#[test]
fn test_parse_simple_provider() {
    let input = "provider aws {\n    region = aws.Region.ap_northeast_1\n}\n";
    let result = parse_fmt(input);
    assert!(result.is_ok());
}

#[test]
fn test_parse_with_comment() {
    let input = "# Header comment\nprovider aws {}\n";
    let result = parse_fmt(input);
    assert!(result.is_ok());
}

#[test]
fn test_build_simple_cst() {
    let input = "provider aws {}\n";
    let cst = parse_fmt(input).unwrap();
    assert_eq!(cst.root.kind, NodeKind::File);
    assert!(!cst.root.children.is_empty());
}

#[test]
fn test_build_cst_with_comment() {
    let input = "# Comment\nprovider aws {}\n";
    let cst = parse_fmt(input).unwrap();
    let first_child = &cst.root.children[0];
    match first_child {
        CstChild::Trivia(Trivia::LineComment(s)) => {
            assert_eq!(s, "# Comment");
        }
        _ => panic!("Expected comment trivia"),
    }
}

#[test]
fn test_format_provider_block() {
    let input = "provider aws {\nregion=aws.Region.ap_northeast_1\n}";
    let config = FormatConfig::default();
    let result = carina::formatter::format::format(input, &config).unwrap();
    assert!(result.contains("provider aws {"));
    assert!(result.contains("  region = aws.Region.ap_northeast_1"));
}

#[test]
fn test_format_preserves_comments() {
    let input = "# Header comment\nprovider aws {}\n";
    let config = FormatConfig::default();
    let result = carina::formatter::format::format(input, &config).unwrap();
    assert!(result.contains("# Header comment"));
}

#[test]
fn test_format_normalizes_indentation() {
    let input = "aws.s3.bucket {\n    name = \"test\"\n}";
    let config = FormatConfig::default();
    let result = carina::formatter::format::format(input, &config).unwrap();
    assert!(result.contains("  name = \"test\""));
}

#[test]
fn test_format_aligns_attributes() {
    let input = "aws.s3.bucket {\nname = \"test\"\nversioning = true\n}";
    let config = FormatConfig {
        align_attributes: true,
        ..Default::default()
    };
    let result = carina::formatter::format::format(input, &config).unwrap();
    let lines: Vec<&str> = result.lines().collect();
    let name_eq_pos = lines.iter().find(|l| l.contains("name")).unwrap().find('=');
    let vers_eq_pos = lines
        .iter()
        .find(|l| l.contains("versioning"))
        .unwrap()
        .find('=');
    assert_eq!(name_eq_pos, vers_eq_pos);
}

#[test]
fn test_format_idempotent() {
    let input = "provider aws {\n  region = aws.Region.ap_northeast_1\n}\n";
    let config = FormatConfig::default();
    let first = carina::formatter::format::format(input, &config).unwrap();
    let second = carina::formatter::format::format(&first, &config).unwrap();
    assert_eq!(first, second, "Formatting should be idempotent");
}

#[test]
fn test_format_let_binding() {
    let input = "let bucket=aws.s3.bucket {\nname=\"test\"\n}";
    let config = FormatConfig::default();
    let result = carina::formatter::format::format(input, &config).unwrap();
    assert!(result.contains("let bucket = aws.s3.bucket {"));
}

#[test]
fn test_needs_format() {
    let config = FormatConfig::default();

    let formatted = "provider aws {\n  region = aws.Region.ap_northeast_1\n}\n";
    assert!(!needs_format(formatted, &config).unwrap());

    let unformatted = "provider aws {\nregion=aws.Region.ap_northeast_1\n}";
    assert!(needs_format(unformatted, &config).unwrap());
}

#[test]
fn format_keeps_the_files_indentation() {
    let config = FormatConfig::default();
    let tabs = carina::formatter::format::format("aws.s3.bucket {\n\tname=\"a\"\n}\n", &config).unwrap();
    assert_eq!(tabs, "aws.s3.bucket {\n\tname = \"a\"\n}\n");
    let two = carina::formatter::format::format(
        "let b = aws.s3.bucket {\n  name=\"a\"\n    tags = [\"x\"]\n}\nprovider aws {\nregion = r\n}\n",
        &config,
    )
    .unwrap();
    assert_eq!(
        two,
        "let b = aws.s3.bucket {\n  name = \"a\"\n  tags = [\"x\"]\n}\n\nprovider aws {\n  region = r\n}\n"
    );
}

#[test]
fn needs_format_with_default_indentation() {
    let config = FormatConfig::default();
    let formatted = "provider aws {\n    region = aws.Region.ap_northeast_1\n}\n";
    assert!(!needs_format(formatted, &config).unwrap());
    let unformatted = "provider aws {\nregion=aws.Region.ap_northeast_1\n}";
    assert!(needs_format(unformatted, &config).unwrap());
}

#[test]
fn format_exact_output() {
    let input = "# top\n\nprovider aws {\nregion=aws.Region.ap_northeast_1 # where\n}\nlet b=aws.s3.bucket{name=\"x\"\ntags=[\"a\",\"b\"]}\n";
    let config = FormatConfig::default();
    let result = carina::formatter::format::format(input, &config).unwrap();
    assert_eq!(
        result,
        "# top\n\nprovider aws {\n    region = aws.Region.ap_northeast_1  # where\n}\n\nlet b = aws.s3.bucket {\n    name = \"x\"\n    tags = [\"a\", \"b\"]\n}\n"
    );
}

#[test]
fn format_pipe_and_call() {
    let input = "aws.s3.bucket {\nname = join(\"-\",[\"a\",\"b\"])|>upper()\nkey = env(\"HOME\")\n}\n";
    let config = FormatConfig { align_attributes: false, ..Default::default() };
    let result = carina::formatter::format::format(input, &config).unwrap();
    assert_eq!(
        result,
        "aws.s3.bucket {\n    name = join(\"-\", [\"a\", \"b\"]) |> upper()\n    key = env(\"HOME\")\n}\n"
    );
}

#[test]
fn format_parse_error_position() {
    let config = FormatConfig::default();
    let err = carina::formatter::format::format("provider aws {\n  region = \n}", &config).unwrap_err();
    assert_eq!(err.line, 3);
    assert_eq!(err.column, 1);
    assert_eq!(err.to_string(), "Parse error at 3:1: unexpected input");
    let err = parse_fmt("provider aws {\n  region = ;\n}").unwrap_err();
    assert_eq!((err.line, err.column), (2, 12));
    assert_eq!(err.message, "unexpected character");
}

#[test]
fn cst_text_uses_byte_offsets() {
    let source = "é a".to_string();
    let cst = Cst::new(CstNode::new(NodeKind::File, Span::new(0, 4)), source);
    assert_eq!(cst.text(&Span::new(2, 3)), " ");
    assert_eq!(cst.text(&Span::new(0, 4)), "é a");
    let parsed = parse_fmt("é").is_err();
    assert!(parsed);
}

#[test]
fn format_hand_built_tree() {
    let tok = |t: &str| CstChild::Token(Token::new(t.to_string(), Span::new(0, 0)));
    let attr = CstNode::with_children(NodeKind::Attribute, Span::new(0, 0), vec![tok("k"), tok("="), tok("1")]);
    let block = CstNode::with_children(
        NodeKind::ModuleCall,
        Span::new(0, 0),
        vec![tok("m"), tok("{"), CstChild::Node(attr), tok("}")],
    );
    let root = CstNode::with_children(NodeKind::File, Span::new(0, 0), vec![CstChild::Node(block)]);
    let cst = Cst::new(root, String::new());
    let config = FormatConfig { use_tabs: true, ..Default::default() };
    assert_eq!(format_cst(&cst, &config), "m {\n\tk = 1\n}\n");
}

#[test]
fn diff_shows_changed_lines() {
    let out = carina::formatter::diff::diff_display("f.crn", "a\nb\n", "a\nc\n");
    let got: Vec<(String, Style)> = out.iter().map(|s| (s.text.clone(), s.style)).collect();
    let want: Vec<(String, Style)> = vec![
        ("\n".to_string(), Style::Plain),
        ("Diff for".to_string(), Style::CyanBold),
        (" f.crn:".to_string(), Style::Plain),
        ("\n".to_string(), Style::Plain),
        (" ".to_string(), Style::Plain),
        ("a\n".to_string(), Style::Plain),
        ("-".to_string(), Style::Red),
        ("b\n".to_string(), Style::Plain),
        ("+".to_string(), Style::Green),
        ("c\n".to_string(), Style::Plain),
    ];
    assert_eq!(got, want);
}

#[test]
fn diff_line_without_newline_gets_one() {
    let out = show_changes(&vec![(ChangeKind::Insert, "x".to_string())]);
    let texts: Vec<String> = out.iter().map(|s| s.text.clone()).collect();
    assert_eq!(texts, vec!["+".to_string(), "x".to_string(), "\n".to_string()]);
}

#[test]
fn format_is_idempotent_on_examples() {
    let config = FormatConfig::default();
    let inputs = [
        "# top\n\nprovider aws {\nregion=aws.Region.ap_northeast_1 # where\n}\nlet b=aws.s3.bucket{name=\"x\"\ntags=[\"a\",\"b\",]}\n",
        "aws.s3.bucket {\nname = join(\"-\",[\"a\",\"b\"])|>upper()\nkey = env(\"HOME\")\n}\n# end\n",
        "import \"./m\" as m\nm {\n\tx = 1\n  y = f(a,)\n}\n\n\n# c\nbackend s3 {\n}\n",
    ];
    for input in inputs.iter() {
        let first = carina::formatter::format::format(input, &config).unwrap();
        let second = carina::formatter::format::format(&first, &config).unwrap();
        assert_eq!(first, second);
    }
}
