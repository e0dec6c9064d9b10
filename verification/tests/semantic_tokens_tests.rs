use carina::lsp::semantic_tokens::SemanticTokensProvider;

#[test]
fn test_resource_type_at_line_start() {
    let provider = SemanticTokensProvider::new();
    let tokens = provider.tokenize("aws.s3.bucket {");

    let type_tokens: Vec<_> = tokens.iter().filter(|t| t.token_type == 1).collect();
    assert!(!type_tokens.is_empty(), "Should find aws.s3.bucket as TYPE");
}

#[test]
fn test_resource_type_after_let() {
    let provider = SemanticTokensProvider::new();
    let tokens = provider.tokenize("let bucket = aws.s3.bucket {");

    let type_tokens: Vec<_> = tokens.iter().filter(|t| t.token_type == 1).collect();
    assert!(!type_tokens.is_empty(), "Should find aws.s3.bucket as TYPE");
}

#[test]
fn test_find_resource_types_directly() {
    let provider = SemanticTokensProvider::new();
    let mut tokens = Vec::new();
    provider.find_resource_types("aws.s3.bucket {", &mut tokens);

    assert_eq!(tokens.len(), 1, "Should find one resource type");
    assert_eq!(tokens[0], (0, 13, 1), "Should be at position 0, length 13, type 1");
}

#[test]
fn test_tokenize_line_resource_type() {
    let provider = SemanticTokensProvider::new();
    let line_tokens = provider.tokenize_line("aws.s3.bucket {", 0);

    let has_resource_type = line_tokens
        .iter()
        .any(|(start, len, typ)| *start == 0 && *len == 13 && *typ == 1);
    assert!(
        has_resource_type,
        "Should have aws.s3.bucket as TYPE at position 0. Got: {:?}",
        line_tokens
    );
}

#[test]
fn test_tokenize_full_file() {
    let provider = SemanticTokensProvider::new();
    let content = "aws.s3.bucket {\n    name = \"test\"\n}";
    let tokens = provider.tokenize(content);

    assert!(!tokens.is_empty(), "Should have tokens");
    let first = &tokens[0];
    assert_eq!(first.token_type, 1, "First token should be TYPE (1), got {}", first.token_type);
    assert_eq!(first.length, 13, "First token length should be 13 (aws.s3.bucket)");
}

#[test]
fn full_file_tokens_are_relative() {
    let provider = SemanticTokensProvider::new();
    let content = "aws.s3.bucket {\n    name = \"test\"\n}";
    let tokens = provider.tokenize(content);
    let flat: Vec<(u32, u32, u32, u32)> = tokens
        .iter()
        .map(|t| (t.delta_line, t.delta_start, t.length, t.token_type))
        .collect();
    // aws.s3.bucket; then on line 1: name (property), = (operator), "test" (string)
    assert_eq!(flat, vec![(0, 0, 13, 1), (1, 4, 4, 3), (0, 5, 1, 6), (0, 2, 6, 4)]);
}

#[test]
fn keywords_and_names() {
    let provider = SemanticTokensProvider::new();
    assert_eq!(
        provider.tokenize_line("provider aws {", 0),
        vec![(0, 8, 0), (9, 3, 1)]
    );
    assert_eq!(
        provider.tokenize_line("let bucket = aws.s3.bucket {", 0),
        vec![(0, 3, 0), (4, 6, 2), (11, 1, 6), (13, 13, 1)]
    );
    assert_eq!(
        provider.tokenize_line("backend s3 {", 0),
        vec![(0, 7, 0), (8, 2, 1)]
    );
}

#[test]
fn comments_cover_the_rest_of_the_line() {
    let provider = SemanticTokensProvider::new();
    assert_eq!(provider.tokenize_line("  // note = 1", 0), vec![(2, 11, 8)]);
    assert!(provider.tokenize_line("   ", 0).is_empty());
}

#[test]
fn numbers_booleans_regions_and_env() {
    let provider = SemanticTokensProvider::new();
    assert_eq!(
        provider.tokenize_line("    port = 443", 0),
        vec![(4, 4, 3), (9, 1, 6), (11, 3, 5)]
    );
    assert_eq!(
        provider.tokenize_line("    enabled = true", 0),
        vec![(4, 7, 3), (12, 1, 6), (14, 4, 0)]
    );
    assert_eq!(
        provider.tokenize_line("    region = aws.Region.ap_northeast_1", 0),
        vec![(4, 6, 3), (11, 1, 6), (13, 25, 1)]
    );
    assert_eq!(
        provider.tokenize_line("    key = env(\"A\")", 0),
        vec![(4, 3, 3), (8, 1, 6), (10, 3, 7), (14, 3, 4)]
    );
    // a digit inside a word is no number
    assert_eq!(provider.tokenize_line("    a1 = x2", 0), vec![(4, 2, 3), (7, 1, 6)]);
}

#[test]
fn crlf_lines_and_trailing_newline() {
    let provider = SemanticTokensProvider::new();
    let tokens = provider.tokenize("a = 1\r\n\nb = 2\n");
    let flat: Vec<(u32, u32, u32, u32)> = tokens
        .iter()
        .map(|t| (t.delta_line, t.delta_start, t.length, t.token_type))
        .collect();
    assert_eq!(
        flat,
        vec![
            (0, 0, 1, 3),
            (0, 2, 1, 6),
            (0, 2, 1, 5),
            (2, 0, 1, 3),
            (0, 2, 1, 6),
            (0, 2, 1, 5)
        ]
    );
}
