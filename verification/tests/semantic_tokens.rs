use lymals::semantic_tokens::{debug_render, legend, tokenize, tokenize_supported, SemanticToken, SemanticTokens};
use lymals::syntax::FileId;

fn encode(text: &str) -> Vec<(u32, u32, u32, u32, u32)> {
    assert!(tokenize_supported(text));
    tokenize(FileId(0), "test.luma", text)
        .data
        .iter()
        .map(|t: &SemanticToken| (t.delta_line, t.delta_start, t.length, t.token_type, t.token_modifiers_bitset))
        .collect()
}

#[test]
fn legend_lists_types_and_modifiers_in_order() {
    let l = legend();
    assert_eq!(l.token_types.len(), 12);
    assert_eq!(l.token_types[0], "keyword");
    assert_eq!(l.token_types[11], "lua");
    assert_eq!(l.token_modifiers, vec!["declaration", "block", "import", "include", "deprecated", "invalid"]);
}

#[test]
fn mapping_keys_values_and_colons() {
    assert_eq!(encode("key: value\n"), vec![(0, 0, 3, 1, 0), (0, 3, 1, 5, 0), (0, 2, 5, 2, 0)]);
}

#[test]
fn comments_and_sequence_items() {
    assert_eq!(encode("# c\n- 1\n"), vec![(0, 0, 3, 4, 0), (1, 0, 1, 5, 0), (0, 2, 1, 3, 0)]);
}

#[test]
fn block_scalars_carry_the_block_modifier() {
    assert_eq!(
        encode("a: |\n  text\n"),
        vec![(0, 0, 1, 1, 0), (0, 1, 1, 5, 0), (0, 2, 1, 5, 0), (1, 2, 4, 2, 2)]
    );
}

#[test]
fn import_directives_mark_target_and_alias() {
    assert_eq!(
        encode("@import \"x.luma\" as lib\n"),
        vec![(0, 0, 7, 6, 0), (0, 8, 8, 2, 4), (0, 9, 2, 0, 0), (0, 3, 3, 7, 1)]
    );
}

#[test]
fn inline_words_strings_and_lua() {
    assert_eq!(
        encode("x: [true, nil, 'q', ${1}]\n"),
        vec![
            (0, 0, 1, 1, 0),
            (0, 1, 1, 5, 0),
            (0, 2, 1, 5, 0),
            (0, 1, 4, 9, 0),
            (0, 4, 1, 5, 0),
            (0, 2, 3, 10, 0),
            (0, 3, 1, 5, 0),
            (0, 2, 3, 2, 0),
            (0, 3, 1, 5, 0),
            (0, 2, 4, 11, 0),
            (0, 4, 1, 5, 0),
        ]
    );
}

fn token(delta_line: u32, delta_start: u32, length: u32, token_type: u32, bits: u32) -> SemanticToken {
    SemanticToken { delta_line, delta_start, length, token_type, token_modifiers_bitset: bits }
}

#[test]
fn debug_render_reads_tokens_back_as_text() {
    let text = "name: 1\nlist: true\n";
    let tokens = SemanticTokens {
        result_id: None,
        data: vec![token(0, 0, 4, 1, 1), token(0, 6, 1, 3, 0), token(1, 6, 4, 9, 0b100101)],
    };
    let rendered = debug_render(text, &tokens);
    assert_eq!(rendered.len(), 3);
    assert_eq!(rendered[0].lexeme, "name");
    assert_eq!(rendered[0].token_type, "property");
    assert_eq!(rendered[0].modifiers, vec!["declaration".to_owned()]);
    assert_eq!(rendered[1].lexeme, "1");
    assert_eq!(rendered[1].token_type, "number");
    assert!(rendered[1].modifiers.is_empty());
    assert_eq!((rendered[1].delta_line, rendered[1].delta_start, rendered[1].length), (0, 6, 1));
    assert_eq!(rendered[2].lexeme, "true");
    assert_eq!(rendered[2].token_type, "boolean");
    assert_eq!(
        rendered[2].modifiers,
        vec!["declaration".to_owned(), "import".to_owned(), "invalid".to_owned()]
    );
}

#[test]
fn debug_render_counts_length_in_utf16_units() {
    let text = "k: \u{1F600}x\n";
    let tokens = SemanticTokens { result_id: None, data: vec![token(0, 3, 2, 2, 0), token(0, 2, 9, 2, 0)] };
    let rendered = debug_render(text, &tokens);
    assert_eq!(rendered[0].lexeme, "\u{1F600}");
    assert_eq!(rendered[1].lexeme, "x\n");
}

#[test]
fn debug_render_of_tokenized_text_gives_each_lexeme() {
    let text = "a: 1\n";
    let tokens = tokenize(FileId(0), "file:///a.luma", text);
    let lexemes: Vec<String> = debug_render(text, &tokens).into_iter().map(|t| t.lexeme).collect();
    assert!(lexemes.contains(&"a".to_owned()));
    assert!(lexemes.contains(&"1".to_owned()));
}
