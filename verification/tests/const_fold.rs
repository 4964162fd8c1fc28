use bevy_vm::system::script::const_fold::{
    build_token_mapper, fold_tokens, ConstFoldRegistry, Token,
};

fn describe(token: &Token) -> String {
    match token {
        Token::Identifier(name) => name.clone(),
        Token::LeftParen => "(".to_owned(),
        Token::RightParen => ")".to_owned(),
        Token::Comma => ",".to_owned(),
        Token::StringConstant(s) => format!("\"{s}\""),
        Token::IntegerConstant(n) => n.to_string(),
        Token::Other => "?".to_owned(),
    }
}

fn mapped(registry: &mut ConstFoldRegistry, tokens: Vec<Token>) -> Vec<String> {
    fold_tokens(registry, &tokens).iter().map(describe).collect()
}

fn ident(name: &str) -> Token {
    Token::Identifier(name.to_owned())
}

fn string(s: &str) -> Token {
    Token::StringConstant(s.to_owned())
}

#[test]
fn literal_arguments_become_handles() {
    let mut registry = ConstFoldRegistry::new();
    registry.register("load");
    let tokens = vec![
        ident("load"),
        Token::LeftParen,
        string("a.json"),
        Token::RightParen,
        ident("load"),
        Token::LeftParen,
        string("b.json"),
        Token::Comma,
    ];
    assert_eq!(mapped(&mut registry, tokens), ["load", "(", "0", ")", "load", "(", "1", ","]);
    assert_eq!(registry.lookup("load", 0), Some("a.json"));
    assert_eq!(registry.lookup("load", 1), Some("b.json"));
    assert_eq!(registry.lookup("load", 2), None);
    assert_eq!(registry.lookup("load", -1), None);
}

#[test]
fn other_tokens_pass_through() {
    let mut registry = ConstFoldRegistry::new();
    registry.register("load");
    let tokens = vec![
        ident("save"),
        Token::LeftParen,
        string("a"),
        ident("load"),
        Token::Other,
        string("b"),
        ident("load"),
        Token::LeftParen,
        ident("x"),
        string("c"),
    ];
    let out = mapped(&mut registry, tokens);
    assert_eq!(out, ["save", "(", "\"a\"", "load", "?", "\"b\"", "load", "(", "x", "\"c\""]);
    assert_eq!(registry.lookup("load", 0), None);
}

#[test]
fn registering_again_keeps_what_was_recorded() {
    let mut registry = ConstFoldRegistry::new();
    assert!(!registry.is_eligible("load"));
    assert_eq!(registry.allocate("load", "x".to_owned()), None);
    registry.register("load");
    assert_eq!(registry.allocate("load", "x".to_owned()), Some(0));
    registry.register("load");
    assert!(registry.is_eligible("load"));
    assert_eq!(registry.lookup("load", 0), Some("x"));
    assert_eq!(registry.allocate("load", "x".to_owned()), Some(1));
}

#[test]
fn literals_in_expressions_stay() {
    let mut registry = ConstFoldRegistry::new();
    registry.register("load_config");
    let tokens = vec![
        ident("load_config"),
        Token::LeftParen,
        string("dir/"),
        Token::Other,
        ident("x"),
        Token::RightParen,
    ];
    let out = mapped(&mut registry, tokens);
    assert_eq!(out, ["load_config", "(", "\"dir/\"", "?", "x", ")"]);
    assert_eq!(registry.lookup("load_config", 0), None);
    let cut_off = vec![ident("load_config"), Token::LeftParen, string("dir/")];
    assert_eq!(mapped(&mut registry, cut_off), ["load_config", "(", "\"dir/\""]);
    assert_eq!(registry.lookup("load_config", 0), None);
}

#[test]
fn a_mapper_looks_at_the_token_behind() {
    let mut registry = ConstFoldRegistry::new();
    registry.register("load");
    let mut mapper = build_token_mapper();
    let mut feed = |token: Token, next: Token| describe(&mapper.map(&mut registry, token, Some(&next)));
    assert_eq!(feed(ident("load"), Token::LeftParen), "load");
    assert_eq!(feed(Token::LeftParen, string("a")), "(");
    assert_eq!(feed(string("a"), Token::RightParen), "0");
    assert_eq!(feed(Token::RightParen, Token::Other), ")");
}

#[test]
fn handles_count_up_from_the_registration() {
    let mut registry = ConstFoldRegistry::new();
    registry.register("f");
    registry.register("g");
    let literals = ["x", "y", "x"];
    for (i, literal) in literals.iter().enumerate() {
        assert_eq!(registry.allocate("g", format!("g{i}")), Some(i as i64));
        assert_eq!(registry.allocate("f", (*literal).to_owned()), Some(i as i64));
        registry.register("f");
    }
    for (i, literal) in literals.iter().enumerate() {
        assert_eq!(registry.lookup("f", i as i64), Some(*literal));
    }
    for id in [-1, i64::MIN, 3, i64::MAX] {
        assert_eq!(registry.lookup("f", id), None);
    }
    assert_eq!(registry.lookup("h", 0), None);
}
