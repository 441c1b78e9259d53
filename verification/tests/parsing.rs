use tyto::ast::{BaseType, TransitionType, TytoType};
use tyto::lexer::lex;
use tyto::parser::{parse_dsl, Expected, ParseError, TytoParser};

const README_EXAMPLE: &str = "state Pendente {
    on Pagar -> Pago;
    on Cancelar -> Cancelado;
}

state Pago {
    data { transaction_id: String }
    on Enviar -> Enviado;
    on Reembolsar -> Reembolsado;
}

state Enviado {
    terminal; 
}
";

#[test]
fn readme_example_parses() {
    let p = parse_dsl(README_EXAMPLE).unwrap();
    assert!(p.context.is_none());
    assert_eq!(p.states.len(), 3);
    assert_eq!(p.states[0].name, "Pendente");
    assert_eq!(p.states[0].transitions.len(), 2);
    assert_eq!(p.states[0].transitions[0].event, "Pagar");
    assert_eq!(p.states[0].transitions[0].target, "Pago");
    assert_eq!(p.states[0].transitions[0].transition_type, TransitionType::Default);
    assert_eq!(p.states[0].transitions[1].event, "Cancelar");
    assert_eq!(p.states[0].transitions[1].target, "Cancelado");
    assert!(!p.states[0].is_terminal);
    assert!(p.states[0].data.is_none());
    let data = p.states[1].data.as_ref().unwrap();
    assert_eq!(data.fields.len(), 1);
    assert_eq!(data.fields[0].name, "transaction_id");
    assert_eq!(data.fields[0].field_type, TytoType::Base(BaseType::String));
    assert_eq!(p.states[1].transitions.len(), 2);
    assert_eq!(p.states[2].name, "Enviado");
    assert!(p.states[2].is_terminal);
    assert!(p.states[2].transitions.is_empty());
}

#[test]
fn context_kinds_and_comments() {
    let src = "// an order\ncontext { id: Int, tags: String[] }\nstate A {\n  success on Go -> B; // done\n  recoverable on Retry -> A;\n  fatal on Crash -> B;\n}\nstate B { data { note: String? } terminal; }\n";
    let p = parse_dsl(src).unwrap();
    let ctx = p.context.as_ref().unwrap();
    assert_eq!(ctx.fields.len(), 2);
    assert_eq!(ctx.fields[0].name, "id");
    assert_eq!(ctx.fields[0].field_type, TytoType::Base(BaseType::Int));
    assert_eq!(
        ctx.fields[1].field_type,
        TytoType::Array(Box::new(TytoType::Base(BaseType::String)))
    );
    let a = &p.states[0];
    assert_eq!(a.transitions.len(), 3);
    assert_eq!(a.transitions[0].transition_type, TransitionType::Success);
    assert_eq!(a.transitions[1].transition_type, TransitionType::Recoverable);
    assert_eq!(a.transitions[1].target, "A");
    assert_eq!(a.transitions[2].transition_type, TransitionType::Fatal);
    let b = &p.states[1];
    assert!(b.is_terminal);
    assert_eq!(
        b.data.as_ref().unwrap().fields[0].field_type,
        TytoType::Optional(Box::new(TytoType::Base(BaseType::String)))
    );
}

#[test]
fn later_blocks_replace_earlier_ones() {
    let src = "context { a: Int } context { b: Bool } state S { data { x: Int } data { y: Float } terminal; terminal; }";
    let p = parse_dsl(src).unwrap();
    assert_eq!(p.context.as_ref().unwrap().fields[0].name, "b");
    assert_eq!(p.states[0].data.as_ref().unwrap().fields[0].name, "y");
    assert!(p.states[0].is_terminal);
}

#[test]
fn empty_input_is_empty_program() {
    let p = parse_dsl("  \n// nothing\n").unwrap();
    assert!(p.context.is_none());
    assert!(p.states.is_empty());
}

fn syntax(src: &str) -> (usize, usize, Expected) {
    match parse_dsl(src) {
        Err(ParseError::Syntax { line, column, expected }) => (line, column, expected),
        other => panic!("expected a syntax error, got {:?}", other),
    }
}

#[test]
fn syntax_errors_name_place_and_expectation() {
    assert_eq!(syntax("state A {\n  on X B;\n}"), (2, 8, Expected::Arrow));
    assert_eq!(syntax("stat A {}"), (1, 1, Expected::Item));
    assert_eq!(syntax("state {}"), (1, 7, Expected::Ident));
    assert_eq!(syntax("state A on"), (1, 9, Expected::LeftBrace));
    assert_eq!(syntax("state A { terminal }"), (1, 20, Expected::Semicolon));
    assert_eq!(syntax("state A { go -> B; }"), (1, 11, Expected::StateItem));
    assert_eq!(syntax("state A { success go -> B; }"), (1, 19, Expected::On));
    assert_eq!(syntax("state A {"), (1, 10, Expected::StateItem));
    assert_eq!(syntax("context { x Int }"), (1, 13, Expected::Colon));
    assert_eq!(syntax("context { x: }"), (1, 14, Expected::TypeName));
    assert_eq!(syntax("context { 1x: Int }"), (1, 11, Expected::Field));
    assert_eq!(syntax("state A { on X -> B }"), (1, 21, Expected::Semicolon));
    assert_eq!(syntax("state A { on X -> 9B; }"), (1, 19, Expected::Ident));
    assert_eq!(syntax("state A {\n\n  @\n}"), (3, 3, Expected::Character));
    assert_eq!(syntax("state A { on X - B; }"), (1, 16, Expected::Character));
}

#[test]
fn unknown_type_is_reported_after_syntax() {
    match parse_dsl("state A { data { x: Foo[] } terminal; }") {
        Err(ParseError::Type(m)) => assert_eq!(m, "Unknown type: Foo"),
        other => panic!("{:?}", other),
    }
    // the first bad type in the text is the one reported
    match parse_dsl("context { a: Nope } state A { data { b: Other } }") {
        Err(ParseError::Type(m)) => assert_eq!(m, "Unknown type: Nope"),
        other => panic!("{:?}", other),
    }
    // a syntax error anywhere wins over a bad type
    assert_eq!(syntax("context { a: Nope } state A { on }"), (1, 34, Expected::Ident));
}

#[test]
fn parse_error_messages() {
    let e = parse_dsl("state A {\n  on X B;\n}").unwrap_err();
    assert_eq!(e.message(), "line 2, column 8: expected '->'");
    let e = parse_dsl("state A { data { x: Foo } }").unwrap_err();
    assert_eq!(e.message(), "Unknown type: Foo");
    assert_eq!(Expected::StateItem.text(), "'data', 'terminal', a transition or '}'");
}

#[test]
fn type_names() {
    assert_eq!(TytoType::parse("Int"), Ok(TytoType::Base(BaseType::Int)));
    assert_eq!(TytoType::parse("Float"), Ok(TytoType::Base(BaseType::Float)));
    assert_eq!(TytoType::parse("Bool"), Ok(TytoType::Base(BaseType::Bool)));
    assert_eq!(TytoType::parse("String"), Ok(TytoType::Base(BaseType::String)));
    assert_eq!(
        TytoType::parse("Bool?"),
        Ok(TytoType::Optional(Box::new(TytoType::Base(BaseType::Bool))))
    );
    assert_eq!(
        TytoType::parse("Float[]?"),
        Ok(TytoType::Optional(Box::new(TytoType::Array(Box::new(TytoType::Base(
            BaseType::Float
        ))))))
    );
    assert_eq!(
        TytoType::parse("Int?[]"),
        Ok(TytoType::Array(Box::new(TytoType::Optional(Box::new(TytoType::Base(
            BaseType::Int
        ))))))
    );
    assert_eq!(TytoType::parse("Foo"), Err("Unknown type: Foo".to_string()));
    assert_eq!(TytoType::parse("int"), Err("Unknown type: int".to_string()));
    assert_eq!(TytoType::parse("Foo[]?"), Err("Unknown type: Foo".to_string()));
    assert_eq!(TytoType::parse("?"), Err("Unknown type: ".to_string()));
    assert_eq!(TytoType::parse("[]"), Err("Unknown type: ".to_string()));
    assert_eq!(TytoType::parse(""), Err("Unknown type: ".to_string()));
}

#[test]
fn find_state_and_all_fields() {
    let p = parse_dsl(
        "context { id: Int } state A { on Go -> B; } state B { data { x: Bool } terminal; } state B { terminal; }",
    )
    .unwrap();
    let b = p.find_state("B").unwrap();
    assert!(b.data.is_some());
    assert!(p.find_state("C").is_none());
    let fields = b.all_fields(&p);
    assert_eq!(fields.len(), 2);
    assert_eq!(fields[0].name, "id");
    assert_eq!(fields[1].name, "x");
    let a_fields = p.find_state("A").unwrap().all_fields(&p);
    assert_eq!(a_fields.len(), 1);
    assert_eq!(a_fields[0].field_type, TytoType::Base(BaseType::Int));
}

#[test]
fn canonical_text_reads_back() {
    // The canonical text: one space after every lexeme, context first, and in
    // each state its transitions, then its data block, then `terminal;`.
    let src = "context { id : Int , state : String[]? , } state data { on on -> data ; \
               fatal on Crash -> B ; data { x : Bool[] , } terminal ; } state B { } ";
    let p = parse_dsl(src).unwrap();
    let ctx = p.context.as_ref().unwrap();
    assert_eq!(ctx.fields.len(), 2);
    assert_eq!(ctx.fields[0].name, "id");
    assert_eq!(ctx.fields[0].field_type, TytoType::Base(BaseType::Int));
    assert_eq!(ctx.fields[1].name, "state");
    assert_eq!(
        ctx.fields[1].field_type,
        TytoType::Optional(Box::new(TytoType::Array(Box::new(TytoType::Base(
            BaseType::String
        )))))
    );
    assert_eq!(p.states.len(), 2);
    let s = &p.states[0];
    assert_eq!(s.name, "data");
    assert_eq!(s.transitions.len(), 2);
    assert_eq!(s.transitions[0].transition_type, TransitionType::Default);
    assert_eq!(s.transitions[0].event, "on");
    assert_eq!(s.transitions[0].target, "data");
    assert_eq!(s.transitions[1].transition_type, TransitionType::Fatal);
    assert_eq!(s.transitions[1].event, "Crash");
    assert_eq!(s.transitions[1].target, "B");
    let d = s.data.as_ref().unwrap();
    assert_eq!(d.fields.len(), 1);
    assert_eq!(d.fields[0].name, "x");
    assert_eq!(
        d.fields[0].field_type,
        TytoType::Array(Box::new(TytoType::Base(BaseType::Bool)))
    );
    assert!(s.is_terminal);
    assert_eq!(p.states[1].name, "B");
    assert!(p.states[1].transitions.is_empty());
    assert!(p.states[1].data.is_none());
    assert!(!p.states[1].is_terminal);
}

#[test]
fn whitespace_matches_char_is_whitespace() {
    for code in 0u32..=0x10ffff {
        if let Some(c) = char::from_u32(code) {
            assert_eq!(tyto::text::is_whitespace(c), c.is_whitespace(), "{:x}", code);
        }
    }
}

#[test]
fn grammar_pieces_on_tokens() {
    let cs: Vec<char> = "state S { on A -> S; data { x: Int } data { y: Bool? } terminal; }"
        .chars()
        .collect();
    let toks = lex(&cs).ok().unwrap();
    // tokens 0..3 are `state S {`; the body starts at token 3
    let (ts, data, terminal, terr, end) =
        TytoParser::parse_state_items(&cs, &toks, 3, None).ok().unwrap();
    assert_eq!(ts.len(), 1);
    assert_eq!(ts[0].event, "A");
    let d = data.unwrap();
    assert_eq!(d.fields.len(), 1);
    assert_eq!(d.fields[0].name, "y");
    assert!(terminal);
    assert!(terr.is_none());
    assert_eq!(end, toks.len());
    // a bad type name is skipped and remembered, the first one kept
    let cs: Vec<char> = "{ a: Foo, b: Int, c: Bar }".chars().collect();
    let toks = lex(&cs).ok().unwrap();
    let (fields, terr, end) = TytoParser::parse_fields(&cs, &toks, 1, None).ok().unwrap();
    assert_eq!(fields.len(), 1);
    assert_eq!(fields[0].name, "b");
    assert_eq!(terr, Some("Unknown type: Foo".to_string()));
    assert_eq!(end, toks.len());
}

#[test]
fn first_bad_data_block_gives_the_error() {
    match parse_dsl("state S { data { a: Foo } on Go -> S; data { b: Bar } terminal; }") {
        Err(ParseError::Type(m)) => assert_eq!(m, "Unknown type: Foo"),
        other => panic!("{:?}", other),
    }
    let p = parse_dsl("state S { data { a: Int } on Go -> S; data { b: Bool, c: String[] } }")
        .unwrap();
    let d = p.states[0].data.as_ref().unwrap();
    assert_eq!(d.fields.len(), 2);
    assert_eq!(d.fields[0].name, "b");
    assert_eq!(d.fields[1].field_type, TytoType::Array(Box::new(TytoType::Base(BaseType::String))));
}
