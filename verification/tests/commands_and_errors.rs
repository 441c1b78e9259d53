use tyto::backend::{get_generator, TargetLanguage};
use tyto::commands::{
    build_summary, compile_targets, is_current_dir, module_source_path, module_targets,
    selects_module,
};
use tyto::compiler::{
    config_file_name, config_path, file_stem_of, formatter_command, output_file_name,
    place_output_dir, record_outcome, resolve_output_dir, source_dir_of,
    CompileResult, GeneratedFile,
};
use tyto::config::{GlobalConfig, LocalConfig, TargetConfig};
use tyto::error::{handle_error, Error, ErrorReport};
use tyto::text::{split_trimmed, split_words};

#[test]
fn error_constructors_and_messages() {
    let e = Error::io(
        "out/x.ts",
        std::io::Error::new(std::io::ErrorKind::PermissionDenied, "permission denied"),
    );
    assert_eq!(e.message(), "IO error for 'out/x.ts': permission denied");
    assert_eq!(
        e.message_with("no access"),
        "IO error for 'out/x.ts': no access"
    );
    match &e {
        Error::Io { path, source } => {
            assert_eq!(path, "out/x.ts");
            assert_eq!(source.kind(), std::io::ErrorKind::PermissionDenied);
        }
        other => panic!("{:?}", other),
    }
    assert_eq!(Error::semantic("bad").message_with("ignored"), "Semantic error: bad");
    let e = Error::config("tyto.yaml", "missing field");
    assert_eq!(e.message(), "Config error in 'tyto.yaml': missing field");
    let e = Error::parse("a.ty", "line 1, column 1: expected 'state' or 'context'");
    assert_eq!(
        e.message(),
        "Parse error in 'a.ty': line 1, column 1: expected 'state' or 'context'"
    );
    let e = Error::validation(Some("orders".to_string()), vec!["x".to_string(), "y".to_string()]);
    assert_eq!(e.message(), "Validation failed in 'orders': x, y");
    let e = Error::validation(None, vec!["only".to_string()]);
    assert_eq!(e.message(), "Validation failed: only");
    let e = Error::semantic("bad");
    assert_eq!(e.message(), "Semantic error: bad");
    let e = Error::unsupported_language("cobol");
    assert_eq!(e.message(), "Unsupported language: cobol");
}

#[test]
fn error_reports() {
    match handle_error(Error::validation(None, vec!["a".to_string()])) {
        ErrorReport::Validation { module, errors } => {
            assert!(module.is_none());
            assert_eq!(errors, vec!["a".to_string()]);
        }
        other => panic!("{:?}", other),
    }
    match handle_error(Error::parse("f.ty", "oops")) {
        ErrorReport::Syntax { source, message } => {
            assert_eq!(source, "f.ty");
            assert_eq!(message, "oops");
        }
        other => panic!("{:?}", other),
    }
    match handle_error(Error::semantic("bad")) {
        ErrorReport::General(m) => assert_eq!(m, "Semantic error: bad"),
        other => panic!("{:?}", other),
    }
}

#[test]
fn outcomes_of_targets() {
    let mut result = CompileResult { generated: Vec::new(), warnings: Vec::new() };
    let g = GeneratedFile { lang: "rust".to_string(), path: "/out/a.rs".to_string() };
    assert!(record_outcome(&mut result, Ok(g)).is_ok());
    assert!(record_outcome(&mut result, Err(Error::unsupported_language("cobol"))).is_ok());
    assert_eq!(result.generated.len(), 1);
    assert_eq!(result.warnings, vec!["Target language 'cobol' is not supported".to_string()]);
    match record_outcome(&mut result, Err(Error::semantic("stop"))) {
        Err(Error::Semantic { message }) => assert_eq!(message, "stop"),
        other => panic!("{:?}", other),
    }
    assert_eq!(result.generated.len(), 1);
    assert_eq!(result.warnings.len(), 1);
}

#[test]
fn generators_by_name() {
    assert_eq!(get_generator("typescript"), Some(TargetLanguage::TypeScript));
    assert_eq!(get_generator("rust"), Some(TargetLanguage::Rust));
    assert_eq!(get_generator("mermaid"), Some(TargetLanguage::Mermaid));
    assert_eq!(get_generator("java"), Some(TargetLanguage::Java));
    assert_eq!(get_generator("Rust"), None);
    assert_eq!(get_generator(""), None);
}

#[test]
fn output_directories() {
    assert_eq!(resolve_output_dir("/base", None, "fallback"), "fallback");
    assert_eq!(resolve_output_dir("/base", Some("/abs/dir"), "fallback"), "/abs/dir");
    assert_eq!(resolve_output_dir("/base", Some("gen"), "fallback"), "/base/gen");
    assert_eq!(resolve_output_dir("base", Some("gen/ts"), "."), "base/gen/ts");
    let home = resolve_output_dir("/base", Some("~/gen"), ".");
    assert!(!home.starts_with('~'));
    assert!(home.ends_with("/gen"));
    // a tilde that does not start a home path is kept
    assert_eq!(resolve_output_dir("/base", Some("~other/gen"), "."), "/base/~other/gen");
}

#[test]
fn file_names_and_formatters() {
    assert_eq!(output_file_name("order", "ts"), "order.ts");
    assert_eq!(config_file_name("orders"), "orders.yaml");
    assert_eq!(
        formatter_command("  prettier   --write ", "/out/a.ts"),
        Some(vec!["prettier".to_string(), "--write".to_string(), "/out/a.ts".to_string()])
    );
    assert_eq!(formatter_command(" \t ", "/out/a.ts"), None);
}

#[test]
fn text_splitting() {
    assert_eq!(
        split_trimmed(" rust , java,,mermaid ", ','),
        vec!["rust".to_string(), "java".to_string(), "".to_string(), "mermaid".to_string()]
    );
    assert_eq!(split_trimmed("", ','), vec!["".to_string()]);
    assert_eq!(split_trimmed("\u{3000}ts\u{a0}", ','), vec!["ts".to_string()]);
    assert_eq!(split_words("a  b\tc\n"), vec!["a".to_string(), "b".to_string(), "c".to_string()]);
    assert!(split_words("   ").is_empty());
}

fn sample_config() -> LocalConfig {
    LocalConfig {
        source: "orders.ty".to_string(),
        targets: vec![
            ("rust".to_string(), TargetConfig { out_dir: "gen/rs".to_string() }),
            ("java".to_string(), TargetConfig { out_dir: "/abs/java".to_string() }),
        ],
    }
}

#[test]
fn compile_command_targets() {
    let t = compile_targets("src", " rust, typescript ", ".", None);
    assert_eq!(t.len(), 2);
    assert_eq!(t[0].lang, "rust");
    assert_eq!(t[0].out_dir, "src");
    assert_eq!(t[1].lang, "typescript");
    assert_eq!(t[1].out_dir, "src");

    let t = compile_targets("src", "rust", "out", None);
    assert_eq!(t[0].out_dir, "out");

    let config = sample_config();
    let t = compile_targets("src", "rust,java,mermaid", ".", Some(&config));
    assert_eq!(t[0].out_dir, "src/gen/rs");
    assert_eq!(t[1].out_dir, "/abs/java");
    assert_eq!(t[2].out_dir, ".");
    assert!(is_current_dir("."));
    assert!(!is_current_dir("./"));
}

#[test]
fn build_command_decisions() {
    let config = sample_config();
    let t = module_targets("/ws/orders", &config);
    assert_eq!(t.len(), 2);
    assert_eq!(t[0].lang, "rust");
    assert_eq!(t[0].out_dir, "/ws/orders/gen/rs");
    assert_eq!(t[1].lang, "java");
    assert_eq!(t[1].out_dir, "/abs/java");
    assert!(selects_module(None, "orders"));
    assert!(selects_module(Some("orders"), "orders"));
    assert!(!selects_module(Some("billing"), "orders"));
    assert_eq!(build_summary(0), None);
    assert_eq!(build_summary(1), Some("Build finished (1 module)".to_string()));
    assert_eq!(build_summary(12), Some("Build finished (12 modules)".to_string()));
}

#[test]
fn configuration_lookups() {
    let config = sample_config();
    assert_eq!(config.target("java").unwrap().out_dir, "/abs/java");
    assert!(config.target("mermaid").is_none());
    let global = GlobalConfig {
        workspace_dir: "tyto".to_string(),
        formatters: Some(vec![("rust".to_string(), "rustfmt".to_string())]),
    };
    assert_eq!(global.formatter("rust"), Some(&"rustfmt".to_string()));
    assert_eq!(global.formatter("java"), None);
    let bare = GlobalConfig { workspace_dir: "tyto".to_string(), formatters: None };
    assert_eq!(bare.formatter("rust"), None);
}

#[test]
fn source_paths() {
    assert_eq!(source_dir_of("machines/order.ty"), "machines");
    assert_eq!(source_dir_of("order.ty"), "");
    assert_eq!(source_dir_of("/"), ".");
    assert_eq!(file_stem_of("machines/order.ty"), "order");
    assert_eq!(file_stem_of("machines/order.v2.ty"), "order.v2");
    assert_eq!(file_stem_of("/"), "output");
    assert_eq!(config_path("machines", "order"), "machines/order.yaml");
    assert_eq!(config_path("", "order"), "order.yaml");
    assert_eq!(module_source_path("/ws/orders", &sample_config()), "/ws/orders/orders.ty");
}

#[test]
fn placing_expanded_directories() {
    assert_eq!(place_output_dir("/base", "gen"), "/base/gen");
    assert_eq!(place_output_dir("/base", "/home/me/gen"), "/home/me/gen");
    assert_eq!(place_output_dir("", "gen"), "gen");
}
