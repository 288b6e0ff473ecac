use cp_unfold::config::Config;
use cp_unfold::config::InitAction;
use cp_unfold::strings::path_segments;
use cp_unfold::unfold::split_by_coloncolon;
use cp_unfold::unfold::unfold_curly_bracket;
use cp_unfold::unfold::FileTable;
use cp_unfold::unfold::Unfold;
use cp_unfold::unfold::UnfoldError;

fn session(dir: &str, lib: Option<&str>) -> Unfold {
    Unfold::from_args(
        "main.rs".to_string(),
        "library".to_string(),
        dir.to_string(),
        lib.map(|s| s.to_string()),
    )
}

#[test]
fn test_idempotent_inlining() {
    let mut fs = FileTable::new();
    fs.add_str(
        "p/main.rs",
        "use library::math::gcd;\nuse library::math::lcm;\nfn main() {}\n",
    );
    fs.add_str("p/library/math.rs", "pub fn gcd() {}\npub fn lcm() {}\n");
    let out = session("p", None).unfold(&fs).unwrap();
    assert_eq!(out.matches("pub fn gcd").count(), 1);
    assert_eq!(out.matches("pub fn lcm").count(), 1);
}

#[test]
fn test_wildcard_subsumption() {
    let mut fs = FileTable::new();
    fs.add_str("p/main.rs", "use std::io::*;\nuse std::io::Read;\nfn main() {}\n");
    let out = session("p", None).unfold(&fs).unwrap();
    assert!(out.contains("use std::io::*;\n"));
    assert!(!out.contains("use std::io::Read;"));
}

#[test]
fn test_module_declaration_elision() {
    let mut fs = FileTable::new();
    fs.add_str(
        "p/main.rs",
        "mod library;\npub mod other;\nuse library::a::f;\nfn main() {}\n",
    );
    fs.add_str("p/library/a.rs", "mod inner;\npub fn f() {}\n");
    let out = session("p", None).unfold(&fs).unwrap();
    assert!(!out.contains("mod library;"));
    assert!(!out.contains("pub mod other;"));
    assert!(!out.contains("mod inner;"));
    assert!(out.contains("pub fn f()"));
}

#[test]
fn test_brace_expansion_completeness() {
    let toks = split_by_coloncolon("std::{io::{self,Read},fs::File}".to_string()).unwrap();
    let expanded = unfold_curly_bracket(&toks).unwrap();
    assert_eq!(expanded, vec![
        vec!["std", "io", "self"],
        vec!["std", "io", "Read"],
        vec!["std", "fs", "File"],
    ]);
}

#[test]
fn test_brace_expansion_own_use_lines() {
    let mut fs = FileTable::new();
    fs.add_str(
        "p/main.rs",
        "use std::{io::{self,Read},fs::File};\nfn main() {}\n",
    );
    let out = session("p", None).unfold(&fs).unwrap();
    assert!(out.contains("use std::io::self;\n"));
    assert!(out.contains("use std::io::Read;\n"));
    assert!(out.contains("use std::fs::File;\n"));
}

#[test]
fn test_alias_crate_equivalence() {
    let mut fs = FileTable::new();
    fs.add_str(
        "p/main.rs",
        "use crate::library::utils::add;\nuse library::utils::add;\nfn main() {}\n",
    );
    fs.add_str("p/library/utils.rs", "pub fn add() {}\n");
    let out = session("p", None).unfold(&fs).unwrap();
    assert!(out.contains("pub fn add()"));
    assert_eq!(out.matches("pub fn add").count(), 1);
}

#[test]
fn test_super_resolution() {
    let mut fs = FileTable::new();
    fs.add_str(
        "p/main.rs",
        "mod library;\nuse library::module::use_common;\nfn main() {}\n",
    );
    fs.add_str(
        "p/library/module.rs",
        "use super::common::common_func;\npub fn use_common() { common_func(); }\n",
    );
    fs.add_str("p/library/common.rs", "pub fn common_func() {}\n");
    let out = session("p", None).unfold(&fs).unwrap();
    assert!(out.contains("pub fn common_func()"));
    assert!(out.contains("pub fn use_common()"));
    assert!(!out.contains("use super::common::common_func;"));
}

#[test]
fn test_end_to_end() {
    let mut fs = FileTable::new();
    fs.add_str("p/main.rs", "mod library;\nuse library::math::gcd;\nfn main() { gcd(); }\n");
    fs.add_str("p/library/math.rs", "pub fn gcd() {}\n");
    let out = session("p", None).unfold(&fs).unwrap();
    assert!(out.contains("pub fn gcd()"));
    assert!(out.contains("fn main() { gcd(); }"));
    assert!(!out.contains("mod library;"));
    assert!(!out.contains("use library::math::gcd;"));
}

#[test]
fn test_directives_come_first() {
    let mut fs = FileTable::new();
    fs.add_str(
        "p/main.rs",
        "use library::a::f;\n#![allow(dead_code)]\nfn main() {}\n",
    );
    fs.add_str("p/library/a.rs", "#![allow(unused)]\npub fn f() {}\n");
    let out = session("p", None).unfold(&fs).unwrap();
    assert!(out.starts_with("#![allow(dead_code)]\n"));
    assert!(!out.contains("#![allow(unused)]"));
}

#[test]
fn test_multi_line_use_statement() {
    let mut fs = FileTable::new();
    fs.add_str("p/main.rs", "use std::{\n    io,\n    fs\n};\nfn main() {}\n");
    let out = session("p", None).unfold(&fs).unwrap();
    assert!(out.contains("use std::fs;\n"));
    assert!(out.contains("use std::io;\n"));
}

#[test]
fn test_import_block_sorted_and_unique() {
    let mut fs = FileTable::new();
    fs.add_str(
        "p/main.rs",
        "use zed::x;\nuse alpha::y;\nuse zed::x;\nfn main() {}\n",
    );
    let out = session("p", None).unfold(&fs).unwrap();
    assert_eq!(out.matches("use zed::x;").count(), 1);
    let a = out.find("use alpha::y;").unwrap();
    let z = out.find("use zed::x;").unwrap();
    assert!(a < z);
}

#[test]
fn test_missing_entry_file() {
    let fs = FileTable::new();
    let err = session("p", None).unfold(&fs).unwrap_err();
    assert!(matches!(err, UnfoldError::UnreadableFile { .. }));
    if let UnfoldError::UnreadableFile { path } = err {
        assert_eq!(path, vec!["p", "main.rs"]);
    }
}

#[test]
fn test_missing_module_file() {
    let mut fs = FileTable::new();
    fs.add_str("p/main.rs", "use library::absent::f;\nfn main() {}\n");
    let err = session("p", None).unfold(&fs).unwrap_err();
    assert!(matches!(err, UnfoldError::UnreadableFile { .. }));
    if let UnfoldError::UnreadableFile { path } = err {
        assert_eq!(path, vec!["p", "library", "absent.rs"]);
    }
}

#[test]
fn test_trailing_comma_in_group_is_malformed() {
    let mut fs = FileTable::new();
    fs.add_str("p/main.rs", "use std::{io,};\nfn main() {}\n");
    let err = session("p", None).unfold(&fs).unwrap_err();
    assert!(matches!(err, UnfoldError::MalformedImport { .. }));
}

#[test]
fn test_unterminated_use_statement() {
    let mut fs = FileTable::new();
    fs.add_str("p/main.rs", "use std::{io\nfn main() {}\n");
    let err = session("p", None).unfold(&fs).unwrap_err();
    assert!(matches!(err, UnfoldError::MalformedImport { .. }));
}

#[test]
fn test_super_chain_above_root() {
    let mut fs = FileTable::new();
    fs.add_str("p/main.rs", "use super::super::super::x::f;\nfn main() {}\n");
    let err = session("p", None).unfold(&fs).unwrap_err();
    assert!(matches!(err, UnfoldError::MalformedImport { .. }));
}

#[test]
fn test_path_segments() {
    assert_eq!(path_segments("a/b/c"), vec!["a", "b", "c"]);
    assert_eq!(path_segments("main.rs"), vec!["main.rs"]);
}

#[test]
fn test_merge_with_cli_defaults() {
    let config = Config::default();
    let rc = config
        .merge_with_cli(None, None, Some("proj/src".to_string()), None)
        .unwrap();
    assert_eq!(rc.src, "main.rs");
    assert_eq!(rc.library_name, "library");
    assert_eq!(rc.file_dir, "proj/src");
    assert!(rc.library_path.is_none());
}

#[test]
fn test_merge_with_cli_prefers_cli() {
    let config = Config {
        file_dir: Some("stored/dir".to_string()),
        library_name: Some("stored_lib".to_string()),
        library_path: Some("stored/lib".to_string()),
    };
    let rc = config
        .merge_with_cli(
            Some("other.rs".to_string()),
            Some("cli_lib".to_string()),
            Some("cli/dir".to_string()),
            Some("cli/lib".to_string()),
        )
        .unwrap();
    assert_eq!(rc.src, "other.rs");
    assert_eq!(rc.library_name, "cli_lib");
    assert_eq!(rc.file_dir, "cli/dir");
    assert_eq!(rc.library_path.as_deref(), Some("cli/lib"));
}

#[test]
fn test_merge_with_cli_requires_file_dir() {
    let config = Config::default();
    let err = config.merge_with_cli(None, None, None, None).unwrap_err();
    assert!(err.contains("--file-dir is required"));
}

#[test]
fn test_from_cli_args() {
    let dir = "d".to_string();
    let lib = "l".to_string();
    let c = Config::from_cli_args(Some(&dir), Some("n".to_string()), Some(&lib));
    assert_eq!(c.file_dir.as_deref(), Some("d"));
    assert_eq!(c.library_name.as_deref(), Some("n"));
    assert_eq!(c.library_path.as_deref(), Some("l"));
}

#[test]
fn test_init_action_cases() {
    assert_eq!(Config::init_action(false, false, false, true, false), InitAction::PromptUser);
    assert_eq!(Config::init_action(false, false, true, false, false), InitAction::SaveCliConfig);
    assert_eq!(Config::init_action(false, true, false, true, false), InitAction::SaveCliConfig);
    assert_eq!(Config::init_action(true, true, true, true, true), InitAction::UseExisting);
    assert_eq!(Config::init_action(false, true, false, false, false), InitAction::UseExisting);
}

#[test]
fn test_exact_output_assembly() {
    let mut fs = FileTable::new();
    fs.add_str(
        "p/main.rs",
        "#![allow(x)]\nuse std::io::Read;\nmod library;\nuse library::a::f;\nfn main() {}\n",
    );
    fs.add_str("p/library/a.rs", "use std::fmt::*;\npub fn f() {}\n");
    let out = session("p", None).unfold(&fs).unwrap();
    assert_eq!(
        out,
        "#![allow(x)]\nuse std::fmt::*;\nuse std::io::Read;\npub fn f() {}\n\nfn main() {}\n"
    );
}

#[test]
fn test_empty_entry_file() {
    let mut fs = FileTable::new();
    fs.add_str("p/main.rs", "");
    let out = session("p", None).unfold(&fs).unwrap();
    assert_eq!(out, "");
}

#[test]
fn test_crlf_line_endings() {
    let mut fs = FileTable::new();
    fs.add_str("p/main.rs", "fn main() {}\r\nstruct S;\r\n");
    let out = session("p", None).unfold(&fs).unwrap();
    assert_eq!(out, "fn main() {}\nstruct S;\n");
}

#[test]
fn test_blank_and_verbatim_lines_kept() {
    let mut fs = FileTable::new();
    fs.add_str("p/main.rs", "struct S;\n\nfn main() {}\n");
    let out = session("p", None).unfold(&fs).unwrap();
    assert!(out.contains("struct S;\n\nfn main() {}\n"));
}
