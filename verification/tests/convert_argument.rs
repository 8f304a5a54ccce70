use botcore::convert_argument::{convert, convert_one, ArgDecl, ArgKind, ArgValue};
use botcore::CommandError;

fn greedy(name: &str) -> ArgDecl {
    ArgDecl { name: name.to_owned(), kind: ArgKind::StringGreedyOrReply }
}

#[test]
fn greedy_takes_whole_input() {
    let decls = vec![greedy("url")];
    let converted = convert(&decls, "hello world", None).unwrap();
    assert_eq!(converted, vec![ArgValue::Text("hello world".to_owned())]);
}

#[test]
fn greedy_empty_without_reply_is_missing() {
    let decls = vec![greedy("url")];
    let error = convert(&decls, "", None).unwrap_err();
    assert_eq!(error, CommandError::ArgumentMissing("url".to_owned()));
}

#[test]
fn greedy_empty_falls_back_to_reply() {
    let decls = vec![greedy("url")];
    let converted = convert(&decls, "", Some("foo")).unwrap();
    assert_eq!(converted, vec![ArgValue::Text("foo".to_owned())]);
}

#[test]
fn greedy_empty_reply_is_missing() {
    let decls = vec![greedy("url")];
    let error = convert(&decls, "", Some("")).unwrap_err();
    assert_eq!(error, CommandError::ArgumentMissing("url".to_owned()));
}

#[test]
fn word_takes_next_token() {
    let decl = ArgDecl { name: "name".to_owned(), kind: ArgKind::Word };
    let (value, used) = convert_one(&decl, "  alice bob", None).unwrap();
    assert_eq!(value, ArgValue::Word("alice".to_owned()));
    assert_eq!(used, 7);
}

#[test]
fn word_missing_on_blank_input() {
    let decl = ArgDecl { name: "name".to_owned(), kind: ArgKind::Word };
    let error = convert_one(&decl, "   ", None).unwrap_err();
    assert_eq!(error, CommandError::ArgumentMissing("name".to_owned()));
}

#[test]
fn unsigned_int_parses_exactly() {
    let decl = ArgDecl { name: "count".to_owned(), kind: ArgKind::UnsignedInt };
    let (value, used) = convert_one(&decl, "0042 rest", None).unwrap();
    assert_eq!(value, ArgValue::UnsignedInt(42));
    assert_eq!(used, 4);
}

#[test]
fn unsigned_int_rejects_garbage() {
    let decl = ArgDecl { name: "count".to_owned(), kind: ArgKind::UnsignedInt };
    let error = convert_one(&decl, "12x", None).unwrap_err();
    assert_eq!(error, CommandError::ArgumentInvalid("count".to_owned()));
}

#[test]
fn unsigned_int_rejects_overflow() {
    let decl = ArgDecl { name: "count".to_owned(), kind: ArgKind::UnsignedInt };
    // One more than u64::MAX.
    let error = convert_one(&decl, "18446744073709551616", None).unwrap_err();
    assert_eq!(error, CommandError::ArgumentInvalid("count".to_owned()));
    // u64::MAX itself still parses.
    let (value, _) = convert_one(&decl, "18446744073709551615", None).unwrap();
    assert_eq!(value, ArgValue::UnsignedInt(u64::MAX));
}

#[test]
fn pipeline_runs_left_to_right() {
    let decls = vec![
        ArgDecl { name: "name".to_owned(), kind: ArgKind::Word },
        ArgDecl { name: "count".to_owned(), kind: ArgKind::UnsignedInt },
        ArgDecl { name: "rest".to_owned(), kind: ArgKind::StringGreedyOrReply },
    ];
    let converted = convert(&decls, "alice 42 the rest", None).unwrap();
    assert_eq!(
        converted,
        vec![
            ArgValue::Word("alice".to_owned()),
            ArgValue::UnsignedInt(42),
            ArgValue::Text(" the rest".to_owned()),
        ]
    );
}

#[test]
fn pipeline_stops_at_first_failure() {
    let decls = vec![
        ArgDecl { name: "name".to_owned(), kind: ArgKind::Word },
        ArgDecl { name: "count".to_owned(), kind: ArgKind::UnsignedInt },
    ];
    // The second spec fails, and the error names it.
    let error = convert(&decls, "alice bob", None).unwrap_err();
    assert_eq!(error, CommandError::ArgumentInvalid("count".to_owned()));
}
