use botcore::screenshot::Screenshot;
use botcore::CommandError;

#[test]
fn command_metadata() {
    let command = Screenshot;
    let names = command.command_names();
    assert_eq!(names, vec!["screenshot", "ss", "webimg", "webimage", "webscreenshot"]);
    assert_eq!(command.description(), Some("screenshot a webpage"));
}

#[test]
fn command_rate_limit_is_three_per_minute() {
    let command = Screenshot;
    let mut limiter = command.rate_limit();
    assert!(limiter.try_consume(42, 0));
    assert!(limiter.try_consume(42, 0));
    assert!(limiter.try_consume(42, 0));
    assert!(!limiter.try_consume(42, 0));
}

#[test]
fn resolve_url_accepts_absolute() {
    let resolved = botcore::screenshot::resolve_url("http://example.com").unwrap();
    assert_eq!(resolved.as_str(), "http://example.com/");
}

#[test]
fn resolve_url_prefixes_relative() {
    // A bare domain has no scheme; the parser reports it relative and the
    // resolver retries with http.
    let resolved = botcore::screenshot::resolve_url("example.com/page").unwrap();
    assert_eq!(resolved.as_str(), "http://example.com/page");
}

#[test]
fn resolve_url_rejects_malformed() {
    let error = botcore::screenshot::resolve_url("http://exa mple.com").unwrap_err();
    assert!(matches!(error, CommandError::ArgumentInvalid(_)));
}
