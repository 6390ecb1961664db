use chat_recall::batch::PipelineError;
use chat_recall::config::{resolve, resolve_or, ServiceConfig};

fn s(x: &str) -> Option<String> {
    Some(x.to_string())
}

#[test]
fn first_present_source_wins() {
    assert_eq!(resolve(&vec![None, s("b"), s("c")]), s("b"));
    assert_eq!(resolve(&vec![s("a"), s("b")]), s("a"));
    assert_eq!(resolve(&vec![None, None]), None);
    assert_eq!(resolve(&vec![]), None);
    assert_eq!(resolve_or(&vec![None], "d"), "d");
}

#[test]
fn service_config_uses_defaults() {
    let c = ServiceConfig::resolve_from(&vec![None, s("k")], &vec![None, None], &vec![None], None, s("site"))
        .unwrap();
    assert_eq!(c.api_key, "k");
    assert_eq!(c.endpoint, "https://openrouter.ai/api/v1/chat/completions");
    assert_eq!(c.model, "gpt-4.1-2025-04-14");
    assert_eq!(c.site_url, None);
    assert_eq!(c.site_name, s("site"));
}

#[test]
fn service_config_takes_given_values() {
    let c = ServiceConfig::resolve_from(&vec![s("k")], &vec![s("http://h")], &vec![s("m")], None, None)
        .unwrap();
    assert_eq!(c.endpoint, "http://h/chat/completions");
    assert_eq!(c.model, "m");
}

#[test]
fn missing_key_is_configuration_error() {
    let r = ServiceConfig::resolve_from(&vec![None, None], &vec![s("x")], &vec![], None, None);
    assert!(matches!(r, Err(PipelineError::Configuration(_))));
}
