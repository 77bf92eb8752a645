use limitchain::client::glm::GLMConfig;
use limitchain::client::openai::{chat_role, ChatRole, OpenAIConfig};

#[test]
fn a_key_parts_at_its_full_stops() {
    let c = GLMConfig {
        api_key: "id.secret".to_string(),
    };
    assert_eq!(c.key_parts(), ("id".to_string(), "secret".to_string()));
    let c = GLMConfig {
        api_key: "id.middle.secret".to_string(),
    };
    assert_eq!(c.key_parts(), ("id".to_string(), "secret".to_string()));
    let c = GLMConfig {
        api_key: "whole".to_string(),
    };
    assert_eq!(c.key_parts(), ("whole".to_string(), "whole".to_string()));
    let c = GLMConfig {
        api_key: "".to_string(),
    };
    assert_eq!(c.key_parts(), ("".to_string(), "".to_string()));
    let c = GLMConfig {
        api_key: "id.".to_string(),
    };
    assert_eq!(c.key_parts(), ("id".to_string(), "".to_string()));
}

#[test]
fn the_openai_settings_make_addresses_and_headers() {
    let c = OpenAIConfig {
        api_base: "https://api.openai.com/v1".to_string(),
        api_key: "abc123".to_string(),
        org_id: "".to_string(),
    };
    assert_eq!(
        c.url("/chat/completions"),
        "https://api.openai.com/v1/chat/completions"
    );
    assert_eq!(c.api_base(), "https://api.openai.com/v1");
    assert_eq!(c.api_key(), "abc123");
    assert_eq!(c.authorization(), "Bearer abc123");
    assert_eq!(c.organization(), None);
    let c = OpenAIConfig {
        org_id: "org".to_string(),
        ..c
    };
    assert_eq!(c.organization(), Some("org"));
}

#[test]
fn roles_are_known_in_any_case() {
    assert_eq!(chat_role("user"), Some(ChatRole::User));
    assert_eq!(chat_role("USER"), Some(ChatRole::User));
    assert_eq!(chat_role("Assistant"), Some(ChatRole::Assistant));
    assert_eq!(chat_role("sYSTEM"), Some(ChatRole::System));
    assert_eq!(chat_role("bot"), None);
    assert_eq!(chat_role("users"), None);
    assert_eq!(chat_role(""), None);
    assert_eq!(chat_role("us\u{212a}r"), None);
}
