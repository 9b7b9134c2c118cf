use rust_graphql_kata_001_web::settings::{
    chars_of, env_key_of, parse_key_path, read_bool, read_integer,
};
use rust_graphql_kata_001_web::tree::PathSegment;

fn key_path(text: &str) -> bool {
    parse_key_path(&chars_of(text)).is_some()
}

fn steps(text: &str) -> Vec<String> {
    parse_key_path(&chars_of(text))
        .unwrap()
        .into_iter()
        .map(|step| match step {
            PathSegment::Name(name) => format!("name {}", name.into_iter().collect::<String>()),
            PathSegment::Index(index) => format!("index {}", index),
        })
        .collect()
}

#[test]
fn key_paths_read_as_steps() {
    assert_eq!(steps("http_server.host"), vec!["name http_server", "name host"]);
    assert_eq!(steps("a b[ -12 ].c-d"), vec!["name a b", "index -12", "name c-d"]);
    assert_eq!(steps("x[\t3\t][0]"), vec!["name x", "index 3", "index 0"]);
}

#[test]
fn the_kelvin_sign_folds_to_k() {
    let key = env_key_of("APP__\u{212A}EY").map(|k| k.into_iter().collect::<String>());
    assert_eq!(key, Some("key".to_string()));
}

#[test]
fn key_paths_follow_the_config_grammar() {
    for good in ["a", "http_server.host", "a b.c-d", "a[0]", "a[ -12 ].b", "a[1][2]", "x[\t3\t]"] {
        assert!(key_path(good), "{:?}", good);
    }
    for bad in ["", ".a", "a.", "a..b", "a[", "a[]", "a[-]", "a[1]b", "a$", "a[99999999999999999999]", "[0]"] {
        assert!(!key_path(bad), "{:?}", bad);
    }
    assert!(key_path("a[-9223372036854775808]"));
    assert!(!key_path("a[9223372036854775808]"));
}

#[test]
fn environment_names_map_to_keys() {
    let key = |name: &str| env_key_of(name).map(|k| k.into_iter().collect::<String>());
    assert_eq!(key("APP__HTTP_SERVER__HOST"), Some("http_server.host".to_string()));
    assert_eq!(key("aPp__A___B"), Some("a._b".to_string()));
    assert_eq!(key("APP__"), Some(String::new()));
    assert_eq!(key("APP_X"), None);
    assert_eq!(key("PATH"), None);
}

#[test]
fn values_read_as_integers_and_booleans() {
    assert_eq!(read_integer("TRUE"), Some(1));
    assert_eq!(read_integer("no"), Some(0));
    assert_eq!(read_integer("-42"), Some(-42));
    assert_eq!(read_integer("4.2"), None);
    assert_eq!(read_bool("YES"), Some(true));
    assert_eq!(read_bool("false"), Some(false));
    assert_eq!(read_bool("2"), None);
}
