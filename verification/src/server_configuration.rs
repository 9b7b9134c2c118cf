//! The configuration of a service that only serves HTTP: the `http_server`
//! section of the settings tree, read as `configuration` reads it.
use crate::configuration::{
    field_node, field_of, fields_problem, find_fields_problem, http_server_holds,
    http_server_problem, read_http_server, root_table, section_state, ConfigError, FieldState,
    HttpServer, Setting,
};
use crate::settings::{build_settings_tree, first_invalid_override, settings_fit, settings_tree, BuildFailure};
use crate::tree::{node_view, table_entries, Node, SettingNode};
use vstd::prelude::*;

verus! {

/// The configuration of the HTTP server alone.
pub struct Configuration {
    pub http_server: HttpServer,
}

/// How the one section reads.
pub open spec fn server_states(root: Node) -> Seq<FieldState> {
    let t = root_table(root);
    seq![
        section_state(
            field_node(t, "http_server"@, 0),
            http_server_problem(field_node(t, "http_server"@, 0)->0),
        ),
    ]
}

/// What is wrong with the configuration a settings tree holds, if anything.
pub open spec fn server_problem(root: Node) -> Option<ConfigError> {
    fields_problem(true, server_states(root), seq![true], seq![Setting::HttpServer])
}

/// The error loading reports, if any: the first override whose key is not a
/// path, else what is wrong with the configuration the settings tree holds.
pub open spec fn server_load_error(
    environment: Seq<(String, String)>,
    overrides: Seq<(&str, &str)>,
) -> Option<ConfigError> {
    match first_invalid_override(overrides) {
        Some(i) => Some(ConfigError::InvalidOverrideKey(i as usize)),
        None => server_problem(settings_tree(environment, overrides)),
    }
}

fn read_server(root: &SettingNode) -> (r: Result<Configuration, ConfigError>)
    ensures
        r is Err == server_problem(node_view(*root)) is Some,
        r matches Err(e) ==> server_problem(node_view(*root)) == Some(e),
        r matches Ok(c) ==> http_server_holds(
            c.http_server,
            field_node(root_table(node_view(*root)), "http_server"@, 0)->0,
        ),
{
    let empty = SettingNode::Table(Vec::new());
    let table = match root {
        SettingNode::Table(_) => root,
        _ => &empty,
    };
    proof {
        match root {
            SettingNode::Table(_) => {},
            _ => {
                assert(table_entries(node_view(*root)) =~= Map::<Seq<char>, Node>::empty());
                assert(table_entries(node_view(empty)) =~= Map::<Seq<char>, Node>::empty());
            },
        }
    }
    assert(node_view(*table) == root_table(node_view(*root)));
    let (state, http_server) = match field_of(table, "http_server", 0) {
        None => (FieldState::Absent, None),
        Some(n) => match read_http_server(n) {
            Ok(h) => (FieldState::Good, Some(h)),
            Err(e) => (FieldState::Bad(e), None),
        },
    };
    let states = vec![state];
    let required = vec![true];
    let settings = vec![Setting::HttpServer];
    assert(states@ =~= server_states(node_view(*root)));
    assert(required@ =~= seq![true]);
    assert(settings@ =~= seq![Setting::HttpServer]);
    match find_fields_problem(true, &states, &required, &settings) {
        Some(e) => Err(e),
        None => {
            assert(states@[0] == FieldState::Good);
            match http_server {
                Some(http_server) => Ok(Configuration { http_server }),
                None => Err(ConfigError::Missing(Setting::HttpServer)),
            }
        },
    }
}

impl Configuration {
    /// Loads the HTTP server's configuration from the variables of the
    /// process environment and then the overrides, as `configuration` loads
    /// the whole service's.
    pub fn load(environment: &[(String, String)], overrides: &[(&str, &str)]) -> (r: Result<
        Configuration,
        ConfigError,
    >)
        requires
            settings_fit(environment@, overrides@),
        ensures
            r is Err == server_load_error(environment@, overrides@) is Some,
            r matches Err(e) ==> server_load_error(environment@, overrides@) == Some(e),
            r matches Ok(c) ==> http_server_holds(
                c.http_server,
                field_node(
                    root_table(settings_tree(environment@, overrides@)),
                    "http_server"@,
                    0,
                )->0,
            ),
    {
        match build_settings_tree(environment, overrides) {
            Err(BuildFailure::InvalidOverrideKey(i)) => Err(ConfigError::InvalidOverrideKey(i)),
            Err(BuildFailure::DoesNotFit) => {
                proof {
                    assert(false);
                }
                Err(ConfigError::Missing(Setting::HttpServer))
            },
            Ok(tree) => read_server(&tree),
        }
    }
}

} // verus!
