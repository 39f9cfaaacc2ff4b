use vhost_registry::config::{
    http_default_port, https_default_port, rewrite_default_code, validate, Config, ConfigBackend,
    ConfigHttpHttps, ConfigHttpPort, ConfigServer, ConfigServerTemplate,
};
use vhost_registry::render::{escape_nginx_string, group_servers, render_templates, WebTemplate};

#[test]
fn default_ports_and_code() {
    assert_eq!(http_default_port(), 80);
    assert_eq!(https_default_port(), 80);
    assert_eq!(rewrite_default_code(), 302);
}

#[test]
fn backend_from_str_is_file_root() {
    match ConfigBackend::from_str("/var/www") {
        ConfigBackend::File { path } => assert_eq!(path, "/var/www"),
        other => panic!("unexpected backend {:?}", other),
    }
}

#[test]
fn validate_accepts_any_model_value() {
    let cfg = Config { servers: vec![], templates: vec![] };
    assert!(validate(&cfg).is_ok());
}

#[test]
fn escape_plain_value_stays_bare() {
    assert_eq!(escape_nginx_string("127.0.0.1:8080"), "127.0.0.1:8080");
    assert_eq!(escape_nginx_string("/git"), "/git");
}

#[test]
fn escape_quotes_space_and_semicolon() {
    assert_eq!(escape_nginx_string("a b"), "\"a b\"");
    assert_eq!(escape_nginx_string("a;b"), "\"a;b\"");
}

#[test]
fn escape_named_and_hex_escapes() {
    assert_eq!(escape_nginx_string("a\tb"), "\"a\\tb\"");
    assert_eq!(escape_nginx_string("a\\b"), "\"a\\\\b\"");
    assert_eq!(escape_nginx_string("a\"b"), "\"a\\\"b\"");
    assert_eq!(escape_nginx_string("a\u{1b}b"), "\"a\\x1bb\"");
}

fn one_server(name: &str, host: &str, location: Option<&str>, backend: ConfigBackend) -> ConfigServer {
    ConfigServer {
        name: Some(name.to_owned()),
        template: "web".to_owned(),
        host: vec![host.to_owned()],
        location: location.map(|l| l.to_owned()),
        backend,
    }
}

#[test]
fn render_disabled_template_block() {
    let wt = WebTemplate {
        host: "example.com".to_owned(),
        servers: vec![one_server(
            "s1",
            "example.com",
            Some("/git"),
            ConfigBackend::Proxy { target: "127.0.0.1:8080".to_owned() },
        )],
        template: ConfigServerTemplate::Http {
            https: ConfigHttpHttps::Disabled,
            port: ConfigHttpPort { http: 80, https: 443 },
        },
    };
    let expected = "server {\n\
                    \x20 listen 80;\n\
                    \x20 server_name example.com;\n\
                    \x20 # found 1 backend(s) for host example.com\n\
                    \x20 # generated block for config s1\n\
                    \x20 location /git {\n\
                    \x20   proxy_pass 127.0.0.1:8080;\n\
                    \x20 }\n\
                    }\n";
    assert_eq!(wt.to_config_string(), expected);
}

#[test]
fn render_enforcing_template_emits_redirect_block() {
    let wt = WebTemplate {
        host: "h".to_owned(),
        servers: vec![one_server(
            "s",
            "h",
            None,
            ConfigBackend::Rewrite { target: "/new".to_owned(), code: 301 },
        )],
        template: ConfigServerTemplate::Http {
            https: ConfigHttpHttps::Enforcing,
            port: ConfigHttpPort { http: 80, https: 443 },
        },
    };
    let out = wt.to_config_string();
    assert!(out.contains("  listen 443 ssl http2;\n"));
    assert!(out.contains("  rewrite . https://$host$request_uri permanent;\n"));
    assert!(out.contains("  # default location\n  #{\n    rewrite /new 301;\n  #}\n"));
}

#[test]
fn render_hsts_header_options() {
    let wt = WebTemplate {
        host: "h".to_owned(),
        servers: vec![],
        template: ConfigServerTemplate::Http {
            https: ConfigHttpHttps::HSTS { duration: 600, include_sub_domains: true, preload: false },
            port: ConfigHttpPort { http: 80, https: 443 },
        },
    };
    let out = wt.to_config_string();
    assert!(out.contains(
        "  add_header Strict-Transport-Security \"max-age=600; includeSubDomains\"\n"
    ));
}

#[test]
fn group_servers_unknown_template_fails() {
    let cfg = Config {
        servers: vec![one_server("s", "h", None, ConfigBackend::File { path: "/w".to_owned() })],
        templates: vec![],
    };
    match group_servers(&cfg) {
        Err(e) => assert_eq!(e.describe(), "Unknown template web"),
        Ok(_) => panic!("unknown template accepted"),
    }
}

#[test]
fn group_servers_groups_by_host_in_first_appearance_order() {
    let tmpl = ConfigServerTemplate::Http {
        https: ConfigHttpHttps::Disabled,
        port: ConfigHttpPort { http: 80, https: 443 },
    };
    let cfg = Config {
        servers: vec![
            one_server("a", "x.example", None, ConfigBackend::File { path: "/a".to_owned() }),
            one_server("b", "y.example", None, ConfigBackend::File { path: "/b".to_owned() }),
            one_server(
                "c",
                "x.example",
                Some("/c"),
                ConfigBackend::File { path: "/c".to_owned() },
            ),
        ],
        templates: vec![("web".to_owned(), tmpl)],
    };
    let groups = group_servers(&cfg).unwrap();
    assert_eq!(groups.len(), 2);
    assert_eq!(groups[0].host, "x.example");
    assert_eq!(groups[1].host, "y.example");
    assert_eq!(groups[0].servers.len(), 2);
    assert_eq!(groups[1].servers.len(), 1);

    let outputs = render_templates(&groups);
    assert_eq!(outputs.len(), 2);
    assert!(outputs[0].contains("  server_name x.example;\n"));
    assert!(outputs[1].contains("  server_name y.example;\n"));
}

#[test]
fn duplicate_host_in_one_declaration_joins_its_group_once() {
    let tmpl = ConfigServerTemplate::Http {
        https: ConfigHttpHttps::Disabled,
        port: ConfigHttpPort { http: 80, https: 443 },
    };
    let cfg = Config {
        servers: vec![ConfigServer {
            name: Some("a".to_owned()),
            template: "web".to_owned(),
            host: vec!["x.example".to_owned(), "x.example".to_owned()],
            location: None,
            backend: ConfigBackend::File { path: "/a".to_owned() },
        }],
        templates: vec![("web".to_owned(), tmpl)],
    };
    let groups = group_servers(&cfg).unwrap();
    assert_eq!(groups.len(), 1);
    assert_eq!(groups[0].host, "x.example");
    assert_eq!(groups[0].servers.len(), 1);
}
