use std::sync::Arc;

use vhost_registry::registry::{
    BackendDescriptor, OverwritePolicy, Registry, RenderError, ServerInterface,
    ServerInterfaceAttribute, WebServerInstance,
};

#[derive(Debug)]
struct NullBackend {
    key: String,
}

impl BackendDescriptor for NullBackend {
    fn get_key(&self) -> String {
        self.key.clone()
    }

    fn to_backend_config(&self) -> Result<String, RenderError> {
        Ok(format!("return 200 \"Hello world\"; # {:?}", self))
    }
}

fn iface(port: u16, attr: ServerInterfaceAttribute) -> ServerInterface {
    ServerInterface { port, attr }
}

#[test]
fn registry_add_server_test_point_host_add_remove() {
    let mut reg: Registry<NullBackend> = std::default::Default::default();

    assert_eq!(reg.describe_web_servers(), "[]");

    reg.add_server(
        &WebServerInstance {
            host: vec!["host1".to_owned()],
            interface: vec![iface(80, ServerInterfaceAttribute::Http)],
            location: None,
            descriptor: Arc::new(NullBackend { key: "wakakaka".to_owned() }),
        },
        OverwritePolicy::Error,
    )
    .unwrap();

    assert_eq!(
        reg.describe_web_servers(),
        "[WebServer {host=[\"host1\"], interface=[Http:80]}]"
    );

    reg.clear();

    assert_eq!(reg.describe_web_servers(), "[]");
}

#[test]
fn registry_add_server_test_point_host_separation() {
    let mut reg: Registry<NullBackend> = std::default::Default::default();

    assert_eq!(reg.describe_web_servers(), "[]");

    reg.add_server(
        &WebServerInstance {
            host: vec!["host1".to_owned(), "host2".to_owned()],
            interface: vec![iface(80, ServerInterfaceAttribute::Http)],
            location: None,
            descriptor: Arc::new(NullBackend { key: "wakakaka".to_owned() }),
        },
        OverwritePolicy::Error,
    )
    .unwrap();

    assert_eq!(
        reg.describe_web_servers(),
        "[WebServer {host=[\"host1\", \"host2\"], interface=[Http:80]}]"
    );

    reg.add_server(
        &WebServerInstance {
            host: vec!["host1".to_owned()],
            interface: vec![iface(80, ServerInterfaceAttribute::Http)],
            location: Some("/test".to_owned()),
            descriptor: Arc::new(NullBackend { key: "wakakaka".to_owned() }),
        },
        OverwritePolicy::Error,
    )
    .unwrap();

    assert_eq!(
        reg.describe_web_servers(),
        "[WebServer {host=[\"host1\"], interface=[Http:80]}, WebServer {host=[\"host2\"], interface=[Http:80]}]"
    );

    reg.add_server(
        &WebServerInstance {
            host: vec!["host1".to_owned(), "host3".to_owned()],
            interface: vec![iface(80, ServerInterfaceAttribute::Http)],
            location: Some("/test2".to_owned()),
            descriptor: Arc::new(NullBackend { key: "wakakaka".to_owned() }),
        },
        OverwritePolicy::Error,
    )
    .unwrap();

    assert_eq!(
        reg.describe_web_servers(),
        "[WebServer {host=[\"host1\"], interface=[Http:80]}, WebServer {host=[\"host2\"], interface=[Http:80]}, WebServer {host=[\"host3\"], interface=[Http:80]}]"
    );
}

#[test]
fn registry_add_server_test_point_interface_separation() {
    let mut reg: Registry<NullBackend> = std::default::Default::default();

    assert_eq!(reg.describe_web_servers(), "[]");

    reg.add_server(
        &WebServerInstance {
            host: vec!["host1".to_owned()],
            interface: vec![
                iface(80, ServerInterfaceAttribute::Http),
                iface(81, ServerInterfaceAttribute::Http),
            ],
            location: None,
            descriptor: Arc::new(NullBackend { key: "wakakaka".to_owned() }),
        },
        OverwritePolicy::Error,
    )
    .unwrap();

    assert_eq!(
        reg.describe_web_servers(),
        "[WebServer {host=[\"host1\"], interface=[Http:80, Http:81]}]"
    );

    reg.add_server(
        &WebServerInstance {
            host: vec!["host1".to_owned()],
            interface: vec![iface(80, ServerInterfaceAttribute::Http)],
            location: Some("/test".to_owned()),
            descriptor: Arc::new(NullBackend { key: "wakakaka".to_owned() }),
        },
        OverwritePolicy::Error,
    )
    .unwrap();

    assert_eq!(
        reg.describe_web_servers(),
        "[WebServer {host=[\"host1\"], interface=[Http:80]}, WebServer {host=[\"host1\"], interface=[Http:81]}]"
    );

    reg.add_server(
        &WebServerInstance {
            host: vec!["host1".to_owned()],
            interface: vec![
                iface(80, ServerInterfaceAttribute::Http),
                iface(82, ServerInterfaceAttribute::Http),
            ],
            location: Some("/test2".to_owned()),
            descriptor: Arc::new(NullBackend { key: "wakakaka".to_owned() }),
        },
        OverwritePolicy::Error,
    )
    .unwrap();

    assert_eq!(
        reg.describe_web_servers(),
        "[WebServer {host=[\"host1\"], interface=[Http:80]}, WebServer {host=[\"host1\"], interface=[Http:81]}, WebServer {host=[\"host1\"], interface=[Http:82]}]"
    );
}

#[test]
fn registry_add_server_test_point_illegal_input() {
    let mut reg: Registry<NullBackend> = std::default::Default::default();

    assert_eq!(reg.describe_web_servers(), "[]");

    assert_eq!(
        match reg.add_server(
            &WebServerInstance {
                host: vec![],
                interface: vec![iface(80, ServerInterfaceAttribute::Http)],
                location: None,
                descriptor: Arc::new(NullBackend { key: "wakaka".to_owned() }),
            },
            OverwritePolicy::Error,
        ) {
            Err(e) => e.describe(),
            Ok(_) => panic!("Exception untriggered"),
        },
        "Custom { kind: InvalidData, error: \"host is empty list\" }"
    );

    assert_eq!(
        match reg.add_server(
            &WebServerInstance {
                host: vec!["aha".to_owned()],
                interface: vec![],
                location: None,
                descriptor: Arc::new(NullBackend { key: "wakaka".to_owned() }),
            },
            OverwritePolicy::Error,
        ) {
            Err(e) => e.describe(),
            Ok(_) => panic!("Exception untriggered"),
        },
        "Custom { kind: InvalidData, error: \"interface is empty list\" }"
    );
}

#[test]
fn registry_add_server_test_point_overwrite_policy() {
    let mut reg: Registry<NullBackend> = std::default::Default::default();

    assert_eq!(reg.describe_web_servers(), "[]");

    reg.add_server(
        &WebServerInstance {
            host: vec!["host1".to_owned(), "host2".to_owned()],
            interface: vec![
                iface(80, ServerInterfaceAttribute::Http),
                iface(8080, ServerInterfaceAttribute::Http),
            ],
            location: None,
            descriptor: Arc::new(NullBackend { key: "waka".to_owned() }),
        },
        OverwritePolicy::Error,
    )
    .unwrap();

    assert_eq!(
        reg.describe_web_servers(),
        "[WebServer {host=[\"host1\", \"host2\"], interface=[Http:80, Http:8080]}]"
    );

    assert_eq!(
        match reg.add_server(
            &WebServerInstance {
                host: vec!["host1".to_owned(), "host2".to_owned()],
                interface: vec![
                    iface(80, ServerInterfaceAttribute::Http),
                    iface(8080, ServerInterfaceAttribute::Http),
                ],
                location: None,
                descriptor: Arc::new(NullBackend { key: "wakaka".to_owned() }),
            },
            OverwritePolicy::Error,
        ) {
            Err(e) => e.describe(),
            Ok(_) => panic!("Exception untriggered"),
        },
        "Custom { kind: AlreadyExists, error: \"Cannot overwrite existed server\" }"
    );

    assert_eq!(
        match reg.add_server(
            &WebServerInstance {
                host: vec!["host1".to_owned()],
                interface: vec![
                    iface(80, ServerInterfaceAttribute::Http),
                    iface(8080, ServerInterfaceAttribute::Http),
                ],
                location: None,
                descriptor: Arc::new(NullBackend { key: "wakaka".to_owned() }),
            },
            OverwritePolicy::Error,
        ) {
            Err(e) => e.describe(),
            Ok(_) => panic!("Exception untriggered"),
        },
        "Custom { kind: AlreadyExists, error: \"Cannot overwrite existed server\" }"
    );

    assert_eq!(
        match reg.add_server(
            &WebServerInstance {
                host: vec!["host1".to_owned(), "host2".to_owned()],
                interface: vec![iface(80, ServerInterfaceAttribute::Http)],
                location: None,
                descriptor: Arc::new(NullBackend { key: "wakaka".to_owned() }),
            },
            OverwritePolicy::Error,
        ) {
            Err(e) => e.describe(),
            Ok(_) => panic!("Exception untriggered"),
        },
        "Custom { kind: AlreadyExists, error: \"Cannot overwrite existed server\" }"
    );

    assert_eq!(
        match reg.add_server(
            &WebServerInstance {
                host: vec!["host1".to_owned()],
                interface: vec![iface(80, ServerInterfaceAttribute::Http)],
                location: None,
                descriptor: Arc::new(NullBackend { key: "wakaka".to_owned() }),
            },
            OverwritePolicy::Error,
        ) {
            Err(e) => e.describe(),
            Ok(_) => panic!("Exception untriggered"),
        },
        "Custom { kind: AlreadyExists, error: \"Cannot overwrite existed server\" }"
    );

    reg.add_server(
        &WebServerInstance {
            host: vec!["host1".to_owned()],
            interface: vec![iface(80, ServerInterfaceAttribute::Http)],
            location: None,
            descriptor: Arc::new(NullBackend { key: "wakaka".to_owned() }),
        },
        OverwritePolicy::Ignore,
    )
    .unwrap();

    reg.add_server(
        &WebServerInstance {
            host: vec!["host1".to_owned()],
            interface: vec![iface(80, ServerInterfaceAttribute::Http)],
            location: None,
            descriptor: Arc::new(NullBackend { key: "wakaka".to_owned() }),
        },
        OverwritePolicy::Overwrite,
    )
    .unwrap();
}

#[test]
fn registry_add_server_test_point_complex_separation() {
    let mut reg: Registry<NullBackend> = std::default::Default::default();

    assert_eq!(reg.describe_web_servers(), "[]");

    reg.add_server(
        &WebServerInstance {
            host: vec!["host1".to_owned(), "host2".to_owned()],
            interface: vec![
                iface(80, ServerInterfaceAttribute::Http),
                iface(8080, ServerInterfaceAttribute::Http),
            ],
            location: None,
            descriptor: Arc::new(NullBackend { key: "waka".to_owned() }),
        },
        OverwritePolicy::Error,
    )
    .unwrap();

    reg.add_server(
        &WebServerInstance {
            host: vec!["host1".to_owned(), "host3".to_owned()],
            interface: vec![
                iface(80, ServerInterfaceAttribute::Http),
                iface(443, ServerInterfaceAttribute::Https),
            ],
            location: Some("/test".to_owned()),
            descriptor: Arc::new(NullBackend { key: "wakakaka".to_owned() }),
        },
        OverwritePolicy::Error,
    )
    .unwrap();

    assert_eq!(
        reg.describe_web_servers(),
        "[WebServer {host=[\"host1\"], interface=[Http:80]}, WebServer {host=[\"host2\"], interface=[Http:80, Http:8080]}, WebServer {host=[\"host1\"], interface=[Http:8080]}, WebServer {host=[\"host3\"], interface=[Http:80, Https:443]}, WebServer {host=[\"host1\"], interface=[Https:443]}]"
    );
}

// The union of hosts and of interfaces over all groups grows by exactly the
// request's hosts and interfaces on every successful registration.
#[test]
fn union_preservation_on_add() {
    let mut reg: Registry<NullBackend> = std::default::Default::default();

    reg.add_server(
        &WebServerInstance {
            host: vec!["a".to_owned(), "b".to_owned()],
            interface: vec![iface(80, ServerInterfaceAttribute::Http)],
            location: None,
            descriptor: Arc::new(NullBackend { key: "k1".to_owned() }),
        },
        OverwritePolicy::Error,
    )
    .unwrap();

    reg.add_server(
        &WebServerInstance {
            host: vec!["b".to_owned(), "c".to_owned()],
            interface: vec![iface(443, ServerInterfaceAttribute::Https)],
            location: Some("/x".to_owned()),
            descriptor: Arc::new(NullBackend { key: "k2".to_owned() }),
        },
        OverwritePolicy::Error,
    )
    .unwrap();

    let mut hosts: Vec<String> = Vec::new();
    let mut ports: Vec<u16> = Vec::new();
    for g in reg.get_web_servers() {
        for h in &g.host {
            if !hosts.contains(h) {
                hosts.push(h.clone());
            }
        }
        for i in &g.interface {
            if !ports.contains(&i.port) {
                ports.push(i.port);
            }
        }
    }
    hosts.sort();
    ports.sort();
    assert_eq!(hosts, vec!["a".to_owned(), "b".to_owned(), "c".to_owned()]);
    assert_eq!(ports, vec![80, 443]);
}

// An empty registry accepts any registration as exactly one fresh group.
#[test]
fn first_registration_creates_one_group() {
    let mut reg: Registry<NullBackend> = std::default::Default::default();
    reg.add_server(
        &WebServerInstance {
            host: vec!["only.example".to_owned()],
            interface: vec![iface(8443, ServerInterfaceAttribute::Https)],
            location: Some("/p".to_owned()),
            descriptor: Arc::new(NullBackend { key: "k".to_owned() }),
        },
        OverwritePolicy::Error,
    )
    .unwrap();
    let groups = reg.get_web_servers();
    assert_eq!(groups.len(), 1);
    assert_eq!(groups[0].host, vec!["only.example".to_owned()]);
    assert_eq!(groups[0].interface.len(), 1);
    assert_eq!(groups[0].subservers.len(), 1);
    assert_eq!(groups[0].subservers[0].0, "/p");
    assert!(groups[0].server.is_none());
}

// clear() empties the registry whatever was in it.
#[test]
fn clear_after_many_registrations() {
    let mut reg: Registry<NullBackend> = std::default::Default::default();
    for port in [80u16, 81, 82] {
        reg.add_server(
            &WebServerInstance {
                host: vec![format!("h{}", port)],
                interface: vec![iface(port, ServerInterfaceAttribute::Http)],
                location: None,
                descriptor: Arc::new(NullBackend { key: "k".to_owned() }),
            },
            OverwritePolicy::Error,
        )
        .unwrap();
    }
    assert_eq!(reg.get_web_servers().len(), 3);
    reg.clear();
    assert_eq!(reg.describe_web_servers(), "[]");
    assert_eq!(reg.get_web_servers().len(), 0);
}

// Ignore keeps the old backend; Overwrite replaces it.
#[test]
fn ignore_keeps_and_overwrite_replaces() {
    let mut reg: Registry<NullBackend> = std::default::Default::default();
    let mk = |key: &str| WebServerInstance {
        host: vec!["h".to_owned()],
        interface: vec![iface(80, ServerInterfaceAttribute::Http)],
        location: None,
        descriptor: Arc::new(NullBackend { key: key.to_owned() }),
    };
    reg.add_server(&mk("first"), OverwritePolicy::Error).unwrap();
    reg.add_server(&mk("second"), OverwritePolicy::Ignore).unwrap();
    assert_eq!(
        reg.get_web_servers()[0].server.as_ref().unwrap().get_key(),
        "first"
    );
    reg.add_server(&mk("third"), OverwritePolicy::Overwrite).unwrap();
    assert_eq!(
        reg.get_web_servers()[0].server.as_ref().unwrap().get_key(),
        "third"
    );
    assert_eq!(reg.get_web_servers().len(), 1);
}
